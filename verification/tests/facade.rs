use oldworld_launcher::config::axr_options::AxrOptions;
use oldworld_launcher::config::defaults_reader::DefaultsReader;
use oldworld_launcher::config::launcher_config::{
    default_language, default_shadow_map_size, LauncherConfig,
};
use oldworld_launcher::config::ltx_parser::LtxFile;
use oldworld_launcher::config::user_ltx::UserLtx;
use oldworld_launcher::game::launcher::{
    custom_command, exe_name, launch_args, launch_plan, split_words, LaunchPlan,
};
use oldworld_launcher::game::paths::{resolve_game_root, GameRoot, RootError, RootProbe};
use oldworld_launcher::options::{apply_changes, OptionChange, OptionStorage};

#[test]
fn options_live_in_their_section_only() {
    let ltx = LtxFile::parse_content("[other]\nx = 1\n[options]\nvideo/fov = 75\nempty =\n").unwrap();
    let mut o = AxrOptions::new(ltx);
    assert_eq!(o.get("video/fov"), Some("75".to_string()));
    assert_eq!(o.get("x"), None);
    assert_eq!(o.get("empty"), None);
    let all = o.get_all_options();
    assert_eq!(all.len(), 1);
    assert_eq!(all.get("video/fov"), Some(&"75".to_string()));
    o.set("video/fov", "80");
    o.set("sound/volume", "1");
    assert!(o.remove("empty"));
    assert!(!o.remove("x"));
    assert_eq!(
        o.document().to_string_formatted(),
        "[other]\n        x = 1\n\n[options]\n        video/fov    = 80\n        sound/volume = 1\n"
    );
    let fresh = AxrOptions::new(LtxFile::new());
    assert_eq!(fresh.get_all_options().len(), 0);
    assert_eq!(fresh.get("a"), None);
}

#[test]
fn defaults_are_flattened_without_valueless_keys() {
    let ltx = LtxFile::parse_content("[a]\nx = 1\ny =\n[b]\nz =\n[c]\n[d]\nw = 2\nv = 3\n").unwrap();
    let r = DefaultsReader::new(ltx);
    assert_eq!(r.get_default("a", "x"), Some("1".to_string()));
    assert_eq!(r.get_default("a", "y"), None);
    assert_eq!(r.sections(), vec!["a", "b", "c", "d"]);
    let a = r.get_section_defaults("a").unwrap();
    assert_eq!(a.len(), 1);
    assert_eq!(a.get("x"), Some(&"1".to_string()));
    assert_eq!(r.get_section_defaults("b").unwrap().len(), 0);
    assert!(r.get_section_defaults("nope").is_none());
    let all = r.get_all_defaults();
    assert_eq!(all.len(), 2);
    assert!(all.contains_key("a"));
    assert!(!all.contains_key("b"));
    assert!(!all.contains_key("c"));
    assert_eq!(all.get("d").unwrap().get("v"), Some(&"3".to_string()));
    assert_eq!(all.get("d").unwrap().len(), 2);
}

#[test]
fn launcher_config_defaults() {
    let c = LauncherConfig::default();
    assert!(!c.use_avx);
    assert!(!c.debug_mode);
    assert_eq!(c.shadow_map_size, 2048);
    assert_eq!(c.custom_args, "");
    assert_eq!(c.game_root, None);
    assert_eq!(c.language, "en");
    assert_eq!(c.linux_custom_command, None);
    assert_eq!(default_shadow_map_size(), 2048);
    assert_eq!(default_language(), "en");
}

#[test]
fn launch_arguments_follow_the_settings() {
    let mut c = LauncherConfig::default();
    assert_eq!(exe_name(&c), "OldWorldDX11.exe");
    assert_eq!(launch_args(&c).len(), 0);
    c.use_avx = true;
    c.debug_mode = true;
    c.shadow_map_size = 4096;
    c.custom_args = "  -nointro \t -fsltx  a\u{a0}b ".to_string();
    assert_eq!(exe_name(&c), "OldWorldDX11AVX.exe");
    assert_eq!(launch_args(&c), vec!["-smap4096", "-dbg", "-nointro", "-fsltx", "a", "b"]);
    c.shadow_map_size = 0;
    c.debug_mode = false;
    c.custom_args = " \n ".to_string();
    assert_eq!(launch_args(&c), vec!["-smap0"]);
    c.shadow_map_size = 4294967295;
    assert_eq!(launch_args(&c), vec!["-smap4294967295"]);
    assert_eq!(split_words("a"), vec!["a"]);
    assert_eq!(split_words("").len(), 0);
}

#[test]
fn custom_command_fills_in_the_placeholders() {
    let mut c = LauncherConfig::default();
    let args = vec!["-dbg".to_string(), "-x".to_string()];
    assert_eq!(custom_command(&c, "/g/bin/game.exe", &args), None);
    c.linux_custom_command = Some("   ".to_string());
    assert_eq!(custom_command(&c, "/g/bin/game.exe", &args), None);
    c.linux_custom_command = Some("wine {exe} {args} # {exe}{args}{ex".to_string());
    assert_eq!(
        custom_command(&c, "/g/bin/game.exe", &args),
        Some("wine /g/bin/game.exe -dbg -x # /g/bin/game.exe-dbg -x{ex".to_string())
    );
    c.linux_custom_command = Some("run {exe}".to_string());
    assert_eq!(custom_command(&c, "{args}", &args), Some("run -dbg -x".to_string()));
    assert_eq!(custom_command(&c, "e", &Vec::new()), Some("run e".to_string()));
}

#[test]
fn game_root_is_picked_in_order() {
    let none = RootProbe {
        env_set: false,
        env_is_dir: false,
        config_set: false,
        config_valid: false,
        launcher_has_gamedata: false,
        parent_has_gamedata: false,
    };
    assert_eq!(resolve_game_root(&none), Err(RootError::NotFound));
    let all = RootProbe {
        env_set: true,
        env_is_dir: true,
        config_set: true,
        config_valid: true,
        launcher_has_gamedata: true,
        parent_has_gamedata: true,
    };
    assert_eq!(resolve_game_root(&all), Ok(GameRoot::Environment));
    assert_eq!(
        resolve_game_root(&RootProbe { env_is_dir: false, ..all }),
        Err(RootError::EnvironmentNotADirectory)
    );
    assert_eq!(resolve_game_root(&RootProbe { env_set: false, ..all }), Ok(GameRoot::Config));
    assert_eq!(
        resolve_game_root(&RootProbe { env_set: false, config_valid: false, ..all }),
        Ok(GameRoot::LauncherDir)
    );
    assert_eq!(
        resolve_game_root(&RootProbe { config_set: true, parent_has_gamedata: true, ..none }),
        Ok(GameRoot::LauncherParent)
    );
}

#[test]
fn changes_go_to_the_file_that_stores_the_option() {
    let mut axr = AxrOptions::new(LtxFile::new());
    let mut user = UserLtx::parse("snd 1\n");
    let changes = vec![
        OptionChange {
            path: "video/fov".to_string(),
            value: "75".to_string(),
            storage: OptionStorage::AxrOptions,
        },
        OptionChange {
            path: "sound/volume".to_string(),
            value: "0.5".to_string(),
            storage: OptionStorage::UserLtx { cmd: "snd".to_string() },
        },
    ];
    let dirty = apply_changes(&mut axr, &mut user, &changes);
    assert!(dirty.axr);
    assert!(dirty.user);
    assert_eq!(axr.get("video/fov"), Some("75".to_string()));
    assert_eq!(axr.get("sound/volume"), None);
    assert_eq!(user.to_string_formatted(), "snd 0.5\n");
    let only_axr = vec![OptionChange {
        path: "a".to_string(),
        value: "b".to_string(),
        storage: OptionStorage::AxrOptions,
    }];
    let dirty = apply_changes(&mut axr, &mut user, &only_axr);
    assert!(dirty.axr);
    assert!(!dirty.user);
    let dirty = apply_changes(&mut axr, &mut user, &Vec::new());
    assert!(!dirty.axr);
    assert!(!dirty.user);
}

#[test]
fn launch_plan_takes_the_shell_only_on_linux_with_a_command() {
    let mut c = LauncherConfig::default();
    c.debug_mode = true;
    assert!(matches!(launch_plan(&c, "g.exe", true), LaunchPlan::Direct(a) if a == vec!["-dbg"]));
    c.linux_custom_command = Some("wine {exe} {args}".to_string());
    assert!(matches!(launch_plan(&c, "g.exe", false), LaunchPlan::Direct(a) if a == vec!["-dbg"]));
    assert!(matches!(launch_plan(&c, "g.exe", true), LaunchPlan::Shell(s) if s == "wine g.exe -dbg"));
    c.linux_custom_command = Some(" \t".to_string());
    assert!(matches!(launch_plan(&c, "g.exe", true), LaunchPlan::Direct(_)));
}
