use oldworld_launcher::config::user_ltx::{UserLtx, UserLtxEntry};

#[test]
fn flat_round_trip_of_the_example() {
    let text = "; a leading comment\nsnd_volume_music 0.75\nr__dx level_of_detail\n\ncl_fov\n";
    let u = UserLtx::parse(text);
    assert_eq!(u.to_string_formatted(), text);
    assert_eq!(u.get("snd_volume_music"), Some("0.75"));
    assert_eq!(u.get("r__dx"), Some("level_of_detail"));
    assert_eq!(u.get("cl_fov"), Some(""));
    assert_eq!(u.get("missing"), None);
    assert!(u.has("cl_fov"));
    assert!(!u.has("; a leading comment"));
    assert_eq!(u.line_count(), 5);
}

#[test]
fn comments_are_kept_as_they_stand() {
    let text = "   ; indented  \n// slashes\t\n  //x\n;\n";
    let u = UserLtx::parse(text);
    assert_eq!(u.to_string_formatted(), text);
    assert!(matches!(u.entry(0), Some(UserLtxEntry::Comment(t)) if t == "   ; indented  "));
    assert_eq!(u.get_all().len(), 0);
}

#[test]
fn lines_that_are_not_canonical_are_normalised() {
    let u = UserLtx::parse("  a \t 1  \n   \nb\t2\r\nc   x y  z\nd");
    assert_eq!(u.to_string_formatted(), "a 1\n\nb 2\nc x y  z\nd\n");
    assert_eq!(u.get("c"), Some("x y  z"));
    assert_eq!(u.get("d"), Some(""));
    assert!(matches!(u.entry(1), Some(UserLtxEntry::Empty)));
    assert_eq!(UserLtx::parse("").to_string_formatted(), "");
    assert_eq!(UserLtx::new().line_count(), 0);
}

#[test]
fn flag_is_written_as_its_bare_name() {
    let mut u = UserLtx::new();
    u.set("cl_fov", "");
    u.set("hud_draw", "on");
    assert_eq!(u.to_string_formatted(), "cl_fov\nhud_draw on\n");
    u.set("hud_draw", "");
    assert_eq!(u.to_string_formatted(), "cl_fov\nhud_draw\n");
}

#[test]
fn set_keeps_line_and_remove_leaves_blank() {
    let mut u = UserLtx::parse("a 1\nb 2\nc 3\n");
    u.set("b", "20");
    assert_eq!(u.to_string_formatted(), "a 1\nb 20\nc 3\n");
    assert!(matches!(u.entry(1), Some(UserLtxEntry::Command { name, value }) if name == "b" && value == "20"));
    assert!(u.remove("b"));
    assert!(!u.has("b"));
    assert_eq!(u.get("b"), None);
    assert_eq!(u.to_string_formatted(), "a 1\n\nc 3\n");
    assert_eq!(u.line_count(), 3);
    assert!(u.entry(3).is_none());
    assert!(matches!(u.entry(1), Some(UserLtxEntry::Empty)));
    assert!(matches!(u.entry(2), Some(UserLtxEntry::Command { name, .. }) if name == "c"));
    assert!(!u.remove("b"));
    u.set("d", "4");
    u.set("b", "5");
    assert_eq!(u.to_string_formatted(), "a 1\n\nc 3\nd 4\nb 5\n");
    let all = u.get_all();
    assert_eq!(all.len(), 4);
    assert_eq!(all.get("d"), Some(&"4".to_string()));
    assert_eq!(all.get("b"), Some(&"5".to_string()));
}

#[test]
fn of_two_lines_with_one_name_the_last_is_active() {
    let mut u = UserLtx::parse("vol 1\nother x\nvol 2\n");
    assert_eq!(u.get("vol"), Some("2"));
    u.set("vol", "3");
    assert_eq!(u.to_string_formatted(), "vol 1\nother x\nvol 3\n");
    assert!(u.remove("vol"));
    assert!(!u.has("vol"));
    assert_eq!(u.get("vol"), None);
    assert_eq!(u.to_string_formatted(), "vol 1\nother x\n\n");
    let all = u.get_all();
    assert_eq!(all.get("vol"), Some(&"1".to_string()));
    assert_eq!(all.len(), 2);
    u.set("vol", "4");
    assert_eq!(u.to_string_formatted(), "vol 1\nother x\n\nvol 4\n");
    assert_eq!(u.get_all().get("vol"), Some(&"4".to_string()));
}
