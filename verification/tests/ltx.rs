use oldworld_launcher::config::ltx_loader::{merge_documents, Included, LoadStep, LtxLoader};
use oldworld_launcher::config::ltx_parser::{parse_bool_word, LtxError, LtxFile};

fn load_with(text: &str, included: Vec<Vec<&str>>) -> Result<LtxFile, LtxError> {
    let mut loader = LtxLoader::new(text);
    let mut next = 0;
    loop {
        match loader.step() {
            LoadStep::Done => return Ok(loader.finish()),
            LoadStep::Failed(e) => return Err(e),
            LoadStep::Include { pattern, wildcard: _ } => {
                let mut docs = Vec::new();
                for t in &included[next] {
                    docs.push(load_with(t, Vec::new())?);
                }
                next += 1;
                loader.resolve(&pattern, Included::Documents(docs))?;
            }
        }
    }
}

fn load(text: &str) -> LtxFile {
    load_with(text, Vec::new()).unwrap()
}

fn keys_of(d: &LtxFile, section: &str) -> Vec<String> {
    d.section_entries(section).unwrap().keys().cloned().collect()
}

#[test]
fn parses_sections_and_keys() {
    let d = load("root = 1\n[a]\nx = 1\ny =\n; note\n\n[b]\nz = \"q; r\" ; tail\n");
    assert_eq!(d.sections(), vec!["a", "b"]);
    assert_eq!(d.get("a", "x"), Some("1"));
    assert_eq!(d.get("a", "y"), None);
    assert!(d.has_key("a", "y"));
    assert!(!d.has_key("a", "nope"));
    assert!(!d.has_key("nope", "x"));
    assert_eq!(d.get("b", "z"), Some("\"q; r\""));
    assert!(d.has_section("b"));
    assert!(!d.has_section("c"));
    assert_eq!(d.root_entries().get("root"), Some(&Some("1".to_string())));
    assert_eq!(d.root_entries().len(), 1);
    assert_eq!(d.all_entries().len(), 2);
}

#[test]
fn include_merge_overwrites_in_place_and_appends() {
    let d = load_with("[s]\na=1\n#include \"more.ltx\"\n", vec![vec!["[s]\na=2\nb=3\n"]]).unwrap();
    assert_eq!(d.get("s", "a"), Some("2"));
    assert_eq!(d.get("s", "b"), Some("3"));
    assert_eq!(keys_of(&d, "s"), vec!["a", "b"]);
}

#[test]
fn include_is_reported_with_pattern_and_wildcard_flag() {
    let mut loader = LtxLoader::new("[s]\n#include \"defaults_*.ltx\"\nk = v\n#include \"one.ltx\"\n");
    match loader.step() {
        LoadStep::Include { pattern, wildcard } => {
            assert_eq!(pattern, "defaults_*.ltx");
            assert!(wildcard);
        }
        _ => panic!("expected an include"),
    }
    assert_eq!(loader.resolve("defaults_*.ltx", Included::Documents(Vec::new())), Ok(()));
    match loader.step() {
        LoadStep::Include { pattern, wildcard } => {
            assert_eq!(pattern, "one.ltx");
            assert!(!wildcard);
        }
        _ => panic!("expected an include"),
    }
    assert_eq!(loader.resolve("one.ltx", Included::Documents(vec![load("[s]\nk = w\n")])), Ok(()));
    assert!(matches!(loader.step(), LoadStep::Done));
    let d = loader.finish();
    assert_eq!(d.get("s", "k"), Some("w"));
}

#[test]
fn question_mark_is_a_wildcard() {
    let mut loader = LtxLoader::new("#include \"file_?.ltx\"");
    match loader.step() {
        LoadStep::Include { pattern, wildcard } => {
            assert_eq!(pattern, "file_?.ltx");
            assert!(wildcard);
        }
        _ => panic!("expected an include"),
    }
}

#[test]
fn wildcard_include_without_matches_changes_nothing() {
    let with = load_with("[s]\na = 1\n#include \"none_*.ltx\"\nb = 2\n", vec![vec![]]).unwrap();
    let without = load("[s]\na = 1\nb = 2\n");
    assert_eq!(with.to_string_formatted(), without.to_string_formatted());
    assert_eq!(with.sections(), vec!["s"]);
}

#[test]
fn missing_literal_include_is_an_io_error() {
    let mut loader = LtxLoader::new("[s]\na = 1\n#include \"gone.ltx\"\n");
    assert!(matches!(loader.step(), LoadStep::Include { .. }));
    let r = loader.resolve("gone.ltx", Included::Missing("\"/game/gone.ltx\"".to_string()));
    assert_eq!(
        r,
        Err(LtxError::Io("Included file not found: \"/game/gone.ltx\"".to_string()))
    );
    assert_eq!(
        r.unwrap_err().to_text(),
        "IO error: Included file not found: \"/game/gone.ltx\""
    );
}

#[test]
fn refused_glob_pattern_is_a_parse_error() {
    let mut loader = LtxLoader::new("#include \"a[*.ltx\"\n");
    assert!(matches!(loader.step(), LoadStep::Include { .. }));
    let r = loader.resolve("a[*.ltx", Included::BadPattern("invalid range pattern".to_string()));
    assert_eq!(
        r,
        Err(LtxError::Parse("Invalid glob pattern 'a[*.ltx': invalid range pattern".to_string()))
    );
}

#[test]
fn failed_nested_load_is_passed_on() {
    let mut loader = LtxLoader::new("#include \"a.ltx\"\n");
    assert!(matches!(loader.step(), LoadStep::Include { .. }));
    let e = LtxError::Io("Failed to read \"a.ltx\": denied".to_string());
    assert_eq!(loader.resolve("a.ltx", Included::Failed(e.clone())), Err(e));
}

#[test]
fn malformed_include_is_a_parse_error_with_the_line() {
    let mut loader = LtxLoader::new("[s]\na = 1\n  #include file.ltx  \nb = 2\n");
    match loader.step() {
        LoadStep::Failed(e) => {
            assert_eq!(e, LtxError::Parse("Invalid #include directive: #include file.ltx".to_string()));
            assert_eq!(e.to_text(), "Parse error: Invalid #include directive: #include file.ltx");
        }
        _ => panic!("expected a failure"),
    }
    assert!(matches!(loader.step(), LoadStep::Failed(_)));
    assert_eq!(loader.finish().get("s", "a"), Some("1"));
    assert!(matches!(LtxLoader::new("#include \"").step(), LoadStep::Failed(_)));
    assert!(matches!(LtxLoader::new("#include").step(), LoadStep::Failed(_)));
    assert!(matches!(LtxLoader::new("#include \"x").step(), LoadStep::Failed(_)));
}

#[test]
fn include_argument_is_what_stands_between_the_outer_quotes() {
    match LtxLoader::new("#include#include   \"a\" \"b\"  ").step() {
        LoadStep::Include { pattern, wildcard } => {
            assert_eq!(pattern, "a\" \"b");
            assert!(!wildcard);
        }
        _ => panic!("expected an include"),
    }
    match LtxLoader::new("#include \"\"").step() {
        LoadStep::Include { pattern, .. } => assert_eq!(pattern, ""),
        _ => panic!("expected an include"),
    }
}

#[test]
fn several_matches_are_merged_in_order() {
    let docs = vec![load("[s]\na = 1\nb = 1\n"), load("[t]\nx = 1\n[s]\nb = 2\nc = 2\n")];
    let merged = merge_documents(&docs);
    assert_eq!(merged.sections(), vec!["s", "t"]);
    assert_eq!(keys_of(&merged, "s"), vec!["a", "b", "c"]);
    assert_eq!(merged.get("s", "b"), Some("2"));
    let d = load_with(
        "root = 0\n[t]\nx = 0\n#include \"m_*.ltx\"\ny = 9\n",
        vec![vec!["top = 1\n[s]\na = 1\n", "root = 2\n[t]\nx = 1\nz = 1\n"]],
    )
    .unwrap();
    assert_eq!(d.sections(), vec!["t", "s"]);
    assert_eq!(keys_of(&d, "t"), vec!["x", "z", "y"]);
    assert_eq!(d.get("t", "x"), Some("1"));
    let root: Vec<String> = d.root_entries().keys().cloned().collect();
    assert_eq!(root, vec!["root", "top"]);
    assert_eq!(d.root_entries().get("root"), Some(&Some("2".to_string())));
}

#[test]
fn included_empty_section_is_registered() {
    let d = load_with("#include \"e.ltx\"\n", vec![vec!["[empty]\n"]]).unwrap();
    assert!(d.has_section("empty"));
    assert_eq!(keys_of(&d, "empty").len(), 0);
}

#[test]
fn trailing_comment_leaves_no_value() {
    let d = load("[s]\nkey = ; trailing comment\n");
    assert!(d.has_key("s", "key"));
    assert_eq!(d.get("s", "key"), None);
    assert!(!d.has_key("s", "other"));
    assert_eq!(d.get("s", "other"), None);
}

#[test]
fn semicolon_inside_quotes_is_kept() {
    let d = load("[s]\nkey = \"a; b\"\nk2 = \"a\" ; c \"d;\"\nk3 = x \"y ; z\nk4 = a ;b;c\n");
    assert_eq!(d.get("s", "key"), Some("\"a; b\""));
    assert_eq!(d.get("s", "k2"), Some("\"a\""));
    assert_eq!(d.get("s", "k3"), Some("x \"y ; z"));
    assert_eq!(d.get("s", "k4"), Some("a"));
}

#[test]
fn lines_that_mean_nothing_are_skipped() {
    let d = load("\n   \n; [s]\n;k = v\njust text\n[s]\n  k  =  v  \n\u{3000}[ t ]\u{a0}\n");
    assert_eq!(d.sections(), vec!["s", "t"]);
    assert_eq!(d.get("s", "k"), Some("v"));
    assert_eq!(d.root_entries().len(), 0);
}

#[test]
fn header_without_closing_bracket_is_a_pair_or_nothing() {
    let d = load("[broken\n[half = 1\n[s] trailing = 2\n[x = y]\n");
    assert_eq!(d.sections(), vec!["s", "x = y"]);
    assert_eq!(d.root_entries().get("[half"), Some(&Some("1".to_string())));
    assert_eq!(d.root_entries().len(), 1);
}

#[test]
fn value_is_split_at_the_first_equals_sign() {
    let d = load("[s]\na = b = c\n= lonely\nk ==\n");
    assert_eq!(d.get("s", "a"), Some("b = c"));
    assert_eq!(d.get("s", ""), Some("lonely"));
    assert_eq!(d.get("s", "k"), Some("="));
}

#[test]
fn carriage_returns_end_lines_only_before_line_feeds() {
    let d = load("[s]\r\na = 1\r\nb = x\ry\r\nc = 3");
    assert_eq!(d.get("s", "a"), Some("1"));
    assert_eq!(d.get("s", "b"), Some("x\ry"));
    assert_eq!(d.get("s", "c"), Some("3"));
}

#[test]
fn set_creates_updates_in_place_and_remove_keeps_section() {
    let mut d = LtxFile::new();
    d.set("s", "a", Some("1"));
    d.set("s", "b", Some("2"));
    d.set("t", "x", None);
    d.set("s", "a", Some("3"));
    assert_eq!(keys_of(&d, "s"), vec!["a", "b"]);
    assert_eq!(d.get("s", "a"), Some("3"));
    assert!(d.has_key("t", "x"));
    assert_eq!(d.get("t", "x"), None);
    assert!(d.remove("s", "a"));
    assert!(!d.remove("s", "a"));
    assert!(!d.remove("nope", "a"));
    assert_eq!(keys_of(&d, "s"), vec!["b"]);
    assert!(d.remove("s", "b"));
    assert!(d.has_section("s"));
    assert_eq!(d.sections(), vec!["s", "t"]);
    d.set("s", "a", Some("4"));
    d.set("s", "c", None);
    d.set("s", "a", None);
    assert_eq!(keys_of(&d, "s"), vec!["a", "c"]);
    assert_eq!(d.get("s", "a"), None);
}

#[test]
fn remove_shifts_the_keys_behind_up() {
    let mut d = load("[s]\na = 1\nb = 2\nc = 3\nd = 4\n");
    assert!(d.remove("s", "b"));
    assert_eq!(keys_of(&d, "s"), vec!["a", "c", "d"]);
    assert_eq!(d.get("s", "c"), Some("3"));
    assert_eq!(d.to_string_formatted(), "[s]\n        a = 1\n        c = 3\n        d = 4\n");
}

#[test]
fn merge_overwrites_root_and_sections() {
    let mut d = load("r = 1\n[a]\nx = 1\n[b]\ny = 1\n");
    d.merge(load("r = 2\nq = 3\n[b]\ny = 2\nz = 3\n[c]\n[a]\nw =\n"));
    assert_eq!(d.sections(), vec!["a", "b", "c"]);
    assert_eq!(keys_of(&d, "a"), vec!["x", "w"]);
    assert_eq!(keys_of(&d, "b"), vec!["y", "z"]);
    assert_eq!(d.get("b", "y"), Some("2"));
    assert_eq!(d.root_entries().get("r"), Some(&Some("2".to_string())));
    assert_eq!(d.root_entries().get("q"), Some(&Some("3".to_string())));
}

#[test]
fn formats_with_aligned_keys() {
    let mut d = LtxFile::new();
    d.set("options", "a", Some("1"));
    d.set("options", "bb", None);
    d.set("options", "ccc", Some("\"quoted; not a comment\""));
    d.set("other", "k", Some("v"));
    d.add_section("empty");
    assert_eq!(
        d.to_string_formatted(),
        "[options]\n        a   = 1\n        bb  =\n        ccc = \"quoted; not a comment\"\n\n[other]\n        k = v\n\n[empty]\n"
    );
}

#[test]
fn formats_root_pairs_before_two_empty_lines() {
    let d = load("root_key = value          ; before any section\nflag =\n\n[options]\na = 1\n");
    assert_eq!(
        d.to_string_formatted(),
        "root_key = value\nflag =\n\n\n[options]\n        a = 1\n"
    );
    assert_eq!(load("k = v").to_string_formatted(), "k = v\n\n");
    assert_eq!(LtxFile::new().to_string_formatted(), "");
}

#[test]
fn key_column_is_as_wide_as_the_longest_key_in_bytes() {
    let mut d = LtxFile::new();
    d.set("s", "\u{e9}\u{e9}", Some("1"));
    d.set("s", "abc", Some("2"));
    assert_eq!(
        d.to_string_formatted(),
        "[s]\n        \u{e9}\u{e9}   = 1\n        abc  = 2\n"
    );
}

#[test]
fn parse_content_round_trips() {
    let text = "top = 1\n\n[ render ]\nmode=  fast ; quick\nlong_key_name = \"a; b\"\nempty =\n[sound]\n[render]\nextra = 2\n= odd\n[half = 3\n";
    let first = LtxFile::parse_content(text).unwrap();
    let written = first.to_string_formatted();
    assert_eq!(
        written,
        "top = 1\n\n\n[render]\n        mode          = fast\n        long_key_name = \"a; b\"\n        empty         =\n        extra         = 2\n                      = odd\n        [half         = 3\n\n[sound]\n"
    );
    let second = LtxFile::parse_content(&written).unwrap();
    assert_eq!(second.sections(), first.sections());
    assert_eq!(keys_of(&second, "render"), keys_of(&first, "render"));
    assert_eq!(second.get("render", "mode"), Some("fast"));
    assert_eq!(second.get("render", "[half"), Some("3"));
    assert_eq!(second.get("render", ""), Some("odd"));
    assert_eq!(second.to_string_formatted(), written);
}

#[test]
fn parse_content_needs_a_text_that_stands_alone() {
    assert!(LtxFile::parse_content("[s]\n#include \"x.ltx\"\n").is_none());
    assert!(LtxFile::parse_content("[s]\n#include nothing\n").is_none());
    assert!(LtxFile::parse_content("; #include \"x.ltx\"\n").is_some());
    assert!(LtxFile::parse_content("").is_some());
}

#[test]
fn truth_values_are_read_without_regard_to_case() {
    let d = load("[s]\na = TRUE\nb = Off\nc = 1\nd = yes\ne = No\nf = 0\ng = on\nh = false\ni = maybe\nj =\nk = 2\n");
    assert_eq!(d.get_bool("s", "a"), Some(true));
    assert_eq!(d.get_bool("s", "b"), Some(false));
    assert_eq!(d.get_bool("s", "c"), Some(true));
    assert_eq!(d.get_bool("s", "d"), Some(true));
    assert_eq!(d.get_bool("s", "e"), Some(false));
    assert_eq!(d.get_bool("s", "f"), Some(false));
    assert_eq!(d.get_bool("s", "g"), Some(true));
    assert_eq!(d.get_bool("s", "h"), Some(false));
    assert_eq!(d.get_bool("s", "i"), None);
    assert_eq!(d.get_bool("s", "j"), None);
    assert_eq!(d.get_bool("s", "k"), None);
    assert_eq!(d.get_bool("s", "missing"), None);
    assert_eq!(parse_bool_word("true"), Some(true));
    assert_eq!(parse_bool_word("TRUE"), None);
    assert_eq!(parse_bool_word("no"), Some(false));
    assert_eq!(parse_bool_word(""), None);
}
