use context_fabric::utils::{format_meta, formatMeta};
use context_fabric::utils::itemize;
use context_fabric::utils::{
    backendRep, camel, check32, flatten_to_set, level_map, logging_level, make_examples, set_from_str,
    set_from_value, silentConvert, version_sort, FlattenFeatureSpec, SetValue, SilentInput,
};
use context_fabric::paths::{
    dirNm, expandDir, expanduser, extNm, fileNm, normpath, prefixSlash, replaceExt, splitExt, splitPath,
    stripExt, unexpanduser, DirContext,
};

#[test]
fn verbosity_words_and_levels() {
    assert_eq!(silentConvert(None), "auto");
    assert_eq!(silentConvert(Some(SilentInput::Bool(false))), "verbose");
    assert_eq!(silentConvert(Some(SilentInput::Bool(true))), "deep");
    assert_eq!(silentConvert(Some(SilentInput::Str("terse".to_string()))), "terse");
    assert_eq!(silentConvert(Some(SilentInput::Str("loud".to_string()))), "auto");
    assert_eq!(logging_level(Some(SilentInput::Bool(false))), 10);
    assert_eq!(logging_level(None), 20);
    assert_eq!(logging_level(Some(SilentInput::Str("terse".to_string()))), 30);
    assert_eq!(logging_level(Some(SilentInput::Bool(true))), 40);
    let m = level_map();
    assert_eq!(m.len(), 4);
    assert_eq!(m[0], ("verbose".to_string(), 10));
}

#[test]
fn platform_width_message() {
    let (on32, warn, msg) = check32();
    if on32 {
        assert!(!warn.is_empty());
        assert!(msg.is_empty());
    } else {
        assert!(warn.is_empty());
        assert_eq!(msg, "Running on 64-bit Python");
    }
}

#[test]
fn sets_of_words() {
    assert_eq!(set_from_str(Some(" b, a\tb\nc ,")), vec!["a", "b", "c"]);
    assert_eq!(set_from_str(None), Vec::<String>::new());
    assert_eq!(set_from_value(Some(SetValue::Str("3 x 1 03".to_string())), true), vec!["03", "1", "3"]);
    assert_eq!(set_from_value(Some(SetValue::Int(-7)), false), vec!["-7"]);
    assert_eq!(
        set_from_value(Some(SetValue::Items(vec!["".to_string(), "b".to_string(), "a".to_string()])), false),
        vec!["a", "b"]
    );
    assert_eq!(
        set_from_value(Some(SetValue::Items(vec!["".to_string(), "12".to_string(), "a".to_string()])), true),
        vec!["", "12"]
    );
    assert_eq!(
        set_from_value(Some(SetValue::Members(vec!["z".to_string(), "y".to_string(), "z".to_string()])), false),
        vec!["y", "z"]
    );
    assert_eq!(set_from_value(None, false), Vec::<String>::new());
}

#[test]
fn flattened_feature_names() {
    let specs = vec![
        FlattenFeatureSpec::Name("sp".to_string()),
        FlattenFeatureSpec::Values(SetValue::Str("lex gloss sp".to_string())),
    ];
    assert_eq!(flatten_to_set(&specs), vec!["gloss", "lex", "sp"]);
}

#[test]
fn examples_of_nodes() {
    assert_eq!(make_examples(&[3, 1, 2]), "      3 x: 3, 1, 2");
    let many: Vec<u32> = (1..=12).collect();
    assert_eq!(make_examples(&many), "     12 x: 1, 2, 3, 4, 5 ... 8, 9, 10, 11, 12");
    assert_eq!(make_examples(&[]), "      0 x: ");
}

#[test]
fn version_keys() {
    let key = version_sort("1.10b3.x");
    assert_eq!(
        key,
        vec![
            (1, String::new(), String::new()),
            (10, "b".to_string(), "3".to_string()),
            (0, "x".to_string(), String::new()),
        ]
    );
    assert!(version_sort("1.9")[1].0 < version_sort("1.10")[1].0);
    assert_eq!(version_sort("99999999999999999999")[0].0, 0);
}

#[test]
fn backend_representations() {
    assert_eq!(backendRep(None, "norm", None, "/h"), Some("github".to_string()));
    assert_eq!(backendRep(Some("GitLab.com"), "norm", None, "/h"), Some("gitlab".to_string()));
    assert_eq!(backendRep(Some("gitlab"), "name", None, "/h"), Some("GitLab".to_string()));
    assert_eq!(backendRep(Some("my.host.org"), "machine", None, "/h"), Some("my.host.org".to_string()));
    assert_eq!(backendRep(Some("github"), "rep", Some("github.com"), "/h"), Some(String::new()));
    assert_eq!(backendRep(Some("gitlab"), "rep", Some("github"), "/h"), Some("<gitlab>".to_string()));
    assert_eq!(backendRep(Some("github"), "cache", None, "/home/u"), Some("/home/u/text-fabric-data/github".to_string()));
    assert_eq!(backendRep(Some("my.host.org"), "pages", None, "/h"), Some("pages.host.org".to_string()));
    assert_eq!(backendRep(Some("my.host.org"), "url", None, "/h"), Some("https://my.host.org".to_string()));
    assert_eq!(backendRep(None, "tech", None, "/h"), Some("github".to_string()));
    assert_eq!(backendRep(None, "bogus", None, "/h"), None);
}

#[test]
fn camel_case_names() {
    assert_eq!(camel(Some("node_type_name")), Some("nodeTypeName".to_string()));
    assert_eq!(camel(Some("a__b")), Some("aB".to_string()));
    assert_eq!(camel(Some("")), Some(String::new()));
    assert_eq!(camel(None), None);
}

#[test]
fn normalised_paths() {
    assert_eq!(normpath(Some("a//b/./c/../d")), Some("a/b/d".to_string()));
    assert_eq!(normpath(Some("/../x")), Some("/x".to_string()));
    assert_eq!(normpath(Some("../a/..")), Some("..".to_string()));
    assert_eq!(normpath(Some("")), Some(".".to_string()));
    assert_eq!(normpath(Some("a\\b")), Some("a/b".to_string()));
    assert_eq!(normpath(None), None);
}

#[test]
fn home_directory_shorthand() {
    assert_eq!(expanduser("~/data/x", "/home/u"), "/home/u/data/x");
    assert_eq!(expanduser("~", "/home/u"), "/home/u");
    assert_eq!(expanduser("x/~", "/home/u"), "x/~");
    assert_eq!(unexpanduser("/home/u/data", "/home/u"), "~/data");
    assert_eq!(unexpanduser("/home/u", "/home/u"), "~");
    assert_eq!(unexpanduser("/home/uv", "/home/u"), "/home/uv");
}

#[test]
fn directories_read_against_a_context() {
    let ctx = DirContext { home_dir: "/h".to_string(), cur_dir: "/w/p".to_string(), parent_dir: "/w".to_string() };
    assert_eq!(expandDir(&ctx, "~/a"), "/h/a");
    assert_eq!(expandDir(&ctx, "../b"), "/w/b");
    assert_eq!(expandDir(&ctx, "./c"), "/w/p/c");
    assert_eq!(expandDir(&ctx, "."), "/w/p");
    assert_eq!(expandDir(&ctx, "/abs/d"), "/abs/d");
    assert_eq!(expandDir(&ctx, "e"), "/w/p/e");
}

#[test]
fn path_parts() {
    assert_eq!(prefixSlash(Some("a/b")), Some("/a/b".to_string()));
    assert_eq!(prefixSlash(Some("/a")), Some("/a".to_string()));
    assert_eq!(prefixSlash(Some("")), Some(String::new()));
    assert_eq!(dirNm("a/b/c.tf"), "a/b");
    assert_eq!(dirNm("c.tf"), "");
    assert_eq!(fileNm("a/b/c.tf"), "c.tf");
    assert_eq!(extNm("a/b/c.x.tf"), "tf");
    assert_eq!(extNm("a/b/noext"), "noext");
    assert_eq!(stripExt("a/b/c.x.tf"), "a/b/c.x");
    assert_eq!(replaceExt("a/c.tf", "json"), "a/c.json");
    assert_eq!(splitPath("a/b/c.tf"), ("a/b".to_string(), "c.tf".to_string()));
    assert_eq!(splitExt("a/b.c/d"), ("a/b.c/d".to_string(), String::new()));
    assert_eq!(splitExt("a/b.tf"), ("a/b".to_string(), ".tf".to_string()));
    assert_eq!(splitExt(".hidden"), (".hidden".to_string(), String::new()));
}

#[test]
fn itemizing_values() {
    assert!(itemize(None, None).is_empty());
    assert!(itemize(Some(""), Some(",")).is_empty());
    assert_eq!(itemize(Some("  a b\tc  "), None), vec!["a", "b", "c"]);
    assert_eq!(itemize(Some(" a,,b "), Some(",")), vec!["a", "", "b"]);
    assert_eq!(itemize(Some("a::b::"), Some("::")), vec!["a", "b", ""]);
    assert_eq!(itemize(Some("ab"), Some("")), vec!["", "a", "b", ""]);
    assert_eq!(itemize(Some("   "), Some("")), vec!["", ""]);
}

fn pairs(items: &[(&str, &str)]) -> Vec<(String, String)> {
    items.iter().map(|(k, v)| (k.to_string(), v.to_string())).collect()
}

#[test]
fn formatting_feature_metadata() {
    let input = vec![
        ("f".to_string(), pairs(&[("desc", "word"), ("eg", "abc"), ("zz", "1")])),
        ("g".to_string(), pairs(&[("desc", "y"), ("description", "x")])),
        ("h".to_string(), pairs(&[("desc", "d"), ("desca", "q"), ("eg", "")])),
        ("i".to_string(), pairs(&[("eg", "e")])),
    ];
    let out = format_meta(&input);
    assert_eq!(out[0], ("f".to_string(), pairs(&[("description", "word (abc)"), ("zz", "1")])));
    assert_eq!(out[1], ("g".to_string(), pairs(&[("description", "x")])));
    assert_eq!(out[2], ("h".to_string(), pairs(&[("desca", "q"), ("description", "d")])));
    assert_eq!(formatMeta(&input)[3], ("i".to_string(), pairs(&[("eg", "e")])));
}
