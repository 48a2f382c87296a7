use context_fabric::corpus::Corpus;
use context_fabric::explore::{explore_feature_paths, FeatureFile};
use context_fabric::fabric::{join_path, split_feature_names, Fabric, FeatureSpec, BANNER, VERSION};

fn file(path: &str, lines: &[&str]) -> FeatureFile {
    FeatureFile { path: path.to_string(), lines: lines.iter().map(|l| l.to_string()).collect() }
}

fn corpus_files() -> Vec<FeatureFile> {
    vec![
        file("/c/otype.tf", &["@node", "@valueType=str", "", "1\tword", "word", "3\tphrase"]),
        file("/c/oslots.tf", &["@edge", "@valueType=int", "", "3\t1", "3\t2"]),
        file("/c/lex.tf", &["@node", "@valueType=str", "", "1\tin", "the"]),
        file("/c/gloss.tf", &["@node", "@valueType=str", "", "abc\tfoo"]),
        file("/c/otext.tf", &["@config", "@sectionTypes=phrase", ""]),
        file("/c/README.md", &["# notes"]),
    ]
}

#[test]
fn a_corpus_loads_the_features_asked_for() {
    let files = corpus_files();
    let c = Corpus::load_files(&files, Some(&["lex"])).unwrap();
    assert_eq!(c.max_node, 3);
    assert_eq!(c.max_slot, 2);
    assert!(c.node_feature("lex").is_some());
    assert!(c.node_feature("gloss").is_none());
    assert!(c.config_feature("otext").is_some());
}

#[test]
fn a_file_that_does_not_parse_fails_the_load() {
    let files = corpus_files();
    assert!(Corpus::load_files(&files, None).is_err());
    assert!(Corpus::load_files(&files[2..], Some(&["lex"])).is_err());
}

#[test]
fn fabric_locations_and_modules() {
    let f = Fabric::new("/data/bhsa");
    assert_eq!(f.path(), "/data/bhsa");
    assert_eq!(f.banner(), BANNER);
    assert_eq!(f.version(), VERSION);
    assert!(f.good());
    assert_eq!(f.module_path_candidates(), vec!["/data/bhsa".to_string()]);

    let g = Fabric::with_modules("/data/bhsa", &["tf/2021".to_string(), "".to_string()]);
    assert_eq!(
        g.module_path_candidates(),
        vec!["/data/bhsa/tf/2021".to_string(), "/data/bhsa".to_string()]
    );

    let h = Fabric::from_locations(&["/a".to_string(), "/b/".to_string()]);
    assert_eq!(h.path(), "/a");
    assert_eq!(h.location_rep(), "/a\n/b/");
    assert_eq!(Fabric::from_locations(&[]).locations(), &["".to_string()]);

    assert_eq!(join_path("/b/", "x"), "/b/x");
    assert_eq!(join_path("/b", "/x"), "/x");
    assert_eq!(join_path("", "x"), "x");
}

#[test]
fn overridden_feature_files_are_reported() {
    let files = vec![
        file("/a/lex.tf", &["@node", ""]),
        file("/b/lex.tf", &["@node", ""]),
        file("/b/gloss.tf", &["@node", ""]),
    ];
    let inv = explore_feature_paths(&files).unwrap();
    let f = Fabric::new("/a");
    assert_eq!(f.ignored_feature_paths(&inv), vec![("lex".to_string(), vec!["/a/lex.tf".to_string()])]);
    assert_eq!(f.features_ignored(&inv).len(), 1);
}

#[test]
fn feature_requests_are_split_into_names() {
    assert_eq!(split_feature_names(" lex,gloss  sp,,"), vec!["lex", "gloss", "sp"]);
    assert_eq!("a b".feature_names(), vec!["a", "b"]);
    assert_eq!(vec!["x", "y"].feature_names(), vec!["x", "y"]);
    assert_eq!(vec!["z".to_string()].feature_names(), vec!["z"]);
}
