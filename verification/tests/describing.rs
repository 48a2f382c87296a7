use context_fabric::query::{parse_relation_operator, RegexPattern};
use context_fabric::search::Search;
use context_fabric::search_candidates::candidate_values_for;
use context_fabric::query::parse_query;
use context_fabric::edge_tables::EdgeFrequency;
use context_fabric::error::CfError;
use context_fabric::corpus_loaded::remove_value_type_metadata;
use context_fabric::corpus_types::LoadedFeatureKind;
use std::collections::HashMap;
use context_fabric::corpus::Corpus;
use context_fabric::corpus_types::FeatureKind;
use context_fabric::describe;
use context_fabric::feature::{EdgeFeature, NodeFeature};
use context_fabric::text_formats::replace_all;
use context_fabric::value::FeatureValue;

fn s(x: &str) -> FeatureValue {
    FeatureValue::Str(x.to_string())
}

/// Three words in one phrase, with an original and a transliterated spelling.
fn corpus() -> Corpus {
    let mut otype = HashMap::new();
    for n in 1..=3u32 {
        otype.insert(n, s("word"));
    }
    otype.insert(4, s("phrase"));
    let mut g = HashMap::new();
    g.insert(1, s("ab"));
    g.insert(2, s("ba"));
    g.insert(3, s("c"));
    let mut tr = HashMap::new();
    tr.insert(1, s("AB"));
    tr.insert(2, s("BA"));
    tr.insert(3, s("C"));
    let mut oslots = HashMap::new();
    oslots.insert(4, vec![1, 2, 3]);
    let nodes = vec![
        NodeFeature::new("otype".to_string(), Vec::new(), otype),
        NodeFeature::new(
            "g".to_string(),
            vec![("description".to_string(), Some("spelling".to_string()))],
            g,
        ),
        NodeFeature::new("tr".to_string(), Vec::new(), tr),
    ];
    let edges = vec![EdgeFeature::new("oslots".to_string(), Vec::new(), oslots)];
    let otext = vec![
        ("fmt:text-orig-full".to_string(), Some("{g} ".to_string())),
        ("fmt:text-trans-full".to_string(), Some("{tr} ".to_string())),
        ("fmt:lex-orig-plain".to_string(), Some("{g}".to_string())),
    ];
    Corpus::from_feature_maps_with_configs(nodes, edges, vec![("otext".to_string(), otext)]).unwrap()
}

#[test]
fn pattern_replacement() {
    assert_eq!(replace_all("a-orig-b-orig-", "-orig-", "-"), "a-b-");
    assert_eq!(replace_all("text-trans-full", "-orig-", "-"), "text-trans-full");
    assert_eq!(replace_all("aaa", "aa", "b"), "ba");
}

#[test]
fn format_pairs_and_samples() {
    let c = corpus();
    let pairs = c.text_format_pairs();
    assert_eq!(
        pairs,
        vec![(
            "text-full".to_string(),
            "text-orig-full".to_string(),
            "text-trans-full".to_string(),
            "{g} ".to_string(),
            "{tr} ".to_string(),
        )]
    );
    let (samples, unique) = c.text_format_samples("text-orig-full", "text-trans-full");
    assert_eq!(unique, 3);
    assert_eq!(samples.len(), 2);
    assert_eq!(samples[0].original, "ab");
    assert_eq!(samples[0].transliterated, "AB");
    assert_eq!(samples[1].original, "c");
    assert_eq!(samples[1].transliterated, "C");

    let info = c.text_representations();
    assert_eq!(info.formats.len(), 1);
    assert_eq!(info.formats[0].name, "text-full");
    assert_eq!(info.formats[0].total_samples, 2);
    assert_eq!(info.formats[0].unique_characters, 3);
    assert!(info.description.starts_with("Shows how text values are encoded"));
}

#[test]
fn no_format_pairs() {
    let mut otype = HashMap::new();
    otype.insert(1, s("word"));
    let c = Corpus::from_feature_maps_with_configs(
        vec![NodeFeature::new("otype".to_string(), Vec::new(), otype)],
        vec![EdgeFeature::new("oslots".to_string(), Vec::new(), HashMap::new())],
        Vec::new(),
    )
    .unwrap();
    let info = describe::describe_text_formats(&c);
    assert_eq!(
        info.description,
        "No text format metadata available or no orig/trans pairs defined"
    );
    assert!(info.formats.is_empty());
}

#[test]
fn describing_features() {
    let c = corpus();
    let d = c.describe_feature("g", 2);
    assert_eq!(d.name, "g");
    assert_eq!(d.kind, Some(FeatureKind::Node));
    assert_eq!(d.value_type, "str");
    assert_eq!(d.description, "spelling");
    assert_eq!(d.node_types, vec!["word".to_string()]);
    assert_eq!(d.unique_values, 3);
    assert_eq!(d.sample_values.len(), 2);
    assert_eq!(d.sample_values[0].value, Some(s("ab")));
    assert_eq!(d.sample_values[0].count, 1);
    assert_eq!(d.sample_values[1].value, Some(s("ba")));
    assert_eq!(d.has_values, None);
    assert_eq!(d.error, None);

    let e = c.describe_feature("oslots", 5);
    assert_eq!(e.kind, Some(FeatureKind::Edge));
    assert_eq!(e.has_values, Some(false));
    assert_eq!(e.unique_values, 0);
    assert!(e.sample_values.is_empty());
    assert_eq!(e.node_types, vec!["phrase".to_string()]);

    let missing = describe::describe_feature(&c, "zzz", 5);
    assert_eq!(missing.kind, None);
    assert_eq!(missing.error, Some("Feature 'zzz' not found".to_string()));

    let many = c.describe_features(&["zzz", "g", "g"], 1);
    let keys: Vec<&str> = many.iter().map(|(k, _)| k.as_str()).collect();
    assert_eq!(keys, vec!["g", "zzz"]);
    assert_eq!(many[0].1.sample_values.len(), 1);
}

#[test]
fn feature_types_and_corpus_description() {
    let c = corpus();
    let all = describe::get_all_feature_otypes(&c);
    let keys: Vec<&str> = all.iter().map(|(k, _)| k.as_str()).collect();
    assert_eq!(keys, vec!["g", "otype", "tr"]);
    assert_eq!(all[0].1, vec!["word".to_string()]);
    assert_eq!(describe::get_feature_otypes(&c, "tr"), vec!["word".to_string()]);
    let sources = c.all_edge_feature_source_types();
    assert_eq!(sources, vec![("oslots".to_string(), vec!["phrase".to_string()])]);
    let targets = c.all_edge_feature_target_types();
    assert_eq!(targets, vec![("oslots".to_string(), vec!["word".to_string()])]);

    let d = describe::describe_corpus(&c, "demo");
    assert_eq!(d.name, "demo");
    assert_eq!(d.node_types.len(), 2);
    assert_eq!(d.node_features.len(), 3);
    assert_eq!(d.edge_features.len(), 1);
    assert_eq!(d.text_representations.formats.len(), 1);
    let o = describe::describe_corpus_overview(&c, "demo");
    assert_eq!(o.node_types, d.node_types);
    let listed = describe::list_features(&c, Some(FeatureKind::Edge), None);
    assert_eq!(listed.len(), 1);
}

#[test]
fn typed_frequency_lists() {
    let c = corpus();
    assert_eq!(
        c.node_frequency_list("otype", Some(&["word"])).unwrap(),
        vec![(s("word"), 3)]
    );
    assert_eq!(
        c.node_freq_list("otype", None).unwrap(),
        vec![(s("word"), 3), (s("phrase"), 1)]
    );
    assert!(c.node_freqList("g", Some(&["phrase"])).unwrap().is_empty());
    assert!(matches!(
        c.node_frequency_list("nope", None),
        Err(CfError::MissingFeature(name)) if name == "nope"
    ));
    assert_eq!(c.edge_frequency_list("oslots", None, None).unwrap(), EdgeFrequency::Count(3));
    assert_eq!(
        c.edge_freq_list("oslots", Some(&["word"]), None).unwrap(),
        EdgeFrequency::Count(0)
    );
    assert_eq!(
        c.edge_freqList("oslots", Some(&["phrase"]), Some(&["word"])).unwrap(),
        EdgeFrequency::Count(3)
    );
    assert!(c.edge_frequency_list("nope", None, None).is_err());
}

#[test]
fn loaded_features() {
    let c = corpus();
    let all = c.is_loaded(None);
    let keys: Vec<&str> = all.iter().map(|(k, _)| k.as_str()).collect();
    assert_eq!(
        keys,
        vec!["boundary", "g", "levels", "order", "oslots", "otext", "otype", "rank", "tr"]
    );
    let asked = c.isLoaded(Some(&["tr", "nothing", "oslots", "levels"]));
    let keys: Vec<&str> = asked.iter().map(|(k, _)| k.as_str()).collect();
    assert_eq!(keys, vec!["levels", "nothing", "oslots", "tr"]);
    assert_eq!(asked[0].1.as_ref().unwrap().kind, LoadedFeatureKind::Computed);
    assert_eq!(asked[1].1, None);
    let slots = asked[2].1.as_ref().unwrap();
    assert_eq!(slots.kind, LoadedFeatureKind::Edge);
    assert_eq!(slots.edge_values, Some(false));
    assert_eq!(asked[3].1.as_ref().unwrap().kind, LoadedFeatureKind::Node);
    let g = c.loaded_feature_info("g").unwrap();
    assert_eq!(g.metadata, vec![("description".to_string(), Some("spelling".to_string()))]);
    assert_eq!(c.loaded_feature_info("otext").unwrap().kind, LoadedFeatureKind::Config);

    let mut m = vec![
        ("value_type".to_string(), Some("int".to_string())),
        ("valueType".to_string(), Some("str".to_string())),
    ];
    assert_eq!(remove_value_type_metadata(&mut m), "str");
    assert_eq!(m, vec![("value_type".to_string(), Some("int".to_string()))]);
    assert_eq!(remove_value_type_metadata(&mut m), "int");
    assert!(m.is_empty());
}

#[test]
fn level_slot_totals() {
    let c = corpus();
    let counts = c.level_slot_counts();
    assert_eq!(
        counts,
        vec![("phrase".to_string(), 3, 1), ("word".to_string(), 3, 3)]
    );
}

#[test]
fn initial_search_candidates() {
    let c = corpus();
    let search = Search::new(&c);
    let atom = |t: &str| parse_query(t).unwrap().atoms.remove(0);
    assert_eq!(search.initial_candidates(&atom("word g=ab\n"), None).unwrap(), vec![1]);
    assert_eq!(search.initial_candidates(&atom("word g=ab|c\n"), None).unwrap(), vec![1, 3]);
    assert_eq!(search.initial_candidates(&atom("word g=ab|c|ba tr=BA\n"), None).unwrap(), vec![2]);
    assert_eq!(search.initial_candidates(&atom("phrase\n"), None).unwrap(), vec![4]);
    assert_eq!(search.initial_candidates(&atom(".\n"), None).unwrap(), vec![1, 2, 3, 4]);
    assert_eq!(
        search.initial_candidates(&atom("word zz=1\n"), None).unwrap_err(),
        CfError::InvalidQuery("unknown feature zz".to_string())
    );
    let sets = vec![("word".to_string(), vec![3, 1, 1])];
    assert_eq!(search.initial_type_nodes(&atom("word\n"), Some(&sets)), vec![1, 3]);
    assert_eq!(search.initial_candidates(&atom("word g=ab|c\n"), Some(&sets)).unwrap(), vec![1, 3]);
    assert_eq!(candidate_values_for(&s("12")), vec![s("12"), FeatureValue::Int(12)]);
}

#[test]
fn regex_feature_relations() {
    let c = corpus();
    let search = Search::new(&c);
    let b = RegexPattern::compile("b").unwrap();
    assert_eq!(b.as_str(), "b");
    assert!(search.feature_regex_relation_holds(1, 2, "g", &b, "g"));
    let start = RegexPattern::compile("^a").unwrap();
    assert!(!search.feature_regex_relation_holds(1, 2, "g", &start, "g"));
    assert!(!search.feature_regex_relation_holds(1, 2, "nothing", &b, "g"));
    assert!(RegexPattern::compile("(").is_err());
    let op = parse_relation_operator(".g~b~g.").unwrap();
    assert!(search.relation_operator_holds(&op, 1, 2));
    assert!(!search.relation_operator_holds(&op, 1, 3));
}

#[test]
fn searching_templates() {
    let c = corpus();
    let search = Search::new(&c);
    assert_eq!(search.search("word g=ab\n", None).unwrap(), vec![vec![1]]);
    assert_eq!(
        search.search("phrase\n  word\n", None).unwrap(),
        vec![vec![4, 1], vec![4, 2], vec![4, 3]]
    );
    assert_eq!(search.search("phrase\n  w:word g=c\n", None).unwrap(), vec![vec![4, 3]]);
    assert_eq!(search.search("word\n", Some(2)).unwrap().len(), 2);
    assert_eq!(
        search.search("a:word\nb:word\na < b\n", None).unwrap(),
        vec![vec![1, 2], vec![1, 3], vec![2, 3]]
    );
    assert_eq!(search.count("word\n", None).unwrap(), 3);
    assert!(search.search("", None).unwrap().is_empty());
    assert_eq!(
        search.search("word zz=1\n", None).unwrap_err(),
        CfError::InvalidQuery("unknown feature zz".to_string())
    );
    assert!(search.search("word\n/without/\nword g=c\n/-/\n", None).is_err());
    let sets = vec![("special".to_string(), vec![3, 2])];
    assert_eq!(
        search.search_with_sets("special\n", Some(&sets), None).unwrap(),
        vec![vec![2], vec![3]]
    );
}
