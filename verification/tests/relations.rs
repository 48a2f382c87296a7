use std::collections::HashMap;
use context_fabric::corpus::Corpus;
use context_fabric::feature::{EdgeFeature, NodeFeature};
use context_fabric::query::parse_relation_operator;
use context_fabric::search::{relations_legend, slots_within, Search};
use context_fabric::value::FeatureValue;
use context_fabric::api::{api_refs, Api};

fn corpus() -> Corpus {
    let mut otype = HashMap::new();
    for n in 1..=4u32 {
        otype.insert(n, FeatureValue::Str("word".to_string()));
    }
    otype.insert(5, FeatureValue::Str("phrase".to_string()));
    otype.insert(6, FeatureValue::Str("phrase".to_string()));
    otype.insert(7, FeatureValue::Str("sentence".to_string()));
    let mut lex = HashMap::new();
    lex.insert(1, FeatureValue::Str("in".to_string()));
    lex.insert(2, FeatureValue::Str("the".to_string()));
    lex.insert(3, FeatureValue::Int(3));
    lex.insert(4, FeatureValue::Str("3".to_string()));
    let mut oslots = HashMap::new();
    oslots.insert(5, vec![1, 2]);
    oslots.insert(6, vec![3, 4]);
    oslots.insert(7, vec![1, 2, 3, 4]);
    let mut mother = HashMap::new();
    mother.insert(6, vec![5]);
    let nodes = vec![
        NodeFeature::new("otype".to_string(), Vec::new(), otype),
        NodeFeature::new("lex".to_string(), Vec::new(), lex),
    ];
    let edges = vec![
        EdgeFeature::new("oslots".to_string(), Vec::new(), oslots),
        EdgeFeature::new("mother".to_string(), Vec::new(), mother),
    ];
    Corpus::from_feature_maps_with_configs(nodes, edges, Vec::new()).unwrap()
}

fn holds(s: &Search, op: &str, l: u32, r: u32) -> bool {
    let o = parse_relation_operator(op).unwrap();
    s.relation_operator_holds(&o, l, r)
}

#[test]
fn slot_relations() {
    let c = corpus();
    let s = Search::new(&c);
    assert!(holds(&s, "[[", 7, 5));
    assert!(holds(&s, "]]", 1, 5));
    assert!(!holds(&s, "[[", 5, 6));
    assert!(holds(&s, "<<", 5, 6));
    assert!(holds(&s, ">>", 6, 5));
    assert!(holds(&s, "<:", 5, 6));
    assert!(!holds(&s, "<:", 5, 4));
    assert!(holds(&s, ":>", 6, 5));
    assert!(holds(&s, "&&", 7, 6));
    assert!(holds(&s, "||", 5, 6));
    assert!(holds(&s, "==", 7, 7));
    assert!(holds(&s, "##", 7, 5));
    assert!(holds(&s, "=:", 7, 5));
    assert!(holds(&s, ":=", 7, 6));
    assert!(holds(&s, "::", 7, 7));
    assert!(holds(&s, "=2:", 5, 6));
    assert!(!holds(&s, "=1:", 5, 6));
    assert!(holds(&s, "<1:", 5, 6));
    assert!(!holds(&s, "<0:", 1, 3));
    assert!(holds(&s, "=", 3, 3));
    assert!(holds(&s, "#", 3, 4));
    assert_eq!(s.first_slot(6), Some(3));
    assert_eq!(s.last_slot(7), Some(4));
    assert_eq!(s.first_slot(2), Some(2));
    assert_eq!(s.node_slots(5), vec![1, 2]);
}

#[test]
fn edge_and_feature_relations() {
    let c = corpus();
    let s = Search::new(&c);
    assert!(holds(&s, "-mother>", 6, 5));
    assert!(!holds(&s, "-mother>", 5, 6));
    assert!(holds(&s, "<mother-", 5, 6));
    assert!(holds(&s, "<mother>", 5, 6));
    assert!(!holds(&s, "-nosuch>", 6, 5));
    assert!(holds(&s, ".lex=lex.", 3, 4));
    assert!(holds(&s, ".lex#lex.", 1, 2));
    assert!(holds(&s, ".lex<lex.", 1, 2));
    assert!(!holds(&s, ".lex<lex.", 3, 1));
    assert!(holds(&s, ".lex~[a-z]~lex.", 1, 2));
    assert!(!holds(&s, ".lex~[a-z]~lex.", 1, 3));
}

#[test]
fn distances_between_slots() {
    assert!(slots_within(3, 5, 2));
    assert!(slots_within(5, 3, 2));
    assert!(!slots_within(1, 5, 3));
    assert!(relations_legend().starts_with("Supported relations:"));
    assert!(relations_legend().ends_with("normal edge search relation."));
}

#[test]
fn shared_corpus_handles() {
    let api = Api::new(41u32);
    assert_eq!(*api.cf(), 41);
    assert_eq!(*api.tf(), 41);
    assert!(api.cf_and_tf_are_same_object());
    let shared = std::sync::Arc::new(7u32);
    let api2 = Api::from_arc(shared, vec!["b".to_string(), "a".to_string(), "b".to_string()]);
    assert_eq!(api2.ignored, vec!["a".to_string(), "b".to_string()]);
    let refs = api_refs();
    assert_eq!(refs.len(), 19);
    assert_eq!(refs[0], ("C", ("Computed", "computed", "computed-data")));
    assert_eq!(refs[17].0, "TF");
}
