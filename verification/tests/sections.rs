use std::collections::HashMap;
use context_fabric::corpus::Corpus;
use context_fabric::corpus_types::SectionOptions;
use context_fabric::corpus_types::FeatureKind;
use context_fabric::feature::{EdgeFeature, NodeFeature};
use context_fabric::value::FeatureValue;

fn s(x: &str) -> FeatureValue {
    FeatureValue::Str(x.to_string())
}

/// Two books of one chapter each (one verse per chapter), four words.
fn corpus() -> Corpus {
    let mut otype = HashMap::new();
    for n in 1..=4u32 {
        otype.insert(n, s("word"));
    }
    otype.insert(5, s("book"));
    otype.insert(6, s("book"));
    otype.insert(7, s("chapter"));
    otype.insert(8, s("chapter"));
    let mut oslots = HashMap::new();
    oslots.insert(5, vec![1, 2]);
    oslots.insert(6, vec![3, 4]);
    oslots.insert(7, vec![1, 2]);
    oslots.insert(8, vec![3, 4]);
    let mut book = HashMap::new();
    book.insert(5, s("Genesis"));
    book.insert(6, s("Exodus"));
    let mut book_nl = HashMap::new();
    book_nl.insert(5, s("Genesis-nl"));
    book_nl.insert(6, s("Exodus-nl"));
    let mut chapter = HashMap::new();
    chapter.insert(7, FeatureValue::Int(1));
    chapter.insert(8, FeatureValue::Int(1));
    let nodes = vec![
        NodeFeature::new("otype".to_string(), Vec::new(), otype),
        NodeFeature::new("book".to_string(), Vec::new(), book),
        NodeFeature::new(
            "book@nl".to_string(),
            vec![("languageCode".to_string(), Some("nl".to_string()))],
            book_nl,
        ),
        NodeFeature::new("chapter".to_string(), Vec::new(), chapter),
    ];
    let edges = vec![EdgeFeature::new("oslots".to_string(), Vec::new(), oslots)];
    let otext = vec![
        ("sectionTypes".to_string(), Some("book,chapter".to_string())),
        ("sectionFeatures".to_string(), Some("book,chapter".to_string())),
    ];
    Corpus::from_feature_maps_with_configs(nodes, edges, vec![("otext".to_string(), otext)]).unwrap()
}

#[test]
fn section_tuple_of_a_word_and_a_book() {
    let c = corpus();
    let opts = SectionOptions::default();
    assert_eq!(c.section_tuple(3, &opts), vec![Some(6), Some(8)]);
    assert_eq!(c.section_tuple(5, &opts), vec![Some(5)]);
    let filled = SectionOptions { last_slot: false, fillup: true, level: None };
    assert_eq!(c.section_tuple(5, &filled), vec![Some(5), Some(7)]);
    let cut = SectionOptions { last_slot: true, fillup: false, level: Some(1) };
    assert_eq!(c.section_tuple(2, &cut), vec![Some(5)]);
    assert!(c.section_tuple(0, &opts).is_empty());
    assert!(c.section_tuple(99, &opts).is_empty());
}

#[test]
fn section_names_and_reference() {
    let c = corpus();
    let opts = SectionOptions::default();
    assert_eq!(
        c.section_from_node(4, &opts),
        vec![Some(s("Exodus")), Some(FeatureValue::Int(1))]
    );
    assert_eq!(
        c.section_from_node_lang(4, &opts, "nl"),
        vec![Some(s("Exodus-nl")), Some(FeatureValue::Int(1))]
    );
    assert_eq!(c.section_ref(1), "Genesis 1");
    assert_eq!(c.section_0_name(2, "en"), Some("Genesis".to_string()));
    assert_eq!(c.section_0_name(3, "nl"), Some("Exodus-nl".to_string()));
    assert_eq!(c.section_0_node("Exodus", "en"), Some(6));
    assert_eq!(c.section_0_node("Leviticus", "en"), None);
    assert_eq!(
        c.name_from_node("en"),
        vec![(5, "Genesis".to_string()), (6, "Exodus".to_string())]
    );
}

#[test]
fn node_from_a_heading() {
    let c = corpus();
    assert_eq!(c.node_from_section(&[s("Exodus")]), Some(6));
    assert_eq!(c.node_from_section(&[s("Exodus"), FeatureValue::Int(1)]), Some(8));
    assert_eq!(c.node_from_section(&[s("Genesis"), FeatureValue::Int(2)]), None);
    assert_eq!(c.node_from_section(&[]), None);
    assert_eq!(
        c.node_from_section(&[s("Exodus"), FeatureValue::Int(1), FeatureValue::Int(1)]),
        None
    );
}

#[test]
fn levels_catalog_and_overview() {
    let c = corpus();
    let levels = c.level_bounds();
    assert_eq!(levels.len(), 3);
    assert!(levels.contains(&("word".to_string(), 1, 4)));
    assert!(levels.contains(&("book".to_string(), 5, 6)));
    assert_eq!(c.node_feature_types("book"), vec!["book".to_string()]);
    assert!(c.node_feature_types("nothing").is_empty());
    assert_eq!(c.edge_feature_source_types("oslots").len(), 2);
    assert_eq!(c.edge_feature_target_types("oslots"), vec!["word".to_string()]);

    let nodes: Vec<String> = c.feature_catalog(Some(FeatureKind::Node), None).into_iter().map(|e| e.name).collect();
    assert_eq!(nodes, vec!["book", "book@nl", "chapter", "otype"]);
    let edges = c.feature_catalog(Some(FeatureKind::Edge), None);
    assert_eq!(edges.len(), 1);
    assert_eq!(edges[0].value_type, "str");
    let on_chapters: Vec<String> =
        c.feature_catalog(Some(FeatureKind::Node), Some(&["chapter"])).into_iter().map(|e| e.name).collect();
    assert_eq!(on_chapters, vec!["chapter", "otype"]);
    assert_eq!(c.feature_catalog(None, None).len(), 5);

    let o = c.overview("demo");
    assert_eq!(o.name, "demo");
    assert_eq!(o.node_types.len(), 3);
    assert!(o.node_types.iter().any(|t| t.node_type == "word" && t.count == 4 && t.is_slot_type));
    assert_eq!(o.section_types, vec!["book".to_string(), "chapter".to_string()]);
}

#[test]
fn languages_and_nodes_by_name() {
    let c = corpus();
    let default = "default".to_string();
    assert_eq!(
        c.languages(),
        vec![(
            "nl".to_string(),
            vec![
                ("language".to_string(), default.clone()),
                ("languageEnglish".to_string(), default),
            ]
        )]
    );
    assert_eq!(
        c.node_from_name("en"),
        vec![
            (("book".to_string(), "Exodus".to_string()), 6),
            (("book".to_string(), "Genesis".to_string()), 5),
        ]
    );
    assert_eq!(
        c.nodeFromName("nl"),
        vec![
            (("book".to_string(), "Exodus-nl".to_string()), 6),
            (("book".to_string(), "Genesis-nl".to_string()), 5),
        ]
    );
}
