use context_fabric::search_plan::summarize_template;
use context_fabric::query::{
    contains_quantifier_token, normalize_indentation, parse_alternative_values, parse_constraint,
    parse_feature_continuation_line, parse_quantified_template, parse_query, parse_relation_operator,
    parse_value, split_query_whitespace, split_unescaped, text_lines, unescape_query_value,
    is_redundant_parent_containment_relation, normalize_parent_reference_relations, EdgeValueMatcher, Matcher,
    QuantifierKind, RelationOperator, FeatureRelationComparison,
};
use context_fabric::error::CfError;
use context_fabric::value::FeatureValue;

#[test]
fn whitespace_tokens_keep_escapes() {
    assert_eq!(split_query_whitespace("  a  b\\ c\td "), vec!["a", "b\\ c", "d"]);
    assert_eq!(split_query_whitespace("x\\"), vec!["x\\"]);
    assert!(split_query_whitespace("   ").is_empty());
}

#[test]
fn unescaped_pieces_and_values() {
    assert_eq!(split_unescaped("a|b\\|c|", '|'), vec!["a", "b\\|c", ""]);
    assert_eq!(unescape_query_value("a\\|b\\tc\\qd\\"), "a|b\tc\\qd\\");
    assert_eq!(parse_value("-12"), FeatureValue::Int(-12));
    assert_eq!(parse_value("12a"), FeatureValue::Str("12a".to_string()));
    assert_eq!(
        parse_alternative_values("1|x\\|y"),
        vec![FeatureValue::Int(1), FeatureValue::Str("x|y".to_string())]
    );
}

#[test]
fn lines_of_a_template() {
    assert_eq!(text_lines("a\r\nb\n\nc\n"), vec!["a", "b", "", "c"]);
    assert_eq!(text_lines(""), Vec::<String>::new());
    assert_eq!(text_lines("x\r"), vec!["x\r"]);
}

#[test]
fn constraints_of_atoms() {
    let c = parse_constraint("sp=verb|noun").unwrap();
    assert_eq!(c.feature, "sp");
    match c.matcher {
        Matcher::Eq(vs) => assert_eq!(vs, vec![FeatureValue::string("verb"), FeatureValue::string("noun")]),
        other => panic!("unexpected {other:?}"),
    }
    assert!(matches!(parse_constraint("gloss*").unwrap().matcher, Matcher::Exists));
    assert!(matches!(parse_constraint("gloss#").unwrap().matcher, Matcher::Missing));
    assert!(matches!(parse_constraint("n<5").unwrap().matcher, Matcher::Lt(FeatureValue::Int(5))));
    assert!(matches!(parse_constraint("n>x").unwrap().matcher, Matcher::Gt(FeatureValue::Str(_))));
    assert!(matches!(parse_constraint("g#a|b").unwrap().matcher, Matcher::Ne(_)));
    assert!(matches!(parse_constraint("lex~^b").unwrap().matcher, Matcher::Regex(_)));
    assert!(matches!(parse_constraint("lex~(").unwrap_err(), CfError::Regex(_)));
    let bare = parse_constraint("gloss").unwrap();
    assert_eq!(bare.feature, "gloss");
    assert_eq!(
        parse_constraint("").unwrap_err(),
        CfError::InvalidQuery("unsupported constraint syntax \"\"".to_string())
    );
}

#[test]
fn continuation_lines() {
    assert_eq!(parse_feature_continuation_line("a=1 b*").unwrap().map(|v| v.len()), Some(2));
    assert!(parse_feature_continuation_line("word a=1").unwrap().is_none());
    assert!(parse_feature_continuation_line("").unwrap().is_none());
    assert!(parse_feature_continuation_line("a~(").is_err());
}

#[test]
fn relation_operators() {
    assert!(matches!(parse_relation_operator("="), Some(RelationOperator::Equal)));
    assert!(matches!(parse_relation_operator("[["), Some(RelationOperator::Embeds)));
    assert!(matches!(parse_relation_operator("<:"), Some(RelationOperator::AdjacentBefore)));
    assert!(matches!(parse_relation_operator("=3:"), Some(RelationOperator::NearFirstSlot(3))));
    assert!(matches!(parse_relation_operator("<2:"), Some(RelationOperator::NearBefore(2))));
    match parse_relation_operator("-mother>") {
        Some(RelationOperator::EdgeForward(e)) => assert_eq!(e, "mother"),
        other => panic!("unexpected {other:?}"),
    }
    match parse_relation_operator("-crossref=1|2>") {
        Some(RelationOperator::EdgeForwardValue(e, EdgeValueMatcher::Eq(vs))) => {
            assert_eq!(e, "crossref");
            assert_eq!(vs, vec![FeatureValue::Int(1), FeatureValue::Int(2)]);
        }
        other => panic!("unexpected {other:?}"),
    }
    match parse_relation_operator("<crossref=1|2->") {
        Some(RelationOperator::EdgeEitherValue(e, EdgeValueMatcher::Eq(vs))) => {
            assert_eq!(e, "crossref");
            assert_eq!(vs, vec![FeatureValue::Int(1), FeatureValue::string("2-")]);
        }
        other => panic!("unexpected {other:?}"),
    }
    match parse_relation_operator("<sim#0-") {
        Some(RelationOperator::EdgeBackwardValue(e, EdgeValueMatcher::Ne(_))) => assert_eq!(e, "sim"),
        other => panic!("unexpected {other:?}"),
    }
    match parse_relation_operator("<e~(>") {
        Some(RelationOperator::EdgeEither(e)) => assert_eq!(e, "e~("),
        other => panic!("unexpected {other:?}"),
    }
    match parse_relation_operator(".lex=gloss.") {
        Some(RelationOperator::FeatureCompare { left_feature, comparison, right_feature }) => {
            assert_eq!((left_feature.as_str(), right_feature.as_str()), ("lex", "gloss"));
            assert_eq!(comparison, FeatureRelationComparison::Eq);
        }
        other => panic!("unexpected {other:?}"),
    }
    match parse_relation_operator(".lex.") {
        Some(RelationOperator::FeatureCompare { left_feature, right_feature, .. }) => {
            assert_eq!((left_feature.as_str(), right_feature.as_str()), ("lex", "lex"));
        }
        other => panic!("unexpected {other:?}"),
    }
    assert!(matches!(parse_relation_operator(".a~[0-9]~b."), Some(RelationOperator::FeatureRegexCompare { .. })));
    assert!(parse_relation_operator(".=b.").is_none());
    assert!(parse_relation_operator("..").is_none());
    assert!(parse_relation_operator("word").is_none());
    assert!(parse_relation_operator("<-").is_none());
}

#[test]
fn query_plans() {
    let plan = parse_query("% comment\nclause\n  p:phrase function=Pred\n    word sp=verb\n  p < w\n").unwrap();
    assert_eq!(plan.atoms.len(), 3);
    assert_eq!(plan.atoms[0].node_type, "clause");
    assert_eq!(plan.atoms[1].indent, 2);
    assert_eq!(plan.atoms[1].name.as_deref(), Some("p"));
    assert_eq!(plan.atoms[1].node_type, "phrase");
    assert_eq!(plan.atoms[2].constraints.len(), 1);
    assert_eq!(plan.relations.len(), 1);
    assert_eq!(plan.relations[0].left, "p");
    assert_eq!(plan.names, vec![("p".to_string(), 1)]);

    let with_ref = parse_query("a:word\nb:word\na sp=noun\n").unwrap();
    assert_eq!(with_ref.atoms.len(), 3);
    assert_eq!(with_ref.atoms[2].name.as_deref(), Some("\u{0}ref2"));
    assert_eq!(with_ref.atoms[2].node_type, "word");
    assert_eq!(with_ref.relations[0].right, "a");

    let continued = parse_query("word\n  sp=verb gloss*\n").unwrap();
    assert_eq!(continued.atoms.len(), 1);
    assert_eq!(continued.atoms[0].constraints.len(), 2);

    let pending = parse_query("phrase\n<:\nphrase\n").unwrap();
    assert!(matches!(pending.atoms[1].operator, Some(RelationOperator::AdjacentBefore)));

    assert_eq!(
        parse_query("[[\n").map(|p| p.atoms.len()).unwrap(),
        0
    );
    match parse_query("word\n<< \n").map(|p| p.atoms.len()) {
        Ok(n) => assert_eq!(n, 1),
        Err(e) => panic!("unexpected {e:?}"),
    }
    assert!(matches!(parse_query("word lex~(\n"), Err(CfError::Regex(_))));
}

#[test]
fn operator_without_atom() {
    let r = parse_query("x\n< =\n");
    assert!(r.is_ok());
    let e = parse_query("x\nwith\n[[ \n");
    assert!(e.is_ok());
}

#[test]
fn quantified_templates() {
    let t = "clause\n  phrase\n/without/\nclause\n  word sp=verb\n/-/\n";
    let q = parse_quantified_template(t).unwrap();
    assert_eq!(q.base, "clause\n  phrase");
    assert_eq!(q.blocks.len(), 1);
    assert_eq!(q.blocks[0].kind, QuantifierKind::Without);
    assert_eq!(q.blocks[0].alternatives, vec!["clause\n  word sp=verb"]);
    assert!(contains_quantifier_token(t));
    assert!(!contains_quantifier_token("clause\n  phrase"));

    let alt = parse_quantified_template("w\n/with/\n  a\n/or/\n  b\n/have/\n  c\n/-/\n").unwrap();
    assert_eq!(alt.blocks.len(), 2);
    assert_eq!(alt.blocks[0].kind, QuantifierKind::With);
    assert_eq!(alt.blocks[0].alternatives, vec!["a", "b"]);
    assert_eq!(alt.blocks[1].alternatives, vec!["c"]);

    assert_eq!(
        parse_quantified_template("w\n/or/\n").unwrap_err(),
        CfError::InvalidQuery("quantifier alternative without quantifier".to_string())
    );
    assert_eq!(
        parse_quantified_template("/without/\nx\n/have/\n").unwrap_err(),
        CfError::InvalidQuery("/have/ is only supported after /where/ or /with/".to_string())
    );
    assert_eq!(
        parse_quantified_template("/with/\nx\n").unwrap_err(),
        CfError::InvalidQuery("unterminated quantified block".to_string())
    );
    assert_eq!(
        parse_quantified_template("/-/\n").unwrap_err(),
        CfError::InvalidQuery("quantifier terminator without quantifier".to_string())
    );
    assert_eq!(
        parse_quantified_template("/have/\n").unwrap_err(),
        CfError::InvalidQuery("quantifier continuation without quantifier".to_string())
    );
}

#[test]
fn nested_quantifiers_stay_in_their_alternative() {
    let q = parse_quantified_template("a\n/with/\n  b\n  /without/\n  c\n  /-/\n/-/\n").unwrap();
    assert_eq!(q.blocks.len(), 1);
    assert_eq!(q.blocks[0].alternatives, vec!["b\n/without/\nc\n/-/"]);
}

#[test]
fn indentation_and_parent_relations() {
    let lines = vec!["    a".to_string(), "".to_string(), "      b".to_string()];
    assert_eq!(normalize_indentation(&lines), "a\n\n  b");
    assert!(is_redundant_parent_containment_relation(".. [[ x"));
    assert!(is_redundant_parent_containment_relation("x ]] .."));
    assert!(!is_redundant_parent_containment_relation("x [[ .."));
    assert_eq!(normalize_parent_reference_relations("a\n  .. [[ a\nb"), "a\nb");
}

#[test]
fn template_summaries() {
    let plain = summarize_template("a:word\nb:word\na < b\n", 9).unwrap();
    assert_eq!(plain.template, "a:word\nb:word\na < b\n");
    assert_eq!(plain.atom_count, 2);
    assert_eq!(plain.relation_count, 1);
    assert_eq!(plain.result_count, 9);
    assert!(!plain.has_quantifiers);

    let t = "clause\n  phrase\n/without/\nclause\n  word sp=verb\n/-/\n";
    let quantified = summarize_template(t, 0).unwrap();
    assert_eq!(quantified.atom_count, 4);
    assert_eq!(quantified.relation_count, 0);
    assert!(quantified.has_quantifiers);

    assert_eq!(
        summarize_template("w\n/or/\n", 0).unwrap_err(),
        CfError::InvalidQuery("quantifier alternative without quantifier".to_string())
    );
    assert!(matches!(summarize_template("word lex~(\n", 0), Err(CfError::Regex(_))));
}
