use context_fabric::search_syntax::{
    is_quantifier_continuation, is_quantifier_init, is_quantifier_line, is_quantifier_terminator,
    is_search_name, is_search_number, is_search_white_line, parse_atom_operator_syntax,
    parse_atom_syntax, parse_comparison_syntax, parse_ident_syntax, parse_k_nearness_syntax,
    parse_named_atom_prefix, parse_none_syntax, parse_operator_line_syntax,
    parse_quantifier_line_syntax, parse_regex_feature_syntax, parse_relation_syntax,
    parse_true_syntax, search_line_indent, strip_operator_syntax,
};

#[test]
fn quantifier_tokens_are_recognised() {
    assert!(is_quantifier_init("/where/"));
    assert!(is_quantifier_init("/with/"));
    assert!(is_quantifier_init("/without/"));
    assert!(!is_quantifier_init("/have/"));
    assert!(is_quantifier_continuation("/have/"));
    assert!(is_quantifier_continuation("/or/"));
    assert!(is_quantifier_terminator("/-/"));
    assert!(is_quantifier_line("   /where/  "));
    assert!(!is_quantifier_line("  /where/ x"));
}

#[test]
fn white_lines_are_blank_or_comments() {
    assert!(is_search_white_line(""));
    assert!(is_search_white_line("    "));
    assert!(is_search_white_line("  % a comment"));
    assert!(!is_search_white_line("  word"));
}

#[test]
fn names_and_numbers() {
    assert!(is_search_name("w1.a-b_c"));
    assert!(!is_search_name(""));
    assert!(!is_search_name("a b"));
    assert!(is_search_number("-12"));
    assert!(is_search_number("7"));
    assert!(!is_search_number("-"));
    assert!(!is_search_number("1a"));
}

#[test]
fn atom_line_keeps_indent_type_and_features() {
    let a = parse_atom_syntax("  word sp=verb  gn=m  ").unwrap();
    assert_eq!(a.indent, "  ");
    assert_eq!(a.node_type, "word");
    assert_eq!(a.features.as_deref(), Some("sp=verb gn=m"));

    let b = parse_atom_syntax("\tphrase").unwrap();
    assert_eq!(b.indent, "\t");
    assert_eq!(b.node_type, "phrase");
    assert!(b.features.is_none());

    assert!(parse_atom_syntax("   ").is_none());
    assert!(parse_atom_syntax("sp=verb").is_none());
}

#[test]
fn atom_operator_line() {
    let a = parse_atom_operator_syntax("  <: word lex=X").unwrap();
    assert_eq!(a.indent, "  ");
    assert_eq!(a.operator, "<:");
    assert_eq!(a.node_type, "word");
    assert_eq!(a.features.as_deref(), Some("lex=X"));
    assert!(parse_atom_operator_syntax("word lex=X").is_none());
    assert!(parse_atom_operator_syntax("<:").is_none());
}

#[test]
fn feature_conditions() {
    let f = parse_ident_syntax("sp=verb#noun").unwrap();
    assert_eq!(f.feature, "sp");
    assert_eq!(f.operator, "=");
    assert_eq!(f.value, "verb#noun");
    let g = parse_ident_syntax("gn#m").unwrap();
    assert_eq!(g.operator, "#");
    assert!(parse_ident_syntax("sp=").is_none());
    assert!(parse_ident_syntax("s p=v").is_none());

    let c = parse_comparison_syntax("number>10").unwrap();
    assert_eq!(c.feature, "number");
    assert_eq!(c.operator, ">");
    assert_eq!(c.value, "10");

    assert_eq!(
        parse_regex_feature_syntax("lex~^a.*"),
        Some(("lex".to_string(), "^a.*".to_string()))
    );
    assert!(parse_regex_feature_syntax("le x~a").is_none());

    let n = parse_none_syntax("gloss#  ").unwrap();
    assert_eq!(n.feature, "gloss");
    assert_eq!(n.marker.as_deref(), Some("#"));
    let p = parse_none_syntax("gloss").unwrap();
    assert!(p.marker.is_none());
    assert!(parse_none_syntax("gl=oss").is_none());

    assert_eq!(parse_true_syntax("gloss* "), Some("gloss".to_string()));
    assert!(parse_true_syntax("gloss").is_none());
}

#[test]
fn relation_line() {
    let r = parse_relation_syntax("  w1 <: w2 ").unwrap();
    assert_eq!(r.indent, "  ");
    assert_eq!(r.left, "w1");
    assert_eq!(r.operator, "<:");
    assert_eq!(r.right, "w2");
    assert!(parse_relation_syntax("w1 <: w2 w3").is_none());
    assert!(parse_relation_syntax("w1 ab w2").is_none());
}

#[test]
fn quantifier_and_operator_lines() {
    let q = parse_quantifier_line_syntax("  /without/ ").unwrap();
    assert_eq!(q.indent, "  ");
    assert_eq!(q.quantifier, "/without/");
    assert!(parse_quantifier_line_syntax("word").is_none());

    assert_eq!(
        parse_operator_line_syntax("   <: "),
        Some(("   ".to_string(), "<:".to_string()))
    );
    assert!(parse_operator_line_syntax("  word").is_none());
    assert!(parse_operator_line_syntax("  <: word").is_none());

    assert_eq!(strip_operator_syntax("  <: word sp=verb"), Some("word sp=verb".to_string()));
    assert!(strip_operator_syntax("<:").is_none());
    assert!(strip_operator_syntax("word").is_none());

    assert_eq!(search_line_indent("\t  x y"), "\t  ");
}

#[test]
fn nearness_and_named_atoms() {
    let k = parse_k_nearness_syntax("<12:").unwrap();
    assert_eq!(k.before, "<");
    assert_eq!(k.k, 12);
    assert_eq!(k.after, ":");
    assert!(parse_k_nearness_syntax("12:").is_none());
    assert!(parse_k_nearness_syntax("<1x2:").is_none());
    assert!(parse_k_nearness_syntax("<99999999999:").is_none());
    assert!(parse_k_nearness_syntax("<:").is_none());

    assert_eq!(parse_named_atom_prefix("  w1:word"), Some("w1".to_string()));
    assert!(parse_named_atom_prefix("word sp=verb").is_none());
    assert!(parse_named_atom_prefix(":word").is_none());
    assert!(parse_named_atom_prefix("w 1:word").is_none());
}
