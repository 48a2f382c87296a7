use context_fabric::escape::{html_esc, md_esc, xml_esc, clean_name, is_clean, tsv_esc, pandas_esc, math_esc, is_int};
use context_fabric::ranges::{set_from_spec, ranges_from_set, spec_from_ranges, ranges_from_list, spec_from_ranges_logical, LogicalRange};
use context_fabric::error::CfError;

#[test]
fn html_escape_with_and_without_math() {
    assert_eq!(html_esc(Some("a<b & c>$"), true), "a&lt;b &amp; c&gt;$");
    assert_eq!(html_esc(Some("$x$"), false), "<span>$</span>x<span>$</span>");
    assert_eq!(html_esc(None, false), "");
}

#[test]
fn markdown_escape_entities() {
    assert_eq!(md_esc(Some("a_b*c"), true), "a&#95;b&#42;c");
    assert_eq!(md_esc(Some("x|y~$"), false), "x&#124;y&#126;<span>$</span>");
    // the replacements run one after the other, so the `#` of an earlier entity is escaped too
    assert_eq!(md_esc(Some("!#*[_|~"), true), "&&#35;33;&#35;&#42;&#91;&#95;&#124;&#126;");
    assert_eq!(md_esc(None, true), "");
}

#[test]
fn xml_escape_quotes() {
    assert_eq!(xml_esc(Some("<'\"&>")), "&lt;&apos;&quot;&amp;&gt;");
    assert_eq!(xml_esc(None), "");
}

#[test]
fn math_escape_dollars() {
    assert_eq!(math_esc(Some("a$b")), "a<span>$</span>b");
}

#[test]
fn tsv_and_pandas_escapes() {
    assert_eq!(tsv_esc("\"quoted"), "\\\"quoted");
    assert_eq!(tsv_esc("plain"), "plain");
    assert_eq!(pandas_esc("a\tb\"c"), "a b\u{1}\"c");
}

#[test]
fn clean_names_and_reserved_words() {
    assert_eq!(clean_name("type"), "typ");
    assert_eq!(clean_name("9lives"), "x9lives");
    assert_eq!(clean_name("a-b c"), "a_b_c");
    assert_eq!(clean_name("or"), "or_");
    assert!(is_clean(Some("abc_1")));
    assert!(!is_clean(Some("1abc")));
    assert!(!is_clean(None));
}

#[test]
fn integers_are_recognised() {
    assert!(is_int("-12"));
    assert!(is_int("+7"));
    assert!(!is_int("1.5"));
    assert!(!is_int(""));
}

#[test]
fn range_specification_round_trip() {
    let set = set_from_spec("1-3,7,10-9").unwrap();
    assert_eq!(set, vec![1, 2, 3, 7, 9, 10]);
    let ranges = ranges_from_set(&set);
    assert_eq!(ranges, vec![(1, 3), (7, 7), (9, 10)]);
    let text = spec_from_ranges(&ranges);
    assert_eq!(text, "1-3,7,9-10");
    assert_eq!(set_from_spec(&text).unwrap(), set);
}

#[test]
fn invalid_range_specification() {
    assert_eq!(set_from_spec("1,,2"), Err(CfError::InvalidSpec("1,,2".to_string())));
    assert_eq!(set_from_spec("1-2-3"), Err(CfError::InvalidSpec("1-2-3".to_string())));
    assert_eq!(set_from_spec("x"), Err(CfError::InvalidSpec("x".to_string())));
}

#[test]
fn runs_of_an_unsorted_list() {
    assert_eq!(ranges_from_list(&[3, 4, 1, 2, 2]), vec![(3, 4), (1, 2), (2, 2)]);
    assert_eq!(
        spec_from_ranges_logical(&[(1, 1), (2, 5)]),
        vec![LogicalRange::Single(1), LogicalRange::Range(2, 5)]
    );
}
