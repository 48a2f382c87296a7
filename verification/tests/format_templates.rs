use context_fabric::format_templates::{collect_formats, render_format_template};

fn pair(a: &str, b: &str) -> (String, String) {
    (a.to_string(), b.to_string())
}

#[test]
fn templates_are_rendered_with_their_placeholders() {
    let (rendered, features) = render_format_template("{lex/g_lex:?} x {");
    assert_eq!(rendered, "{} x {");
    assert_eq!(features, vec![(vec!["lex".to_string(), "g_lex".to_string()], "?".to_string())]);

    let (rendered, features) = render_format_template("a{/b//c}d");
    assert_eq!(rendered, "a{}d");
    assert_eq!(features, vec![(vec!["b".to_string(), "c".to_string()], String::new())]);

    let (rendered, features) = render_format_template("plain } text");
    assert_eq!(rendered, "plain } text");
    assert!(features.is_empty());
}

#[test]
fn formats_are_collected_from_the_configuration() {
    let config = vec![
        pair("fmt:lex", "{lex/g_lex:?} x {"),
        pair("fmt:text-orig-full", "{g_word_utf8}{trailer_utf8}"),
        pair("sectionTypes", "book"),
    ];
    let (formats, features) = collect_formats(&config);
    assert_eq!(formats.len(), 2);
    assert_eq!(formats[0].0, "lex");
    assert_eq!(formats[0].1.template, "{lex/g_lex:?} x {");
    assert_eq!(formats[0].1.rendered_template, "{} x {");
    assert_eq!(formats[1].0, "text-orig-full");
    assert_eq!(formats[1].1.rendered_template, "{}{}");
    assert_eq!(
        formats[1].1.features,
        vec![
            (vec!["g_word_utf8".to_string()], String::new()),
            (vec!["trailer_utf8".to_string()], String::new()),
        ]
    );
    assert_eq!(features, vec!["g_lex", "g_word_utf8", "lex", "trailer_utf8"]);
}
