use slbl::site::{gap, gloss_anchor, kind_label, label, locate, macro_name, one_line, attr_values, Line};

#[test]
fn indentation_does_not_affect_a_match() {
    let expansion = "fn main() {\n    if x {\n        go();\n    }\n}\n";
    let snippet = "if x {\n    go();\n}";
    assert_eq!(locate(expansion, snippet), Some((1, 3)));
}

#[test]
fn a_changed_token_does_not_match() {
    let expansion = "fn main() {\n    go_away();\n}\n";
    assert_eq!(locate(expansion, "go();"), None);
}

#[test]
fn surrounding_blank_lines_are_ignored() {
    let expansion = "a;\nb;\nc;\n";
    assert_eq!(locate(expansion, "\n\nb;\nc;\n\n"), Some((1, 2)));
}

#[test]
fn a_run_must_be_contiguous() {
    let expansion = "a;\nb;\nc;\n";
    assert_eq!(locate(expansion, "a;\nc;"), None);
}

#[test]
fn labels_anchors_and_names() {
    assert_eq!(label(7, 7), "line 7");
    assert_eq!(label(7, 9), "lines 7\u{2013}9");
    assert_eq!(gloss_anchor("syn::DeriveInput"), "syn-DeriveInput");
    assert_eq!(kind_label("TraitItem"), "trait item");
    assert_eq!(kind_label("MacroDef"), "macro def");
    assert_eq!(macro_name("primitive_impl! — one impl, sixteen times"), "primitive_impl!");
    assert_eq!(macro_name("Not a macro"), "Not a macro");
}

#[test]
fn long_prose_is_cut_at_a_word() {
    assert_eq!(one_line("  a\n  b\tc  "), "a b c");
    let long = "word ".repeat(60);
    let out = one_line(&long);
    assert!(out.ends_with('\u{2026}'));
    assert!(out.chars().count() <= 201);
    assert!(out.starts_with("word word"));
}

#[test]
fn attribute_values_are_scanned_in_order() {
    let html = r#"<a href="one.html">x</a><a href="two.html#L3">y</a>"#;
    assert_eq!(attr_values(html, "href=\""), vec!["one.html", "two.html#L3"]);
}

#[test]
fn a_gap_previews_six_lines() {
    let lines: Vec<Line> = (1..=20).map(|n| Line { number: n, html: format!("l{n}") }).collect();
    let b = gap(3, 12, &lines);
    assert!(!b.annotated);
    assert_eq!(b.hidden_lines, 4);
    assert_eq!(b.code.len(), 6);
    assert_eq!(b.code[0].number, 3);
    assert_eq!(b.id, "L3");
    assert_eq!(b.title, "10 lines not yet explained");
    assert_eq!(b.range_label, "lines 3\u{2013}12");
}
