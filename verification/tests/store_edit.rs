use slbl::store_edit::{rewrite, scan, set_scalar, set_string_array, Edit, EditError, Edits};

const FILE: &str = r#"schema = 1
source = "serde_core-1.0.1"

[[annotation]]
id    = "a-0001"
file  = "src/lib.rs"
lines = "1-9"
title = "First"
kind  = "plumbing"
body = """
A body that talks about itself:

lines = "999"
id    = "not-a-record"
[[annotation]]
"""

[[annotation]]
id    = "a-0002"
file  = "src/lib.rs"
lines = "10"
title = "Second"
kind  = "plumbing"
body = """
Short.
"""
"#;

fn edits(pairs: &[(&str, Edit)]) -> Edits {
    let mut out = Edits::new();
    for (id, e) in pairs {
        out.insert(id.to_string(), e.clone());
    }
    out
}

fn error_names(e: &EditError, id: &str) -> bool {
    match e {
        EditError::NoEditFor { id: x } | EditError::NotInFile { id: x } => x == id,
        _ => false,
    }
}

#[test]
fn keys_inside_a_body_are_prose() {
    let records = scan(FILE).unwrap();
    assert_eq!(records.len(), 2);
    assert_eq!(records[0].id, "a-0001");
    assert_eq!(records[1].id, "a-0002");
    assert_eq!(
        FILE.lines().nth(records[0].lines_at.unwrap()).unwrap(),
        "lines = \"1-9\""
    );
}

#[test]
fn retargeting_touches_only_the_source_and_lines_keys() {
    let (out, outcome) = rewrite(
        FILE,
        "serde_core-1.0.2",
        &edits(&[
            ("a-0001", Edit::Retarget("3-11".into())),
            ("a-0002", Edit::Retarget("12".into())),
        ]),
    )
    .unwrap();
    assert_eq!(outcome.retargeted, 2);
    assert_eq!(outcome.dropped, 0);

    let expected = FILE
        .replace(
            "source = \"serde_core-1.0.1\"",
            "source = \"serde_core-1.0.2\"",
        )
        .replace("lines = \"1-9\"", "lines = \"3-11\"")
        .replacen(
            "lines = \"10\"\ntitle = \"Second\"",
            "lines = \"12\"\ntitle = \"Second\"",
            1,
        );
    assert_eq!(out, expected);
    assert!(out.contains("lines = \"999\""), "the body was left alone");
}

#[test]
fn dropping_a_record_removes_it_whole_and_keeps_its_text() {
    let (out, outcome) = rewrite(
        FILE,
        "serde_core-1.0.2",
        &edits(&[
            ("a-0001", Edit::Drop),
            ("a-0002", Edit::Retarget("1".into())),
        ]),
    )
    .unwrap();
    assert_eq!(outcome.dropped, 1);
    assert!(!out.contains("a-0001"));
    assert!(out.contains("a-0002"));
    assert!(outcome.dropped_text[0]
        .1
        .contains("A body that talks about itself"));
    assert!(
        out.ends_with("Short.\n\"\"\"\n"),
        "no trailing blank line left behind"
    );
}

#[test]
fn every_record_must_be_accounted_for() {
    let err =
        rewrite(FILE, "x", &edits(&[("a-0001", Edit::Retarget("1".into()))])).unwrap_err();
    assert!(error_names(&err, "a-0002"), "{err:?}");
}

#[test]
fn a_scalar_inside_a_body_is_not_the_key_being_set() {
    let text =
        "source = \"old\"\n\n[[unit]]\nbody = \"\"\"\nsource = \"quoted in prose\"\n\"\"\"\n";
    let out = set_scalar(text, "source", "new").unwrap();
    assert!(out.starts_with("source = \"new\"\n"));
    assert!(out.contains("source = \"quoted in prose\""));
}

#[test]
fn an_array_is_replaced_wholesale() {
    let text = "# a comment\nreading_order = [\n    \"a\",\n    \"b\",\n]\n\nschema = 1\n";
    let out = set_string_array(text, "reading_order", &vec!["b".into(), "c".into()]).unwrap();
    assert_eq!(
        out,
        "# a comment\nreading_order = [\n    \"b\",\n    \"c\",\n]\n\nschema = 1\n"
    );
}

#[test]
fn an_unknown_id_is_rejected() {
    let err = rewrite(
        FILE,
        "x",
        &edits(&[
            ("a-0001", Edit::Retarget("1".into())),
            ("a-0002", Edit::Retarget("2".into())),
            ("a-0003", Edit::Retarget("3".into())),
        ]),
    )
    .unwrap_err();
    assert!(error_names(&err, "a-0003"), "{err:?}");
}

#[test]
fn a_missing_scalar_is_an_error() {
    let err = set_scalar("schema = 1\n", "source", "new").unwrap_err();
    assert!(matches!(err, EditError::NoKey { ref key } if key == "source"));
}

#[test]
fn a_missing_or_unclosed_array_is_an_error() {
    let err = set_string_array("schema = 1\n", "complete", &Vec::new()).unwrap_err();
    assert!(matches!(err, EditError::NoArray { ref key } if key == "complete"));
    let err = set_string_array("complete = [\n  \"a\",\n", "complete", &Vec::new()).unwrap_err();
    assert!(matches!(err, EditError::ArrayNotClosed { ref key } if key == "complete"));
}

#[test]
fn scan_faults_are_reported_with_their_line() {
    let two = "[[annotation]]\nid = \"x\"\nlines = \"1\"\nlines = \"2\"\n";
    assert!(matches!(scan(two), Err(EditError::TwoLinesKeys { line: 4, ref id }) if id == "x"));
    let bad_id = "[[annotation]]\nid = x\n";
    assert!(matches!(scan(bad_id), Err(EditError::UnparsableId { line: 2 })));
    let no_id = "[[annotation]]\nlines = \"1\"\n";
    assert!(matches!(scan(no_id), Err(EditError::MissingId { line: 1 })));
    let no_lines = "[[annotation]]\nid = \"y\"\n";
    assert!(matches!(scan(no_lines), Err(EditError::MissingLines { ref id }) if id == "y"));
}

#[test]
fn a_later_edit_for_the_same_id_replaces_the_earlier() {
    let e = edits(&[
        ("a-0001", Edit::Drop),
        ("a-0002", Edit::Retarget("5".into())),
        ("a-0001", Edit::Retarget("2-4".into())),
    ]);
    let (out, outcome) = rewrite(FILE, "v", &e).unwrap();
    assert_eq!(outcome.retargeted, 2);
    assert!(out.contains("lines = \"2-4\""));
    assert!(out.contains("lines = \"5\""));
}
