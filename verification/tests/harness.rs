use slbl::harness::{dep_req, manifest_path};

const MANIFEST_TEXT: &str = r#"[dependencies]
proc-macro2 = { version = "=1.0.107", default-features = false }
syn = { version = "=3.0.3", default-features = false, features = [
    "derive",
] }
prettyplease = "0.3"

[build-dependencies]
serde = { version = "1", features = ["derive"] }
"#;

#[test]
fn both_spellings_of_a_requirement_are_read() {
    assert_eq!(dep_req(MANIFEST_TEXT, "syn").unwrap().1, "=3.0.3");
    assert_eq!(dep_req(MANIFEST_TEXT, "proc-macro2").unwrap().1, "=1.0.107");
    assert_eq!(dep_req(MANIFEST_TEXT, "prettyplease").unwrap().1, "0.3");
    assert!(dep_req(MANIFEST_TEXT, "quote").is_none());
}

#[test]
fn a_name_is_not_matched_by_a_prefix() {
    assert_eq!(dep_req(MANIFEST_TEXT, "serde").unwrap().1, "1");
    assert!(dep_req(MANIFEST_TEXT, "serde_core").is_none());
}

#[test]
fn the_requirement_line_index_is_reported() {
    assert_eq!(dep_req(MANIFEST_TEXT, "syn").unwrap().0, 2);
}

#[test]
fn the_harness_manifest_is_under_expand() {
    assert_eq!(manifest_path("/repo"), "/repo/expand/Cargo.toml");
    assert_eq!(manifest_path("/repo/"), "/repo/expand/Cargo.toml");
}
