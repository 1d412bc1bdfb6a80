use slbl::index::{checksum_from, index_checksum, lowercase_ascii, IndexEntry, IndexError};

const BODY: &str = "{\"name\":\"serde_core\",\"vers\":\"1.0.228\",\"cksum\":\"AA11\",\"yanked\":false}\n\
\n\
{\"name\":\"serde_core\",\"vers\":\"1.0.229\",\"cksum\":\"Bb22\",\"yanked\":false}\n\
{\"name\":\"serde_core\",\"vers\":\"1.0.230\",\"cksum\":\"cc33\",\"yanked\":true}\n";

#[test]
fn the_checksum_of_a_published_version_is_read_lowercased() {
    assert_eq!(index_checksum(BODY, "1.0.229").unwrap(), "bb22");
    assert_eq!(index_checksum(BODY, "1.0.228").unwrap(), "aa11");
}

#[test]
fn a_yanked_version_is_refused() {
    assert!(matches!(index_checksum(BODY, "1.0.230"), Err(IndexError::Yanked)));
}

#[test]
fn an_unpublished_version_lists_the_published_ones() {
    match index_checksum(BODY, "9.9.9") {
        Err(IndexError::NoVersion { known }) => assert_eq!(known, vec!["1.0.228", "1.0.229", "1.0.230"]),
        other => panic!("{other:?}"),
    }
}

#[test]
fn a_line_that_is_not_json_is_an_error() {
    assert!(matches!(index_checksum("not json\n", "1.0.0"), Err(IndexError::BadJson)));
}

#[test]
fn an_entry_without_a_checksum_is_an_error() {
    let entries = vec![Some(IndexEntry { vers: "1.0.0".to_string(), yanked: None, cksum: None })];
    assert!(matches!(checksum_from(&entries, "1.0.0"), Err(IndexError::NoChecksum)));
    assert_eq!(lowercase_ascii("ABC-def-É"), "abc-def-É");
}
