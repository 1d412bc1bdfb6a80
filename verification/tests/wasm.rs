use slbl::wasm::{cli_version_in, pinned_in, PinnedError};

#[test]
fn an_exact_pin_is_read() {
    let manifest = "[package]\nname = \"playground\"\n\n[dependencies]\n  wasm-bindgen = \"=0.2.100\"\n";
    assert_eq!(pinned_in(manifest), Ok("0.2.100".to_string()));
}

#[test]
fn a_loose_pin_is_refused_with_its_line() {
    let manifest = "[dependencies]\r\nwasm-bindgen = \"0.2\"  \r\n";
    assert_eq!(
        pinned_in(manifest),
        Err(PinnedError::NotExact { line: "wasm-bindgen = \"0.2\"".to_string() })
    );
}

#[test]
fn the_first_line_naming_the_crate_decides() {
    let manifest = "wasm-bindgen = { version = \"=0.2.99\" }\nwasm-bindgen = \"=0.2.100\"\n";
    assert_eq!(pinned_in(manifest), Ok("0.2.99".to_string()));
}

#[test]
fn a_manifest_without_the_crate_has_no_pin() {
    assert_eq!(pinned_in("[dependencies]\nserde = \"1\"\n"), Err(PinnedError::NoDependency));
    assert_eq!(pinned_in(""), Err(PinnedError::NoDependency));
}

#[test]
fn the_cli_version_is_the_second_word() {
    assert_eq!(cli_version_in("wasm-bindgen 0.2.100\n"), Some("0.2.100".to_string()));
    assert_eq!(cli_version_in("  wasm-bindgen\t 0.2.99 extra"), Some("0.2.99".to_string()));
    assert_eq!(cli_version_in("wasm-bindgen\n"), None);
    assert_eq!(cli_version_in(""), None);
}
