use slbl::vendor::{render_pin, source_id, Pin, Role, Source};

const PIN: &str = r#"
[[source]]
name = "serde_core"
version = "1.0.229"
role = "coverage"
crate_sha256 = "aa"
src_tree_sha256 = "bb"

[[source]]
name = "syn"
version = "3.0.3"
role = "glossary"
crate_sha256 = "cc"
src_tree_sha256 = "dd"
"#;

fn field(t: &toml::Value, key: &str) -> String {
    t.get(key).and_then(|v| v.as_str()).unwrap_or_default().to_string()
}

/// Reads a pin file into the library's type, the way the command-line tool
/// does with its serde copy.
fn pin_of(text: &str) -> Result<Pin, String> {
    let table: toml::Table = toml::from_str(text).map_err(|e| e.to_string())?;
    let list = table
        .get("source")
        .and_then(|v| v.as_array())
        .ok_or_else(|| "missing field `source`".to_string())?;
    let mut sources = Vec::new();
    for t in list {
        let role_name = field(t, "role");
        let role = Role::parse(&role_name).ok_or_else(|| {
            format!("unknown variant `{role_name}`, expected one of `coverage`, `narrative`, `glossary`")
        })?;
        sources.push(Source {
            name: field(t, "name"),
            version: field(t, "version"),
            role,
            crate_sha256: field(t, "crate_sha256"),
            src_tree_sha256: field(t, "src_tree_sha256"),
        });
    }
    Ok(Pin { sources })
}

#[test]
fn the_coverage_source_is_the_primary_one() {
    let pin = pin_of(PIN).unwrap();
    assert_eq!(pin.primary().unwrap().name, "serde_core");
    assert_eq!(pin.get("syn").unwrap().role, Role::Glossary);
    assert_eq!(pin.by_role(Role::Glossary).len(), 1);
}

#[test]
fn source_ids_are_the_vendor_directory_names() {
    let pin = pin_of(PIN).unwrap();
    assert_eq!(pin.primary().unwrap().source_id(), "serde_core-1.0.229");
    // Hyphenated crate names survive: the id is name-version, not a slug.
    assert_eq!(source_id("proc-macro2", "1.0.107"), "proc-macro2-1.0.107");
}

#[test]
fn two_coverage_sources_are_refused() {
    let doubled = PIN.replace("role = \"glossary\"", "role = \"coverage\"");
    let pin = pin_of(&doubled).unwrap();
    let err = pin.primary().unwrap_err().message();
    assert!(err.contains("two coverage sources"), "{err}");
}

/// A role the gates do not know is a parse failure, not a source that
/// quietly gets checked by nothing.
#[test]
fn an_unknown_role_fails_to_parse() {
    let bad = PIN.replace("role = \"glossary\"", "role = \"decorative\"");
    let err = pin_of(&bad).unwrap_err();
    assert!(err.contains("decorative"), "{err}");
    assert!(Role::parse("decorative").is_none());
}

#[test]
fn rendering_a_pin_round_trips() {
    let pin = pin_of(PIN).unwrap();
    let rendered = render_pin(&pin);
    let back = pin_of(&rendered).unwrap();
    assert_eq!(back.sources.len(), 2);
    assert_eq!(back.sources[1].name, "syn");
    assert_eq!(back.sources[1].role, Role::Glossary);
    assert_eq!(back.sources[0].src_tree_sha256, "bb");
}

#[test]
fn a_missing_coverage_source_and_an_unknown_name_are_errors() {
    let none = PIN.replace("role = \"coverage\"", "role = \"narrative\"");
    let pin = pin_of(&none).unwrap();
    assert_eq!(
        pin.primary().unwrap_err().message(),
        "vendor/pin.toml has no source with role = \"coverage\""
    );
    assert_eq!(
        pin.get("quote").unwrap_err().message(),
        "no source named \"quote\" in vendor/pin.toml"
    );
}
