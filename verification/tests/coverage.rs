use slbl::coverage::{declares, fmt_gap, summarize};

#[test]
fn rustdoc_naming_an_item_is_not_declaring_it() {
    let doc = "\
/// Error returned when a Syn parser cannot parse the input tokens.
///
/// # Error reporting
///
/// See the documentation for [`Error::new`].";
    assert!(!declares(doc, "Error"));
}

#[test]
fn a_definition_is_a_declaration() {
    assert!(declares(
        "pub struct Error {\n    messages: Vec<M>,\n}",
        "Error"
    ));
    assert!(declares(
        "#[macro_export]\nmacro_rules! quote_spanned {",
        "quote_spanned"
    ));
    assert!(declares("pub enum Data {", "Data"));
    assert!(declares(
        "pub fn parse2<T>(tokens: TokenStream) -> Result<T> {",
        "parse2"
    ));
    assert!(declares(
        "pub type ParseStream<'a> = &'a ParseBuffer<'a>;",
        "ParseStream"
    ));
}

#[test]
fn a_re_export_declares() {
    assert!(declares("pub use proc_macro2::Ident;", "Ident"));
}

#[test]
fn a_longer_name_does_not_satisfy_a_shorter_one() {
    assert!(!declares("pub struct TokenStream {", "Token"));
    assert!(declares("pub struct TokenStream {", "TokenStream"));
}

#[test]
fn a_commented_out_definition_does_not_declare() {
    assert!(!declares("// pub struct Error {", "Error"));
}

#[test]
fn gaps_are_written_as_lines_or_ranges() {
    assert_eq!(fmt_gap(7, 7), "7");
    assert_eq!(fmt_gap(7, 12), "7-12");
}

#[test]
fn long_gap_lists_are_summarized() {
    let few: Vec<String> = vec!["1".into(), "3-4".into()];
    assert_eq!(summarize(&few), "1, 3-4");
    let many: Vec<String> = (1..=7).map(|i| i.to_string()).collect();
    assert_eq!(summarize(&many), "1, 2, 3, 4, +3 more");
}

#[test]
fn a_longer_re_export_does_not_satisfy_a_shorter_name() {
    assert!(!declares("pub use proc_macro2::TokenStream;", "Stream"));
    assert!(declares("pub use proc_macro2::TokenStream;", "TokenStream"));
    assert!(declares("pub use Ident;", "Ident"));
}

#[test]
fn derive_names_parse() {
    use_derive_kind();
}

fn use_derive_kind() {
    assert!(matches!(slbl::schema::DeriveKind::parse("Serialize"), Some(slbl::schema::DeriveKind::Serialize)));
    assert!(matches!(slbl::schema::DeriveKind::parse("Deserialize"), Some(slbl::schema::DeriveKind::Deserialize)));
    assert!(slbl::schema::DeriveKind::parse("serialize").is_none());
}
