//! Annotation prose, authored in Markdown, rendered to HTML.
use vstd::prelude::*;

verus! {

/// The HTML that pulldown-cmark renders for a Markdown text, with tables,
/// strikethrough, smart punctuation and footnotes enabled.
pub uninterp spec fn markdown_html(source: Seq<char>) -> Seq<char>;

/// Renders Markdown to HTML through `pulldown_cmark::html::push_html` over a
/// `Parser::new_ext` with tables, strikethrough, smart punctuation and
/// footnotes enabled. Trusted to return `markdown_html` of the source: the
/// rendering is a function of the text and the fixed options alone, and is
/// not restated here.
#[verifier::external_body]
pub fn render(source: &str) -> (html: String)
    ensures
        html@ == markdown_html(source@),
{
    let mut options = pulldown_cmark::Options::empty();
    options.insert(pulldown_cmark::Options::ENABLE_TABLES);
    options.insert(pulldown_cmark::Options::ENABLE_STRIKETHROUGH);
    options.insert(pulldown_cmark::Options::ENABLE_SMART_PUNCTUATION);
    options.insert(pulldown_cmark::Options::ENABLE_FOOTNOTES);
    let parser = pulldown_cmark::Parser::new_ext(source, options);
    let mut out = String::new();
    pulldown_cmark::html::push_html(&mut out, parser);
    out
}

} // verus!
