//! Markdown rendering for entry bodies.

use vstd::prelude::*;

verus! {

/// The markup a markdown text renders to.
pub uninterp spec fn html_of(md: Seq<char>) -> Seq<char>;

/// Renders a markdown body to markup for embedding.
///
/// Relies on `pulldown_cmark::Parser::new` and
/// `pulldown_cmark::html::push_html`: the markup depends on the
/// markdown text alone, and an empty text renders to nothing.
#[verifier::external_body]
pub fn markdown_to_html(markdown: &str) -> (r: String)
    ensures
        r@ == html_of(markdown@),
        markdown@.len() == 0 ==> r@.len() == 0,
{
    let parser = pulldown_cmark::Parser::new(markdown);
    let mut html_output = String::new();
    pulldown_cmark::html::push_html(&mut html_output, parser);
    html_output
}

} // verus!
