//! What the page view shows: a quote rendered with its tags, or a redirect to
//! the page of a chosen quote.

use vstd::prelude::*;

use crate::quote::Quote;

verus! {

/// The query of the page view: a quote identifier, or a comma-separated theme.
#[derive(Clone, Debug)]
pub struct GetQuoteParams {
    pub id: Option<String>,
    pub tags: Option<String>,
}

/// The page of one quote: the quote, the stylesheet it links, and its tags
/// joined for display.
#[derive(Clone, Debug)]
pub struct IndexTemplate {
    pub quote: Quote,
    pub stylesheet: String,
    pub tags: String,
}

/// The stylesheet that every page links.
pub open spec fn stylesheet_path() -> Seq<char> {
    "/quote.css"@
}

impl IndexTemplate {
    /// The page of `quote` with its tags `tags`, linking the stylesheet.
    pub fn new(quote: Quote, tags: String) -> (r: Self)
        ensures
            r.quote@ == quote@,
            r.tags@ == tags@,
            r.stylesheet@ == stylesheet_path(),
    {
        IndexTemplate { quote, stylesheet: String::from_str("/quote.css"), tags }
    }
}

/// The answer of the page view.
#[derive(Clone, Debug)]
pub enum Page {
    /// Render this page.
    Show(IndexTemplate),
    /// Send the browser to this location.
    Redirect(String),
}

/// The location of the page of quote `id`.
pub open spec fn page_uri(id: Seq<char>) -> Seq<char> {
    "/?id="@ + id
}

/// The location of the page of quote `id`, `/?id=<id>`.
pub fn redirect_uri(id: &str) -> (r: String)
    ensures
        r@ == page_uri(id@),
{
    String::from_str("/?id=").concat(id)
}

} // verus!
