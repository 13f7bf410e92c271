//! Link extraction: the href attribute values of the anchor elements of an
//! HTML document, through the `select` crate.

use vstd::prelude::*;

verus! {

/// The href attribute values of the anchor (`a`) elements of an HTML
/// document, in document order; entries may be empty or invalid hrefs.
pub uninterp spec fn anchor_hrefs(body: Seq<char>) -> Seq<Seq<char>>;

/// Relies on `select::document::Document::from`, `Document::find` with the
/// `Name("a")` predicate, and `Node::attr`: HTML parsing is deterministic,
/// so the extracted hrefs are a function of the document text alone.
#[verifier::external_body]
pub(crate) fn extract_links(body: &str) -> (r: Vec<String>)
    ensures
        r.deep_view() == anchor_hrefs(body@),
{
    select::document::Document::from(body)
        .find(select::predicate::Name("a"))
        .filter_map(|n| n.attr("href"))
        .map(String::from)
        .collect()
}

} // verus!
