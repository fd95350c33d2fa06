//! Plain-text rendering of the document tree.
use vstd::prelude::*;
use crate::markdown::ast::{Document, doc_plain};

verus! {

/// The document's plain text, with all formatting and custom elements
/// stripped: what embedding and full-text search work on.
pub fn render_plain(doc: &Document) -> (r: String)
    ensures
        r@ == doc_plain(doc.view_blocks()),
{
    doc.plain_text()
}

} // verus!
