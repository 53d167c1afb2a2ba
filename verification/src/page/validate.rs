//! What every stored page must have.

use vstd::prelude::*;

use crate::error::{outcome, WikiError, WikiErrorM};
use crate::page::doc::{Document, DocumentM};

verus! {

/// A page needs a title, and a source or blocks.
pub open spec fn checked(d: DocumentM) -> Result<(), WikiErrorM> {
    if d.title.len() == 0 {
        Err(WikiErrorM::Invalid("title cannot be empty"@))
    } else if d.raw_markdown.len() == 0 && d.blocks.len() == 0 {
        Err(WikiErrorM::Invalid("document cannot be empty"@))
    } else {
        Ok(())
    }
}

/// Checks that a page has a title, and a source or blocks.
pub fn validate_document(doc: &Document) -> (r: Result<(), WikiError>)
    ensures
        outcome(r) == checked(doc.deep_view()),
{
    if doc.title.as_str().is_empty() {
        return Err(WikiError::Invalid("title cannot be empty".to_owned()));
    }
    if doc.raw_markdown.as_str().is_empty() && doc.blocks.len() == 0 {
        return Err(WikiError::Invalid("document cannot be empty".to_owned()));
    }
    Ok(())
}

} // verus!
