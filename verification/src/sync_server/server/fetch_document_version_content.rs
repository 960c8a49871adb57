//! The parameters of fetching the content of a document version.
use vstd::prelude::*;

verus! {

/// The path parameters of fetching the content of a document version.
#[derive(Debug, Clone, PartialEq)]
pub struct FetchDocumentVersionContentPathParams {
    pub vault_id: String,
    pub document_id: String,
    pub vault_update_id: i64,
}

} // verus!
