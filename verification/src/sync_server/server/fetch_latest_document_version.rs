//! The parameters of fetching the latest version of a document.
use vstd::prelude::*;

verus! {

/// The path parameters of fetching the latest version of a document.
#[derive(Debug, Clone, PartialEq)]
pub struct PathParams {
    pub vault_id: String,
    pub relative_path: String,
}

} // verus!
