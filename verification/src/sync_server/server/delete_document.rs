//! Deleting a document: its parameters and the version that marks it deleted.
use vstd::prelude::*;

use super::update_document::copy_bytes;
use crate::sync_server::utils::{join_with, sanitize_path, sanitized_part, split_on};

verus! {

/// The path parameters of deleting a document.
#[derive(Debug, Clone, PartialEq)]
pub struct DeleteDocumentPathParams {
    pub vault_id: String,
    pub document_id: String,
}

/// The version that deleting a document stores.
pub struct DeletedVersion {
    /// The content of the latest version, kept as it was.
    pub content: Vec<u8>,
    /// The update of the vault that the deletion is.
    pub vault_update_id: i64,
    /// The sanitised path the request names.
    pub relative_path: String,
    /// Always set: the version marks the document deleted.
    pub is_deleted: bool,
}

/// The version that deleting a document stores, where `latest` is the
/// content of its latest version (none where it never existed), the last
/// update of the vault is `last_update_id`, and the request names
/// `relative_path`: the latest content, as the next update of the vault, at
/// the sanitised path, marked deleted.
pub fn delete_outcome(latest: Option<&[u8]>, last_update_id: i64, relative_path: &str) -> (r:
    DeletedVersion)
    requires
        last_update_id < i64::MAX,
    ensures
        r.content@ == match latest {
            Some(c) => c@,
            None => Seq::<u8>::empty(),
        },
        r.vault_update_id == last_update_id + 1,
        r.relative_path@ == join_with(
            split_on(relative_path@, '/').map_values(|p: Seq<char>| sanitized_part(p)),
            '/',
        ),
        r.is_deleted,
{
    let content = match latest {
        Some(c) => copy_bytes(c),
        None => Vec::new(),
    };
    DeletedVersion {
        content,
        vault_update_id: last_update_id + 1,
        relative_path: sanitize_path(relative_path),
        is_deleted: true,
    }
}

} // verus!
