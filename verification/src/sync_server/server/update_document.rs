//! Updating a document: its parameters and what the server does with the
//! content and path it is sent.
use vstd::prelude::*;

use super::create_document::same_bytes;
use crate::operation_transformation::edited_text::word_count_fits;
use crate::sync_lib::{merge, merged_document};
use crate::text::same_text;

verus! {

/// The path parameters of updating a document.
#[derive(Debug, Clone, PartialEq)]
pub struct PathParams {
    pub vault_id: String,
    pub document_id: String,
}

/// What updating a document does.
pub enum UpdateOutcome {
    /// The latest version already has the content and the path: nothing is
    /// stored, and that version is the answer.
    Unchanged,
    /// A new version is stored with `content`, as update `vault_update_id`
    /// of the vault and deleted where the latest version is. It takes the
    /// requested path (made unique) where `takes_requested_path`, and keeps
    /// the latest version's path otherwise; `merging` says whether the stored
    /// content differs from the requested one.
    Stored {
        content: Vec<u8>,
        vault_update_id: i64,
        is_deleted: bool,
        takes_requested_path: bool,
        merging: bool,
    },
}

/// What updating a document to `content` at `sanitized_path` does, from the
/// version with `parent_content` at `parent_path` that the client last saw,
/// where the latest version holds `latest_content` at `latest_path` and is
/// deleted or not by `latest_is_deleted`, and the last update of the vault
/// is `last_update_id`.
/// Contents of a `mergeable` file type are merged three ways; other
/// contents replace the latest one. Only a client that saw the latest path
/// can change it.
pub fn update_outcome(
    parent_content: &[u8],
    parent_path: &str,
    latest_content: &[u8],
    latest_path: &str,
    latest_is_deleted: bool,
    last_update_id: i64,
    content: &[u8],
    sanitized_path: &str,
    mergeable: bool,
) -> (r: UpdateOutcome)
    requires
        last_update_id < i64::MAX,
        mergeable && vstd::utf8::valid_utf8(parent_content@) ==> word_count_fits(
            vstd::utf8::decode_utf8(parent_content@),
        ),
        mergeable ==> parent_content@.len() + latest_content@.len() <= usize::MAX,
        mergeable ==> parent_content@.len() + content@.len() <= usize::MAX,
    ensures
        (latest_content@ == content@ && sanitized_path@ == latest_path@) <==> r is Unchanged,
        r matches UpdateOutcome::Stored { takes_requested_path, .. } ==> takes_requested_path == (
        parent_path@ == latest_path@),
        r matches UpdateOutcome::Stored { vault_update_id, is_deleted, .. } ==> vault_update_id
            == last_update_id + 1 && is_deleted == latest_is_deleted,
        r matches UpdateOutcome::Stored { content: stored, merging, .. } ==> merging == (stored@
            != content@),
        r matches UpdateOutcome::Stored { content: stored, .. } ==> !mergeable ==> stored@
            == content@,
        r matches UpdateOutcome::Stored { content: stored, .. } ==> mergeable ==> merged_document(
            parent_content@,
            latest_content@,
            content@,
            stored@,
        ),
{
    if same_bytes(content, latest_content) && same_text(sanitized_path, latest_path) {
        return UpdateOutcome::Unchanged;
    }
    let stored = if mergeable {
        merge(parent_content, latest_content, content)
    } else {
        copy_bytes(content)
    };
    let merging = !same_bytes(stored.as_slice(), content);
    let takes_requested_path = same_text(parent_path, latest_path);
    UpdateOutcome::Stored {
        content: stored,
        vault_update_id: last_update_id + 1,
        is_deleted: latest_is_deleted,
        takes_requested_path,
        merging,
    }
}

/// A copy of the bytes.
pub(crate) fn copy_bytes(bytes: &[u8]) -> (v: Vec<u8>)
    ensures
        v@ == bytes@,
{
    let mut v: Vec<u8> = Vec::new();
    let mut i: usize = 0;
    while i < bytes.len()
        invariant
            0 <= i <= bytes@.len(),
            v@ == bytes@.take(i as int),
        decreases bytes.len() - i,
    {
        v.push(bytes[i]);
        assert(bytes@.take(i + 1) =~= bytes@.take(i as int).push(bytes@[i as int]));
        i = i + 1;
    }
    assert(bytes@.take(i as int) =~= bytes@);
    v
}

} // verus!
