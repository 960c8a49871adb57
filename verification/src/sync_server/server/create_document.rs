//! Creating a document: its parameters and what the server does with the
//! content it is sent.
use vstd::prelude::*;

use crate::operation_transformation::edited_text::lemma_word_count_fits;
use crate::sync_lib::{merge, merged_document};

verus! {

/// The path parameters of creating a document.
#[derive(Debug, Clone, PartialEq)]
pub struct PathParams {
    pub vault_id: String,
}

/// What creating a document at a path does.
pub enum CreateOutcome {
    /// A live document at the path already holds the content: nothing is
    /// stored, and that document is the answer.
    Unchanged,
    /// A live document at the path holds other content: a new version of it,
    /// update `vault_update_id` of the vault, holds this merge of its content
    /// with the new one, from an empty parent.
    Merged { content: Vec<u8>, vault_update_id: i64 },
    /// No live document is at the path: a new document holds the content, as
    /// update `vault_update_id` of the vault.
    Created { vault_update_id: i64 },
}

/// Whether two byte strings are the same.
pub fn same_bytes(a: &[u8], b: &[u8]) -> (r: bool)
    ensures
        r == (a@ == b@),
{
    if a.len() != b.len() {
        return false;
    }
    let mut i: usize = 0;
    while i < a.len()
        invariant
            a@.len() == b@.len(),
            0 <= i <= a@.len(),
            forall|k: int| 0 <= k < i ==> a@[k] == b@[k],
        decreases a.len() - i,
    {
        if a[i] != b[i] {
            return false;
        }
        i = i + 1;
    }
    assert(a@ =~= b@);
    true
}

/// What creating a document with `content` does, where `latest` is the
/// content of the latest version at its path and `latest_is_deleted` says
/// whether that version deletes the document, and the last update of the
/// vault is `last_update_id`.
pub fn create_outcome(
    latest: Option<&[u8]>,
    latest_is_deleted: bool,
    last_update_id: i64,
    content: &[u8],
) -> (r: CreateOutcome)
    requires
        last_update_id < i64::MAX,
    ensures
        match latest {
            Some(existing) => if latest_is_deleted {
                r is Created
            } else if existing@ == content@ {
                r is Unchanged
            } else {
                r matches CreateOutcome::Merged { content: m, .. } && merged_document(
                    Seq::empty(),
                    existing@,
                    content@,
                    m@,
                )
            },
            None => r is Created,
        },
        r matches CreateOutcome::Merged { vault_update_id, .. } ==> vault_update_id == last_update_id
            + 1,
        r matches CreateOutcome::Created { vault_update_id } ==> vault_update_id == last_update_id + 1,
{
    let vault_update_id = last_update_id + 1;
    match latest {
        Some(existing) => {
            if latest_is_deleted {
                CreateOutcome::Created { vault_update_id }
            } else if same_bytes(existing, content) {
                CreateOutcome::Unchanged
            } else {
                let empty: Vec<u8> = Vec::new();
                proof {
                    lemma_word_count_fits(vstd::utf8::decode_utf8(empty@));
                    assert(existing.len() == existing@.len() && content.len() == content@.len());
                }
                CreateOutcome::Merged {
                    content: merge(empty.as_slice(), existing, content),
                    vault_update_id,
                }
            }
        },
        None => CreateOutcome::Created { vault_update_id },
    }
}

} // verus!
