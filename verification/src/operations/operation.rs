//! Insertions and deletions of strings at character indices of a rope.
use vstd::prelude::*;

use crate::errors::SyncLibError;
use crate::rope::{rope_chars, rope_error_message, rope_try_insert, rope_try_remove};
use crate::text::{char_count, concat3, concat_strings, decimal, decimal_string, unsigned_string};
use vstd::wrapping::i64_specs;
use vstd::wrapping::usize_specs::{wrapping_add, wrapping_sub};

verus! {

/// Represents a change that can be applied to a text document held in a
/// `ropey::Rope`. Operations are mainly expected to be created by
/// `OperationSequence`.
#[derive(Debug, Clone, PartialEq, Eq, Hash)]
pub enum Operation {
    Insert { index: usize, text: String },
    Delete { index: usize, deleted_character_count: usize, deleted_text: Option<String> },
}

/// The mathematical value of an `Operation`.
pub enum OpView {
    Insert { index: usize, text: Seq<char> },
    Delete { index: usize, count: usize, deleted_text: Option<Seq<char>> },
}

impl View for Operation {
    type V = OpView;

    open spec fn view(&self) -> OpView {
        match self {
            Operation::Insert { index, text } => OpView::Insert { index: *index, text: text@ },
            Operation::Delete { index, deleted_character_count, deleted_text } => OpView::Delete {
                index: *index,
                count: *deleted_character_count,
                deleted_text: match deleted_text {
                    Some(t) => Some(t@),
                    None => None,
                },
            },
        }
    }
}

/// The view of an optional operation.
pub open spec fn opt_view(op: Option<Operation>) -> Option<OpView> {
    match op {
        Some(o) => Some(o@),
        None => None,
    }
}

/// The index of the first character that the operation affects.
pub open spec fn op_index(op: OpView) -> usize {
    match op {
        OpView::Insert { index, .. } => index,
        OpView::Delete { index, .. } => index,
    }
}

/// The number of affected characters.
pub open spec fn op_len(op: OpView) -> int {
    match op {
        OpView::Insert { text, .. } => text.len() as int,
        OpView::Delete { count, .. } => count as int,
    }
}

/// The operation's length fits in a `usize`.
pub open spec fn op_wf(op: OpView) -> bool {
    op_len(op) <= usize::MAX
}

/// The index of the last affected character (`start + len - 1`, wrapping
/// around as in an optimised build).
pub open spec fn op_end(op: OpView) -> usize {
    wrapping_sub(wrapping_add(op_index(op), op_len(op) as usize), 1)
}

/// The length as the merge arithmetic sees it (`len() as i64`).
pub open spec fn len64(op: OpView) -> i64 {
    (op_len(op) as usize) as i64
}

/// `op` with its index replaced by `index`.
pub open spec fn op_with_index(op: OpView, index: usize) -> OpView {
    match op {
        OpView::Insert { text, .. } => OpView::Insert { index, text },
        OpView::Delete { count, deleted_text, .. } => OpView::Delete { index, count, deleted_text },
    }
}

/// What `Operation::create_delete` gives.
pub open spec fn delete_of(index: usize, count: usize) -> Option<OpView> {
    if count == 0 {
        None
    } else {
        Some(OpView::Delete { index, count, deleted_text: None })
    }
}

/// The index `index + offset` computed in `i64`.
pub open spec fn shifted_index(index: usize, offset: i64) -> i64 {
    i64_specs::wrapping_add(index as i64, offset)
}

/// Whether an `i64` is a valid `usize`.
pub open spec fn fits_usize(x: i64) -> bool {
    0 <= x && x <= usize::MAX
}

/// The message of the error for a shifted index that is negative.
pub open spec fn negative_index_message(index: i64) -> Seq<char> {
    "Index "@ + decimal(index as int) + " is negative but operations must have a non-negative index"@
}

/// What applying `op` to a text holding `chars` gives: the new text, or
/// nothing when the operation does not fit the text.
pub open spec fn applied_to(op: OpView, chars: Seq<char>) -> Option<Seq<char>> {
    match op {
        OpView::Insert { index, text } => if index <= chars.len() {
            Some(chars.take(index as int) + text + chars.skip(index as int))
        } else {
            None
        },
        OpView::Delete { index, count, .. } => {
            let end = wrapping_add(index, count);
            if index <= end && end <= chars.len() {
                Some(chars.take(index as int) + chars.skip(end as int))
            } else {
                None
            }
        },
    }
}

/// How an operation reads in messages.
pub open spec fn op_description(op: OpView) -> Seq<char> {
    match op {
        OpView::Insert { index, text } => "<insert '"@ + text + "' from index "@ + decimal(
            index as int,
        ) + ">"@,
        OpView::Delete { index, count, .. } => "<delete "@ + decimal(count as int)
            + " characters () from index "@ + decimal(index as int) + ">"@,
    }
}

impl Operation {
    /// How the operation reads in messages.
    pub fn describe(&self) -> (s: String)
        ensures
            s@ == op_description(self@),
    {
        proof {
            reveal_strlit("<insert '");
            reveal_strlit("' from index ");
            reveal_strlit("<delete ");
            reveal_strlit(" characters () from index ");
            reveal_strlit(">");
        }
        match self {
            Operation::Insert { index, text } => {
                let head = concat3("<insert '", text, "' from index ");
                let body = concat_strings(&head, &unsigned_string(*index));
                let s = concat_strings(&body, &">".to_string());
                assert(s@ =~= op_description(self@));
                s
            },
            Operation::Delete { index, deleted_character_count, .. } => {
                let head = concat3(
                    "<delete ",
                    &unsigned_string(*deleted_character_count),
                    " characters () from index ",
                );
                let body = concat_strings(&head, &unsigned_string(*index));
                let s = concat_strings(&body, &">".to_string());
                assert(s@ =~= op_description(self@));
                s
            },
        }
    }
    /// Creates an insert operation with the given index and text.
    /// If the text is empty (meaning that the operation would be a no-op),
    /// returns None.
    pub fn create_insert(index: usize, text: String) -> (r: Option<Self>)
        ensures
            text@.len() == 0 ==> r is None,
            text@.len() > 0 ==> opt_view(r) == Some(OpView::Insert { index, text: text@ }),
    {
        if char_count(&text) == 0 {
            return None;
        }
        Some(Operation::Insert { index, text })
    }

    /// Creates a delete operation with the given index and number of
    /// to-be-deleted characters. If the operation would delete 0 (meaning that
    /// the operation would be a no-op), returns None.
    pub fn create_delete(index: usize, deleted_character_count: usize) -> (r: Option<Self>)
        ensures
            opt_view(r) == delete_of(index, deleted_character_count),
    {
        if deleted_character_count == 0 {
            return None;
        }
        Some(Operation::Delete { index, deleted_character_count, deleted_text: None })
    }

    /// Creates a delete operation that remembers the text it deletes.
    pub fn create_delete_with_text(index: usize, text: String) -> (r: Option<Self>)
        ensures
            text@.len() == 0 ==> r is None,
            text@.len() > 0 ==> opt_view(r) == Some(
                OpView::Delete { index, count: text@.len() as usize, deleted_text: Some(text@) },
            ),
    {
        let count = char_count(&text);
        if count == 0 {
            return None;
        }
        Some(Operation::Delete { index, deleted_character_count: count, deleted_text: Some(text) })
    }

    /// Tries to apply the operation to the given rope: an insert inserts its
    /// text at its index, a delete removes its characters.
    ///
    /// # Errors
    ///
    /// Returns an `OperationApplicationError` if the operation does not fit
    /// the text, leaving the rope as it is.
    pub fn apply(&self, rope_text: &mut ropey::Rope) -> (r: Result<(), SyncLibError>)
        ensures
            applied_to(self@, rope_chars(*old(rope_text))) matches Some(chars) ==> r is Ok
                && rope_chars(*final(rope_text)) == chars,
            applied_to(self@, rope_chars(*old(rope_text))) is None ==> (r matches Err(
                SyncLibError::OperationApplicationError(_),
            ) && rope_chars(*final(rope_text)) == rope_chars(*old(rope_text))),
    {
        let result = match self {
            Operation::Insert { index, text } => rope_try_insert(rope_text, *index, text.as_str()),
            Operation::Delete { index, deleted_character_count, .. } => rope_try_remove(
                rope_text,
                *index,
                index.wrapping_add(*deleted_character_count),
            ),
        };
        match result {
            Ok(()) => Ok(()),
            Err(error) => {
                let reason = rope_error_message(&error);
                let prefix = match self {
                    Operation::Insert { .. } => "Failed to insert text: ",
                    Operation::Delete { .. } => "Failed to remove text: ",
                };
                Err(SyncLibError::OperationApplicationError(concat3(prefix, &reason, "")))
            },
        }
    }

    /// Returns the index of the first character that the operation affects.
    pub fn start_index(&self) -> (r: usize)
        ensures
            r == op_index(self@),
    {
        match self {
            Operation::Insert { index, .. } => *index,
            Operation::Delete { index, .. } => *index,
        }
    }

    /// Returns the index of the last character that the operation affects.
    pub fn end_index(&self) -> (r: usize)
        ensures
            r == op_end(self@),
    {
        self.start_index().wrapping_add(self.len()).wrapping_sub(1)
    }

    /// Returns the range of indices of characters that the operation
    /// affects, inclusive.
    pub fn range(&self) -> (r: core::ops::RangeInclusive<usize>)
        ensures
            r@.start == op_index(self@),
            r@.end == op_end(self@),
            !r@.exhausted,
    {
        core::ops::RangeInclusive::new(self.start_index(), self.end_index())
    }

    /// Returns the number of affected characters.
    pub fn len(&self) -> (n: usize)
        ensures
            n == op_len(self@),
    {
        match self {
            Operation::Insert { text, .. } => char_count(text),
            Operation::Delete { deleted_character_count, .. } => *deleted_character_count,
        }
    }

    /// The operation cannot be empty: operations are only created with at
    /// least one affected character.
    pub fn is_empty(&self) -> (b: bool)
        ensures
            !b,
    {
        false
    }

    /// Clones the operation while updating the index.
    pub fn with_index(&self, index: usize) -> (r: Self)
        ensures
            r@ == op_with_index(self@, index),
    {
        match self {
            Operation::Insert { text, .. } => Operation::Insert { index, text: text.clone() },
            Operation::Delete { deleted_character_count, deleted_text, .. } => Operation::Delete {
                index,
                deleted_character_count: *deleted_character_count,
                deleted_text: match deleted_text {
                    Some(t) => Some(t.clone()),
                    None => None,
                },
            },
        }
    }

    /// Clones the operation while shifting the index by the given offset.
    /// The offset can be negative but the resulting index must be
    /// non-negative.
    ///
    /// # Errors
    ///
    /// Returns a `NegativeOperationIndexError` if the shifted index is not a
    /// valid index.
    pub fn with_shifted_index(&self, offset: i64) -> (r: Result<Self, SyncLibError>)
        ensures
            fits_usize(shifted_index(op_index(self@), offset)) ==> (r matches Ok(op) && op@
                == op_with_index(self@, shifted_index(op_index(self@), offset) as usize)),
            !fits_usize(shifted_index(op_index(self@), offset)) ==> (r matches Err(
                SyncLibError::NegativeOperationIndexError(message),
            ) && message@ == negative_index_message(shifted_index(op_index(self@), offset))),
    {
        let index = (self.start_index() as i64).wrapping_add(offset);
        if 0 <= index && index as u64 <= usize::MAX as u64 {
            Ok(self.with_index(index as usize))
        } else {
            let number = decimal_string(index);
            Err(
                SyncLibError::NegativeOperationIndexError(
                    concat3(
                        "Index ",
                        &number,
                        " is negative but operations must have a non-negative index",
                    ),
                ),
            )
        }
    }
}

} // verus!
