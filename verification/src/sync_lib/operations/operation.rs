//! Insertions and deletions of strings at character indices of a rope.
use vstd::prelude::*;

use crate::errors::SyncLibError;
use crate::operations::operation::{fits_usize, negative_index_message, shifted_index};
use crate::rope::{rope_chars, rope_error_message, rope_try_insert, rope_try_remove};
use crate::text::{char_count, concat3, concat_strings, decimal, decimal_string, unsigned_string};
use vstd::wrapping::usize_specs::{wrapping_add, wrapping_sub};

verus! {

/// Represents a change that can be applied to a text document held in a
/// `ropey::Rope`. Operations are mainly expected to be created by
/// `OperationSequence`.
#[derive(Debug, Clone, PartialEq, Eq, Hash)]
pub enum Operation {
    Insert { index: usize, text: String },
    Delete { index: usize, deleted_character_count: usize },
}

/// The mathematical value of an `Operation`.
pub enum EditView {
    Insert { index: usize, text: Seq<char> },
    Delete { index: usize, count: usize },
}

impl View for Operation {
    type V = EditView;

    open spec fn view(&self) -> EditView {
        match self {
            Operation::Insert { index, text } => EditView::Insert { index: *index, text: text@ },
            Operation::Delete { index, deleted_character_count } => EditView::Delete {
                index: *index,
                count: *deleted_character_count,
            },
        }
    }
}

/// The index of the first character that the operation affects.
pub open spec fn edit_index(op: EditView) -> usize {
    match op {
        EditView::Insert { index, .. } => index,
        EditView::Delete { index, .. } => index,
    }
}

/// The number of affected characters.
pub open spec fn edit_len(op: EditView) -> int {
    match op {
        EditView::Insert { text, .. } => text.len() as int,
        EditView::Delete { count, .. } => count as int,
    }
}

/// The index of the last affected character (`start + len - 1`, wrapping
/// around as in an optimised build).
pub open spec fn edit_end(op: EditView) -> usize {
    wrapping_sub(wrapping_add(edit_index(op), edit_len(op) as usize), 1)
}

/// `op` with its index replaced by `index`.
pub open spec fn edit_with_index(op: EditView, index: usize) -> EditView {
    match op {
        EditView::Insert { text, .. } => EditView::Insert { index, text },
        EditView::Delete { count, .. } => EditView::Delete { index, count },
    }
}

/// What applying `op` to a text holding `chars` gives, or nothing when the
/// operation does not fit the text.
pub open spec fn edit_applied(op: EditView, chars: Seq<char>) -> Option<Seq<char>> {
    match op {
        EditView::Insert { index, text } => if index <= chars.len() {
            Some(chars.take(index as int) + text + chars.skip(index as int))
        } else {
            None
        },
        EditView::Delete { index, count } => {
            let end = wrapping_add(index, count);
            if index <= end && end <= chars.len() {
                Some(chars.take(index as int) + chars.skip(end as int))
            } else {
                None
            }
        },
    }
}

/// How an operation reads in messages.
pub open spec fn edit_description(op: EditView) -> Seq<char> {
    match op {
        EditView::Insert { index, text } => "Insert '"@ + text + "' from index "@ + decimal(
            index as int,
        ),
        EditView::Delete { index, count } => "Delete "@ + decimal(count as int)
            + " characters index "@ + decimal(index as int),
    }
}

impl Operation {
    /// How the operation reads in messages.
    pub fn describe(&self) -> (s: String)
        ensures
            s@ == edit_description(self@),
    {
        proof {
            reveal_strlit("Insert '");
            reveal_strlit("' from index ");
            reveal_strlit("Delete ");
            reveal_strlit(" characters index ");
        }
        match self {
            Operation::Insert { index, text } => {
                let head = concat3("Insert '", text, "' from index ");
                concat_strings(&head, &unsigned_string(*index))
            },
            Operation::Delete { index, deleted_character_count } => {
                let head = concat3(
                    "Delete ",
                    &unsigned_string(*deleted_character_count),
                    " characters index ",
                );
                concat_strings(&head, &unsigned_string(*index))
            },
        }
    }

    /// Creates an insert operation with the given index and text.
    /// If the text is empty (meaning that the operation would be a no-op),
    /// returns None.
    pub fn create_insert(index: usize, text: &str) -> (r: Result<Option<Self>, SyncLibError>)
        ensures
            text@.len() == 0 ==> r matches Ok(None),
            text@.len() > 0 ==> (r matches Ok(Some(op)) && op@ == EditView::Insert { index, text: text@ }),
    {
        let owned = text.to_string();
        if char_count(&owned) == 0 {
            return Ok(None);
        }
        Ok(Some(Operation::Insert { index, text: owned }))
    }

    /// Creates a delete operation with the given index and number of
    /// to-be-deleted characters. If the operation would delete 0 (meaning that
    /// the operation would be a no-op), returns None.
    pub fn create_delete(index: usize, deleted_character_count: usize) -> (r: Result<
        Option<Self>,
        SyncLibError,
    >)
        ensures
            deleted_character_count == 0 ==> r matches Ok(None),
            deleted_character_count > 0 ==> (r matches Ok(Some(op)) && op@ == EditView::Delete {
                index,
                count: deleted_character_count,
            }),
    {
        if deleted_character_count == 0 {
            return Ok(None);
        }
        Ok(Some(Operation::Delete { index, deleted_character_count }))
    }

    /// Tries to apply the operation to the given rope.
    ///
    /// # Errors
    ///
    /// Returns an `OperationApplicationError` if the operation does not fit
    /// the text, leaving the rope as it is.
    pub fn apply(&self, rope_text: &mut ropey::Rope) -> (r: Result<(), SyncLibError>)
        ensures
            edit_applied(self@, rope_chars(*old(rope_text))) matches Some(chars) ==> (r is Ok
                && rope_chars(*final(rope_text)) == chars),
            edit_applied(self@, rope_chars(*old(rope_text))) is None ==> (r matches Err(
                SyncLibError::OperationApplicationError(_),
            ) && rope_chars(*final(rope_text)) == rope_chars(*old(rope_text))),
    {
        let index = self.start_index();
        let result = match self {
            Operation::Insert { text, .. } => rope_try_insert(rope_text, index, text.as_str()),
            Operation::Delete { deleted_character_count, .. } => rope_try_remove(
                rope_text,
                index,
                index.wrapping_add(*deleted_character_count),
            ),
        };
        match result {
            Ok(()) => Ok(()),
            Err(error) => {
                let reason = rope_error_message(&error);
                let prefix = match self {
                    Operation::Insert { .. } => "Failed to insert text: ",
                    Operation::Delete { .. } => "Failed to remove text: ",
                };
                Err(SyncLibError::OperationApplicationError(concat3(prefix, &reason, "")))
            },
        }
    }

    /// Returns the index of the first character that the operation affects.
    pub fn start_index(&self) -> (r: usize)
        ensures
            r == edit_index(self@),
    {
        match self {
            Operation::Insert { index, .. } => *index,
            Operation::Delete { index, .. } => *index,
        }
    }

    /// Returns the index of the last character that the operation affects.
    pub fn end_index(&self) -> (r: usize)
        ensures
            r == edit_end(self@),
    {
        self.start_index().wrapping_add(self.len()).wrapping_sub(1)
    }

    /// Returns the number of affected characters.
    pub fn len(&self) -> (n: usize)
        ensures
            n == edit_len(self@),
    {
        match self {
            Operation::Insert { text, .. } => char_count(text),
            Operation::Delete { deleted_character_count, .. } => *deleted_character_count,
        }
    }

    /// Returns the range of indices of characters that the operation
    /// affects, inclusive.
    pub fn range(&self) -> (r: core::ops::RangeInclusive<usize>)
        ensures
            r@.start == edit_index(self@),
            r@.end == edit_end(self@),
            !r@.exhausted,
    {
        core::ops::RangeInclusive::new(self.start_index(), self.end_index())
    }

    /// Clones the operation while updating the index.
    pub fn with_index(&self, index: usize) -> (r: Result<Self, SyncLibError>)
        ensures
            r matches Ok(op) && op@ == edit_with_index(self@, index),
    {
        Ok(
            match self {
                Operation::Insert { text, .. } => Operation::Insert { index, text: text.clone() },
                Operation::Delete { deleted_character_count, .. } => Operation::Delete {
                    index,
                    deleted_character_count: *deleted_character_count,
                },
            },
        )
    }

    /// Clones the operation while shifting the index by the given offset.
    /// The offset can be negative but the resulting index must be
    /// non-negative.
    ///
    /// # Errors
    ///
    /// Returns a `NegativeOperationIndexError` if the shifted index is not a
    /// valid index.
    pub fn with_shifted_index(&self, offset: i64) -> (r: Result<Self, SyncLibError>)
        ensures
            fits_usize(shifted_index(edit_index(self@), offset)) ==> (r matches Ok(op) && op@
                == edit_with_index(self@, shifted_index(edit_index(self@), offset) as usize)),
            !fits_usize(shifted_index(edit_index(self@), offset)) ==> (r matches Err(
                SyncLibError::NegativeOperationIndexError(message),
            ) && message@ == negative_index_message(shifted_index(edit_index(self@), offset))),
    {
        let index = (self.start_index() as i64).wrapping_add(offset);
        if 0 <= index && index as u64 <= usize::MAX as u64 {
            self.with_index(index as usize)
        } else {
            let number = decimal_string(index);
            Err(
                SyncLibError::NegativeOperationIndexError(
                    concat3(
                        "Index ",
                        &number,
                        " is negative but operations must have a non-negative index",
                    ),
                ),
            )
        }
    }
}

} // verus!
