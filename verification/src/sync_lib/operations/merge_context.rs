//! The state that each side of a merge of two operation sequences keeps, and
//! one step of the merge.
use vstd::prelude::*;

use super::operation::{edit_end, edit_index, edit_len, edit_with_index, EditView, Operation};
use crate::operations::operation_sequence::nonneg_difference;
use vstd::wrapping::i64_specs;
use vstd::wrapping::usize_specs::wrapping_add;

verus! {

/// The mathematical value of a merge context: the last delete that a side
/// produced, still pending, and how far the side has shifted the text.
pub struct SyncContextView {
    pub previous_delete: Option<EditView>,
    pub shift: i64,
}

/// The context that a side starts a merge with.
pub open spec fn fresh_context() -> SyncContextView {
    SyncContextView { previous_delete: None, shift: 0 }
}

/// The length as the merge arithmetic sees it (`len() as i64`).
pub open spec fn edit_len64(op: EditView) -> i64 {
    (edit_len(op) as usize) as i64
}

/// The end of the pending delete, or 0 where there is none.
pub open spec fn pending_end(c: SyncContextView) -> usize {
    match c.previous_delete {
        Some(d) => edit_end(d),
        None => 0,
    }
}

/// `c` after its pending delete was dropped, when an operation starting at
/// `start` (in its own side's coordinates) comes after the delete's end.
pub open spec fn picked(c: SyncContextView, start: usize) -> SyncContextView {
    match c.previous_delete {
        Some(d) => if i64_specs::wrapping_add(start as i64, c.shift) > edit_end(d) as i64 {
            SyncContextView { previous_delete: None, shift: i64_specs::wrapping_sub(c.shift, edit_len64(d)) }
        } else {
            c
        },
        None => c,
    }
}

/// `p` with its pending delete replaced by `delete`, the replaced one's
/// length taken off the shift.
pub open spec fn with_delete(p: SyncContextView, delete: Option<EditView>) -> SyncContextView {
    SyncContextView {
        previous_delete: delete,
        shift: match p.previous_delete {
            Some(d) => i64_specs::wrapping_sub(p.shift, edit_len64(d)),
            None => p.shift,
        },
    }
}

/// A delete of `count` characters at `index`, or nothing for no characters.
pub open spec fn delete_of(index: usize, count: usize) -> Option<EditView> {
    if count == 0 {
        None
    } else {
        Some(EditView::Delete { index, count })
    }
}

/// `index` lies in the characters that `d` affects, its ends included.
pub open spec fn covers(d: EditView, index: usize) -> bool {
    edit_index(d) <= index && index <= edit_end(d)
}

/// One step of the merge: the already shifted `op` of one side, with the
/// other side's context `a` affecting it and its own side's context `p`.
/// Gives the merged operation, if any, and the new contexts `(a, p)`.
pub open spec fn sync_step(op: EditView, a: SyncContextView, p: SyncContextView) -> (
    Option<EditView>,
    SyncContextView,
    SyncContextView,
) {
    match op {
        EditView::Insert { .. } => {
            let p1 = SyncContextView { shift: i64_specs::wrapping_add(p.shift, edit_len64(op)), ..p };
            match a.previous_delete {
                Some(d) => if covers(d, edit_index(op)) {
                    let moved = edit_with_index(op, edit_index(d));
                    (
                        Some(moved),
                        SyncContextView {
                            previous_delete: delete_of(
                                wrapping_add(edit_end(moved), 1),
                                edit_len(d) as usize,
                            ),
                            ..a
                        },
                        p1,
                    )
                } else {
                    (Some(op), a, p1)
                },
                None => (Some(op), a, p1),
            }
        },
        EditView::Delete { .. } => {
            let (updated, a1) = match a.previous_delete {
                Some(d) => if covers(d, edit_index(op)) {
                    let overlap = i64_specs::wrapping_add(
                        i64_specs::wrapping_sub(edit_end(d) as i64, edit_index(op) as i64),
                        1,
                    );
                    let a_delete = delete_of(
                        edit_index(d),
                        nonneg_difference(edit_len64(d), edit_len64(op)) as usize,
                    );
                    let a_shift = if edit_end(d) < edit_end(op) {
                        i64_specs::wrapping_sub(a.shift, i64_specs::wrapping_sub(edit_len64(d), overlap))
                    } else {
                        a.shift
                    };
                    (
                        delete_of(edit_index(d), nonneg_difference(edit_len64(op), overlap) as usize),
                        SyncContextView { previous_delete: a_delete, shift: a_shift },
                    )
                } else {
                    (Some(op), a)
                },
                None => (Some(op), a),
            };
            (updated, a1, with_delete(p, updated))
        },
    }
}

/// The state that each side of a merge keeps.
pub struct MergeContext {
    previous_delete: Option<Operation>,
    shift: i64,
}

impl View for MergeContext {
    type V = SyncContextView;

    closed spec fn view(&self) -> SyncContextView {
        SyncContextView {
            previous_delete: match self.previous_delete {
                Some(d) => Some(d@),
                None => None,
            },
            shift: self.shift,
        }
    }
}

/// A delete of `count` characters at `index`, or nothing for no characters.
fn delete_at(index: usize, count: usize) -> (r: Option<Operation>)
    ensures
        match r {
            Some(o) => Some(o@) == delete_of(index, count),
            None => delete_of(index, count) is None,
        },
{
    if count == 0 {
        None
    } else {
        Some(Operation::Delete { index, deleted_character_count: count })
    }
}

/// `0.max(a - b)`, with the subtraction wrapping.
fn nonneg_sub(a: i64, b: i64) -> (r: i64)
    ensures
        r == nonneg_difference(a, b),
{
    let d = a.wrapping_sub(b);
    if d < 0 {
        0
    } else {
        d
    }
}

impl MergeContext {
    /// The context that a side starts a merge with.
    pub fn fresh() -> (c: Self)
        ensures
            c@ == fresh_context(),
    {
        MergeContext { previous_delete: None, shift: 0 }
    }

    /// The shift of the text by the side.
    pub fn shift(&self) -> (s: i64)
        ensures
            s == self@.shift,
    {
        self.shift
    }

    /// The end of the pending delete, or 0 where there is none.
    pub fn pending_end(&self) -> (e: usize)
        ensures
            e == pending_end(self@),
    {
        match &self.previous_delete {
            Some(d) => d.end_index(),
            None => 0,
        }
    }

    /// Drops the pending delete when an operation starting at `start` comes
    /// after its end, and takes its length off the shift.
    pub fn pick_up_dangling_delete(&mut self, start: usize)
        ensures
            final(self)@ == picked(old(self)@, start),
    {
        let drop = match &self.previous_delete {
            Some(d) => (start as i64).wrapping_add(self.shift) > d.end_index() as i64,
            None => false,
        };
        if drop {
            if let Some(d) = &self.previous_delete {
                self.shift = self.shift.wrapping_sub(d.len() as i64);
            }
            self.previous_delete = None;
        }
    }

    /// Replaces the pending delete, taking the replaced one's length off the
    /// shift.
    pub fn replace_delete(&mut self, delete: Option<Operation>)
        ensures
            final(self)@ == with_delete(
                old(self)@,
                match delete {
                    Some(d) => Some(d@),
                    None => None,
                },
            ),
    {
        if let Some(d) = &self.previous_delete {
            self.shift = self.shift.wrapping_sub(d.len() as i64);
        }
        self.previous_delete = delete;
    }
}

/// Merges one already shifted operation of a side, with the other side's
/// context `affecting` and its own side's context `produced`.
pub fn merge_with_context(
    operation: Operation,
    affecting: &mut MergeContext,
    produced: &mut MergeContext,
) -> (r: Option<Operation>)
    ensures
        (
            match r {
                Some(o) => Some(o@),
                None => None,
            },
            final(affecting)@,
            final(produced)@,
        ) == sync_step(operation@, old(affecting)@, old(produced)@),
{
    let pending: Option<(usize, usize, usize)> = match &affecting.previous_delete {
        Some(d) => Some((d.start_index(), d.end_index(), d.len())),
        None => None,
    };
    let start = operation.start_index();
    let length = operation.len();
    let end = operation.end_index();
    match operation {
        Operation::Insert { .. } => {
            produced.shift = produced.shift.wrapping_add(length as i64);
            match pending {
                Some((d_start, d_end, d_len)) => {
                    if d_start <= start && start <= d_end {
                        match operation.with_index(d_start) {
                            Ok(moved) => {
                                affecting.previous_delete = delete_at(
                                    moved.end_index().wrapping_add(1),
                                    d_len,
                                );
                                Some(moved)
                            },
                            Err(_) => None,
                        }
                    } else {
                        Some(operation)
                    }
                },
                None => Some(operation),
            }
        },
        Operation::Delete { .. } => {
            let updated = match pending {
                Some((d_start, d_end, d_len)) => {
                    if d_start <= start && start <= d_end {
                        let d_len64 = d_len as i64;
                        let op_len64 = length as i64;
                        let overlap = (d_end as i64).wrapping_sub(start as i64).wrapping_add(1);
                        affecting.previous_delete = delete_at(
                            d_start,
                            nonneg_sub(d_len64, op_len64) as usize,
                        );
                        if d_end < end {
                            affecting.shift = affecting.shift.wrapping_sub(
                                d_len64.wrapping_sub(overlap),
                            );
                        }
                        delete_at(d_start, nonneg_sub(op_len64, overlap) as usize)
                    } else {
                        Some(operation)
                    }
                },
                None => Some(operation),
            };
            let copy = match &updated {
                Some(o) => Some(
                    Operation::Delete { index: o.start_index(), deleted_character_count: o.len() },
                ),
                None => None,
            };
            produced.replace_delete(copy);
            updated
        },
    }
}

} // verus!
