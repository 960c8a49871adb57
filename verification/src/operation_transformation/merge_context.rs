//! What one side of a merge has left behind for the other side's operations.
use vstd::prelude::*;

use super::operation::{len64, op_end, op_wf, opt_view, OpView, Operation};
use vstd::wrapping::i64_specs;

verus! {

/// The state that the operations of one side leave for the merge of the
/// other side's operations: a delete that may still cover the other side's
/// next operations, the last insert, and how far the other side's indices
/// are shifted.
#[derive(Debug)]
pub struct MergeContext {
    pub last_delete: Option<Operation>,
    pub last_insert: Option<Operation>,
    pub shift: i64,
}

/// The mathematical value of a `MergeContext`.
pub struct MergeContextView {
    pub last_delete: Option<OpView>,
    pub last_insert: Option<OpView>,
    pub shift: i64,
}

impl View for MergeContext {
    type V = MergeContextView;

    open spec fn view(&self) -> MergeContextView {
        MergeContextView {
            last_delete: opt_view(self.last_delete),
            last_insert: opt_view(self.last_insert),
            shift: self.shift,
        }
    }
}

/// The operations that the context holds have lengths that fit in a `usize`.
pub open spec fn ctx_wf(c: MergeContextView) -> bool {
    &&& (c.last_delete matches Some(d) ==> op_wf(d))
    &&& (c.last_insert matches Some(i) ==> op_wf(i))
}

/// The context that nothing has touched yet.
pub open spec fn empty_context() -> MergeContextView {
    MergeContextView { last_delete: None, last_insert: None, shift: 0 }
}

/// Whether the last delete of `c` ends before an operation at `index` (in
/// the other side's coordinates) starts.
pub open spec fn is_behind(c: MergeContextView, index: usize) -> bool {
    match c.last_delete {
        Some(d) => i64_specs::wrapping_add(index as i64, c.shift) > op_end(d) as i64,
        None => false,
    }
}

/// `c` after its last delete was dropped, if it is behind an operation at
/// `index`.
pub open spec fn consumed(c: MergeContextView, index: usize) -> MergeContextView {
    match c.last_delete {
        Some(d) => if is_behind(c, index) {
            MergeContextView { last_delete: None, shift: i64_specs::wrapping_sub(c.shift, len64(d)), ..c }
        } else {
            c
        },
        None => c,
    }
}

impl Default for MergeContext {
    fn default() -> (c: Self)
        ensures
            c@ == empty_context(),
    {
        MergeContext { last_delete: None, last_insert: None, shift: 0 }
    }
}

impl MergeContext {
    /// Replace the last delete operation (if there was one) with a new one
    /// while applying it to the shift.
    pub fn replace_delete(&mut self, delete: Option<Operation>)
        requires
            ctx_wf(old(self)@),
        ensures
            final(self)@ == super::operation::replaced(old(self)@, opt_view(delete)),
    {
        let previous = self.last_delete.take();
        if let Some(produced_last_delete) = previous {
            self.shift = self.shift.wrapping_sub(produced_last_delete.len() as i64);
        }
        self.last_delete = delete;
    }

    /// Remove the last delete operation (if there was one) in case it is
    /// behind the threshold operation.
    pub fn consume_delete_if_behind_operation(&mut self, threshold_operation: &Operation)
        requires
            ctx_wf(old(self)@),
        ensures
            final(self)@ == consumed(old(self)@, super::operation::op_index(threshold_operation@)),
    {
        let behind = match &self.last_delete {
            Some(last_delete) => (threshold_operation.start_index() as i64).wrapping_add(self.shift)
                > last_delete.end_index() as i64,
            None => false,
        };
        if behind {
            let previous = self.last_delete.take();
            if let Some(last_delete) = previous {
                self.shift = self.shift.wrapping_sub(last_delete.len() as i64);
            }
        }
    }
}

} // verus!
