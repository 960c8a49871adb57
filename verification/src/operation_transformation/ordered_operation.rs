//! An operation together with its place among the operations of an edit.
use vstd::prelude::*;

use super::operation::{OpView, Operation};

verus! {

/// An operation together with the index in the original text that it
/// belongs to; merging takes operations in this order.
#[derive(Debug)]
pub struct OrderedOperation {
    pub order: usize,
    pub operation: Operation,
}

impl View for OrderedOperation {
    type V = (usize, OpView);

    open spec fn view(&self) -> (usize, OpView) {
        (self.order, self.operation@)
    }
}

impl OrderedOperation {
    /// A copy of the ordered operation.
    pub fn duplicate(&self) -> (r: Self)
        ensures
            r@ == self@,
    {
        OrderedOperation { order: self.order, operation: self.operation.duplicate() }
    }
}

} // verus!
