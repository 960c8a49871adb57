//! The errors of applying and shifting operations.
use vstd::prelude::*;

verus! {

/// The errors of applying and shifting operations.
#[derive(Debug)]
pub enum SyncLibError {
    /// An operation could not be applied to the text.
    OperationApplicationError(String),
    /// Shifting an operation would move it before the start of the text.
    NegativeOperationIndexError(String),
}

} // verus!
