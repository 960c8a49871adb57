//! Conflict-free three-way text merging.
//!
//! Two concurrent edits of a common parent text are turned into sequences of
//! insert and delete operations (via a token-level diff) and merged with the
//! principles of Operational Transformation, so that the result keeps the
//! changes of both sides.
use vstd::prelude::*;

pub mod diffs;
pub mod errors;
pub mod operation_transformation;
pub mod operations;
pub mod rope;
pub mod sync_lib;
pub mod sync_server;
pub mod text;
pub mod tokenizer;
pub mod utils;

verus! {

} // verus!
