//! Operations on ropes made from diffs of texts split at whitespace.
pub mod operation;
pub mod merge_context;
pub mod operation_sequence;
pub mod overlap_laws;
pub mod separated_merge;
