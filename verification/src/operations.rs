//! Operations on plain strings, and sequences of them that can be merged.
pub mod operation;
pub mod operation_sequence;
pub mod overlap_laws;
pub mod separated_merge;
