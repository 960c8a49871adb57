//! The token-level diff between two texts.
pub mod lcs;
pub mod raw_operation;
pub mod table_order;
