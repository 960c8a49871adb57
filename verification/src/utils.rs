//! Small sequence helpers used by the diff and the merge.
pub mod common_prefix_len;
pub mod common_suffix_len;
pub mod find_common_overlap;
pub mod string_builder;
