//! Splitting texts into tokens, the units that the diff compares.
pub mod token;
pub mod word_tokenizer;
