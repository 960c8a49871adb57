//! The decisions of the document sync server: its configuration, its errors,
//! who may access a vault, and the paths that documents are stored under.
pub mod auth;
pub mod config;
pub mod errors;
pub mod server;
pub mod utils;
