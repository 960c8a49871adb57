//! The answers of the server's endpoints.
use vstd::prelude::*;

verus! {

/// The answer to a ping.
#[derive(Debug, Clone, PartialEq)]
pub struct PingResponse {
    pub server_version: String,
    pub is_authenticated: bool,
}

} // verus!
