//! The error of decoding transported data.
use vstd::prelude::*;

verus! {

/// The error of decoding transported data.
#[derive(Debug)]
pub enum SyncLibError {
    DecodingError { reason: String },
}

/// A `base64` decoding error.
#[verifier::external_type_specification]
#[verifier::external_body]
pub struct ExDecodeError(base64::DecodeError);

/// The message of a `base64` decoding error (its `Display`).
#[verifier::external_body]
fn decode_error_message(error: &base64::DecodeError) -> (s: String) {
    error.to_string()
}

/// A decoding error whose reason is the message of the `base64` error.
impl From<base64::DecodeError> for SyncLibError {
    fn from(e: base64::DecodeError) -> (r: Self)
        ensures
            r is DecodingError,
    {
        SyncLibError::DecodingError { reason: decode_error_message(&e) }
    }
}

impl vstd::std_specs::convert::FromSpecImpl<base64::DecodeError> for SyncLibError {
    open spec fn obeys_from_spec() -> bool {
        false
    }

    open spec fn from_spec(e: base64::DecodeError) -> Self {
        arbitrary()
    }
}

} // verus!
