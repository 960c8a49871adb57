//! Utilities for communicating between backend and frontend: encoding and
//! decoding binary data for transport, and 3-way merging of documents that
//! may be text or binary.
pub mod errors;
pub mod operations;

use vstd::prelude::*;

use base64::Engine as _;
use errors::SyncLibError;
use vstd::utf8::{decode_utf8, encode_utf8, valid_utf8};
use crate::operation_transformation::edited_text::word_count_fits;
use crate::operation_transformation::reconciled;

verus! {

/// The base64 form of `bytes` (standard alphabet, no padding).
pub uninterp spec fn base64_encoded(bytes: Seq<u8>) -> Seq<char>;

/// The bytes that the base64 text `text` (standard alphabet, no padding)
/// stands for, or nothing when it is not such a text.
pub uninterp spec fn base64_decoded(text: Seq<char>) -> Option<Seq<u8>>;

/// `STANDARD_NO_PAD.encode`: the base64 form of the bytes, which decoding
/// with the same engine turns back into the bytes.
#[verifier::external_body]
fn encode_base64(input: &[u8]) -> (s: String)
    ensures
        s@ == base64_encoded(input@),
        base64_decoded(s@) == Some(input@),
{
    base64::engine::general_purpose::STANDARD_NO_PAD.encode(input)
}

/// `STANDARD_NO_PAD.decode`: the bytes that the text stands for, or the
/// decoding error.
#[verifier::external_body]
fn decode_base64(input: &str) -> (r: Result<Vec<u8>, base64::DecodeError>)
    ensures
        base64_decoded(input@) is None <==> r is Err,
        r matches Ok(bytes) ==> base64_decoded(input@) == Some(bytes@),
{
    base64::engine::general_purpose::STANDARD_NO_PAD.decode(input)
}

/// `std::str::from_utf8`: the text that the bytes encode in UTF-8, or
/// nothing when they are not valid UTF-8.
#[verifier::external_body]
fn utf8_text(bytes: &[u8]) -> (r: Option<&str>)
    ensures
        r is Some <==> valid_utf8(bytes@),
        r matches Some(s) ==> s@ == decode_utf8(bytes@),
{
    std::str::from_utf8(bytes).ok()
}

/// Encode binary data for easy transport over HTTP. Inverse of
/// `base64_to_bytes`.
pub fn bytes_to_base64(input: &[u8]) -> (s: String)
    ensures
        s@ == base64_encoded(input@),
        base64_decoded(s@) == Some(input@),
{
    encode_base64(input)
}

/// Inverse of `bytes_to_base64`.
pub fn base64_to_bytes(input: &str) -> (r: Result<Vec<u8>, SyncLibError>)
    ensures
        base64_decoded(input@) matches Some(bytes) ==> (r matches Ok(v) && v@ == bytes),
        base64_decoded(input@) is None ==> r matches Err(SyncLibError::DecodingError { .. }),
{
    match decode_base64(input) {
        Ok(bytes) => Ok(bytes),
        Err(error) => Err(SyncLibError::from(error)),
    }
}

/// Heuristically determine if the given data is a binary or a text file's
/// content: it holds a NUL byte, or it is not valid UTF-8.
pub fn is_binary(data: &[u8]) -> (b: bool)
    ensures
        b == ((exists|k: int| 0 <= k < data@.len() && data@[k] == 0) || !valid_utf8(data@)),
{
    let mut i: usize = 0;
    while i < data.len()
        invariant
            0 <= i <= data@.len(),
            forall|k: int| 0 <= k < i ==> data@[k] != 0,
        decreases data.len() - i,
    {
        if data[i] == 0 {
            // Even though the NUL character is valid in UTF-8, it's highly
            // suspicious in human-readable text.
            return true;
        }
        i = i + 1;
    }
    utf8_text(data).is_none()
}

/// What merging the documents `left` and `right` with the common `parent`
/// gives: `right` if any of them is binary, else the UTF-8 bytes of the
/// reconciled text.
pub open spec fn merged_document(parent: Seq<u8>, left: Seq<u8>, right: Seq<u8>, merged: Seq<u8>) -> bool {
    if is_binary_spec(parent) || is_binary_spec(left) || is_binary_spec(right) {
        merged == right
    } else {
        exists|text: Seq<char>|
            #[trigger] reconciled(
                decode_utf8(parent),
                decode_utf8(left),
                decode_utf8(right),
                Seq::empty(),
                Seq::empty(),
                text,
                Seq::empty(),
            ) && merged == encode_utf8(text)
    }
}

/// Merge two text documents with a common parent.
pub fn merge_text(parent: &str, left: &str, right: &str) -> (r: String)
    requires
        word_count_fits(parent@),
        parent@.len() + left@.len() <= usize::MAX,
        parent@.len() + right@.len() <= usize::MAX,
    ensures
        reconciled(parent@, left@, right@, Seq::empty(), Seq::empty(), r@, Seq::empty()),
        left@ == parent@ ==> r@ == right@,
        right@ == parent@ ==> r@ == left@,
{
    crate::operation_transformation::reconcile(parent, left, right)
}

/// The bytes of a string in UTF-8.
fn utf8_bytes(s: &str) -> (v: Vec<u8>)
    ensures
        v@ == encode_utf8(s@),
{
    let bytes = s.as_bytes();
    let mut v: Vec<u8> = Vec::new();
    let mut i: usize = 0;
    while i < bytes.len()
        invariant
            0 <= i <= bytes@.len(),
            bytes@ == encode_utf8(s@),
            v@ == bytes@.take(i as int),
        decreases bytes.len() - i,
    {
        v.push(bytes[i]);
        assert(bytes@.take(i + 1) =~= bytes@.take(i as int).push(bytes@[i as int]));
        i = i + 1;
    }
    assert(bytes@.take(i as int) =~= bytes@);
    v
}

/// Merge two documents with a common parent. The texts are merged with
/// `reconcile`; if any of the documents is binary, the right document is
/// returned as it is.
pub fn merge(parent: &[u8], left: &[u8], right: &[u8]) -> (r: Vec<u8>)
    requires
        valid_utf8(parent@) ==> word_count_fits(decode_utf8(parent@)),
        parent@.len() + left@.len() <= usize::MAX,
        parent@.len() + right@.len() <= usize::MAX,
    ensures
        merged_document(parent@, left@, right@, r@),
        is_binary_spec(parent@) || is_binary_spec(left@) || is_binary_spec(right@) ==> r@
            == right@,
        !(is_binary_spec(parent@) || is_binary_spec(left@) || is_binary_spec(right@)) ==> (left@
            == parent@ ==> r@ == right@) && (right@ == parent@ ==> r@ == left@),
{
    if is_binary(parent) || is_binary(left) || is_binary(right) {
        copy_bytes(right)
    } else {
        let parent_text = utf8_text(parent);
        let left_text = utf8_text(left);
        let right_text = utf8_text(right);
        match (parent_text, left_text, right_text) {
            (Some(p), Some(l), Some(r)) => {
                proof {
                    vstd::utf8::decode_utf8_encode_utf8(parent@);
                    vstd::utf8::decode_utf8_encode_utf8(left@);
                    vstd::utf8::decode_utf8_encode_utf8(right@);
                    lemma_decoded_len(parent@);
                    lemma_decoded_len(left@);
                    lemma_decoded_len(right@);
                }
                let merged = crate::operation_transformation::reconcile(p, l, r);
                let bytes = utf8_bytes(merged.as_str());
                proof {
                    assert(reconciled(
                        decode_utf8(parent@),
                        decode_utf8(left@),
                        decode_utf8(right@),
                        Seq::empty(),
                        Seq::empty(),
                        merged@,
                        Seq::empty(),
                    ));
                }
                bytes
            },
            _ => {
                proof {
                    assert(false);
                }
                copy_bytes(right)
            },
        }
    }
}

/// Valid UTF-8 decodes to at most as many characters as it has bytes.
proof fn lemma_decoded_len(bytes: Seq<u8>)
    requires
        valid_utf8(bytes),
    ensures
        decode_utf8(bytes).len() <= bytes.len(),
    decreases bytes.len(),
{
    if bytes.len() > 0 {
        let n = vstd::utf8::length_of_first_scalar(bytes);
        assert(1 <= n <= bytes.len());
        let rest = vstd::utf8::pop_first_scalar(bytes);
        assert(rest.len() == bytes.len() - n);
        lemma_decoded_len(rest);
    }
}

/// What `is_binary` decides.
pub open spec fn is_binary_spec(data: Seq<u8>) -> bool {
    (exists|k: int| 0 <= k < data.len() && data[k] == 0) || !valid_utf8(data)
}

/// A copy of the bytes.
fn copy_bytes(bytes: &[u8]) -> (v: Vec<u8>)
    ensures
        v@ == bytes@,
{
    let mut v: Vec<u8> = Vec::new();
    let mut i: usize = 0;
    while i < bytes.len()
        invariant
            0 <= i <= bytes@.len(),
            v@ == bytes@.take(i as int),
        decreases bytes.len() - i,
    {
        v.push(bytes[i]);
        assert(bytes@.take(i + 1) =~= bytes@.take(i as int).push(bytes@[i as int]));
        i = i + 1;
    }
    assert(bytes@.take(i as int) =~= bytes@);
    v
}

} // verus!
