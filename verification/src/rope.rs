//! The rope text buffer of the `ropey` crate, as the operations use it.
use vstd::prelude::*;

verus! {

/// The text buffer of the `ropey` crate.
#[verifier::external_type_specification]
#[verifier::external_body]
pub struct ExRope(ropey::Rope);

/// The error that `ropey`'s non-panicking methods return.
#[verifier::external_type_specification]
#[verifier::external_body]
pub struct ExRopeError(ropey::Error);

/// The characters that a rope holds.
pub uninterp spec fn rope_chars(rope: ropey::Rope) -> Seq<char>;

/// `Rope::try_insert`: inserts `text` before the character at `char_index`;
/// an error, leaving the rope as it is, when the index is past the end.
#[verifier::external_body]
pub(crate) fn rope_try_insert(rope: &mut ropey::Rope, char_index: usize, text: &str) -> (r: Result<
    (),
    ropey::Error,
>)
    ensures
        char_index <= rope_chars(*old(rope)).len() ==> r is Ok && rope_chars(*final(rope)) == rope_chars(
            *old(rope),
        ).take(char_index as int) + text@ + rope_chars(*old(rope)).skip(char_index as int),
        char_index > rope_chars(*old(rope)).len() ==> r is Err && rope_chars(*final(rope))
            == rope_chars(*old(rope)),
{
    rope.try_insert(char_index, text)
}

/// `Rope::try_remove` over `start..end`: removes those characters; an error,
/// leaving the rope as it is, when the range reaches past the end or starts
/// after it ends.
#[verifier::external_body]
pub(crate) fn rope_try_remove(rope: &mut ropey::Rope, start: usize, end: usize) -> (r: Result<
    (),
    ropey::Error,
>)
    ensures
        start <= end <= rope_chars(*old(rope)).len() ==> r is Ok && rope_chars(*final(rope))
            == rope_chars(*old(rope)).take(start as int) + rope_chars(*old(rope)).skip(end as int),
        !(start <= end <= rope_chars(*old(rope)).len()) ==> r is Err && rope_chars(*final(rope))
            == rope_chars(*old(rope)),
{
    rope.try_remove(start..end)
}

/// The message of a `ropey` error (its `Display`, which is its `Debug` form).
#[verifier::external_body]
pub(crate) fn rope_error_message(error: &ropey::Error) -> (s: String) {
    error.to_string()
}

} // verus!
