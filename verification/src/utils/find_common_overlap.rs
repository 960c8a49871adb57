//! The offset from which a list's tail equals another list's head.
use vstd::prelude::*;

use crate::tokenizer::token::Token;

verus! {

/// From `offset` to its end, `old` equals the start of `new` (tokens compared
/// by their normalised forms).
pub open spec fn overlaps_at(old: Seq<Token>, new: Seq<Token>, offset: int) -> bool {
    forall|k: int|
        0 <= k < old.len() - offset && k < new.len() ==> (#[trigger] old[offset + k]).norm()
            == new[k].norm()
}

/// The smallest offset that `find_common_overlap` tries.
pub open spec fn lowest_offset(old: Seq<Token>, new: Seq<Token>) -> int {
    if old.len() > new.len() {
        old.len() - new.len()
    } else {
        0
    }
}

/// The first offset from `o` on at which `old` overlaps `new`, or the length
/// of `old` when there is none.
pub open spec fn first_overlap_from(old: Seq<Token>, new: Seq<Token>, o: int) -> int
    decreases old.len() - o,
{
    if o >= old.len() {
        old.len() as int
    } else if overlaps_at(old, new, o) {
        o
    } else {
        first_overlap_from(old, new, o + 1)
    }
}

/// The offset that `find_common_overlap` returns.
pub open spec fn common_overlap(old: Seq<Token>, new: Seq<Token>) -> int {
    first_overlap_from(old, new, lowest_offset(old, new))
}

proof fn lemma_first_overlap(old: Seq<Token>, new: Seq<Token>, a: int, x: int)
    requires
        0 <= a <= x <= old.len(),
        x == old.len() || overlaps_at(old, new, x),
        forall|o: int| a <= o < x ==> !overlaps_at(old, new, o),
    ensures
        first_overlap_from(old, new, a) == x,
    decreases x - a,
{
    if a < x {
        lemma_first_overlap(old, new, a + 1, x);
    }
}

/// Given two lists of tokens, returns the offset in the first (old) list from
/// which the two lists have the same tokens until the end of the first list.
/// Thus, the suffix of the old list from the offset to the end is equal to a
/// prefix of the new list.
///
/// If there is no overlap, the function returns the maximum offset, the
/// length of the old list.
///
/// ## Example
/// ```text
/// old: [0, 1, 9, 0, 2, 5]
/// new:       [9, 0, 2, 5, 1]
/// ```
/// > results in an offset of 2
pub fn find_common_overlap(old: &[Token], new: &[Token]) -> (offset: usize)
    ensures
        offset == old@.len() || (lowest_offset(old@, new@) <= offset && overlaps_at(
            old@,
            new@,
            offset as int,
        )),
        forall|o: int|
            lowest_offset(old@, new@) <= o < offset ==> !overlaps_at(old@, new@, o),
        offset == common_overlap(old@, new@),
        offset <= old@.len(),
{
    let minimum_offset = if old.len() > new.len() {
        old.len() - new.len()
    } else {
        0
    };
    let mut offset = minimum_offset;
    while offset < old.len()
        invariant
            minimum_offset == lowest_offset(old@, new@),
            minimum_offset <= offset,
            forall|o: int| minimum_offset <= o < offset ==> !overlaps_at(old@, new@, o),
        decreases old.len() - offset,
    {
        let mut k: usize = 0;
        let mut all_equal = true;
        while all_equal && k < old.len() - offset && k < new.len()
            invariant
                minimum_offset <= offset < old@.len(),
                0 <= k <= old@.len() - offset,
                forall|m: int| 0 <= m < k ==> (#[trigger] old@[offset + m]).norm() == new@[m].norm(),
                !all_equal ==> k < old@.len() - offset && k < new@.len() && old@[offset + k as int].norm() != new@[k as int].norm(),
            decreases old.len() - offset - k, if all_equal { 1int } else { 0int },
        {
            if !(old[offset + k] == new[k]) {
                all_equal = false;
            } else {
                k = k + 1;
            }
        }
        if all_equal {
            proof {
                lemma_first_overlap(old@, new@, minimum_offset as int, offset as int);
            }
            return offset;
        }
        offset = offset + 1;
    }
    proof {
        lemma_first_overlap(old@, new@, minimum_offset as int, old@.len() as int);
    }
    old.len()
}

} // verus!
