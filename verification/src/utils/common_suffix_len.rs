//! Length of the common suffix of two index ranges.
use vstd::prelude::*;

use super::common_prefix_len::range_len;
use core::ops::Range;
use vstd::std_specs::cmp::PartialEqSpec;

verus! {

/// The elements at `new_end - 1 - k` and `old_end - 1 - k` are equal for every `k < n`.
pub open spec fn suffix_matches<T: PartialEq>(
    old: Seq<T>,
    old_end: int,
    new: Seq<T>,
    new_end: int,
    n: int,
) -> bool {
    forall|k: int| 0 <= k < n ==> #[trigger] new[new_end - 1 - k].eq_spec(&old[old_end - 1 - k])
}

/// Given two lookups and ranges calculates the length of common suffix: the
/// number of trailing positions of the two ranges whose elements are equal.
pub fn common_suffix_len<T: PartialEq>(
    old: &[T],
    old_range: Range<usize>,
    new: &[T],
    new_range: Range<usize>,
) -> (n: usize)
    requires
        range_len(old_range) > 0 ==> old_range.end <= old@.len(),
        range_len(new_range) > 0 ==> new_range.end <= new@.len(),
    ensures
        n <= range_len(old_range),
        n <= range_len(new_range),
        T::obeys_eq_spec() ==> suffix_matches(
            old@,
            old_range.end as int,
            new@,
            new_range.end as int,
            n as int,
        ),
        T::obeys_eq_spec() && n < range_len(old_range) && n < range_len(new_range) ==> !new@[new_range.end
            - 1 - n].eq_spec(&old@[old_range.end - 1 - n]),
{
    if old_range.start > old_range.end || new_range.start > new_range.end {
        return 0;
    }
    let old_len = old_range.end - old_range.start;
    let new_len = new_range.end - new_range.start;
    let mut n: usize = 0;
    while n < old_len && n < new_len
        invariant
            old_range.start <= old_range.end,
            new_range.start <= new_range.end,
            old_len == old_range.end - old_range.start,
            new_len == new_range.end - new_range.start,
            old_len > 0 ==> old_range.end <= old@.len(),
            new_len > 0 ==> new_range.end <= new@.len(),
            n <= old_len,
            n <= new_len,
            T::obeys_eq_spec() ==> suffix_matches(
                old@,
                old_range.end as int,
                new@,
                new_range.end as int,
                n as int,
            ),
        decreases old_len - n,
    {
        if !(new[new_range.end - 1 - n] == old[old_range.end - 1 - n]) {
            return n;
        }
        n = n + 1;
    }
    n
}

} // verus!
