//! The ordering facts that the LCS table relies on.
use vstd::prelude::*;

verus! {

/// Pairs of indices are totally ordered, so that a `BTreeMap` keyed by them
/// behaves as a map.
pub open spec fn index_pairs_ordered() -> bool {
    vstd::laws_cmp::obeys_cmp::<(usize, usize)>()
}

pub proof fn lemma_index_pairs_ordered()
    ensures
        index_pairs_ordered(),
{
    broadcast use vstd::laws_cmp::group_laws_cmp;

    assert(vstd::laws_cmp::obeys_cmp::<usize>());
    assert(vstd::laws_cmp::obeys_cmp::<(usize, usize)>());
}

} // verus!
