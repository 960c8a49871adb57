//! LCS diff algorithm.
//!
//! * time: `O((NM)D log (M)D)`
//! * space `O(MN)`
use vstd::prelude::*;

use std::collections::BTreeMap;
use core::ops::Range;

use super::raw_operation::{lemma_sides_push, new_side, old_side, raw_new, raw_old, raw_tokens, step_of, steps_of, lemma_steps_push, RawOperation, StepKind};
use crate::tokenizer::token::{flatten, lemma_flatten_append, lemma_flatten_single, Token};
use crate::utils::common_prefix_len::{common_prefix_len, prefix_matches, range_len};
use crate::utils::common_suffix_len::{common_suffix_len, suffix_matches};
use super::table_order::{index_pairs_ordered, lemma_index_pairs_ordered};
use vstd::std_specs::cmp::PartialEqSpec;

verus! {

broadcast use vstd::std_specs::btree::group_btree_axioms;

/// Length of the longest common subsequence of `new[i..n]` and `old[j..m]`.
pub open spec fn lcs_len<T: PartialEq>(new: Seq<T>, old: Seq<T>, i: int, j: int, n: int, m: int) -> nat
    decreases n - i + m - j,
{
    if i >= n || j >= m || i < 0 || j < 0 {
        0
    } else if new[i].eq_spec(&old[j]) {
        1 + lcs_len(new, old, i + 1, j + 1, n, m)
    } else {
        let a = lcs_len(new, old, i + 1, j, n, m);
        let b = lcs_len(new, old, i, j + 1, n, m);
        if a >= b {
            a
        } else {
            b
        }
    }
}

proof fn lemma_lcs_bound<T: PartialEq>(new: Seq<T>, old: Seq<T>, i: int, j: int, n: int, m: int)
    requires
        0 <= i,
        0 <= j,
    ensures
        lcs_len(new, old, i, j, n, m) <= if m - j >= 0 { m - j } else { 0 },
    decreases n - i + m - j,
{
    if i >= n || j >= m {
    } else if new[i].eq_spec(&old[j]) {
        lemma_lcs_bound(new, old, i + 1, j + 1, n, m);
    } else {
        lemma_lcs_bound(new, old, i + 1, j, n, m);
        lemma_lcs_bound(new, old, i, j + 1, n, m);
    }
}

/// The LCS of two subranges, counted from their starts, is that of the
/// whole sequences from the corresponding positions.
proof fn lemma_lcs_shift<T: PartialEq>(
    new: Seq<T>,
    old: Seq<T>,
    a: int,
    b: int,
    c: int,
    d: int,
    i: int,
    j: int,
)
    requires
        0 <= a <= b <= new.len(),
        0 <= c <= d <= old.len(),
        0 <= i,
        0 <= j,
    ensures
        lcs_len(new.subrange(a, b), old.subrange(c, d), i, j, b - a, d - c) == lcs_len(
            new,
            old,
            a + i,
            c + j,
            b,
            d,
        ),
    decreases (b - a - i) + (d - c - j),
{
    if i >= b - a || j >= d - c {
    } else {
        assert(new.subrange(a, b)[i] == new[a + i]);
        assert(old.subrange(c, d)[j] == old[c + j]);
        lemma_lcs_shift(new, old, a, b, c, d, i + 1, j + 1);
        lemma_lcs_shift(new, old, a, b, c, d, i + 1, j);
        lemma_lcs_shift(new, old, a, b, c, d, i, j + 1);
    }
}

/// A common prefix of `k` elements from `x` on adds `k` to the LCS.
proof fn lemma_lcs_prefix<T: PartialEq>(new: Seq<T>, old: Seq<T>, x: int, k: int, n: int, m: int)
    requires
        0 <= x <= k <= n,
        k <= m,
        forall|q: int| x <= q < k ==> #[trigger] new[q].eq_spec(&old[q]),
    ensures
        lcs_len(new, old, x, x, n, m) == (k - x) + lcs_len(new, old, k, k, n, m),
    decreases k - x,
{
    if x < k {
        assert(new[x].eq_spec(&old[x]));
        lemma_lcs_prefix(new, old, x + 1, k, n, m);
    }
}

/// Equal last elements add one to the LCS.
proof fn lemma_lcs_last<T: PartialEq>(new: Seq<T>, old: Seq<T>, i: int, j: int, n: int, m: int)
    requires
        0 <= i < n <= new.len(),
        0 <= j < m <= old.len(),
        new[n - 1].eq_spec(&old[m - 1]),
    ensures
        lcs_len(new, old, i, j, n, m) == 1 + lcs_len(new, old, i, j, n - 1, m - 1),
    decreases (n - i) + (m - j),
{
    if new[i].eq_spec(&old[j]) {
        assert(lcs_len(new, old, i, j, n, m) == 1 + lcs_len(new, old, i + 1, j + 1, n, m));
        if i + 1 < n && j + 1 < m {
            lemma_lcs_last(new, old, i + 1, j + 1, n, m);
            assert(lcs_len(new, old, i, j, n - 1, m - 1) == 1 + lcs_len(
                new,
                old,
                i + 1,
                j + 1,
                n - 1,
                m - 1,
            ));
        } else {
            assert(lcs_len(new, old, i + 1, j + 1, n, m) == 0);
            assert(lcs_len(new, old, i, j, n - 1, m - 1) == 0);
        }
    } else {
        let a = lcs_len(new, old, i + 1, j, n, m);
        let b = lcs_len(new, old, i, j + 1, n, m);
        assert(lcs_len(new, old, i, j, n, m) == if a >= b {
            a
        } else {
            b
        });
        if i + 1 < n && j + 1 < m {
            lemma_lcs_last(new, old, i + 1, j, n, m);
            lemma_lcs_last(new, old, i, j + 1, n, m);
            let a1 = lcs_len(new, old, i + 1, j, n - 1, m - 1);
            let b1 = lcs_len(new, old, i, j + 1, n - 1, m - 1);
            assert(lcs_len(new, old, i, j, n - 1, m - 1) == if a1 >= b1 {
                a1
            } else {
                b1
            });
        } else if i + 1 == n {
            assert(j + 1 < m);
            lemma_lcs_last(new, old, i, j + 1, n, m);
            assert(a == 0);
            assert(lcs_len(new, old, i, j + 1, n - 1, m - 1) == 0);
            assert(lcs_len(new, old, i, j, n - 1, m - 1) == 0);
        } else {
            assert(j + 1 == m);
            lemma_lcs_last(new, old, i + 1, j, n, m);
            assert(b == 0);
            assert(lcs_len(new, old, i + 1, j, n - 1, m - 1) == 0);
            assert(lcs_len(new, old, i, j, n - 1, m - 1) == 0);
        }
    }
}

/// A common suffix of `k` elements adds `k` to the LCS.
proof fn lemma_lcs_suffix<T: PartialEq>(new: Seq<T>, old: Seq<T>, i: int, j: int, n: int, m: int, k: int)
    requires
        0 <= i <= n - k,
        0 <= j <= m - k,
        0 <= k,
        n <= new.len(),
        m <= old.len(),
        forall|q: int| 0 <= q < k ==> #[trigger] new[n - 1 - q].eq_spec(&old[m - 1 - q]),
    ensures
        lcs_len(new, old, i, j, n, m) == k + lcs_len(new, old, i, j, n - k, m - k),
    decreases k,
{
    if k > 0 {
        assert(new[n - 1 - 0].eq_spec(&old[m - 1 - 0]));
        lemma_lcs_last(new, old, i, j, n, m);
        assert forall|q: int| 0 <= q < k - 1 implies #[trigger] new[(n - 1) - 1 - q].eq_spec(
            &old[(m - 1) - 1 - q],
        ) by {
            assert(new[n - 1 - (q + 1)].eq_spec(&old[m - 1 - (q + 1)]));
        }
        lemma_lcs_suffix(new, old, i, j, n - 1, m - 1, k - 1);
    }
}

/// The value of the table at `(i, j)`: absent entries stand for 0.
pub open spec fn table_at(t: Map<(usize, usize), u32>, i: int, j: int) -> int {
    if t.contains_key((i as usize, j as usize)) {
        t[(i as usize, j as usize)] as int
    } else {
        0
    }
}

fn table_get(table: &BTreeMap<(usize, usize), u32>, i: usize, j: usize) -> (v: u32)
    requires
        index_pairs_ordered(),
    ensures
        v == table_at(table@, i as int, j as int),
{
    match table.get(&(i, j)) {
        Some(v) => *v,
        None => 0,
    }
}

/// The table of longest-common-subsequence lengths: the entry at `(i, j)` is
/// the length of the longest common subsequence of `new[i..new_len]` and
/// `old[j..old_len]`, where the lengths are those of the two ranges; only
/// positive entries are stored.
pub fn make_table<T: PartialEq>(
    old: &[T],
    old_range: Range<usize>,
    new: &[T],
    new_range: Range<usize>,
) -> (result: Option<BTreeMap<(usize, usize), u32>>)
    requires
        old_range.start <= old_range.end <= old@.len(),
        new_range.start <= new_range.end <= new@.len(),
        range_len(old_range) <= u32::MAX,
    ensures
        result is Some,
        T::obeys_eq_spec() ==> forall|i: int, j: int|
            0 <= i < range_len(new_range) && 0 <= j < range_len(old_range) ==> table_at(
                result->0@,
                i,
                j,
            ) == lcs_len(
                new@.subrange(new_range.start as int, new_range.end as int),
                old@.subrange(old_range.start as int, old_range.end as int),
                i,
                j,
                range_len(new_range),
                range_len(old_range),
            ),
        forall|k: (usize, usize)|
            #[trigger] result->0@.contains_key(k) ==> k.0 < range_len(new_range) && k.1 < range_len(
                old_range,
            ) && result->0@[k] > 0,
{
    proof {
        lemma_index_pairs_ordered();
    }
    let old_len: usize = if old_range.start <= old_range.end {
        old_range.end - old_range.start
    } else {
        0
    };
    let new_len: usize = if new_range.start <= new_range.end {
        new_range.end - new_range.start
    } else {
        0
    };
    let ghost n = new_len as int;
    let ghost m = old_len as int;
    let ghost ns = new@.subrange(new_range.start as int, new_range.end as int);
    let ghost os = old@.subrange(old_range.start as int, old_range.end as int);
    let new_total = new.len();
    let old_total = old.len();
    let mut table: BTreeMap<(usize, usize), u32> = BTreeMap::new();
    let mut i = new_len;
    while i > 0
        invariant
            index_pairs_ordered(),
            n == new_len,
            m == old_len,
            new_range.start + new_len <= new@.len(),
            old_range.start + old_len <= old@.len(),
            new@.len() == new_total,
            old@.len() == old_total,
            new_range.start <= new_range.end <= new@.len(),
            old_range.start <= old_range.end <= old@.len(),
            ns == new@.subrange(new_range.start as int, new_range.end as int),
            os == old@.subrange(old_range.start as int, old_range.end as int),
            ns.len() == n,
            os.len() == m,
            old_len <= u32::MAX,
            i <= new_len,
            T::obeys_eq_spec() ==> forall|a: int, b: int|
                i <= a < n && 0 <= b < m ==> table_at(table@, a, b) == lcs_len(ns, os, a, b, n, m),
            forall|k: (usize, usize)|
                #[trigger] table@.contains_key(k) ==> i <= k.0 < n && k.1 < m && table@[k] > 0
                    && table@[k] <= m - k.1,
        decreases i,
    {
        i = i - 1;
        let mut j = old_len;
        while j > 0
            invariant
                index_pairs_ordered(),
                n == new_len,
                m == old_len,
                new_range.start + new_len <= new@.len(),
                old_range.start + old_len <= old@.len(),
                new@.len() == new_total,
                old@.len() == old_total,
                new_range.start <= new_range.end <= new@.len(),
                old_range.start <= old_range.end <= old@.len(),
                ns == new@.subrange(new_range.start as int, new_range.end as int),
                os == old@.subrange(old_range.start as int, old_range.end as int),
                ns.len() == n,
                os.len() == m,
                old_len <= u32::MAX,
                i < new_len,
                j <= old_len,
                T::obeys_eq_spec() ==> forall|a: int, b: int|
                    i < a < n && 0 <= b < m ==> table_at(table@, a, b) == lcs_len(ns, os, a, b, n, m),
                T::obeys_eq_spec() ==> forall|b: int|
                    j <= b < m ==> table_at(table@, i as int, b) == lcs_len(ns, os, i as int, b, n, m),
                forall|k: (usize, usize)|
                    #[trigger] table@.contains_key(k) ==> i <= k.0 < n && k.1 < m && table@[k] > 0
                        && table@[k] <= m - k.1,
                forall|k: (usize, usize)|
                    #[trigger] table@.contains_key(k) && k.0 == i ==> k.1 >= j,
            decreases j,
        {
            j = j - 1;
            let diag = table_get(&table, i + 1, j + 1);
            let down = table_get(&table, i + 1, j);
            let right = table_get(&table, i, j + 1);
            proof {
                if T::obeys_eq_spec() {
                    if i + 1 < n {
                        assert(table_at(table@, i + 1, j as int) == lcs_len(ns, os, i + 1, j as int, n, m));
                        if j + 1 < m {
                            assert(table_at(table@, i + 1, j + 1) == lcs_len(ns, os, i + 1, j + 1, n, m));
                        }
                    }
                    if j + 1 < m {
                        assert(table_at(table@, i as int, j + 1) == lcs_len(ns, os, i as int, j + 1, n, m));
                    }
                    if i + 1 >= n {
                        assert(!table@.contains_key(((i + 1) as usize, j as usize)));
                        assert(!table@.contains_key(((i + 1) as usize, (j + 1) as usize)));
                    }
                    if j + 1 >= m {
                        assert(!table@.contains_key((i as usize, (j + 1) as usize)));
                        assert(!table@.contains_key(((i + 1) as usize, (j + 1) as usize)));
                    }
                }
                if table@.contains_key(((i + 1) as usize, (j + 1) as usize)) {
                    assert(diag <= m - j - 1);
                }
                if table@.contains_key(((i + 1) as usize, j as usize)) {
                    assert(down <= m - j);
                }
                if table@.contains_key((i as usize, (j + 1) as usize)) {
                    assert(right <= m - j - 1);
                }
            }
            let same = new[new_range.start + i] == old[old_range.start + j];
            proof {
                if T::obeys_eq_spec() {
                    assert(ns[i as int] == new@[new_range.start + i]);
                    assert(os[j as int] == old@[old_range.start + j]);
                    assert(same == ns[i as int].eq_spec(&os[j as int]));
                    if same {
                        assert(lcs_len(ns, os, i as int, j as int, n, m) == 1 + lcs_len(ns, os, i + 1, j + 1, n, m));
                    } else {
                        assert(lcs_len(ns, os, i as int, j as int, n, m) == if lcs_len(ns, os, i + 1, j as int, n, m) >= lcs_len(ns, os, i as int, j + 1, n, m) { lcs_len(ns, os, i + 1, j as int, n, m) } else { lcs_len(ns, os, i as int, j + 1, n, m) });
                    }
                }
            }
            let val: u32 = if same {
                diag + 1
            } else {
                if down >= right {
                    down
                } else {
                    right
                }
            };
            let ghost before = table@;
            if val > 0 {
                table.insert((i, j), val);
            }
            proof {
                assert forall|a: int, b: int|
                    (i < a < n && 0 <= b < m) || (a == i && j < b < m) implies table_at(table@, a, b)
                    == table_at(before, a, b) by {
                    if val > 0 {
                        assert((a as usize, b as usize) != (i, j));
                    }
                }
                if T::obeys_eq_spec() {
                    assert(val == lcs_len(ns, os, i as int, j as int, n, m));
                    assert(table_at(table@, i as int, j as int) == val);
                    assert forall|a: int, b: int| i < a < n && 0 <= b < m implies table_at(table@, a, b)
                        == lcs_len(ns, os, a, b, n, m) by {
                        assert(table_at(table@, a, b) == table_at(before, a, b));
                    }
                    assert forall|b: int| j <= b < m implies table_at(table@, i as int, b) == lcs_len(ns, os, i as int, b, n, m) by {
                        if b > j {
                            assert(table_at(table@, i as int, b) == table_at(before, i as int, b));
                        }
                    }
                }
            }
        }
    }
    Some(table)
}

/// Copies of `ts[start..end]`.
pub(crate) fn copy_tokens(ts: &[Token], start: usize, end: usize) -> (r: Vec<Token>)
    requires
        start <= end <= ts@.len(),
    ensures
        r@ == ts@.subrange(start as int, end as int),
{
    let mut r: Vec<Token> = Vec::new();
    let mut i = start;
    while i < end
        invariant
            start <= i <= end <= ts@.len(),
            r@ == ts@.subrange(start as int, i as int),
        decreases end - i,
    {
        r.push(ts[i].duplicate());
        assert(ts@.subrange(start as int, i + 1) =~= ts@.subrange(start as int, i as int).push(
            ts@[i as int],
        ));
        i = i + 1;
    }
    r
}

/// `ops` reads `old[..a]` and writes `new[..c]`: read in order, its kept and
/// deleted tokens are `old[..a]`, and its kept and inserted tokens match
/// `new[..c]` position by position, each being the token of `new` or a token
/// of `old` with the same normalised form.
pub open spec fn is_script_prefix(
    ops: Seq<RawOperation>,
    old: Seq<Token>,
    new: Seq<Token>,
    a: int,
    c: int,
) -> bool {
    &&& old_side(ops) == old.take(a)
    &&& new_side(ops).len() == c
    &&& forall|k: int|
        0 <= k < c ==> (#[trigger] new_side(ops)[k]).norm() == new[k].norm() && (new_side(ops)[k]
            == new[k] || old.contains(new_side(ops)[k]))
}

/// `ops` is an edit script from `old` to `new`.
pub open spec fn is_edit_script(ops: Seq<RawOperation>, old: Seq<Token>, new: Seq<Token>) -> bool {
    is_script_prefix(ops, old, new, old.len() as int, new.len() as int)
}

/// The two lists hold tokens with the same normalised forms.
pub open spec fn same_tokens(a: Seq<Token>, b: Seq<Token>) -> bool {
    a.len() == b.len() && forall|k: int| 0 <= k < a.len() ==> (#[trigger] a[k]).norm() == b[k].norm()
}

/// Every step of `ops` keeps its tokens.
pub open spec fn only_equal(ops: Seq<RawOperation>) -> bool {
    forall|k: int| 0 <= k < ops.len() ==> (#[trigger] ops[k]) is Equal
}

/// Every step of `ops` carries at least one token.
pub open spec fn all_nonempty(ops: Seq<RawOperation>) -> bool {
    forall|k: int| 0 <= k < ops.len() ==> raw_tokens(#[trigger] ops[k]).len() > 0
}

proof fn lemma_script_push(
    ops: Seq<RawOperation>,
    op: RawOperation,
    old: Seq<Token>,
    new: Seq<Token>,
    a: int,
    b: int,
    c: int,
    d: int,
)
    requires
        0 <= a <= b <= old.len(),
        0 <= c <= d <= new.len(),
        is_script_prefix(ops, old, new, a, c),
        raw_old(op) == old.subrange(a, b),
        raw_new(op).len() == d - c,
        forall|k: int|
            0 <= k < d - c ==> (#[trigger] raw_new(op)[k]).norm() == new[c + k].norm() && (
            raw_new(op)[k] == new[c + k] || old.contains(raw_new(op)[k])),
    ensures
        is_script_prefix(ops.push(op), old, new, b, d),
{
    lemma_sides_push(ops, op);
    assert(old.take(a) + old.subrange(a, b) =~= old.take(b));
    let ns = new_side(ops.push(op));
    assert forall|k: int| 0 <= k < d implies (#[trigger] ns[k]).norm() == new[k].norm() && (ns[k]
        == new[k] || old.contains(ns[k])) by {
        if k < c {
            assert(ns[k] == new_side(ops)[k]);
        } else {
            assert(ns[k] == raw_new(op)[k - c]);
        }
    }
}

/// The LCS of two lists with a common prefix of `cp` and a common suffix of
/// `cs` elements is those plus the LCS of what lies between.
proof fn lemma_lcs_trimmed(new: Seq<Token>, old: Seq<Token>, cp: int, cs: int)
    requires
        0 <= cp,
        0 <= cs,
        cp + cs <= new.len(),
        cp + cs <= old.len(),
        prefix_matches(old, 0, new, 0, cp),
        suffix_matches(old, old.len() as int, new, new.len() as int, cs),
    ensures
        lcs_len(new, old, 0, 0, new.len() as int, old.len() as int) == cp + cs + lcs_len(
            new.subrange(cp, new.len() - cs),
            old.subrange(cp, old.len() - cs),
            0,
            0,
            new.len() - cp - cs,
            old.len() - cp - cs,
        ),
{
    assert forall|q: int| 0 <= q < cp implies #[trigger] new[q].eq_spec(&old[q]) by {
        assert(new[0 + q].eq_spec(&old[0 + q]));
    }
    lemma_lcs_prefix(new, old, 0, cp, new.len() as int, old.len() as int);
    lemma_lcs_suffix(new, old, cp, cp, new.len() as int, old.len() as int, cs);
    lemma_lcs_shift(new, old, cp, new.len() - cs, cp, old.len() - cs, 0, 0);
}

/// The length of the common prefix of `new` and `old` from position `k` on,
/// plus `k`.
pub open spec fn prefix_from(old: Seq<Token>, new: Seq<Token>, k: int) -> int
    decreases old.len() - k,
{
    if 0 <= k < old.len() && k < new.len() && new[k].norm() == old[k].norm() {
        prefix_from(old, new, k + 1)
    } else {
        k
    }
}

/// The length of the common suffix of what follows the first `cp` elements
/// of `new` and `old`, counted from `k` on, plus `k`.
pub open spec fn suffix_from(old: Seq<Token>, new: Seq<Token>, cp: int, k: int) -> int
    decreases old.len() - cp - k,
{
    if 0 <= k < old.len() - cp && k < new.len() - cp && new[new.len() - 1 - k].norm() == old[old.len() - 1 - k].norm() {
        suffix_from(old, new, cp, k + 1)
    } else {
        k
    }
}

proof fn lemma_prefix_from(old: Seq<Token>, new: Seq<Token>, k: int, n: int)
    requires
        0 <= k <= n <= old.len(),
        n <= new.len(),
        prefix_matches(old, 0, new, 0, n),
        n < old.len() && n < new.len() ==> !new[n].eq_spec(&old[n]),
    ensures
        prefix_from(old, new, k) == n,
    decreases n - k,
{
    if k < n {
        assert(new[0 + k].eq_spec(&old[0 + k]));
        lemma_prefix_from(old, new, k + 1, n);
    }
}

proof fn lemma_suffix_from(old: Seq<Token>, new: Seq<Token>, cp: int, k: int, n: int)
    requires
        0 <= k <= n <= old.len() - cp,
        n <= new.len() - cp,
        suffix_matches(old, old.len() as int, new, new.len() as int, n),
        n < old.len() - cp && n < new.len() - cp ==> !new[new.len() - 1 - n].eq_spec(
            &old[old.len() - 1 - n],
        ),
    ensures
        suffix_from(old, new, cp, k) == n,
    decreases n - k,
{
    if k < n {
        assert(new[new.len() - 1 - k].eq_spec(&old[old.len() - 1 - k]));
        lemma_suffix_from(old, new, cp, k + 1, n);
    }
}

/// Length of the longest common subsequence of the tokens `new[i..n]` and
/// `old[j..m]`, tokens being equal when their normalised forms are.
pub open spec fn token_lcs(new: Seq<Token>, old: Seq<Token>, i: int, j: int, n: int, m: int) -> nat
    decreases n - i + m - j,
{
    if i >= n || j >= m || i < 0 || j < 0 {
        0
    } else if new[i].norm() == old[j].norm() {
        1 + token_lcs(new, old, i + 1, j + 1, n, m)
    } else {
        let a = token_lcs(new, old, i + 1, j, n, m);
        let b = token_lcs(new, old, i, j + 1, n, m);
        if a >= b {
            a
        } else {
            b
        }
    }
}

proof fn lemma_token_lcs(new: Seq<Token>, old: Seq<Token>, i: int, j: int, n: int, m: int)
    ensures
        token_lcs(new, old, i, j, n, m) == lcs_len(new, old, i, j, n, m),
    decreases n - i + m - j,
{
    if i >= n || j >= m || i < 0 || j < 0 {
    } else {
        lemma_token_lcs(new, old, i + 1, j + 1, n, m);
        lemma_token_lcs(new, old, i + 1, j, n, m);
        lemma_token_lcs(new, old, i, j + 1, n, m);
    }
}

/// The steps of the walk through the LCS table of `new` and `old` from
/// `(i, j)`: a kept token where the tokens are equal, else the deletion of
/// the old token where skipping it keeps at least as long a common
/// subsequence, else the insertion of the new token; once one side runs
/// out, the rest of the old tokens are deleted and then the rest of the new
/// ones inserted.
pub open spec fn walk(new: Seq<Token>, old: Seq<Token>, i: int, j: int) -> Seq<
    (StepKind, Seq<Token>),
>
    decreases new.len() - i + old.len() - j,
{
    if i < 0 || j < 0 || i >= new.len() || j >= old.len() {
        (if 0 <= j < old.len() {
            seq![(StepKind::Delete, old.skip(j))]
        } else {
            Seq::empty()
        }) + (if 0 <= i < new.len() {
            seq![(StepKind::Insert, new.skip(i))]
        } else {
            Seq::empty()
        })
    } else if new[i].norm() == old[j].norm() {
        seq![(StepKind::Equal, seq![old[j]])] + walk(new, old, i + 1, j + 1)
    } else if token_lcs(new, old, i, j + 1, new.len() as int, old.len() as int) >= token_lcs(
        new,
        old,
        i + 1,
        j,
        new.len() as int,
        old.len() as int,
    ) {
        seq![(StepKind::Delete, seq![old[j]])] + walk(new, old, i, j + 1)
    } else {
        seq![(StepKind::Insert, seq![new[i]])] + walk(new, old, i + 1, j)
    }
}

/// The steps of the LCS diff from `old` to `new`: the common prefix kept,
/// the walk through the table of what lies between the common prefix and
/// the common suffix, and the common suffix kept (taken from `old`).
pub open spec fn diff_steps(old: Seq<Token>, new: Seq<Token>) -> Seq<(StepKind, Seq<Token>)> {
    let cp = prefix_from(old, new, 0);
    let cs = suffix_from(old, new, cp, 0);
    (if cp > 0 {
        seq![(StepKind::Equal, old.take(cp))]
    } else {
        Seq::empty()
    }) + walk(new.subrange(cp, new.len() - cs), old.subrange(cp, old.len() - cs), 0, 0) + (
    if cs > 0 {
        seq![(StepKind::Equal, old.subrange(old.len() - cs, old.len() as int))]
    } else {
        Seq::empty()
    })
}

/// The tokens that the insert steps of `steps` insert, in order.
pub open spec fn inserted_tokens(steps: Seq<(StepKind, Seq<Token>)>) -> Seq<Token>
    decreases steps.len(),
{
    if steps.len() == 0 {
        Seq::empty()
    } else {
        inserted_tokens(steps.drop_last()) + if steps.last().0 is Insert {
            steps.last().1
        } else {
            Seq::empty()
        }
    }
}

pub proof fn lemma_inserted_append(a: Seq<(StepKind, Seq<Token>)>, b: Seq<(StepKind, Seq<Token>)>)
    ensures
        inserted_tokens(a + b) == inserted_tokens(a) + inserted_tokens(b),
    decreases b.len(),
{
    if b.len() == 0 {
        assert(a + b =~= a);
        assert(inserted_tokens(a) + Seq::<Token>::empty() =~= inserted_tokens(a));
    } else {
        lemma_inserted_append(a, b.drop_last());
        assert((a + b).drop_last() =~= a + b.drop_last());
        assert(inserted_tokens(a) + inserted_tokens(b.drop_last()) + (if b.last().0 is Insert {
            b.last().1
        } else {
            Seq::empty()
        }) =~= inserted_tokens(a) + inserted_tokens(b));
    }
}

proof fn lemma_inserted_single(step: (StepKind, Seq<Token>))
    ensures
        inserted_tokens(seq![step]) == if step.0 is Insert { step.1 } else { Seq::<Token>::empty() },
{
    assert(seq![step].drop_last() =~= Seq::<(StepKind, Seq<Token>)>::empty());
    assert(seq![step].last() == step);
    assert(inserted_tokens(Seq::<(StepKind, Seq<Token>)>::empty()) == Seq::<Token>::empty());
    assert(Seq::<Token>::empty() + (if step.0 is Insert { step.1 } else { Seq::<Token>::empty() })
        =~= (if step.0 is Insert { step.1 } else { Seq::<Token>::empty() }));
}

/// The original forms of `ts` from `i` on are those of `ts[i]` followed by
/// those from `i + 1` on.
proof fn lemma_flatten_skip(ts: Seq<Token>, i: int)
    requires
        0 <= i < ts.len(),
    ensures
        flatten(ts.skip(i)).len() == ts[i].orig().len() + flatten(ts.skip(i + 1)).len(),
{
    assert(ts.skip(i) =~= seq![ts[i]] + ts.skip(i + 1));
    lemma_flatten_append(seq![ts[i]], ts.skip(i + 1));
    lemma_flatten_single(ts[i]);
}

/// The walk inserts no more characters than the new tokens from `i` on hold.
proof fn lemma_walk_inserted(new: Seq<Token>, old: Seq<Token>, i: int, j: int)
    requires
        0 <= i <= new.len(),
        0 <= j <= old.len(),
    ensures
        flatten(inserted_tokens(walk(new, old, i, j))).len() <= flatten(new.skip(i)).len(),
    decreases new.len() - i + old.len() - j,
{
    let w = walk(new, old, i, j);
    if i >= new.len() || j >= old.len() {
        let d: Seq<(StepKind, Seq<Token>)> = if 0 <= j < old.len() {
            seq![(StepKind::Delete, old.skip(j))]
        } else {
            Seq::empty()
        };
        let n: Seq<(StepKind, Seq<Token>)> = if 0 <= i < new.len() {
            seq![(StepKind::Insert, new.skip(i))]
        } else {
            Seq::empty()
        };
        assert(w == d + n);
        lemma_inserted_append(d, n);
        if 0 <= j < old.len() {
            lemma_inserted_single((StepKind::Delete, old.skip(j)));
        }
        assert(inserted_tokens(d) =~= Seq::<Token>::empty());
        if 0 <= i < new.len() {
            lemma_inserted_single((StepKind::Insert, new.skip(i)));
            assert(inserted_tokens(w) =~= new.skip(i));
        } else {
            assert(inserted_tokens(w) =~= Seq::<Token>::empty());
            assert(flatten(Seq::<Token>::empty()).len() == 0);
        }
    } else {
        lemma_flatten_skip(new, i);
        if new[i].norm() == old[j].norm() {
            let step = (StepKind::Equal, seq![old[j]]);
            lemma_walk_inserted(new, old, i + 1, j + 1);
            lemma_inserted_append(seq![step], walk(new, old, i + 1, j + 1));
            lemma_inserted_single(step);
            assert(inserted_tokens(w) =~= inserted_tokens(walk(new, old, i + 1, j + 1)));
        } else if token_lcs(new, old, i, j + 1, new.len() as int, old.len() as int) >= token_lcs(
            new,
            old,
            i + 1,
            j,
            new.len() as int,
            old.len() as int,
        ) {
            let step = (StepKind::Delete, seq![old[j]]);
            lemma_walk_inserted(new, old, i, j + 1);
            lemma_inserted_append(seq![step], walk(new, old, i, j + 1));
            lemma_inserted_single(step);
            assert(inserted_tokens(w) =~= inserted_tokens(walk(new, old, i, j + 1)));
        } else {
            let step = (StepKind::Insert, seq![new[i]]);
            assert(w == seq![step] + walk(new, old, i + 1, j));
            lemma_walk_inserted(new, old, i + 1, j);
            lemma_inserted_append(seq![step], walk(new, old, i + 1, j));
            lemma_inserted_single(step);
            lemma_flatten_append(seq![new[i]], inserted_tokens(walk(new, old, i + 1, j)));
            lemma_flatten_single(new[i]);
        }
    }
}

proof fn lemma_prefix_from_bound(old: Seq<Token>, new: Seq<Token>, k: int)
    requires
        0 <= k <= old.len(),
        k <= new.len(),
    ensures
        k <= prefix_from(old, new, k) <= old.len(),
        prefix_from(old, new, k) <= new.len(),
    decreases old.len() - k,
{
    if 0 <= k < old.len() && k < new.len() && new[k].norm() == old[k].norm() {
        lemma_prefix_from_bound(old, new, k + 1);
    }
}

proof fn lemma_suffix_from_bound(old: Seq<Token>, new: Seq<Token>, cp: int, k: int)
    requires
        0 <= cp,
        0 <= k <= old.len() - cp,
        k <= new.len() - cp,
    ensures
        k <= suffix_from(old, new, cp, k) <= old.len() - cp,
        suffix_from(old, new, cp, k) <= new.len() - cp,
    decreases old.len() - cp - k,
{
    if 0 <= k < old.len() - cp && k < new.len() - cp && new[new.len() - 1 - k].norm() == old[old.len() - 1 - k].norm() {
        lemma_suffix_from_bound(old, new, cp, k + 1);
    }
}

/// The diff inserts no more characters than the new tokens hold.
pub proof fn lemma_diff_inserted(old: Seq<Token>, new: Seq<Token>)
    ensures
        flatten(inserted_tokens(diff_steps(old, new))).len() <= flatten(new).len(),
{
    let cp = prefix_from(old, new, 0);
    lemma_prefix_from_bound(old, new, 0);
    let cs = suffix_from(old, new, cp, 0);
    lemma_suffix_from_bound(old, new, cp, 0);
    let sub_new = new.subrange(cp, new.len() - cs);
    let sub_old = old.subrange(cp, old.len() - cs);
    let head: Seq<(StepKind, Seq<Token>)> = if cp > 0 {
        seq![(StepKind::Equal, old.take(cp))]
    } else {
        Seq::empty()
    };
    let tail: Seq<(StepKind, Seq<Token>)> = if cs > 0 {
        seq![(StepKind::Equal, old.subrange(old.len() - cs, old.len() as int))]
    } else {
        Seq::empty()
    };
    let w = walk(sub_new, sub_old, 0, 0);
    assert(diff_steps(old, new) == head + w + tail);
    lemma_inserted_append(head + w, tail);
    lemma_inserted_append(head, w);
    if cp > 0 {
        lemma_inserted_single((StepKind::Equal, old.take(cp)));
    }
    if cs > 0 {
        lemma_inserted_single((StepKind::Equal, old.subrange(old.len() - cs, old.len() as int)));
    }
    assert(inserted_tokens(head) =~= Seq::<Token>::empty());
    assert(inserted_tokens(tail) =~= Seq::<Token>::empty());
    assert(inserted_tokens(diff_steps(old, new)) =~= inserted_tokens(w));
    lemma_walk_inserted(sub_new, sub_old, 0, 0);
    assert(sub_new.skip(0) =~= sub_new);
    assert(new =~= new.take(cp) + sub_new + new.skip(new.len() - cs));
    lemma_flatten_append(new.take(cp) + sub_new, new.skip(new.len() - cs));
    lemma_flatten_append(new.take(cp), sub_new);
}

/// The number of tokens that the steps of `ops` keep.
pub open spec fn kept_count(ops: Seq<RawOperation>) -> nat
    decreases ops.len(),
{
    if ops.len() == 0 {
        0
    } else {
        kept_count(ops.drop_last()) + if ops.last() is Equal {
            raw_tokens(ops.last()).len()
        } else {
            0
        }
    }
}

proof fn lemma_kept_push(ops: Seq<RawOperation>, op: RawOperation)
    ensures
        kept_count(ops.push(op)) == kept_count(ops) + if op is Equal {
            raw_tokens(op).len()
        } else {
            0
        },
{
    assert(ops.push(op).drop_last() =~= ops);
}

/// An entry of the table, inside its ranges or on their far edges, is the
/// LCS length there.
proof fn lemma_table_entry(
    t: Map<(usize, usize), u32>,
    new: Seq<Token>,
    old: Seq<Token>,
    a: int,
    b: int,
    n: int,
    m: int,
)
    requires
        0 <= a <= n <= usize::MAX,
        0 <= b <= m <= usize::MAX,
        forall|x: int, y: int| 0 <= x < n && 0 <= y < m ==> table_at(t, x, y) == lcs_len(new, old, x, y, n, m),
        forall|k: (usize, usize)| #[trigger] t.contains_key(k) ==> k.0 < n && k.1 < m,
    ensures
        table_at(t, a, b) == lcs_len(new, old, a, b, n, m),
{
    if a == n || b == m {
        assert(!t.contains_key((a as usize, b as usize)));
    }
}

/// LCS diff algorithm: an edit script from `old` to `new`, built from the
/// common prefix, a walk through the table of longest common subsequence
/// lengths, and the common suffix. The tokens that it keeps are as many as
/// the longest common subsequence of the two lists has.
#[verifier::rlimit(50)]
pub fn diff(old: &[Token], new: &[Token]) -> (result: Vec<RawOperation>)
    requires
        old@.len() <= u32::MAX,
    ensures
        is_edit_script(result@, old@, new@),
        all_nonempty(result@),
        same_tokens(old@, new@) ==> only_equal(result@),
        kept_count(result@) == lcs_len(new@, old@, 0, 0, new@.len() as int, old@.len() as int),
        steps_of(result@) == diff_steps(old@, new@),
{
    let common_prefix_len = common_prefix_len(old, 0..old.len(), new, 0..new.len());
    let common_suffix_len = common_suffix_len(
        old,
        common_prefix_len..old.len(),
        new,
        common_prefix_len..new.len(),
    );
    let maybe_table = make_table(
        old,
        common_prefix_len..(old.len() - common_suffix_len),
        new,
        common_prefix_len..(new.len() - common_suffix_len),
    );
    let cp = common_prefix_len;
    let cs = common_suffix_len;
    let mut old_idx: usize = 0;
    let mut new_idx: usize = 0;
    let new_len = new.len() - common_prefix_len - common_suffix_len;
    let old_len = old.len() - common_prefix_len - common_suffix_len;
    let ghost o = old@;
    let ghost nw = new@;
    let ghost same = same_tokens(o, nw);
    let ghost mn = nw.subrange(cp as int, cp + new_len);
    let ghost mo = o.subrange(cp as int, cp + old_len);
    proof {
        if same && cp < o.len() {
            assert(nw[cp as int].eq_spec(&o[cp as int]));
        }
        assert(Token::obeys_eq_spec());
        lemma_index_pairs_ordered();
        lemma_prefix_from(o, nw, 0, cp as int);
        lemma_suffix_from(o, nw, cp as int, 0, cs as int);
    }
    let ghost pre: Seq<(StepKind, Seq<Token>)> = if cp > 0 {
        seq![(StepKind::Equal, o.take(cp as int))]
    } else {
        Seq::empty()
    };

    let mut result: Vec<RawOperation> = Vec::new();
    proof {
        assert(o.take(0) =~= Seq::<Token>::empty());
        assert(is_script_prefix(result@, o, nw, 0, 0));
        assert(only_equal(result@));
    }
    if common_prefix_len > 0 {
        let op = RawOperation::Equal(copy_tokens(old, 0, common_prefix_len));
        proof {
            assert forall|k: int| 0 <= k < cp implies (#[trigger] raw_new(op)[k]).norm() == nw[0
                + k].norm() && (raw_new(op)[k] == nw[0 + k] || o.contains(raw_new(op)[k])) by {
                assert(nw[0 + k].eq_spec(&o[0 + k]));
                assert(raw_new(op)[k] == o[k]);
            }
            lemma_script_push(result@, op, o, nw, 0, cp as int, 0, cp as int);
            lemma_kept_push(result@, op);
            lemma_steps_push(result@, op);
            assert(o.subrange(0, cp as int) =~= o.take(cp as int));
        }
        result.push(op);
    }
    assert(kept_count(result@) == cp);
    assert(steps_of(result@) =~= pre);
    match maybe_table {
        Some(table) => {
            while new_idx < new_len && old_idx < old_len
                invariant
                    index_pairs_ordered(),
                    mn == nw.subrange(cp as int, cp + new_len),
                    mo == o.subrange(cp as int, cp + old_len),
                    forall|x: int, y: int|
                        0 <= x < new_len && 0 <= y < old_len ==> table_at(table@, x, y) == lcs_len(
                            mn,
                            mo,
                            x,
                            y,
                            new_len as int,
                            old_len as int,
                        ),
                    forall|k: (usize, usize)| #[trigger]
                        table@.contains_key(k) ==> k.0 < new_len && k.1 < old_len,
                    kept_count(result@) + lcs_len(
                        mn,
                        mo,
                        new_idx as int,
                        old_idx as int,
                        new_len as int,
                        old_len as int,
                    ) == cp + lcs_len(mn, mo, 0, 0, new_len as int, old_len as int),
                    steps_of(result@) + walk(mn, mo, new_idx as int, old_idx as int) == pre + walk(
                        mn,
                        mo,
                        0,
                        0,
                    ),
                    o == old@,
                    nw == new@,
                    cp == common_prefix_len,
                    cs == common_suffix_len,
                    cp + cs + old_len == old.len(),
                    cp + cs + new_len == new.len(),
                    cp + cs <= o.len(),
                    cp + cs <= nw.len(),
                    old_len == o.len() - cp - cs,
                    new_len == nw.len() - cp - cs,
                    old_idx <= old_len,
                    new_idx <= new_len,
                    is_script_prefix(result@, o, nw, cp + old_idx, cp + new_idx),
                    all_nonempty(result@),
                    same ==> old_len == 0 && new_len == 0 && only_equal(result@),
                decreases old_len - old_idx + new_len - new_idx,
            {
                let old_orig_idx = common_prefix_len + old_idx;
                let new_orig_idx = common_prefix_len + new_idx;
                let ghost before = result@;
                proof {
                    assert(mn[new_idx as int] == nw[new_orig_idx as int]);
                    assert(mo[old_idx as int] == o[old_orig_idx as int]);
                    lemma_table_entry(table@, mn, mo, new_idx as int, old_idx + 1, new_len as int, old_len as int);
                    lemma_table_entry(table@, mn, mo, new_idx + 1, old_idx as int, new_len as int, old_len as int);
                    lemma_token_lcs(mn, mo, new_idx as int, old_idx + 1, new_len as int, old_len as int);
                    lemma_token_lcs(mn, mo, new_idx + 1, old_idx as int, new_len as int, old_len as int);
                }
                if new[new_orig_idx] == old[old_orig_idx] {
                    let op = RawOperation::Equal(vec![old[old_orig_idx].duplicate()]);
                    proof {
                        assert(raw_old(op) =~= o.subrange(old_orig_idx as int, old_orig_idx + 1));
                        assert(raw_new(op)[0] == o[old_orig_idx as int]);
                        lemma_script_push(before, op, o, nw, old_orig_idx as int, old_orig_idx + 1, new_orig_idx as int, new_orig_idx + 1);
                        lemma_kept_push(before, op);
                        lemma_steps_push(before, op);
                        assert(step_of(op).1 =~= seq![mo[old_idx as int]]);
                        assert(step_of(op) == (StepKind::Equal, seq![mo[old_idx as int]]));
                        assert(steps_of(before).push(step_of(op)) + walk(mn, mo, new_idx + 1, old_idx + 1) =~= steps_of(before) + (seq![step_of(op)] + walk(mn, mo, new_idx + 1, old_idx + 1)));
                    }
                    result.push(op);
                    old_idx = old_idx + 1;
                    new_idx = new_idx + 1;
                } else if table_get(&table, new_idx, old_idx + 1) >= table_get(
                    &table,
                    new_idx + 1,
                    old_idx,
                ) {
                    let op = RawOperation::Delete(vec![old[old_orig_idx].duplicate()]);
                    proof {
                        assert(raw_old(op) =~= o.subrange(old_orig_idx as int, old_orig_idx + 1));
                        lemma_script_push(before, op, o, nw, old_orig_idx as int, old_orig_idx + 1, new_orig_idx as int, new_orig_idx as int);
                        lemma_kept_push(before, op);
                        lemma_steps_push(before, op);
                        assert(step_of(op).1 =~= seq![mo[old_idx as int]]);
                        assert(step_of(op) == (StepKind::Delete, seq![mo[old_idx as int]]));
                        assert(steps_of(before).push(step_of(op)) + walk(mn, mo, new_idx as int, old_idx + 1) =~= steps_of(before) + (seq![step_of(op)] + walk(mn, mo, new_idx as int, old_idx + 1)));
                    }
                    result.push(op);
                    old_idx = old_idx + 1;
                } else {
                    let op = RawOperation::Insert(vec![new[new_orig_idx].duplicate()]);
                    proof {
                        assert(raw_old(op) =~= o.subrange(old_orig_idx as int, old_orig_idx as int));
                        assert(raw_new(op)[0] == nw[new_orig_idx as int]);
                        lemma_script_push(before, op, o, nw, old_orig_idx as int, old_orig_idx as int, new_orig_idx as int, new_orig_idx + 1);
                        lemma_kept_push(before, op);
                        lemma_steps_push(before, op);
                        assert(step_of(op).1 =~= seq![mn[new_idx as int]]);
                        assert(step_of(op) == (StepKind::Insert, seq![mn[new_idx as int]]));
                        assert(steps_of(before).push(step_of(op)) + walk(mn, mo, new_idx + 1, old_idx as int) =~= steps_of(before) + (seq![step_of(op)] + walk(mn, mo, new_idx + 1, old_idx as int)));
                    }
                    result.push(op);
                    new_idx = new_idx + 1;
                }
            }
            assert(kept_count(result@) == cp + lcs_len(mn, mo, 0, 0, new_len as int, old_len as int));
            assert(steps_of(result@) + walk(mn, mo, new_idx as int, old_idx as int) == pre + walk(
                mn,
                mo,
                0,
                0,
            ));
        },
        None => {
            proof {
                assert(false);
            }
        },
    }

    let ghost s0 = steps_of(result@);
    let ghost ni0 = new_idx as int;
    let ghost oi0 = old_idx as int;
    let ghost del_part: Seq<(StepKind, Seq<Token>)> = if oi0 < old_len {
        seq![(StepKind::Delete, mo.skip(oi0))]
    } else {
        Seq::empty()
    };
    let ghost ins_part: Seq<(StepKind, Seq<Token>)> = if ni0 < new_len {
        seq![(StepKind::Insert, mn.skip(ni0))]
    } else {
        Seq::empty()
    };
    assert(walk(mn, mo, ni0, oi0) == del_part + ins_part);
    if old_idx < old_len {
        let op = RawOperation::Delete(
            copy_tokens(old, common_prefix_len + old_idx, common_prefix_len + old_len),
        );
        proof {
            assert(raw_new(op) =~= Seq::<Token>::empty());
            lemma_script_push(result@, op, o, nw, cp + old_idx, cp + old_len, cp + new_idx, cp + new_idx);
            lemma_kept_push(result@, op);
            lemma_steps_push(result@, op);
            assert(raw_tokens(op) =~= mo.skip(oi0));
        }
        result.push(op);
        old_idx = old_len;
    }
    if new_idx < new_len {
        let op = RawOperation::Insert(
            copy_tokens(new, common_prefix_len + new_idx, common_prefix_len + new_len),
        );
        proof {
            assert(raw_old(op) =~= o.subrange(cp + old_idx, cp + old_idx));
            lemma_script_push(result@, op, o, nw, cp + old_idx, cp + old_idx, cp + new_idx, cp + new_len);
            lemma_kept_push(result@, op);
            lemma_steps_push(result@, op);
            assert(raw_tokens(op) =~= mn.skip(ni0));
        }
        result.push(op);
        new_idx = new_len;
    }
    assert(steps_of(result@) =~= s0 + del_part + ins_part);
    let ghost s1 = steps_of(result@);
    if common_suffix_len > 0 {
        let op = RawOperation::Equal(
            copy_tokens(
                old,
                old_len + common_prefix_len,
                old_len + common_prefix_len + common_suffix_len,
            ),
        );
        proof {
            assert forall|k: int| 0 <= k < cs implies (#[trigger] raw_new(op)[k]).norm() == nw[cp + new_len + k].norm() && (raw_new(op)[k] == nw[cp + new_len + k] || o.contains(raw_new(op)[k])) by {
                let kk = cs - 1 - k;
                assert(nw[nw.len() - 1 - kk].eq_spec(&o[o.len() - 1 - kk]));
                assert(raw_new(op)[k] == o[cp + old_len + k]);
            }
            lemma_script_push(result@, op, o, nw, cp + old_len, o.len() as int, cp + new_len, nw.len() as int);
            lemma_kept_push(result@, op);
            lemma_steps_push(result@, op);
        }
        result.push(op);
    }
    proof {
        let suf: Seq<(StepKind, Seq<Token>)> = if cs > 0 {
            seq![(StepKind::Equal, o.subrange(o.len() - cs, o.len() as int))]
        } else {
            Seq::empty()
        };
        assert(steps_of(result@) =~= s1 + suf);
        assert(mn =~= nw.subrange(cp as int, nw.len() - cs));
        assert(mo =~= o.subrange(cp as int, o.len() - cs));
        assert(steps_of(result@) =~= diff_steps(o, nw));
    }
    proof {
        assert(o.take(o.len() as int) =~= o);
        lemma_lcs_trimmed(nw, o, cp as int, cs as int);
    }
    assert(same ==> only_equal(result@));
    result
}

} // verus!
