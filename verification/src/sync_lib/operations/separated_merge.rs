//! What merging two operation sequences gives where no change of one lies
//! next to a change of the other: the original text with the changes of both
//! sides made.
use vstd::prelude::*;

use super::merge_context::{
    edit_len64, fresh_context, pending_end, picked, sync_step, with_delete, SyncContextView,
};
use super::operation::{edit_applied, edit_end, edit_index, edit_len, edit_with_index, EditView};
use super::operation_sequence::{
    diff_edits, diff_new, diff_old, DiffTag, edit_seq, edits_applied, lemma_sync_merge_done, lemma_sync_merge_step, merge_key,
    sync_merge_from, takes_left,
};
use crate::operation_transformation::separated_edits::{
    lemma_pos_merge_commutes, lemma_pos_merge_push_a, lemma_pos_merge_push_b, pos_merge,
};
use crate::operations::operation::{fits_usize, shifted_index};
use vstd::wrapping::i64_specs;
use vstd::wrapping::usize_specs::wrapping_add;

verus! {

/// How many characters of the text an operation removes.
pub open spec fn edit_removed(op: EditView) -> int {
    match op {
        EditView::Insert { .. } => 0,
        EditView::Delete { count, .. } => count as int,
    }
}

/// The characters an operation puts in.
pub open spec fn edit_put(op: EditView) -> Seq<char> {
    match op {
        EditView::Insert { text, .. } => text,
        EditView::Delete { .. } => Seq::empty(),
    }
}

/// How much the first `k` operations of `ops` lengthen the text.
pub open spec fn edit_growth(ops: Seq<EditView>, k: int) -> int
    decreases k,
{
    if k <= 0 {
        0
    } else {
        edit_growth(ops, k - 1) + edit_put(ops[k - 1]).len() - edit_removed(ops[k - 1])
    }
}

/// How many characters the first `k` operations of `ops` put in.
pub open spec fn edit_put_total(ops: Seq<EditView>, k: int) -> int
    decreases k,
{
    if k <= 0 {
        0
    } else {
        edit_put_total(ops, k - 1) + edit_put(ops[k - 1]).len()
    }
}

/// How many characters the first `k` operations of `ops` remove.
pub open spec fn edit_removed_total(ops: Seq<EditView>, k: int) -> int
    decreases k,
{
    if k <= 0 {
        0
    } else {
        edit_removed_total(ops, k - 1) + edit_removed(ops[k - 1])
    }
}

/// Where the `k`th operation of `ops` starts in the original text: its index
/// less what the operations before it lengthened the text by.
pub open spec fn edit_pos(ops: Seq<EditView>, k: int) -> int {
    edit_index(ops[k]) - edit_growth(ops, k)
}

/// `ops` is an edit of a text of `n` characters: in the original text its
/// operations start in order and do not overlap, and each affects at least
/// one character.
#[verifier::opaque]
pub open spec fn edits_of_length(ops: Seq<EditView>, n: int) -> bool {
    &&& forall|k: int|
        0 <= k < ops.len() ==> 0 <= edit_pos(ops, k) && edit_pos(ops, k) + edit_removed(
            #[trigger] ops[k],
        ) <= n && edit_len(ops[k]) > 0
    &&& forall|q: int, r: int|
        #![trigger ops[q], ops[r]]
        0 <= q < r < ops.len() ==> edit_pos(ops, q) + edit_removed(ops[q]) <= edit_pos(ops, r)
}

/// Every change of `left` lies apart from every change of `right` in the
/// original text: at least one character that neither changes stands
/// between them.
#[verifier::opaque]
pub open spec fn edits_apart(left: Seq<EditView>, right: Seq<EditView>) -> bool {
    forall|a: int, b: int|
        0 <= a < left.len() && 0 <= b < right.len() ==> edit_pos(left, a) + edit_removed(
            #[trigger] left[a],
        ) < edit_pos(right, b) || edit_pos(right, b) + edit_removed(#[trigger] right[b]) < edit_pos(
            left,
            a,
        )
}

/// The operations with where each starts in the original text.
pub open spec fn positioned(ops: Seq<EditView>) -> Seq<(usize, EditView)> {
    Seq::new(ops.len(), |k: int| (edit_pos(ops, k) as usize, ops[k]))
}

/// How far into `original` splicing in `ops` has read, and what it has
/// written: each operation replaces the characters it removes from where it
/// starts with the characters it puts in.
pub open spec fn edit_splice_state(original: Seq<char>, ops: Seq<(usize, EditView)>) -> (int, Seq<char>)
    decreases ops.len(),
{
    if ops.len() == 0 {
        (0, Seq::empty())
    } else {
        let (last, built) = edit_splice_state(original, ops.drop_last());
        let (o, op) = ops.last();
        (o + edit_removed(op), built + original.subrange(last, o as int) + edit_put(op))
    }
}

/// `original` with the operations of `ops` made, in order.
pub open spec fn edit_spliced(original: Seq<char>, ops: Seq<(usize, EditView)>) -> Seq<char> {
    edit_splice_state(original, ops).1 + original.subrange(
        edit_splice_state(original, ops).0,
        original.len() as int,
    )
}

proof fn lemma_apart_at(left: Seq<EditView>, right: Seq<EditView>, a: int, b: int)
    requires
        edits_apart(left, right),
        0 <= a < left.len(),
        0 <= b < right.len(),
    ensures
        edit_pos(left, a) + edit_removed(left[a]) < edit_pos(right, b) || edit_pos(right, b)
            + edit_removed(right[b]) < edit_pos(left, a),
{
    reveal(edits_apart);
}

proof fn lemma_edits_at(ops: Seq<EditView>, n: int, k: int)
    requires
        edits_of_length(ops, n),
        0 <= k < ops.len(),
    ensures
        0 <= edit_pos(ops, k),
        edit_pos(ops, k) + edit_removed(ops[k]) <= n,
        edit_len(ops[k]) > 0,
{
    reveal(edits_of_length);
}

proof fn lemma_edits_sorted(ops: Seq<EditView>, n: int, q: int, r: int)
    requires
        edits_of_length(ops, n),
        0 <= q < r < ops.len(),
    ensures
        edit_pos(ops, q) + edit_removed(ops[q]) <= edit_pos(ops, r),
{
    reveal(edits_of_length);
    assert(ops[q] == ops[q] && ops[r] == ops[r]);
}

proof fn lemma_edit_totals(ops: Seq<EditView>, n: int, k: int)
    requires
        0 <= n,
        edits_of_length(ops, n),
        0 <= k <= ops.len(),
    ensures
        edit_growth(ops, k) == edit_put_total(ops, k) - edit_removed_total(ops, k),
        0 <= edit_removed_total(ops, k) <= n,
        0 <= edit_put_total(ops, k) <= edit_put_total(ops, ops.len() as int),
        k < ops.len() ==> edit_removed_total(ops, k) <= edit_pos(ops, k),
    decreases ops.len() - k,
{
    lemma_edit_totals_up(ops, n, k);
    if k < ops.len() {
        lemma_edit_totals(ops, n, k + 1);
    }
}

proof fn lemma_edit_totals_up(ops: Seq<EditView>, n: int, k: int)
    requires
        0 <= n,
        edits_of_length(ops, n),
        0 <= k <= ops.len(),
    ensures
        edit_growth(ops, k) == edit_put_total(ops, k) - edit_removed_total(ops, k),
        0 <= edit_removed_total(ops, k),
        0 <= edit_put_total(ops, k),
        k < ops.len() ==> edit_removed_total(ops, k) <= edit_pos(ops, k),
        k > 0 ==> edit_removed_total(ops, k) <= edit_pos(ops, k - 1) + edit_removed(ops[k - 1]),
        edit_removed_total(ops, k) <= n,
    decreases k,
{
    if k > 0 {
        lemma_edit_totals_up(ops, n, k - 1);
        lemma_edits_at(ops, n, k - 1);
        if k < ops.len() {
            lemma_edits_sorted(ops, n, k - 1, k);
        }
    }
}

proof fn lemma_edit_removed_mono(ops: Seq<EditView>, a: int, b: int)
    requires
        0 <= a <= b,
    ensures
        edit_removed_total(ops, a) <= edit_removed_total(ops, b),
    decreases b,
{
    if a < b {
        lemma_edit_removed_mono(ops, a, b - 1);
    }
}

/// The length of the delete that a merge context holds back, or 0.
pub open spec fn pending_len(c: SyncContextView) -> int {
    match c.previous_delete {
        Some(d) => edit_len(d),
        None => 0,
    }
}

/// What the merge context `c` of a side holds once its first `m`
/// operations of `s` are merged, `blen` characters are written and `last`
/// read: its shift is the growth of those operations plus the delete it
/// holds back, which is the output of its `pk`th operation and ends no later
/// than the text written so far allows.
pub open spec fn sync_context_inv(
    s: Seq<EditView>,
    m: int,
    c: SyncContextView,
    pk: int,
    blen: int,
    last: int,
) -> bool {
    &&& c.shift as int == edit_growth(s, m) + pending_len(c)
    &&& (c.previous_delete matches Some(d) ==> {
        &&& d is Delete
        &&& 0 <= pk < m
        &&& s[pk] is Delete
        &&& edit_len(d) == edit_len(s[pk])
        &&& edit_index(d) as int <= blen - last + edit_pos(s, pk) + edit_len(d)
    })
}

/// Picking up the pending delete of a context keeps its invariant, and drops
/// the delete where an operation at `start` (its own side's coordinates
/// shifted to the merged text at `o + blen - last`) starts after it.
proof fn lemma_pick(
    c: SyncContextView,
    xs: Seq<EditView>,
    m: int,
    xpk: int,
    n: int,
    start: usize,
    o: int,
    blen: int,
    last: int,
    apart: bool,
)
    requires
        0 <= n,
        edits_of_length(xs, n),
        0 <= m <= xs.len(),
        sync_context_inv(xs, m, c, xpk, blen, last),
        0 <= blen,
        last <= o,
        start + edit_growth(xs, m) == o + blen - last,
        start + edit_put_total(xs, m) <= isize::MAX,
        apart ==> c.previous_delete is Some ==> edit_pos(xs, xpk) + edit_removed(xs[xpk]) < o,
    ensures
        sync_context_inv(xs, m, picked(c, start), xpk, blen, last),
        apart ==> picked(c, start).previous_delete is None,
        apart ==> picked(c, start).shift as int == edit_growth(xs, m),
{
    lemma_edit_totals(xs, n, m);
    if let Some(d) = c.previous_delete {
        lemma_edits_at(xs, n, xpk);
        lemma_edit_totals(xs, n, xpk);
        lemma_edit_totals(xs, n, xpk + 1);
        lemma_edit_removed_mono(xs, xpk + 1, m);
        let cl = edit_len(d);
        assert(start as i64 as int == start as int);
        assert(edit_len64(d) as int == cl);
        if apart {
            assert(cl >= 1);
            assert(edit_len(d) as usize == cl);
            assert(wrapping_add(edit_index(d), edit_len(d) as usize) as int == edit_index(d) + cl);
            assert(edit_end(d) as int == edit_index(d) + cl - 1);
            assert(i64_specs::wrapping_add(start as i64, c.shift) as int == start + c.shift);
        }
        if i64_specs::wrapping_add(start as i64, c.shift) > edit_end(d) as i64 {
            assert(picked(c, start).shift as int == c.shift - cl);
        }
    }
}

/// Merging the `k`th operation of `ys` against the context `a` of the other
/// side `xs` (`m` operations merged), which holds no delete back: the change
/// is made at the place it has in the original text.
#[verifier::rlimit(50)]
#[verifier::spinoff_prover]
proof fn lemma_sync_step(
    original: Seq<char>,
    ys: Seq<EditView>,
    k: int,
    xs: Seq<EditView>,
    m: int,
    a: SyncContextView,
    p: SyncContextView,
    ypk: int,
    xpk: int,
    last: int,
    built: Seq<char>,
)
    requires
        edits_of_length(ys, original.len() as int),
        edits_of_length(xs, original.len() as int),
        original.len() + edit_put_total(ys, ys.len() as int) + edit_put_total(xs, xs.len() as int)
            <= isize::MAX,
        0 <= k < ys.len(),
        0 <= m <= xs.len(),
        0 <= last <= edit_pos(ys, k),
        built.len() - last == edit_growth(ys, k) + edit_growth(xs, m),
        sync_context_inv(ys, k, p, ypk, built.len() as int, last),
        sync_context_inv(xs, m, a, xpk, built.len() as int, last),
        a.previous_delete is None,
    ensures
        ({
            let y = ys[k];
            let o = edit_pos(ys, k);
            let index = shifted_index(edit_index(y), a.shift);
            let (result, a2, p2) = sync_step(edit_with_index(y, index as usize), a, p);
            let built2 = built + original.subrange(last, o) + edit_put(y);
            let last2 = o + edit_removed(y);
            &&& fits_usize(index)
            &&& index as int == o + built.len() - last
            &&& result matches Some(r) && edit_applied(r, built + original.subrange(
                last,
                original.len() as int,
            )) == Some(built2 + original.subrange(last2, original.len() as int))
            &&& last2 <= original.len()
            &&& edit_growth(ys, k + 1) == edit_growth(ys, k) + edit_put(y).len() - edit_removed(y)
            &&& sync_context_inv(xs, m, a2, xpk, built2.len() as int, last2)
            &&& sync_context_inv(
                ys,
                k + 1,
                p2,
                if y is Delete {
                    k
                } else {
                    ypk
                },
                built2.len() as int,
                last2,
            )
        }),
{
    let n = original.len() as int;
    let y = ys[k];
    let o = edit_pos(ys, k);
    let idx = edit_index(y);
    let blen = built.len() as int;
    lemma_edits_at(ys, n, k);
    lemma_edit_totals(ys, n, k);
    lemma_edit_totals(ys, n, k + 1);
    lemma_edit_totals(xs, n, m);
    if let Some(d) = p.previous_delete {
        lemma_edits_at(ys, n, ypk);
        lemma_edit_totals_up(ys, n, k);
    }
    assert(idx as i64 as int == idx as int);
    let index = shifted_index(idx, a.shift);
    assert(index as int == o + blen - last);
    let s = index as usize;
    let cur = built + original.subrange(last, n);
    assert(cur.take(s as int) =~= built + original.subrange(last, o));
    assert(cur.skip(s as int) =~= original.subrange(o, n));
    match y {
        EditView::Insert { index: yi, text } => {
            let ins = EditView::Insert { index: s, text };
            assert(edit_with_index(y, s) == ins);
            assert(edit_len64(ins) as int == text.len());
            assert(built + original.subrange(last, o) + text + original.subrange(o, n) =~= (built
                + original.subrange(last, o) + edit_put(y)) + original.subrange(o + edit_removed(y), n));
        },
        EditView::Delete { index: yi, count } => {
            let del = EditView::Delete { index: s, count };
            assert(edit_with_index(y, s) == del);
            assert(wrapping_add(s, count) as int == s + count);
            assert(cur.skip(s + count) =~= original.subrange(o + count, n));
            assert(built + original.subrange(last, o) + edit_put(y) =~= built + original.subrange(last, o));
            if let Some(d) = p.previous_delete {
                assert(edit_len64(d) as int == edit_len(d));
            }
        },
    }
}

/// The state of merging two separated sequences after `i` and `j` of their
/// operations: applying what is merged gives what splicing in their
/// operations so far gives, the last change read up to `last` (of the side
/// `side`, its `sidx`th operation), and the contexts hold what
/// `sync_context_inv` says.
pub open spec fn sync_merge_inv(
    original: Seq<char>,
    left: Seq<EditView>,
    right: Seq<EditView>,
    i: int,
    j: int,
    lc: SyncContextView,
    rc: SyncContextView,
    merged: Seq<EditView>,
    side: int,
    sidx: int,
    lpk: int,
    rpk: int,
) -> bool {
    let n = original.len() as int;
    let e = pos_merge(positioned(left).take(i), positioned(right).take(j));
    let last = edit_splice_state(original, e).0;
    let built = edit_splice_state(original, e).1;
    &&& edits_of_length(left, n)
    &&& edits_of_length(right, n)
    &&& edits_apart(left, right)
    &&& n + edit_put_total(left, left.len() as int) + edit_put_total(right, right.len() as int)
        <= isize::MAX
    &&& 0 <= i <= left.len()
    &&& 0 <= j <= right.len()
    &&& (0 < i && j < right.len() ==> edit_pos(left, i - 1) < edit_pos(right, j))
    &&& (0 < j && i < left.len() ==> edit_pos(right, j - 1) < edit_pos(left, i))
    &&& edits_applied(merged, original) == Some(built + original.subrange(last, n))
    &&& built.len() - last == edit_growth(left, i) + edit_growth(right, j)
    &&& 0 <= last <= n
    &&& (side == 0 ==> last == 0)
    &&& (side == 1 ==> 0 <= sidx < i && last == edit_pos(left, sidx) + edit_removed(left[sidx]))
    &&& (side == 2 ==> 0 <= sidx < j && last == edit_pos(right, sidx) + edit_removed(right[sidx]))
    &&& (side == 0 || side == 1 || side == 2)
    &&& sync_context_inv(left, i, lc, lpk, built.len() as int, last)
    &&& sync_context_inv(right, j, rc, rpk, built.len() as int, last)
}

proof fn lemma_edit_splice_push(original: Seq<char>, e: Seq<(usize, EditView)>, x: (usize, EditView))
    ensures
        edit_splice_state(original, e.push(x)) == (
            x.0 + edit_removed(x.1),
            edit_splice_state(original, e).1 + original.subrange(
                edit_splice_state(original, e).0,
                x.0 as int,
            ) + edit_put(x.1),
        ),
{
    assert(e.push(x).drop_last() =~= e);
}

proof fn lemma_edits_applied_push(merged: Seq<EditView>, r: EditView, original: Seq<char>)
    ensures
        edits_applied(merged + edit_seq(Some(r)), original) == match edits_applied(merged, original) {
            Some(c) => edit_applied(r, c),
            None => None,
        },
{
    assert(merged + edit_seq(Some(r)) =~= merged.push(r));
    assert(merged.push(r).drop_last() =~= merged);
}

proof fn lemma_positioned_take(ops: Seq<EditView>, n: int, k: int)
    requires
        edits_of_length(ops, n),
        0 <= n <= isize::MAX,
        0 <= k < ops.len(),
    ensures
        positioned(ops).take(k + 1) == positioned(ops).take(k).push(positioned(ops)[k]),
        positioned(ops)[k] == (edit_pos(ops, k) as usize, ops[k]),
        (edit_pos(ops, k) as usize) as int == edit_pos(ops, k),
        k > 0 ==> positioned(ops).take(k).last() == (edit_pos(ops, k - 1) as usize, ops[k - 1]),
        k > 0 ==> (edit_pos(ops, k - 1) as usize) as int == edit_pos(ops, k - 1),
{
    lemma_edits_at(ops, n, k);
    if k > 0 {
        lemma_edits_at(ops, n, k - 1);
    }
    assert(positioned(ops).take(k + 1) =~= positioned(ops).take(k).push(positioned(ops)[k]));
}

/// Where the left head comes first, both contexts are picked up for the
/// heads without a delete held back against the left head, and the merge
/// order takes the left head.
#[verifier::rlimit(80)]
#[verifier::spinoff_prover]
proof fn lemma_sync_left_pick(
    original: Seq<char>,
    left: Seq<EditView>,
    right: Seq<EditView>,
    i: int,
    j: int,
    lc: SyncContextView,
    rc: SyncContextView,
    merged: Seq<EditView>,
    side: int,
    sidx: int,
    lpk: int,
    rpk: int,
)
    requires
        sync_merge_inv(original, left, right, i, j, lc, rc, merged, side, sidx, lpk, rpk),
        i < left.len(),
        j == right.len() || edit_pos(left, i) < edit_pos(right, j),
    ensures
        ({
            let e = pos_merge(positioned(left).take(i), positioned(right).take(j));
            let last = edit_splice_state(original, e).0;
            let blen = edit_splice_state(original, e).1.len() as int;
            let has_right = j < right.len();
            let rc1 = picked(rc, edit_index(left[i]));
            let left_index = shifted_index(edit_index(left[i]), rc1.shift);
            let lc1 = if has_right {
                picked(lc, edit_index(right[j]))
            } else {
                lc
            };
            let right_index = shifted_index(edit_index(right[j]), lc1.shift);
            let left_op = edit_with_index(left[i], left_index as usize);
            let right_op = edit_with_index(right[j], right_index as usize);
            &&& fits_usize(left_index)
            &&& (has_right ==> fits_usize(right_index))
            &&& takes_left(true, has_right, left_op, right_op, lc1, rc1)
            &&& last <= edit_pos(left, i)
            &&& rc1.previous_delete is None
            &&& sync_context_inv(right, j, rc1, rpk, blen, last)
            &&& sync_context_inv(left, i, lc1, lpk, blen, last)
        }),
{
    let n = original.len() as int;
    let e = pos_merge(positioned(left).take(i), positioned(right).take(j));
    let last = edit_splice_state(original, e).0;
    let built = edit_splice_state(original, e).1;
    let blen = built.len() as int;
    let o = edit_pos(left, i);
    let has_right = j < right.len();
    lemma_edits_at(left, n, i);
    lemma_edit_totals(left, n, i);
    lemma_edit_totals(left, n, left.len() as int);
    lemma_edit_totals(right, n, j);
    lemma_edit_totals(right, n, right.len() as int);
    if side == 1 {
        lemma_edits_sorted(left, n, sidx, i);
    }
    if side == 2 {
        if sidx < j - 1 {
            lemma_edits_sorted(right, n, sidx, j - 1);
        }
        lemma_apart_at(left, right, i, sidx);
    }
    if rc.previous_delete is Some {
        if rpk < j - 1 {
            lemma_edits_sorted(right, n, rpk, j - 1);
        }
        lemma_apart_at(left, right, i, rpk);
    }
    lemma_pick(rc, right, j, rpk, n, edit_index(left[i]), o, blen, last, true);
    let rc1 = picked(rc, edit_index(left[i]));
    let left_index = shifted_index(edit_index(left[i]), rc1.shift);
    assert(edit_index(left[i]) as i64 as int == edit_index(left[i]) as int);
    assert(left_index as int == o + blen - last);
    if has_right {
        let or = edit_pos(right, j);
        lemma_edits_at(right, n, j);
        if lc.previous_delete is Some {
            if lpk < i - 1 {
                lemma_edits_sorted(left, n, lpk, i - 1);
            }
            lemma_apart_at(left, right, lpk, j);
        }
        if side == 2 {
            lemma_edits_sorted(right, n, sidx, j);
        }
        if side == 1 {
            lemma_apart_at(left, right, sidx, j);
        }
        lemma_pick(lc, left, i, lpk, n, edit_index(right[j]), or, blen, last, true);
        let lc1 = picked(lc, edit_index(right[j]));
        let right_index = shifted_index(edit_index(right[j]), lc1.shift);
        assert(edit_index(right[j]) as i64 as int == edit_index(right[j]) as int);
        assert(right_index as int == or + blen - last);
        let left_op = edit_with_index(left[i], left_index as usize);
        let right_op = edit_with_index(right[j], right_index as usize);
        assert(pending_end(lc1) == 0);
        assert(pending_end(rc1) == 0);
        assert(merge_key(left_op, lc1) as int == left_index as int);
        assert(merge_key(right_op, rc1) as int == right_index as int);
    }
}

/// Taking the left head: it comes first in the original text.
#[verifier::rlimit(80)]
#[verifier::spinoff_prover]
proof fn lemma_sync_take_left(
    original: Seq<char>,
    left: Seq<EditView>,
    right: Seq<EditView>,
    i: int,
    j: int,
    lc: SyncContextView,
    rc: SyncContextView,
    merged: Seq<EditView>,
    side: int,
    sidx: int,
    lpk: int,
    rpk: int,
)
    requires
        sync_merge_inv(original, left, right, i, j, lc, rc, merged, side, sidx, lpk, rpk),
        i < left.len(),
        j == right.len() || edit_pos(left, i) < edit_pos(right, j),
    ensures
        ({
            let has_right = j < right.len();
            let rc1 = picked(rc, edit_index(left[i]));
            let left_index = shifted_index(edit_index(left[i]), rc1.shift);
            let lc1 = if has_right {
                picked(lc, edit_index(right[j]))
            } else {
                lc
            };
            let right_index = shifted_index(edit_index(right[j]), lc1.shift);
            let left_op = edit_with_index(left[i], left_index as usize);
            let right_op = edit_with_index(right[j], right_index as usize);
            let (result, rc2, lc2) = sync_step(left_op, rc1, lc1);
            &&& fits_usize(left_index)
            &&& (has_right ==> fits_usize(right_index))
            &&& takes_left(true, has_right, left_op, right_op, lc1, rc1)
            &&& sync_merge_inv(
                original,
                left,
                right,
                i + 1,
                j,
                lc2,
                rc2,
                merged + edit_seq(result),
                1,
                i,
                if left[i] is Delete {
                    i
                } else {
                    lpk
                },
                rpk,
            )
        }),
{
    let n = original.len() as int;
    let e = pos_merge(positioned(left).take(i), positioned(right).take(j));
    let last = edit_splice_state(original, e).0;
    let built = edit_splice_state(original, e).1;
    let has_right = j < right.len();
    lemma_sync_left_pick(original, left, right, i, j, lc, rc, merged, side, sidx, lpk, rpk);
    lemma_edit_totals(left, n, left.len() as int);
    lemma_edit_totals(right, n, right.len() as int);
    if i + 1 < left.len() {
        lemma_edits_sorted(left, n, i, i + 1);
    }
    let rc1 = picked(rc, edit_index(left[i]));
    let lc1 = if has_right {
        picked(lc, edit_index(right[j]))
    } else {
        lc
    };
    lemma_sync_step(original, left, i, right, j, rc1, lc1, lpk, rpk, last, built);
    let left_index = shifted_index(edit_index(left[i]), rc1.shift);
    let left_op = edit_with_index(left[i], left_index as usize);
    let (result, rc2, lc2) = sync_step(left_op, rc1, lc1);
    lemma_edits_applied_push(merged, result->0, original);
    lemma_positioned_take(left, n, i);
    if j > 0 {
        lemma_positioned_take(right, n, j - 1);
        assert(positioned(right).take(j) == positioned(right).take(j - 1).push(positioned(right)[j - 1]));
    }
    lemma_pos_merge_push_a(positioned(left).take(i), positioned(right).take(j), positioned(left)[i]);
    lemma_edit_splice_push(original, e, positioned(left)[i]);
}

/// Where the right head comes first, both contexts are picked up for the
/// heads without a delete held back against the right head, and the merge
/// order takes the right head.
#[verifier::rlimit(80)]
#[verifier::spinoff_prover]
proof fn lemma_sync_right_pick(
    original: Seq<char>,
    left: Seq<EditView>,
    right: Seq<EditView>,
    i: int,
    j: int,
    lc: SyncContextView,
    rc: SyncContextView,
    merged: Seq<EditView>,
    side: int,
    sidx: int,
    lpk: int,
    rpk: int,
)
    requires
        sync_merge_inv(original, left, right, i, j, lc, rc, merged, side, sidx, lpk, rpk),
        j < right.len(),
        i == left.len() || edit_pos(right, j) < edit_pos(left, i),
    ensures
        ({
            let e = pos_merge(positioned(left).take(i), positioned(right).take(j));
            let last = edit_splice_state(original, e).0;
            let blen = edit_splice_state(original, e).1.len() as int;
            let has_left = i < left.len();
            let rc1 = if has_left {
                picked(rc, edit_index(left[i]))
            } else {
                rc
            };
            let left_index = shifted_index(edit_index(left[i]), rc1.shift);
            let lc1 = picked(lc, edit_index(right[j]));
            let right_index = shifted_index(edit_index(right[j]), lc1.shift);
            let left_op = edit_with_index(left[i], left_index as usize);
            let right_op = edit_with_index(right[j], right_index as usize);
            &&& (has_left ==> fits_usize(left_index))
            &&& fits_usize(right_index)
            &&& !takes_left(has_left, true, left_op, right_op, lc1, rc1)
            &&& last <= edit_pos(right, j)
            &&& lc1.previous_delete is None
            &&& sync_context_inv(left, i, lc1, lpk, blen, last)
            &&& sync_context_inv(right, j, rc1, rpk, blen, last)
        }),
{
    let n = original.len() as int;
    let e = pos_merge(positioned(left).take(i), positioned(right).take(j));
    let last = edit_splice_state(original, e).0;
    let built = edit_splice_state(original, e).1;
    let blen = built.len() as int;
    let o = edit_pos(right, j);
    let has_left = i < left.len();
    lemma_edits_at(right, n, j);
    lemma_edit_totals(right, n, j);
    lemma_edit_totals(right, n, right.len() as int);
    lemma_edit_totals(left, n, i);
    lemma_edit_totals(left, n, left.len() as int);
    if side == 2 {
        lemma_edits_sorted(right, n, sidx, j);
    }
    if side == 1 {
        if sidx < i - 1 {
            lemma_edits_sorted(left, n, sidx, i - 1);
        }
        lemma_apart_at(left, right, sidx, j);
    }
    if lc.previous_delete is Some {
        if lpk < i - 1 {
            lemma_edits_sorted(left, n, lpk, i - 1);
        }
        lemma_apart_at(left, right, lpk, j);
    }
    lemma_pick(lc, left, i, lpk, n, edit_index(right[j]), o, blen, last, true);
    let lc1 = picked(lc, edit_index(right[j]));
    let right_index = shifted_index(edit_index(right[j]), lc1.shift);
    assert(edit_index(right[j]) as i64 as int == edit_index(right[j]) as int);
    assert(right_index as int == o + blen - last);
    if has_left {
        let ol = edit_pos(left, i);
        lemma_edits_at(left, n, i);
        if rc.previous_delete is Some {
            if rpk < j - 1 {
                lemma_edits_sorted(right, n, rpk, j - 1);
            }
            lemma_apart_at(left, right, i, rpk);
        }
        if side == 1 {
            lemma_edits_sorted(left, n, sidx, i);
        }
        if side == 2 {
            lemma_apart_at(left, right, i, sidx);
        }
        lemma_pick(rc, right, j, rpk, n, edit_index(left[i]), ol, blen, last, true);
        let rc1 = picked(rc, edit_index(left[i]));
        let left_index = shifted_index(edit_index(left[i]), rc1.shift);
        assert(edit_index(left[i]) as i64 as int == edit_index(left[i]) as int);
        assert(left_index as int == ol + blen - last);
        let left_op = edit_with_index(left[i], left_index as usize);
        let right_op = edit_with_index(right[j], right_index as usize);
        assert(pending_end(lc1) == 0);
        assert(pending_end(rc1) == 0);
        assert(merge_key(left_op, lc1) as int == left_index as int);
        assert(merge_key(right_op, rc1) as int == right_index as int);
    }
}

/// Taking the right head: it comes first in the original text.
#[verifier::rlimit(80)]
#[verifier::spinoff_prover]
proof fn lemma_sync_take_right(
    original: Seq<char>,
    left: Seq<EditView>,
    right: Seq<EditView>,
    i: int,
    j: int,
    lc: SyncContextView,
    rc: SyncContextView,
    merged: Seq<EditView>,
    side: int,
    sidx: int,
    lpk: int,
    rpk: int,
)
    requires
        sync_merge_inv(original, left, right, i, j, lc, rc, merged, side, sidx, lpk, rpk),
        j < right.len(),
        i == left.len() || edit_pos(right, j) < edit_pos(left, i),
    ensures
        ({
            let has_left = i < left.len();
            let rc1 = if has_left {
                picked(rc, edit_index(left[i]))
            } else {
                rc
            };
            let left_index = shifted_index(edit_index(left[i]), rc1.shift);
            let lc1 = picked(lc, edit_index(right[j]));
            let right_index = shifted_index(edit_index(right[j]), lc1.shift);
            let left_op = edit_with_index(left[i], left_index as usize);
            let right_op = edit_with_index(right[j], right_index as usize);
            let (result, lc2, rc2) = sync_step(right_op, lc1, rc1);
            &&& (has_left ==> fits_usize(left_index))
            &&& fits_usize(right_index)
            &&& !takes_left(has_left, true, left_op, right_op, lc1, rc1)
            &&& sync_merge_inv(
                original,
                left,
                right,
                i,
                j + 1,
                lc2,
                rc2,
                merged + edit_seq(result),
                2,
                j,
                lpk,
                if right[j] is Delete {
                    j
                } else {
                    rpk
                },
            )
        }),
{
    let n = original.len() as int;
    let e = pos_merge(positioned(left).take(i), positioned(right).take(j));
    let last = edit_splice_state(original, e).0;
    let built = edit_splice_state(original, e).1;
    let has_left = i < left.len();
    lemma_sync_right_pick(original, left, right, i, j, lc, rc, merged, side, sidx, lpk, rpk);
    lemma_edit_totals(left, n, left.len() as int);
    lemma_edit_totals(right, n, right.len() as int);
    if j + 1 < right.len() {
        lemma_edits_sorted(right, n, j, j + 1);
    }
    let lc1 = picked(lc, edit_index(right[j]));
    let rc1 = if has_left {
        picked(rc, edit_index(left[i]))
    } else {
        rc
    };
    lemma_sync_step(original, right, j, left, i, lc1, rc1, rpk, lpk, last, built);
    let right_index = shifted_index(edit_index(right[j]), lc1.shift);
    let right_op = edit_with_index(right[j], right_index as usize);
    let (result, lc2, rc2) = sync_step(right_op, lc1, rc1);
    lemma_edits_applied_push(merged, result->0, original);
    lemma_positioned_take(right, n, j);
    if i > 0 {
        lemma_positioned_take(left, n, i - 1);
        assert(positioned(left).take(i) == positioned(left).take(i - 1).push(positioned(left)[i - 1]));
        lemma_apart_at(left, right, i - 1, j);
    }
    lemma_pos_merge_push_b(positioned(left).take(i), positioned(right).take(j), positioned(right)[j]);
    lemma_edit_splice_push(original, e, positioned(right)[j]);
}

proof fn lemma_sync_merge_apart_from(
    original: Seq<char>,
    left: Seq<EditView>,
    right: Seq<EditView>,
    i: int,
    j: int,
    lc: SyncContextView,
    rc: SyncContextView,
    merged: Seq<EditView>,
    side: int,
    sidx: int,
    lpk: int,
    rpk: int,
)
    requires
        sync_merge_inv(original, left, right, i, j, lc, rc, merged, side, sidx, lpk, rpk),
    ensures
        sync_merge_from(left, right, i, j, lc, rc, merged) matches Ok(m) && edits_applied(m, original)
            == Some(edit_spliced(original, pos_merge(positioned(left), positioned(right)))),
    decreases left.len() - i + right.len() - j,
{
    if i == left.len() && j == right.len() {
        lemma_sync_merge_done(left, right, lc, rc, merged);
        assert(positioned(left).take(i) =~= positioned(left));
        assert(positioned(right).take(j) =~= positioned(right));
    } else {
        lemma_sync_merge_step(left, right, i, j, lc, rc, merged);
        if i < left.len() && (j == right.len() || edit_pos(left, i) < edit_pos(right, j)) {
            lemma_sync_take_left(original, left, right, i, j, lc, rc, merged, side, sidx, lpk, rpk);
            let has_right = j < right.len();
            let rc1 = picked(rc, edit_index(left[i]));
            let left_index = shifted_index(edit_index(left[i]), rc1.shift);
            let lc1 = if has_right {
                picked(lc, edit_index(right[j]))
            } else {
                lc
            };
            let left_op = edit_with_index(left[i], left_index as usize);
            let (result, rc2, lc2) = sync_step(left_op, rc1, lc1);
            lemma_sync_merge_apart_from(
                original,
                left,
                right,
                i + 1,
                j,
                lc2,
                rc2,
                merged + edit_seq(result),
                1,
                i,
                if left[i] is Delete {
                    i
                } else {
                    lpk
                },
                rpk,
            );
        } else {
            if i < left.len() {
                lemma_apart_at(left, right, i, j);
            }
            lemma_sync_take_right(original, left, right, i, j, lc, rc, merged, side, sidx, lpk, rpk);
            let has_left = i < left.len();
            let rc1 = if has_left {
                picked(rc, edit_index(left[i]))
            } else {
                rc
            };
            let lc1 = picked(lc, edit_index(right[j]));
            let right_index = shifted_index(edit_index(right[j]), lc1.shift);
            let right_op = edit_with_index(right[j], right_index as usize);
            let (result, lc2, rc2) = sync_step(right_op, lc1, rc1);
            lemma_sync_merge_apart_from(
                original,
                left,
                right,
                i,
                j + 1,
                lc2,
                rc2,
                merged + edit_seq(result),
                2,
                j,
                lpk,
                if right[j] is Delete {
                    j
                } else {
                    rpk
                },
            );
        }
    }
}

/// Merging two operation sequences `left` and `right` made from `original`
/// whose changes lie apart succeeds and makes every change of both sides:
/// applying the merged sequence to `original` gives `original` with the
/// operations of both spliced in, by where they start in it, each replacing
/// what it removes with what it puts in.
pub proof fn lemma_edits_apart_merge(original: Seq<char>, left: Seq<EditView>, right: Seq<EditView>)
    requires
        edits_of_length(left, original.len() as int),
        edits_of_length(right, original.len() as int),
        edits_apart(left, right),
        original.len() + edit_put_total(left, left.len() as int) + edit_put_total(
            right,
            right.len() as int,
        ) <= isize::MAX,
    ensures
        sync_merge_from(left, right, 0, 0, fresh_context(), fresh_context(), Seq::empty()) matches Ok(m)
            && edits_applied(m, original) == Some(
            edit_spliced(original, pos_merge(positioned(left), positioned(right))),
        ),
{
    let e: Seq<(usize, EditView)> = Seq::empty();
    assert(positioned(left).take(0) =~= e);
    assert(positioned(right).take(0) =~= e);
    assert(pos_merge(e, e) == e);
    assert(original.subrange(0, original.len() as int) =~= original);
    assert(Seq::<char>::empty() + original =~= original);
    lemma_sync_merge_apart_from(
        original,
        left,
        right,
        0,
        0,
        fresh_context(),
        fresh_context(),
        Seq::empty(),
        0,
        0,
        0,
        0,
    );
}

proof fn lemma_edit_totals_push(ops: Seq<EditView>, x: EditView, k: int)
    requires
        0 <= k <= ops.len(),
    ensures
        edit_growth(ops.push(x), k) == edit_growth(ops, k),
        edit_put_total(ops.push(x), k) == edit_put_total(ops, k),
    decreases k,
{
    if k > 0 {
        lemma_edit_totals_push(ops, x, k - 1);
        assert(ops.push(x)[k - 1] == ops[k - 1]);
    }
}

proof fn lemma_edits_push(ops: Seq<EditView>, n: int, x: EditView)
    requires
        edits_of_length(ops, n),
        0 <= n,
        edit_index(x) - edit_growth(ops, ops.len() as int) == n,
        edit_len(x) > 0,
    ensures
        edits_of_length(ops.push(x), n + edit_removed(x)),
        edit_growth(ops.push(x), ops.len() + 1int) == edit_growth(ops, ops.len() as int) + edit_put(
            x,
        ).len() - edit_removed(x),
        edit_put_total(ops.push(x), ops.len() + 1int) == edit_put_total(ops, ops.len() as int)
            + edit_put(x).len(),
{
    reveal(edits_of_length);
    let l = ops.len() as int;
    let s = ops.push(x);
    lemma_edit_totals_push(ops, x, l);
    assert(s[l] == x);
    assert forall|k: int| 0 <= k < s.len() implies 0 <= edit_pos(s, k) && edit_pos(s, k)
        + edit_removed(#[trigger] s[k]) <= n + edit_removed(x) && edit_len(s[k]) > 0 by {
        if k < l {
            lemma_edit_totals_push(ops, x, k);
            assert(s[k] == ops[k]);
        }
    }
    assert forall|q: int, r: int|
        #![trigger s[q], s[r]]
        0 <= q < r < s.len() implies edit_pos(s, q) + edit_removed(s[q]) <= edit_pos(s, r) by {
        lemma_edit_totals_push(ops, x, q);
        assert(s[q] == ops[q]);
        assert(ops[q] == ops[q]);
        if r < l {
            lemma_edit_totals_push(ops, x, r);
            assert(s[r] == ops[r]);
            assert(ops[r] == ops[r]);
        }
    }
}

proof fn lemma_edits_extend(ops: Seq<EditView>, n: int, n2: int)
    requires
        edits_of_length(ops, n),
        n <= n2,
    ensures
        edits_of_length(ops, n2),
{
    reveal(edits_of_length);
}

/// The operations that the pieces of a diff stand for are an edit of its old
/// text that lengthens it to its new one and puts in no more characters
/// than the new text holds.
pub proof fn lemma_diff_edits_shape(pieces: Seq<(DiffTag, Seq<char>)>)
    requires
        diff_old(pieces).len() + diff_new(pieces).len() <= usize::MAX,
    ensures
        edits_of_length(diff_edits(pieces), diff_old(pieces).len() as int),
        edit_growth(diff_edits(pieces), diff_edits(pieces).len() as int) == diff_new(pieces).len()
            - diff_old(pieces).len(),
        edit_put_total(diff_edits(pieces), diff_edits(pieces).len() as int) <= diff_new(pieces).len(),
    decreases pieces.len(),
{
    if pieces.len() == 0 {
        reveal(edits_of_length);
    } else {
        let pre = pieces.drop_last();
        lemma_diff_edits_shape(pre);
        let before = diff_edits(pre);
        let l = before.len() as int;
        let text = pieces.last().1;
        let n0 = diff_old(pre).len() as int;
        let index = diff_new(pre).len() as usize;
        assert(index as int == diff_new(pre).len());
        if text.len() == 0 {
            assert(diff_old(pieces) =~= diff_old(pre));
            assert(diff_new(pieces) =~= diff_new(pre));
        } else {
            match pieces.last().0 {
                DiffTag::Equal => {
                    lemma_edits_extend(before, n0, diff_old(pieces).len() as int);
                },
                DiffTag::Insert => {
                    let x = EditView::Insert { index, text };
                    lemma_edits_push(before, n0, x);
                    assert(diff_old(pieces) =~= diff_old(pre));
                },
                DiffTag::Delete => {
                    let x = EditView::Delete { index, count: text.len() as usize };
                    lemma_edits_push(before, n0, x);
                    assert(diff_new(pieces) =~= diff_new(pre));
                },
            }
        }
    }
}

/// Merging two operation sequences whose changes lie apart gives the same
/// text whichever is taken as the left one.
pub proof fn lemma_edits_apart_symmetric(original: Seq<char>, left: Seq<EditView>, right: Seq<EditView>)
    requires
        edits_of_length(left, original.len() as int),
        edits_of_length(right, original.len() as int),
        edits_apart(left, right),
        original.len() + edit_put_total(left, left.len() as int) + edit_put_total(
            right,
            right.len() as int,
        ) <= isize::MAX,
    ensures
        sync_merge_from(left, right, 0, 0, fresh_context(), fresh_context(), Seq::empty()) matches Ok(m1)
            && sync_merge_from(right, left, 0, 0, fresh_context(), fresh_context(), Seq::empty())
            matches Ok(m2) && edits_applied(m1, original) == edits_applied(m2, original),
{
    reveal(edits_apart);
    assert forall|a: int, b: int| 0 <= a < right.len() && 0 <= b < left.len() implies edit_pos(
        right,
        a,
    ) + edit_removed(#[trigger] right[a]) < edit_pos(left, b) || edit_pos(left, b) + edit_removed(
        #[trigger] left[b],
    ) < edit_pos(right, a) by {
        assert(left[b] == left[b] && right[a] == right[a]);
    }
    let pl = positioned(left);
    let pr = positioned(right);
    assert forall|x: int, y: int| 0 <= x < pl.len() && 0 <= y < pr.len() implies (#[trigger] pl[x]).0
        != (#[trigger] pr[y]).0 by {
        assert(left[x] == left[x] && right[y] == right[y]);
        lemma_edits_at(left, original.len() as int, x);
        lemma_edits_at(right, original.len() as int, y);
        lemma_edit_totals(left, original.len() as int, left.len() as int);
        lemma_edit_totals(right, original.len() as int, right.len() as int);
        assert(pl[x] == (edit_pos(left, x) as usize, left[x]));
        assert(pr[y] == (edit_pos(right, y) as usize, right[y]));
        assert((edit_pos(left, x) as usize) as int == edit_pos(left, x));
        assert((edit_pos(right, y) as usize) as int == edit_pos(right, y));
    }
    lemma_edits_apart_merge(original, left, right);
    lemma_edits_apart_merge(original, right, left);
    lemma_pos_merge_commutes(pl, pr);
}

} // verus!
