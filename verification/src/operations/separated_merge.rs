//! What merging two operation sequences gives where no change of one lies
//! next to a change of the other: the original text with the changes of both
//! sides made.
use vstd::prelude::*;

use super::operation::{
    applied_to, fits_usize, len64, op_end, op_index, op_len, op_with_index, shifted_index, OpView,
};
use super::operation_sequence::{
    apply_all, as_seq, lemma_merge_from_done, lemma_merge_from_left, lemma_merge_from_right,
    merge_from, merge_step, picked_up, replaced, unordered, ContextView, empty_context,
};
use crate::operation_transformation::separated_edits::{
    lemma_pos_merge_commutes, lemma_pos_merge_push_a, lemma_pos_merge_push_b, pos_merge,
};
use vstd::wrapping::i64_specs;
use vstd::wrapping::usize_specs::wrapping_add;

verus! {

/// How many characters of the original text an operation removes.
pub open spec fn removed_len(op: OpView) -> int {
    match op {
        OpView::Insert { .. } => 0,
        OpView::Delete { count, .. } => count as int,
    }
}

/// The characters an operation puts in.
pub open spec fn put_in(op: OpView) -> Seq<char> {
    match op {
        OpView::Insert { text, .. } => text,
        OpView::Delete { .. } => Seq::empty(),
    }
}

/// How much the first `k` operations of `ops` lengthen the text.
pub open spec fn growth(ops: Seq<(usize, OpView)>, k: int) -> int
    decreases k,
{
    if k <= 0 {
        0
    } else {
        growth(ops, k - 1) + put_in(ops[k - 1].1).len() - removed_len(ops[k - 1].1)
    }
}

/// How many characters the first `k` operations of `ops` put in.
pub open spec fn put_in_total(ops: Seq<(usize, OpView)>, k: int) -> int
    decreases k,
{
    if k <= 0 {
        0
    } else {
        put_in_total(ops, k - 1) + put_in(ops[k - 1].1).len()
    }
}

/// How many characters the first `k` operations of `ops` remove.
pub open spec fn removed_total(ops: Seq<(usize, OpView)>, k: int) -> int
    decreases k,
{
    if k <= 0 {
        0
    } else {
        removed_total(ops, k - 1) + removed_len(ops[k - 1].1)
    }
}

/// `ops` is an edit of a text of `n` characters, as `OperationSequence`
/// makes one: each operation is ordered by where it starts in the original
/// text, they do not overlap there, each has its index where it starts in
/// the text that the operations before it made, and each affects at least
/// one character.
#[verifier::opaque]
pub open spec fn sequence_of_length(ops: Seq<(usize, OpView)>, n: int) -> bool {
    &&& forall|k: int|
        0 <= k < ops.len() ==> op_index((#[trigger] ops[k]).1) == ops[k].0 + growth(ops, k)
            && op_len(ops[k].1) > 0 && ops[k].0 + removed_len(ops[k].1) <= n
    &&& forall|q: int, r: int|
        0 <= q < r < ops.len() ==> (#[trigger] ops[q]).0 + removed_len(ops[q].1) <= (#[trigger] ops[r]).0
}

/// Every change of `left` lies apart from every change of `right`: at least
/// one character of the original text that neither changes stands between
/// them.
pub open spec fn sequences_apart(left: Seq<(usize, OpView)>, right: Seq<(usize, OpView)>) -> bool {
    forall|a: int, b: int|
        0 <= a < left.len() && 0 <= b < right.len() ==> (#[trigger] left[a]).0 + removed_len(left[a].1)
            < (#[trigger] right[b]).0 || right[b].0 + removed_len(right[b].1) < left[a].0
}

/// How far into `original` splicing in `ops` has read, and what it has
/// written: each operation replaces the characters it removes from where it
/// starts with the characters it puts in.
pub open spec fn sequence_splice_state(original: Seq<char>, ops: Seq<(usize, OpView)>) -> (int, Seq<char>)
    decreases ops.len(),
{
    if ops.len() == 0 {
        (0, Seq::empty())
    } else {
        let (last, built) = sequence_splice_state(original, ops.drop_last());
        let (o, op) = ops.last();
        (o + removed_len(op), built + original.subrange(last, o as int) + put_in(op))
    }
}

/// `original` with the operations of `ops` made, in order.
pub open spec fn sequence_spliced(original: Seq<char>, ops: Seq<(usize, OpView)>) -> Seq<char> {
    sequence_splice_state(original, ops).1 + original.subrange(
        sequence_splice_state(original, ops).0,
        original.len() as int,
    )
}

proof fn lemma_seq_at(ops: Seq<(usize, OpView)>, n: int, k: int)
    requires
        sequence_of_length(ops, n),
        0 <= k < ops.len(),
    ensures
        op_index(ops[k].1) == ops[k].0 + growth(ops, k),
        op_len(ops[k].1) > 0,
        ops[k].0 + removed_len(ops[k].1) <= n,
{
    reveal(sequence_of_length);
}

proof fn lemma_seq_sorted(ops: Seq<(usize, OpView)>, n: int, q: int, r: int)
    requires
        sequence_of_length(ops, n),
        0 <= q < r < ops.len(),
    ensures
        ops[q].0 + removed_len(ops[q].1) <= ops[r].0,
{
    reveal(sequence_of_length);
}

/// The totals of the first `k` operations: what they remove lies before the
/// `k`th one starts.
proof fn lemma_totals(ops: Seq<(usize, OpView)>, n: int, k: int)
    requires
        0 <= n,
        sequence_of_length(ops, n),
        0 <= k <= ops.len(),
    ensures
        growth(ops, k) == put_in_total(ops, k) - removed_total(ops, k),
        0 <= removed_total(ops, k),
        0 <= put_in_total(ops, k) <= put_in_total(ops, ops.len() as int),
        k < ops.len() ==> removed_total(ops, k) <= ops[k].0,
        removed_total(ops, k) <= n,
    decreases ops.len() - k,
{
    lemma_totals_up(ops, n, k);
    if k < ops.len() {
        lemma_totals(ops, n, k + 1);
    } else {
        if k > 0 {
            lemma_seq_at(ops, n, k - 1);
        }
    }
}

proof fn lemma_totals_up(ops: Seq<(usize, OpView)>, n: int, k: int)
    requires
        0 <= n,
        sequence_of_length(ops, n),
        0 <= k <= ops.len(),
    ensures
        growth(ops, k) == put_in_total(ops, k) - removed_total(ops, k),
        0 <= removed_total(ops, k),
        0 <= put_in_total(ops, k),
        k < ops.len() ==> removed_total(ops, k) <= ops[k].0,
        k > 0 ==> removed_total(ops, k) <= ops[k - 1].0 + removed_len(ops[k - 1].1),
        removed_total(ops, k) <= n,
    decreases k,
{
    if k > 0 {
        lemma_totals_up(ops, n, k - 1);
        lemma_seq_at(ops, n, k - 1);
        if k < ops.len() {
            lemma_seq_sorted(ops, n, k - 1, k);
        }
    }
}

proof fn lemma_removed_mono(ops: Seq<(usize, OpView)>, a: int, b: int)
    requires
        0 <= a <= b,
    ensures
        removed_total(ops, a) <= removed_total(ops, b),
    decreases b,
{
    if a < b {
        lemma_removed_mono(ops, a, b - 1);
    }
}

proof fn lemma_totals_push(ops: Seq<(usize, OpView)>, x: (usize, OpView), k: int)
    requires
        0 <= k <= ops.len(),
    ensures
        growth(ops.push(x), k) == growth(ops, k),
        put_in_total(ops.push(x), k) == put_in_total(ops, k),
    decreases k,
{
    if k > 0 {
        lemma_totals_push(ops, x, k - 1);
        assert(ops.push(x)[k - 1] == ops[k - 1]);
    }
}

/// No operations are an edit of any text.
pub proof fn lemma_sequence_empty(n: int)
    ensures
        sequence_of_length(Seq::empty(), n),
        growth(Seq::empty(), 0) == 0,
        put_in_total(Seq::empty(), 0) == 0,
{
    reveal(sequence_of_length);
}

/// An edit that ends before `n` is an edit of a text of `n2 >= n`
/// characters too.
pub proof fn lemma_sequence_extend(ops: Seq<(usize, OpView)>, n: int, n2: int)
    requires
        sequence_of_length(ops, n),
        n <= n2,
    ensures
        sequence_of_length(ops, n2),
{
    reveal(sequence_of_length);
}

/// An edit of a text of `n` characters followed by an operation that starts
/// at `n` and at the index the edit moved `n` to is an edit of the text up
/// to where the operation ends.
pub proof fn lemma_sequence_push(ops: Seq<(usize, OpView)>, n: int, x: (usize, OpView))
    requires
        sequence_of_length(ops, n),
        x.0 == n,
        op_index(x.1) == x.0 + growth(ops, ops.len() as int),
        op_len(x.1) > 0,
    ensures
        sequence_of_length(ops.push(x), n + removed_len(x.1)),
        growth(ops.push(x), ops.len() + 1int) == growth(ops, ops.len() as int) + put_in(x.1).len()
            - removed_len(x.1),
        put_in_total(ops.push(x), ops.len() + 1int) == put_in_total(ops, ops.len() as int) + put_in(
            x.1,
        ).len(),
{
    reveal(sequence_of_length);
    let l = ops.len() as int;
    lemma_totals_push(ops, x, l);
    let s = ops.push(x);
    assert forall|k: int| 0 <= k < s.len() implies op_index((#[trigger] s[k]).1) == s[k].0 + growth(
        s,
        k,
    ) && op_len(s[k].1) > 0 && s[k].0 + removed_len(s[k].1) <= n + removed_len(x.1) by {
        if k < l {
            lemma_totals_push(ops, x, k);
            assert(s[k] == ops[k]);
        }
    }
    assert forall|q: int, r: int| 0 <= q < r < s.len() implies (#[trigger] s[q]).0 + removed_len(
        s[q].1,
    ) <= (#[trigger] s[r]).0 by {
        assert(s[q] == ops[q]);
        if r < l {
            assert(s[r] == ops[r]);
        }
    }
}

/// The length of the delete that a merge context holds back, or 0.
pub open spec fn held_len(c: ContextView) -> int {
    match c.last_delete {
        Some(d) => op_len(d),
        None => 0,
    }
}

/// What the merge context `c` of a side holds once its first `m`
/// operations of `s` are merged, `blen` characters are written and `last`
/// read: its shift is the growth of those operations plus the delete it
/// holds back, which is the output of its `pk`th operation and ends no later
/// than the text written so far allows.
pub open spec fn context_inv(
    s: Seq<(usize, OpView)>,
    m: int,
    c: ContextView,
    pk: int,
    blen: int,
    last: int,
) -> bool {
    &&& c.shift as int == growth(s, m) + held_len(c)
    &&& (c.last_delete matches Some(d) ==> {
        &&& d is Delete
        &&& 0 <= pk < m
        &&& s[pk].1 is Delete
        &&& op_len(d) == op_len(s[pk].1)
        &&& op_index(d) as int <= blen - last + s[pk].0 + op_len(d)
    })
}

/// Merging the `k`th operation of `ys` against the context of the other side
/// `xs` (`m` operations merged), where no change of the other side is next
/// to it: the change is made at the place it has in the original text.
#[verifier::rlimit(50)]
#[verifier::spinoff_prover]
proof fn lemma_sequence_step(
    original: Seq<char>,
    ys: Seq<(usize, OpView)>,
    k: int,
    xs: Seq<(usize, OpView)>,
    m: int,
    a: ContextView,
    p: ContextView,
    ypk: int,
    xpk: int,
    last: int,
    built: Seq<char>,
)
    requires
        sequence_of_length(ys, original.len() as int),
        sequence_of_length(xs, original.len() as int),
        original.len() + put_in_total(ys, ys.len() as int) + put_in_total(xs, xs.len() as int)
            <= isize::MAX,
        0 <= k < ys.len(),
        0 <= m <= xs.len(),
        0 <= last <= ys[k].0,
        built.len() - last == growth(ys, k) + growth(xs, m),
        context_inv(ys, k, p, ypk, built.len() as int, last),
        context_inv(xs, m, a, xpk, built.len() as int, last),
        a.last_delete is Some ==> xs[xpk].0 + removed_len(xs[xpk].1) < ys[k].0,
    ensures
        ({
            let y = ys[k].1;
            let o = ys[k].0 as int;
            let affecting = picked_up(a, op_index(y));
            let index = shifted_index(op_index(y), affecting.shift);
            let (result, a2, p2) = merge_step(op_with_index(y, index as usize), affecting, p);
            let built2 = built + original.subrange(last, o) + put_in(y);
            let last2 = o + removed_len(y);
            &&& fits_usize(index)
            &&& result matches Some(r) && applied_to(r, built + original.subrange(
                last,
                original.len() as int,
            )) == Some(built2 + original.subrange(last2, original.len() as int))
            &&& last2 <= original.len()
            &&& growth(ys, k + 1) == growth(ys, k) + put_in(y).len() - removed_len(y)
            &&& context_inv(xs, m, a2, xpk, built2.len() as int, last2)
            &&& context_inv(
                ys,
                k + 1,
                p2,
                if y is Delete {
                    k
                } else {
                    ypk
                },
                built2.len() as int,
                last2,
            )
        }),
{
    let n = original.len() as int;
    let y = ys[k].1;
    let o = ys[k].0 as int;
    let idx = op_index(y);
    let blen = built.len() as int;
    lemma_seq_at(ys, n, k);
    lemma_totals(ys, n, k);
    lemma_totals(ys, n, k + 1);
    lemma_totals(xs, n, m);
    if let Some(d) = a.last_delete {
        lemma_seq_at(xs, n, xpk);
        lemma_totals(xs, n, xpk);
        lemma_totals(xs, n, xpk + 1);
        lemma_removed_mono(xs, xpk + 1, m);
        lemma_totals_up(xs, n, m);
    }
    if let Some(d) = p.last_delete {
        lemma_seq_at(ys, n, ypk);
        lemma_totals_up(ys, n, k);
    }
    let a1 = picked_up(a, idx);
    assert(idx as i64 as int == idx as int);
    if let Some(d) = a.last_delete {
        let c = op_len(d);
        assert(c >= 1);
        assert(op_len(d) as usize == c);
        assert(wrapping_add(op_index(d), op_len(d) as usize) as int == op_index(d) + c);
        assert(op_end(d) as int == op_index(d) + c - 1);
        assert(i64_specs::wrapping_add(idx as i64, a.shift) as int == idx + a.shift);
        assert(len64(d) as int == c);
    }
    assert(a1.last_delete is None);
    assert(a1.shift as int == growth(xs, m));
    let index = shifted_index(idx, a1.shift);
    assert(index as int == o + blen - last);
    let s = index as usize;
    let cur = built + original.subrange(last, n);
    assert(cur.take(s as int) =~= built + original.subrange(last, o));
    assert(cur.skip(s as int) =~= original.subrange(o, n));
    match y {
        OpView::Insert { index: yi, text } => {
            let ins = OpView::Insert { index: s, text };
            assert(op_with_index(y, s) == ins);
            assert(len64(ins) as int == text.len());
            assert(built + original.subrange(last, o) + text + original.subrange(o, n) =~= (built
                + original.subrange(last, o) + put_in(y)) + original.subrange(o + removed_len(y), n));
        },
        OpView::Delete { index: yi, count, deleted_text } => {
            let del = OpView::Delete { index: s, count, deleted_text };
            assert(op_with_index(y, s) == del);
            assert(wrapping_add(s, count) as int == s + count);
            assert(cur.skip(s + count) =~= original.subrange(o + count, n));
            assert(built + original.subrange(last, o) + put_in(y) =~= built + original.subrange(last, o));
            if let Some(d) = p.last_delete {
                assert(len64(d) as int == op_len(d));
            }
        },
    }
}

/// The state of merging two separated sequences after `i` and `j` of their
/// operations: applying what is merged gives what splicing in their
/// operations so far gives, the last change read up to `last` (of the side
/// `side`, its `sidx`th operation), and the contexts hold what
/// `context_inv` says.
pub open spec fn sequence_merge_inv(
    original: Seq<char>,
    left: Seq<(usize, OpView)>,
    right: Seq<(usize, OpView)>,
    i: int,
    j: int,
    lc: ContextView,
    rc: ContextView,
    merged: Seq<OpView>,
    side: int,
    sidx: int,
    lpk: int,
    rpk: int,
) -> bool {
    let n = original.len() as int;
    let last = sequence_splice_state(original, pos_merge(left.take(i), right.take(j))).0;
    let built = sequence_splice_state(original, pos_merge(left.take(i), right.take(j))).1;
    &&& sequence_of_length(left, n)
    &&& sequence_of_length(right, n)
    &&& sequences_apart(left, right)
    &&& n + put_in_total(left, left.len() as int) + put_in_total(right, right.len() as int)
        <= isize::MAX
    &&& 0 <= i <= left.len()
    &&& 0 <= j <= right.len()
    &&& (0 < i && j < right.len() ==> left[i - 1].0 <= right[j].0)
    &&& (0 < j && i < left.len() ==> right[j - 1].0 < left[i].0)
    &&& apply_all(unordered(merged), original) == Some(built + original.subrange(last, n))
    &&& built.len() - last == growth(left, i) + growth(right, j)
    &&& 0 <= last <= n
    &&& (side == 0 ==> last == 0)
    &&& (side == 1 ==> 0 <= sidx < i && last == left[sidx].0 + removed_len(left[sidx].1))
    &&& (side == 2 ==> 0 <= sidx < j && last == right[sidx].0 + removed_len(right[sidx].1))
    &&& (side == 0 || side == 1 || side == 2)
    &&& context_inv(left, i, lc, lpk, built.len() as int, last)
    &&& context_inv(right, j, rc, rpk, built.len() as int, last)
}

proof fn lemma_seq_splice_push(original: Seq<char>, e: Seq<(usize, OpView)>, x: (usize, OpView))
    ensures
        sequence_splice_state(original, e.push(x)) == (
            x.0 + removed_len(x.1),
            sequence_splice_state(original, e).1 + original.subrange(
                sequence_splice_state(original, e).0,
                x.0 as int,
            ) + put_in(x.1),
        ),
{
    assert(e.push(x).drop_last() =~= e);
}

proof fn lemma_apply_push(merged: Seq<OpView>, r: OpView, original: Seq<char>)
    ensures
        apply_all(unordered(merged + as_seq(Some(r))), original) == match apply_all(
            unordered(merged),
            original,
        ) {
            Some(c) => applied_to(r, c),
            None => None,
        },
{
    assert(unordered(merged + as_seq(Some(r))) =~= unordered(merged).push((0usize, r)));
    assert(unordered(merged).push((0usize, r)).drop_last() =~= unordered(merged));
}

#[verifier::rlimit(60)]
#[verifier::spinoff_prover]
proof fn lemma_sequence_take_left(
    original: Seq<char>,
    left: Seq<(usize, OpView)>,
    right: Seq<(usize, OpView)>,
    i: int,
    j: int,
    lc: ContextView,
    rc: ContextView,
    merged: Seq<OpView>,
    side: int,
    sidx: int,
    lpk: int,
    rpk: int,
)
    requires
        sequence_merge_inv(original, left, right, i, j, lc, rc, merged, side, sidx, lpk, rpk),
        i < left.len(),
        j >= right.len() || left[i].0 <= right[j].0,
    ensures
        ({
            let op = left[i].1;
            let affecting = picked_up(rc, op_index(op));
            let index = shifted_index(op_index(op), affecting.shift);
            let (result, affecting2, produced2) = merge_step(
                op_with_index(op, index as usize),
                affecting,
                lc,
            );
            &&& fits_usize(index)
            &&& result is Some
            &&& sequence_merge_inv(
                original,
                left,
                right,
                i + 1,
                j,
                produced2,
                affecting2,
                merged + as_seq(result),
                1,
                i,
                if op is Delete {
                    i
                } else {
                    lpk
                },
                rpk,
            )
        }),
{
    let n = original.len() as int;
    let e = pos_merge(left.take(i), right.take(j));
    let last = sequence_splice_state(original, e).0;
    let built = sequence_splice_state(original, e).1;
    let y = left[i].1;
    if i + 1 < left.len() {
        lemma_seq_sorted(left, n, i, i + 1);
    }
    if side == 1 {
        lemma_seq_sorted(left, n, sidx, i);
    }
    if side == 2 {
        if sidx < j - 1 {
            lemma_seq_sorted(right, n, sidx, j - 1);
        }
        assert(left[i].0 + removed_len(left[i].1) < right[sidx].0 || right[sidx].0 + removed_len(
            right[sidx].1,
        ) < left[i].0);
    }
    if rc.last_delete is Some {
        if rpk < j - 1 {
            lemma_seq_sorted(right, n, rpk, j - 1);
        }
        assert(left[i].0 + removed_len(left[i].1) < right[rpk].0 || right[rpk].0 + removed_len(
            right[rpk].1,
        ) < left[i].0);
    }
    lemma_sequence_step(original, left, i, right, j, rc, lc, lpk, rpk, last, built);
    let affecting = picked_up(rc, op_index(y));
    let index = shifted_index(op_index(y), affecting.shift);
    let (result, affecting2, produced2) = merge_step(op_with_index(y, index as usize), affecting, lc);
    lemma_apply_push(merged, result->0, original);
    assert(left.take(i + 1) =~= left.take(i).push(left[i]));
    if j > 0 {
        assert(right.take(j).last() == right[j - 1]);
    }
    lemma_pos_merge_push_a(left.take(i), right.take(j), left[i]);
    lemma_seq_splice_push(original, e, left[i]);
}

#[verifier::rlimit(60)]
#[verifier::spinoff_prover]
proof fn lemma_sequence_take_right(
    original: Seq<char>,
    left: Seq<(usize, OpView)>,
    right: Seq<(usize, OpView)>,
    i: int,
    j: int,
    lc: ContextView,
    rc: ContextView,
    merged: Seq<OpView>,
    side: int,
    sidx: int,
    lpk: int,
    rpk: int,
)
    requires
        sequence_merge_inv(original, left, right, i, j, lc, rc, merged, side, sidx, lpk, rpk),
        j < right.len(),
        i >= left.len() || left[i].0 > right[j].0,
    ensures
        ({
            let op = right[j].1;
            let affecting = picked_up(lc, op_index(op));
            let index = shifted_index(op_index(op), affecting.shift);
            let (result, affecting2, produced2) = merge_step(
                op_with_index(op, index as usize),
                affecting,
                rc,
            );
            &&& fits_usize(index)
            &&& result is Some
            &&& sequence_merge_inv(
                original,
                left,
                right,
                i,
                j + 1,
                affecting2,
                produced2,
                merged + as_seq(result),
                2,
                j,
                lpk,
                if op is Delete {
                    j
                } else {
                    rpk
                },
            )
        }),
{
    let n = original.len() as int;
    let e = pos_merge(left.take(i), right.take(j));
    let last = sequence_splice_state(original, e).0;
    let built = sequence_splice_state(original, e).1;
    let y = right[j].1;
    if j + 1 < right.len() {
        lemma_seq_sorted(right, n, j, j + 1);
    }
    if side == 2 {
        lemma_seq_sorted(right, n, sidx, j);
    }
    if side == 1 {
        if sidx < i - 1 {
            lemma_seq_sorted(left, n, sidx, i - 1);
        }
        assert(left[sidx].0 + removed_len(left[sidx].1) < right[j].0 || right[j].0 + removed_len(
            right[j].1,
        ) < left[sidx].0);
    }
    if lc.last_delete is Some {
        if lpk < i - 1 {
            lemma_seq_sorted(left, n, lpk, i - 1);
        }
        assert(left[lpk].0 + removed_len(left[lpk].1) < right[j].0 || right[j].0 + removed_len(
            right[j].1,
        ) < left[lpk].0);
    }
    if i > 0 {
        assert(left[i - 1].0 + removed_len(left[i - 1].1) < right[j].0 || right[j].0 + removed_len(
            right[j].1,
        ) < left[i - 1].0);
        assert(left.take(i).last() == left[i - 1]);
    }
    lemma_sequence_step(original, right, j, left, i, lc, rc, rpk, lpk, last, built);
    let affecting = picked_up(lc, op_index(y));
    let index = shifted_index(op_index(y), affecting.shift);
    let (result, affecting2, produced2) = merge_step(op_with_index(y, index as usize), affecting, rc);
    lemma_apply_push(merged, result->0, original);
    assert(right.take(j + 1) =~= right.take(j).push(right[j]));
    lemma_pos_merge_push_b(left.take(i), right.take(j), right[j]);
    lemma_seq_splice_push(original, e, right[j]);
}

proof fn lemma_sequences_merge_from(
    original: Seq<char>,
    left: Seq<(usize, OpView)>,
    right: Seq<(usize, OpView)>,
    i: int,
    j: int,
    lc: ContextView,
    rc: ContextView,
    merged: Seq<OpView>,
    side: int,
    sidx: int,
    lpk: int,
    rpk: int,
)
    requires
        sequence_merge_inv(original, left, right, i, j, lc, rc, merged, side, sidx, lpk, rpk),
    ensures
        merge_from(left, right, i, j, lc, rc, merged) matches Ok(m) && apply_all(
            unordered(m),
            original,
        ) == Some(sequence_spliced(original, pos_merge(left, right))),
    decreases left.len() - i + right.len() - j,
{
    if i >= left.len() && j >= right.len() {
        lemma_merge_from_done(left, right, lc, rc, merged);
        assert(left.take(i) =~= left);
        assert(right.take(j) =~= right);
    } else if i < left.len() && (j >= right.len() || left[i].0 <= right[j].0) {
        lemma_merge_from_left(left, right, i, j, lc, rc, merged);
        lemma_sequence_take_left(original, left, right, i, j, lc, rc, merged, side, sidx, lpk, rpk);
        let op = left[i].1;
        let affecting = picked_up(rc, op_index(op));
        let index = shifted_index(op_index(op), affecting.shift);
        let (result, affecting2, produced2) = merge_step(
            op_with_index(op, index as usize),
            affecting,
            lc,
        );
        lemma_sequences_merge_from(
            original,
            left,
            right,
            i + 1,
            j,
            produced2,
            affecting2,
            merged + as_seq(result),
            1,
            i,
            if op is Delete {
                i
            } else {
                lpk
            },
            rpk,
        );
    } else {
        lemma_merge_from_right(left, right, i, j, lc, rc, merged);
        lemma_sequence_take_right(original, left, right, i, j, lc, rc, merged, side, sidx, lpk, rpk);
        let op = right[j].1;
        let affecting = picked_up(lc, op_index(op));
        let index = shifted_index(op_index(op), affecting.shift);
        let (result, affecting2, produced2) = merge_step(
            op_with_index(op, index as usize),
            affecting,
            rc,
        );
        lemma_sequences_merge_from(
            original,
            left,
            right,
            i,
            j + 1,
            affecting2,
            produced2,
            merged + as_seq(result),
            2,
            j,
            lpk,
            if op is Delete {
                j
            } else {
                rpk
            },
        );
    }
}

/// Merging two operation sequences `left` and `right` made from `original`
/// whose changes lie apart succeeds and makes every change of both sides:
/// applying the merged sequence to `original` gives `original` with the
/// operations of both spliced in, each replacing what it removes with what
/// it puts in.
pub proof fn lemma_sequences_apart_merge(
    original: Seq<char>,
    left: Seq<(usize, OpView)>,
    right: Seq<(usize, OpView)>,
)
    requires
        sequence_of_length(left, original.len() as int),
        sequence_of_length(right, original.len() as int),
        sequences_apart(left, right),
        original.len() + put_in_total(left, left.len() as int) + put_in_total(
            right,
            right.len() as int,
        ) <= isize::MAX,
    ensures
        merge_from(left, right, 0, 0, empty_context(), empty_context(), Seq::empty()) matches Ok(m)
            && apply_all(unordered(m), original) == Some(
            sequence_spliced(original, pos_merge(left, right)),
        ),
{
    let e: Seq<(usize, OpView)> = Seq::empty();
    assert(left.take(0) =~= e);
    assert(right.take(0) =~= e);
    assert(pos_merge(e, e) == e);
    assert(unordered(Seq::<OpView>::empty()) =~= e);
    assert(original.subrange(0, original.len() as int) =~= original);
    assert(Seq::<char>::empty() + original =~= original);
    lemma_sequences_merge_from(
        original,
        left,
        right,
        0,
        0,
        empty_context(),
        empty_context(),
        Seq::empty(),
        0,
        0,
        0,
        0,
    );
}

/// Merging two operation sequences whose changes lie apart gives the same
/// text whichever is taken as the left one.
pub proof fn lemma_sequences_apart_symmetric(
    original: Seq<char>,
    left: Seq<(usize, OpView)>,
    right: Seq<(usize, OpView)>,
)
    requires
        sequence_of_length(left, original.len() as int),
        sequence_of_length(right, original.len() as int),
        sequences_apart(left, right),
        original.len() + put_in_total(left, left.len() as int) + put_in_total(
            right,
            right.len() as int,
        ) <= isize::MAX,
    ensures
        merge_from(left, right, 0, 0, empty_context(), empty_context(), Seq::empty()) matches Ok(m1)
            && merge_from(right, left, 0, 0, empty_context(), empty_context(), Seq::empty()) matches Ok(
            m2,
        ) && apply_all(unordered(m1), original) == apply_all(unordered(m2), original),
{
    assert forall|a: int, b: int| 0 <= a < right.len() && 0 <= b < left.len() implies (
    #[trigger] right[a]).0 + removed_len(right[a].1) < (#[trigger] left[b]).0 || left[b].0
        + removed_len(left[b].1) < right[a].0 by {
        assert(left[b] == left[b] && right[a] == right[a]);
    }
    assert forall|x: int, y: int| 0 <= x < left.len() && 0 <= y < right.len() implies (
    #[trigger] left[x]).0 != (#[trigger] right[y]).0 by {
        assert(left[x] == left[x] && right[y] == right[y]);
    }
    lemma_sequences_apart_merge(original, left, right);
    lemma_sequences_apart_merge(original, right, left);
    lemma_pos_merge_commutes(left, right);
}

} // verus!
