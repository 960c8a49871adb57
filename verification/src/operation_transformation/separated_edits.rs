//! What merging two edits gives where no change of one lies next to a change
//! of the other: the original text with the changes of both sides made.
use vstd::prelude::*;

use super::edit_merge::{
    carried, carried_end, lemma_merge_edits_done, lemma_merge_edits_left, lemma_merge_edits_right,
    merge_edits, produced,
};
use super::cursor::CursorPosition;
use super::edited_text::{applied, changes, fold_ops};
use super::merge_context::{consumed, empty_context, is_behind, MergeContextView};
use super::operation::{
    apply_step, delete_step, insert_step, len64, merge_step, op_end, op_index, op_len, op_text,
    op_tokens, op_with_index, repeated_count, replaced, shifted, span, OpView,
};
use crate::tokenizer::token::flatten;
use crate::utils::string_builder::chars_from;
use vstd::wrapping::i64_specs;
use vstd::wrapping::usize_specs::{wrapping_add, wrapping_sub};

verus! {

/// How many characters of the original text an operation covers.
pub open spec fn old_len(op: OpView) -> int {
    match op {
        OpView::Insert { .. } => 0,
        OpView::Delete { count, .. } => count as int,
        OpView::Equal { length, .. } => length as int,
    }
}

/// How many characters of the edited text an operation covers.
pub open spec fn new_len(op: OpView) -> int {
    match op {
        OpView::Insert { text, .. } => flatten(text).len() as int,
        OpView::Delete { .. } => 0,
        OpView::Equal { length, .. } => length as int,
    }
}

/// Where the `k`th operation of `ops` starts in the original text.
pub open spec fn old_pos(ops: Seq<(usize, OpView)>, k: int) -> int
    decreases k,
{
    if k <= 0 {
        0
    } else {
        old_pos(ops, k - 1) + old_len(ops[k - 1].1)
    }
}

/// Where the `k`th operation of `ops` starts in the edited text.
pub open spec fn new_pos(ops: Seq<(usize, OpView)>, k: int) -> int
    decreases k,
{
    if k <= 0 {
        0
    } else {
        new_pos(ops, k - 1) + new_len(ops[k - 1].1)
    }
}

/// `ops` is an edit of a text of `n` characters, as `EditedText` holds one:
/// its operations cover the text one after another, each is ordered by
/// where it starts in the original text, has its index where it starts in
/// the edited text, and affects at least one character.
#[verifier::opaque]
pub open spec fn edit_of_length(ops: Seq<(usize, OpView)>, n: int) -> bool {
    &&& forall|k: int|
        0 <= k < ops.len() ==> (#[trigger] ops[k]).0 == old_pos(ops, k) && op_index(ops[k].1)
            == new_pos(ops, k) && op_len(ops[k].1) > 0
    &&& old_pos(ops, ops.len() as int) == n
}

/// Every change of `left` lies apart from every change of `right`: at least
/// one character of the original text that neither changes stands between
/// them.
pub open spec fn separated(left: Seq<(usize, OpView)>, right: Seq<(usize, OpView)>) -> bool {
    forall|a: int, b: int|
        0 <= a < left.len() && 0 <= b < right.len() && !(left[a].1 is Equal) && !(
        right[b].1 is Equal) ==> (#[trigger] left[a]).0 + old_len(left[a].1) < (#[trigger] right[b]).0
            || right[b].0 + old_len(right[b].1) < left[a].0
}

/// The changes of `a` and `b` together, by where they start in the original
/// text; on a tie, those of `b` first.
pub open spec fn pos_merge<T>(a: Seq<(usize, T)>, b: Seq<(usize, T)>) -> Seq<(usize, T)>
    decreases a.len() + b.len(),
{
    if a.len() == 0 {
        b
    } else if b.len() == 0 {
        a
    } else if a.last().0 >= b.last().0 {
        pos_merge(a.drop_last(), b).push(a.last())
    } else {
        pos_merge(a, b.drop_last()).push(b.last())
    }
}

/// How far into `original` splicing in `changes` has read, and what it has
/// written: each change replaces the characters it covers from where it
/// starts with the text it inserts.
pub open spec fn splice_state(original: Seq<char>, changes: Seq<(usize, OpView)>) -> (int, Seq<char>)
    decreases changes.len(),
{
    if changes.len() == 0 {
        (0, Seq::empty())
    } else {
        let (last, built) = splice_state(original, changes.drop_last());
        let (o, op) = changes.last();
        (o + old_len(op), built + original.subrange(last, o as int) + op_text(op))
    }
}

/// `original` with `changes` made, in order.
pub open spec fn spliced(original: Seq<char>, changes: Seq<(usize, OpView)>) -> Seq<char> {
    splice_state(original, changes).1 + original.subrange(
        splice_state(original, changes).0,
        original.len() as int,
    )
}

pub proof fn lemma_pos_merge_push_a<T>(a: Seq<(usize, T)>, b: Seq<(usize, T)>, c: (usize, T))
    requires
        b.len() == 0 || b.last().0 <= c.0,
    ensures
        pos_merge(a.push(c), b) == pos_merge(a, b).push(c),
{
    assert(a.push(c).drop_last() =~= a);
    if b.len() == 0 {
        if a.len() == 0 {
            assert(pos_merge(a, b) == b);
        }
        assert(pos_merge(a, b) == a);
    }
}

pub proof fn lemma_pos_merge_push_b<T>(a: Seq<(usize, T)>, b: Seq<(usize, T)>, c: (usize, T))
    requires
        a.len() == 0 || a.last().0 < c.0,
    ensures
        pos_merge(a, b.push(c)) == pos_merge(a, b).push(c),
{
    assert(b.push(c).drop_last() =~= b);
}

/// Where no element of `a` starts where an element of `b` does, putting
/// them together by where they start does not depend on their order.
pub proof fn lemma_pos_merge_commutes<T>(a: Seq<(usize, T)>, b: Seq<(usize, T)>)
    requires
        forall|x: int, y: int| 0 <= x < a.len() && 0 <= y < b.len() ==> (#[trigger] a[x]).0 != (
        #[trigger] b[y]).0,
    ensures
        pos_merge(a, b) == pos_merge(b, a),
    decreases a.len() + b.len(),
{
    if a.len() > 0 && b.len() > 0 {
        assert(a.last() == a[a.len() - 1] && b.last() == b[b.len() - 1]);
        assert(a.last().0 != b.last().0);
        if a.last().0 > b.last().0 {
            lemma_pos_merge_commutes(a.drop_last(), b);
        } else {
            lemma_pos_merge_commutes(a, b.drop_last());
        }
    }
}

/// A change of `ops` is one of its operations that is not an equal run.
proof fn lemma_changes_elem(ops: Seq<(usize, OpView)>, t: int) -> (q: int)
    requires
        0 <= t < changes(ops).len(),
    ensures
        0 <= q < ops.len(),
        changes(ops)[t] == ops[q],
        !(ops[q].1 is Equal),
    decreases ops.len(),
{
    if ops.len() == 0 {
        0
    } else if ops.last().1 is Equal {
        lemma_changes_elem(ops.drop_last(), t)
    } else if t < changes(ops.drop_last()).len() {
        lemma_changes_elem(ops.drop_last(), t)
    } else {
        ops.len() - 1
    }
}

/// Merging two edits whose changes lie apart gives the same text whichever
/// side is taken as the left one.
pub proof fn lemma_separated_merge_symmetric(
    original: Seq<char>,
    left: Seq<(usize, OpView)>,
    right: Seq<(usize, OpView)>,
    left_cursors: Seq<CursorPosition>,
    right_cursors: Seq<CursorPosition>,
)
    requires
        edit_of_length(left, original.len() as int),
        edit_of_length(right, original.len() as int),
        separated(left, right),
        original.len() + new_pos(left, left.len() as int) + new_pos(right, right.len() as int)
            <= isize::MAX,
    ensures
        applied(
            original,
            merge_edits(
                left,
                right,
                left_cursors,
                right_cursors,
                0,
                0,
                0,
                0,
                empty_context(),
                empty_context(),
                Seq::empty(),
                Seq::empty(),
            ).0,
        ) == applied(
            original,
            merge_edits(
                right,
                left,
                right_cursors,
                left_cursors,
                0,
                0,
                0,
                0,
                empty_context(),
                empty_context(),
                Seq::empty(),
                Seq::empty(),
            ).0,
        ),
{
    assert forall|a: int, b: int|
        0 <= a < right.len() && 0 <= b < left.len() && !(right[a].1 is Equal) && !(
        left[b].1 is Equal) implies (#[trigger] right[a]).0 + old_len(right[a].1) < (
    #[trigger] left[b]).0 || left[b].0 + old_len(left[b].1) < right[a].0 by {
        assert(left[b] == left[b] && right[a] == right[a]);
    }
    lemma_separated_merge(original, left, right, left_cursors, right_cursors);
    lemma_separated_merge(original, right, left, right_cursors, left_cursors);
    let cl = changes(left);
    let cr = changes(right);
    assert forall|x: int, y: int| 0 <= x < cl.len() && 0 <= y < cr.len() implies (#[trigger] cl[x]).0
        != (#[trigger] cr[y]).0 by {
        let q = lemma_changes_elem(left, x);
        let r = lemma_changes_elem(right, y);
        assert(left[q] == left[q] && right[r] == right[r]);
    }
    lemma_pos_merge_commutes(cl, cr);
}

proof fn lemma_changes_take(ops: Seq<(usize, OpView)>, k: int)
    requires
        0 <= k < ops.len(),
    ensures
        changes(ops.take(k + 1)) == changes(ops.take(k)) + if ops[k].1 is Equal {
            Seq::<(usize, OpView)>::empty()
        } else {
            seq![ops[k]]
        },
{
    assert(ops.take(k + 1).drop_last() =~= ops.take(k));
    assert(ops.take(k + 1).last() == ops[k]);
    assert(changes(ops.take(k)).push(ops[k]) =~= changes(ops.take(k)) + seq![ops[k]]);
    assert(changes(ops.take(k)) + Seq::<(usize, OpView)>::empty() =~= changes(ops.take(k)));
}

/// The last change among the first `k` operations is one of them.
proof fn lemma_last_change(ops: Seq<(usize, OpView)>, k: int) -> (q: int)
    requires
        0 <= k <= ops.len(),
        changes(ops.take(k)).len() > 0,
    ensures
        0 <= q < k,
        changes(ops.take(k)).last() == ops[q],
    decreases k,
{
    if k == 0 {
        assert(ops.take(0) =~= Seq::<(usize, OpView)>::empty());
        assert(false);
        0
    } else {
        lemma_changes_take(ops, k - 1);
        if ops[k - 1].1 is Equal {
            assert(changes(ops.take(k)) =~= changes(ops.take(k - 1)));
            lemma_last_change(ops, k - 1)
        } else {
            k - 1
        }
    }
}

proof fn lemma_pos_mono(ops: Seq<(usize, OpView)>, a: int, b: int)
    requires
        0 <= a <= b,
    ensures
        old_pos(ops, a) <= old_pos(ops, b),
        new_pos(ops, a) <= new_pos(ops, b),
        0 <= old_pos(ops, a),
        0 <= new_pos(ops, a),
    decreases b,
{
    if a < b {
        lemma_pos_mono(ops, a, b - 1);
    } else if a > 0 {
        lemma_pos_mono(ops, a - 1, a - 1);
    }
}

/// What `edit_of_length` says of the `k`th operation.
proof fn lemma_edit_at(ops: Seq<(usize, OpView)>, n: int, k: int)
    requires
        edit_of_length(ops, n),
        0 <= k < ops.len(),
    ensures
        ops[k].0 == old_pos(ops, k),
        op_index(ops[k].1) == new_pos(ops, k),
        op_len(ops[k].1) > 0,
        old_pos(ops, ops.len() as int) == n,
{
    reveal(edit_of_length);
}

proof fn lemma_pos_push(ops: Seq<(usize, OpView)>, x: (usize, OpView), k: int)
    requires
        0 <= k <= ops.len(),
    ensures
        old_pos(ops.push(x), k) == old_pos(ops, k),
        new_pos(ops.push(x), k) == new_pos(ops, k),
    decreases k,
{
    if k > 0 {
        lemma_pos_push(ops, x, k - 1);
        assert(ops.push(x)[k - 1] == ops[k - 1]);
    }
}

/// No operations are an edit of the empty text.
pub proof fn lemma_edit_empty()
    ensures
        edit_of_length(Seq::empty(), 0),
        new_pos(Seq::empty(), 0) == 0,
{
    reveal(edit_of_length);
}

/// An edit of a text of `n` characters, followed by an operation that starts
/// at its end in both texts and affects at least one character, is an edit
/// of the longer text.
pub proof fn lemma_edit_push(ops: Seq<(usize, OpView)>, n: int, x: (usize, OpView))
    requires
        edit_of_length(ops, n),
        x.0 == n,
        op_index(x.1) == new_pos(ops, ops.len() as int),
        op_len(x.1) > 0,
    ensures
        edit_of_length(ops.push(x), n + old_len(x.1)),
        new_pos(ops.push(x), ops.len() + 1int) == new_pos(ops, ops.len() as int) + new_len(x.1),
{
    reveal(edit_of_length);
    let l = ops.len() as int;
    lemma_pos_push(ops, x, l);
    assert forall|k: int| 0 <= k < ops.push(x).len() implies (#[trigger] ops.push(x)[k]).0 == old_pos(
        ops.push(x),
        k,
    ) && op_index(ops.push(x)[k].1) == new_pos(ops.push(x), k) && op_len(ops.push(x)[k].1) > 0 by {
        if k < l {
            lemma_pos_push(ops, x, k);
            assert(ops.push(x)[k] == ops[k]);
        }
    }
}

/// An edit covers all of its text.
proof fn lemma_edit_total(ops: Seq<(usize, OpView)>, n: int)
    requires
        edit_of_length(ops, n),
    ensures
        old_pos(ops, ops.len() as int) == n,
{
    reveal(edit_of_length);
}

/// The length of the delete that a merge context holds back, or 0.
pub open spec fn pend(c: MergeContextView) -> int {
    match c.last_delete {
        Some(d) => op_len(d),
        None => 0,
    }
}

/// What the merge context `c` of a side holds, once its first `m`
/// operations of `s` are merged, `blen` characters are written and `last`
/// read: its shift is the net length change of those operations plus the
/// delete it holds back, which is the output of its `pk`th operation and
/// ends no later than the text written so far allows; its last insert ends
/// no later than the text written, and only where this side's change was
/// the last one (`own`).
pub open spec fn ctx_inv(
    s: Seq<(usize, OpView)>,
    m: int,
    c: MergeContextView,
    pk: int,
    blen: int,
    last: int,
    own: bool,
) -> bool {
    &&& c.shift as int == new_pos(s, m) - old_pos(s, m) + pend(c)
    &&& (c.last_delete matches Some(d) ==> {
        &&& d is Delete
        &&& 0 <= pk < m
        &&& s[pk].1 is Delete
        &&& op_len(d) == op_len(s[pk].1)
        &&& op_index(d) as int <= blen - last + s[pk].0 + op_len(d)
    })
    &&& (c.last_insert matches Some(q) ==> {
        &&& q is Insert
        &&& op_len(q) > 0
        &&& op_index(q) + op_len(q) <= blen
        &&& (op_index(q) + op_len(q) == blen ==> own)
    })
}

/// A delete the other side holds back ends before a change at `o`: merging
/// the change drops it first.
proof fn lemma_consume_apart(
    a: MergeContextView,
    xs: Seq<(usize, OpView)>,
    m: int,
    xpk: int,
    idx: usize,
    o: int,
    blen: int,
    last: int,
    own_x: bool,
)
    requires
        ctx_inv(xs, m, a, xpk, blen, last, own_x),
        last <= o,
        0 <= blen,
        idx + new_pos(xs, m) - old_pos(xs, m) == o + blen - last,
        o + blen - last <= isize::MAX,
        idx + new_pos(xs, m) <= isize::MAX,
        0 <= new_pos(xs, m),
        0 <= old_pos(xs, m) <= isize::MAX,
        a.last_delete is Some ==> xs[xpk].0 + old_len(xs[xpk].1) < o && old_len(xs[xpk].1)
            <= old_pos(xs, m) && op_len(xs[xpk].1) > 0 && old_len(xs[xpk].1) == op_len(
            xs[xpk].1,
        ),
    ensures
        consumed(a, idx).last_delete is None,
        consumed(a, idx).shift as int == new_pos(xs, m) - old_pos(xs, m),
        consumed(a, idx).last_insert == a.last_insert,
{
    if let Some(d) = a.last_delete {
        let c = op_len(d);
        assert(idx as i64 as int == idx as int);
        assert(c >= 1);
        assert(op_index(d) + c <= isize::MAX);
        assert(op_len(d) as usize == c);
        assert(wrapping_add(op_index(d), op_len(d) as usize) as int == op_index(d) + c);
        assert(op_end(d) as int == op_index(d) + c - 1);
        assert(i64_specs::wrapping_add(idx as i64, a.shift) as int == idx + a.shift);
        assert(is_behind(a, idx));
        assert(len64(d) as int == c);
    }
}

/// An equal run of one side may drop the delete the other side holds back;
/// either way that side's context keeps its invariant.
proof fn lemma_consume_any(
    a: MergeContextView,
    xs: Seq<(usize, OpView)>,
    m: int,
    xpk: int,
    idx: usize,
    blen: int,
    last: int,
    own_x: bool,
)
    requires
        ctx_inv(xs, m, a, xpk, blen, last, own_x),
        0 <= new_pos(xs, m) <= isize::MAX,
        0 <= old_pos(xs, m) <= isize::MAX,
        a.last_delete is Some ==> old_len(xs[xpk].1) <= old_pos(xs, m) && old_len(xs[xpk].1)
            == op_len(xs[xpk].1),
    ensures
        ctx_inv(xs, m, consumed(a, idx), xpk, blen, last, own_x),
{
    if let Some(d) = a.last_delete {
        assert(len64(d) as int == op_len(d));
        if is_behind(a, idx) {
            assert(consumed(a, idx).shift as int == a.shift - op_len(d));
        }
    }
}

/// Shared facts of merging a change `y` at `o` of one side whose shifted
/// index is `o + blen - last`.
pub open spec fn change_facts(
    original: Seq<char>,
    ys: Seq<(usize, OpView)>,
    k: int,
    xs: Seq<(usize, OpView)>,
    m: int,
    a: MergeContextView,
    p: MergeContextView,
    ypk: int,
    xpk: int,
    last: int,
    built: Seq<char>,
    own_y: bool,
    own_x: bool,
) -> bool {
    let y = ys[k].1;
    let o = ys[k].0 as int;
    let idx = op_index(y);
    let blen = built.len() as int;
    &&& 0 <= k < ys.len()
    &&& 0 <= m <= xs.len()
    &&& !(y is Equal)
    &&& op_len(y) > 0
    &&& 0 <= last <= o
    &&& o + old_len(y) <= original.len()
    &&& (own_x ==> last < o)
    &&& idx + new_pos(xs, m) - old_pos(xs, m) == o + blen - last
    &&& o == old_pos(ys, k)
    &&& idx == new_pos(ys, k)
    &&& old_pos(ys, k + 1) == o + old_len(y)
    &&& new_pos(ys, k + 1) == new_pos(ys, k) + new_len(y)
    &&& o + blen - last + op_len(y) <= isize::MAX
    &&& 0 <= new_pos(ys, k + 1) <= isize::MAX
    &&& 0 <= old_pos(ys, k + 1) <= isize::MAX
    &&& 0 <= new_pos(xs, m) <= isize::MAX
    &&& 0 <= old_pos(xs, m) <= isize::MAX
    &&& pend(p) <= old_pos(ys, k)
    &&& consumed(a, idx).last_delete is None
    &&& consumed(a, idx).shift as int == new_pos(xs, m) - old_pos(xs, m)
    &&& consumed(a, idx).last_insert == a.last_insert
    &&& ctx_inv(ys, k, p, ypk, blen, last, own_y)
    &&& ctx_inv(xs, m, a, xpk, blen, last, own_x)
}

proof fn lemma_step_insert(
    original: Seq<char>,
    ys: Seq<(usize, OpView)>,
    k: int,
    xs: Seq<(usize, OpView)>,
    m: int,
    a: MergeContextView,
    p: MergeContextView,
    ypk: int,
    xpk: int,
    last: int,
    built: Seq<char>,
    own_y: bool,
    own_x: bool,
)
    requires
        change_facts(original, ys, k, xs, m, a, p, ypk, xpk, last, built, own_y, own_x),
        ys[k].1 is Insert,
    ensures
        ({
            let (res, a2, p2) = merge_step(ys[k].1, a, p);
            let o = ys[k].0 as int;
            let y = ys[k].1;
            let built2 = built + original.subrange(last, o) + op_text(y);
            &&& res matches Some(r) && apply_step(original, last as usize, built, r) == (
            o as usize,
            built2,
            )
            &&& ctx_inv(xs, m, a2, xpk, built2.len() as int, o, false)
            &&& ctx_inv(ys, k + 1, p2, ypk, built2.len() as int, o, true)
        }),
{
    let y = ys[k].1;
    let o = ys[k].0 as int;
    let idx = op_index(y);
    let blen = built.len() as int;
    let a1 = consumed(a, idx);
    let text = op_tokens(y);
    let len = op_len(y);
    let s = shifted(idx, a1.shift);
    assert(idx as i64 as int == idx as int);
    assert(i64_specs::wrapping_add(idx as i64, a1.shift) as int == o + blen - last);
    assert(s as int == o + blen - last);
    let jump = wrapping_sub(s, built.len() as usize);
    assert(jump as int == o - last);
    assert(chars_from(original, last, jump as int) == original.subrange(last, o));
    assert(text.skip(0) =~= text);
    if let Some(q) = a1.last_insert {
        assert(wrapping_add(op_end(q), 1) as int == op_index(q) + op_len(q));
    }
    assert(repeated_count(a1, s, text) == 0);
    let ins = OpView::Insert { index: s, text };
    assert(op_with_index(y, s) == ins);
    assert(len64(ins) as int == len);
    assert(merge_step(y, a, p) == insert_step(ins, a1, p));
    assert(op_text(ins) == op_text(y));
    assert(i64_specs::wrapping_add(p.shift, len64(ins)) as int == p.shift + len);
}

proof fn lemma_step_delete(
    original: Seq<char>,
    ys: Seq<(usize, OpView)>,
    k: int,
    xs: Seq<(usize, OpView)>,
    m: int,
    a: MergeContextView,
    p: MergeContextView,
    ypk: int,
    xpk: int,
    last: int,
    built: Seq<char>,
    own_y: bool,
    own_x: bool,
)
    requires
        change_facts(original, ys, k, xs, m, a, p, ypk, xpk, last, built, own_y, own_x),
        ys[k].1 is Delete,
    ensures
        ({
            let (res, a2, p2) = merge_step(ys[k].1, a, p);
            let o = ys[k].0 as int;
            let y = ys[k].1;
            let built2 = built + original.subrange(last, o) + op_text(y);
            &&& res matches Some(r) && apply_step(original, last as usize, built, r) == (
            (o + old_len(y)) as usize,
            built2,
            )
            &&& ctx_inv(xs, m, a2, xpk, built2.len() as int, o + old_len(y), false)
            &&& ctx_inv(ys, k + 1, p2, k, built2.len() as int, o + old_len(y), true)
        }),
{
    let y = ys[k].1;
    let o = ys[k].0 as int;
    let idx = op_index(y);
    let blen = built.len() as int;
    let a1 = consumed(a, idx);
    let s = shifted(idx, a1.shift);
    assert(idx as i64 as int == idx as int);
    assert(i64_specs::wrapping_add(idx as i64, a1.shift) as int == o + blen - last);
    assert(s as int == o + blen - last);
    let jump = wrapping_sub(s, built.len() as usize);
    assert(jump as int == o - last);
    assert(chars_from(original, last, jump as int) == original.subrange(last, o));
    if let OpView::Delete { index, count, deleted_text } = y {
        let del = OpView::Delete { index: s, count, deleted_text };
        assert(op_with_index(y, s) == del);
        assert(span(s, count) == count);
        assert(op_text(y) =~= Seq::<char>::empty());
        assert(built + original.subrange(last, o) + op_text(y) =~= built + original.subrange(last, o));
        assert(merge_step(y, a, p) == delete_step(del, a1, p));
        if let Some(d) = p.last_delete {
            assert(len64(d) as int == op_len(d));
        }
    }
}

proof fn lemma_step_equal(
    ys: Seq<(usize, OpView)>,
    k: int,
    xs: Seq<(usize, OpView)>,
    m: int,
    a: MergeContextView,
    p: MergeContextView,
    ypk: int,
    xpk: int,
    blen: int,
    last: int,
    own_y: bool,
    own_x: bool,
)
    requires
        0 <= k < ys.len(),
        ys[k].1 is Equal,
        old_pos(ys, k + 1) == old_pos(ys, k) + old_len(ys[k].1),
        new_pos(ys, k + 1) == new_pos(ys, k) + new_len(ys[k].1),
        ctx_inv(ys, k, p, ypk, blen, last, own_y),
        ctx_inv(xs, m, a, xpk, blen, last, own_x),
        0 <= new_pos(xs, m) <= isize::MAX,
        0 <= old_pos(xs, m) <= isize::MAX,
        a.last_delete is Some ==> old_len(xs[xpk].1) <= old_pos(xs, m) && old_len(xs[xpk].1)
            == op_len(xs[xpk].1),
    ensures
        ({
            let (res, a2, p2) = merge_step(ys[k].1, a, p);
            &&& res matches Some(r) && r is Equal
            &&& ctx_inv(xs, m, a2, xpk, blen, last, own_x)
            &&& ctx_inv(ys, k + 1, p2, ypk, blen, last, own_y)
        }),
{
    let y = ys[k].1;
    let idx = op_index(y);
    lemma_consume_any(a, xs, m, xpk, idx, blen, last, own_x);
}

/// Merging the `k`th operation of `ys` against the context of the other side
/// `xs` (`m` operations merged), where no change of the other side is next
/// to it: an equal run changes nothing, and a change is made at the place it
/// has in the original text.
#[verifier::rlimit(80)]
#[verifier::spinoff_prover]
proof fn lemma_side_step(
    original: Seq<char>,
    ys: Seq<(usize, OpView)>,
    k: int,
    xs: Seq<(usize, OpView)>,
    m: int,
    a: MergeContextView,
    p: MergeContextView,
    ypk: int,
    xpk: int,
    last: int,
    built: Seq<char>,
    own_y: bool,
    own_x: bool,
)
    requires
        edit_of_length(ys, original.len() as int),
        edit_of_length(xs, original.len() as int),
        original.len() + new_pos(ys, ys.len() as int) + new_pos(xs, xs.len() as int) <= isize::MAX,
        0 <= k < ys.len(),
        0 <= m <= xs.len(),
        0 <= last <= original.len(),
        built.len() - last == new_pos(ys, k) - old_pos(ys, k) + new_pos(xs, m) - old_pos(xs, m),
        ctx_inv(ys, k, p, ypk, built.len() as int, last, own_y),
        ctx_inv(xs, m, a, xpk, built.len() as int, last, own_x),
        !(ys[k].1 is Equal) ==> last <= ys[k].0 && (own_x ==> last < ys[k].0) && (
        a.last_delete is Some ==> xs[xpk].0 + old_len(xs[xpk].1) < ys[k].0),
    ensures
        ({
            let (res, a2, p2) = merge_step(ys[k].1, a, p);
            let o = ys[k].0 as int;
            let y = ys[k].1;
            &&& old_pos(ys, k + 1) == o + old_len(y)
            &&& new_pos(ys, k + 1) == new_pos(ys, k) + new_len(y)
            &&& op_text(y).len() == new_len(y) || y is Equal
            &&& (y is Equal ==> {
                &&& res matches Some(r) && r is Equal
                &&& ctx_inv(xs, m, a2, xpk, built.len() as int, last, own_x)
                &&& ctx_inv(ys, k + 1, p2, ypk, built.len() as int, last, own_y)
                &&& old_len(y) == new_len(y)
            })
            &&& (!(y is Equal) ==> {
                let built2 = built + original.subrange(last, o) + op_text(y);
                let last2 = o + old_len(y);
                &&& res matches Some(r) && apply_step(original, last as usize, built, r) == (
                last2 as usize,
                built2,
                )
                &&& last2 <= original.len()
                &&& ctx_inv(xs, m, a2, xpk, built2.len() as int, last2, false)
                &&& ctx_inv(
                    ys,
                    k + 1,
                    p2,
                    if y is Delete {
                        k
                    } else {
                        ypk
                    },
                    built2.len() as int,
                    last2,
                    true,
                )
            })
        }),
{
    let n = original.len() as int;
    let o = ys[k].0 as int;
    let y = ys[k].1;
    let idx = op_index(y);
    lemma_pos_mono(ys, k, k + 1);
    lemma_pos_mono(ys, k + 1, ys.len() as int);
    lemma_pos_mono(xs, m, xs.len() as int);
    lemma_edit_at(ys, n, k);
    lemma_edit_total(xs, n);
    if let Some(d) = p.last_delete {
        lemma_pos_mono(ys, ypk + 1, k);
        lemma_edit_at(ys, n, ypk);
        lemma_pos_mono(ys, 0, ypk);
    }
    if let Some(d) = a.last_delete {
        lemma_pos_mono(xs, xpk + 1, m);
        lemma_edit_at(xs, n, xpk);
        lemma_pos_mono(xs, 0, xpk);
    }
    if y is Equal {
        lemma_step_equal(ys, k, xs, m, a, p, ypk, xpk, built.len() as int, last, own_y, own_x);
    } else {
        lemma_consume_apart(a, xs, m, xpk, idx, o, built.len() as int, last, own_x);
        assert(change_facts(original, ys, k, xs, m, a, p, ypk, xpk, last, built, own_y, own_x));
        if y is Insert {
            lemma_step_insert(original, ys, k, xs, m, a, p, ypk, xpk, last, built, own_y, own_x);
        } else {
            lemma_step_delete(original, ys, k, xs, m, a, p, ypk, xpk, last, built, own_y, own_x);
        }
    }
}

/// The state of merging two separated edits `left` and `right` of
/// `original` after `i` and `j` of their operations: what is written is what
/// splicing in their changes so far gives, the last change read up to
/// `last` (of the side `side`, its `sidx`th operation), and the contexts
/// hold what `ctx_inv` says.
pub open spec fn apart_inv(
    original: Seq<char>,
    left: Seq<(usize, OpView)>,
    right: Seq<(usize, OpView)>,
    i: int,
    j: int,
    lc: MergeContextView,
    rc: MergeContextView,
    ops: Seq<(usize, OpView)>,
    side: int,
    sidx: int,
    lpk: int,
    rpk: int,
) -> bool {
    let n = original.len() as int;
    let last = fold_ops(original, ops).0 as int;
    let built = fold_ops(original, ops).1;
    &&& edit_of_length(left, n)
    &&& edit_of_length(right, n)
    &&& separated(left, right)
    &&& n + new_pos(left, left.len() as int) + new_pos(right, right.len() as int) <= isize::MAX
    &&& 0 <= i <= left.len()
    &&& 0 <= j <= right.len()
    &&& (0 < i && j < right.len() ==> left[i - 1].0 < right[j].0)
    &&& (0 < j && i < left.len() ==> right[j - 1].0 <= left[i].0)
    &&& splice_state(original, pos_merge(changes(left.take(i)), changes(right.take(j)))) == (
    last,
    built,
    )
    &&& built.len() - last == new_pos(left, i) - old_pos(left, i) + new_pos(right, j) - old_pos(
        right,
        j,
    )
    &&& 0 <= last <= n
    &&& (side == 0 ==> last == 0)
    &&& (side == 1 ==> 0 <= sidx < i && !(left[sidx].1 is Equal) && last == left[sidx].0
        + old_len(left[sidx].1))
    &&& (side == 2 ==> 0 <= sidx < j && !(right[sidx].1 is Equal) && last == right[sidx].0
        + old_len(right[sidx].1))
    &&& (side == 0 || side == 1 || side == 2)
    &&& ctx_inv(left, i, lc, lpk, built.len() as int, last, side == 1)
    &&& ctx_inv(right, j, rc, rpk, built.len() as int, last, side == 2)
}

/// The operations of an edit are ordered by where they start.
proof fn lemma_orders_sorted(ops: Seq<(usize, OpView)>, n: int, q: int, r: int)
    requires
        edit_of_length(ops, n),
        0 <= q <= r < ops.len(),
    ensures
        ops[q].0 <= ops[r].0,
        ops[q].0 + old_len(ops[q].1) <= ops[r].0 || q == r,
        ops[r].0 + old_len(ops[r].1) <= n,
{
    lemma_edit_at(ops, n, q);
    lemma_edit_at(ops, n, r);
    lemma_pos_mono(ops, q, r);
    lemma_pos_mono(ops, r + 1, ops.len() as int);
    if q < r {
        lemma_pos_mono(ops, q + 1, r);
    }
}

proof fn lemma_splice_push(original: Seq<char>, e: Seq<(usize, OpView)>, x: (usize, OpView))
    ensures
        splice_state(original, e.push(x)) == (
            x.0 + old_len(x.1),
            splice_state(original, e).1 + original.subrange(splice_state(original, e).0, x.0 as int)
                + op_text(x.1),
        ),
{
    assert(e.push(x).drop_last() =~= e);
}

proof fn lemma_fold_push(original: Seq<char>, ops: Seq<(usize, OpView)>, x: (usize, OpView))
    ensures
        fold_ops(original, ops.push(x)) == apply_step(
            original,
            fold_ops(original, ops).0,
            fold_ops(original, ops).1,
            x.1,
        ),
{
    assert(ops.push(x).drop_last() =~= ops);
}

#[verifier::rlimit(80)]
#[verifier::spinoff_prover]
proof fn lemma_take_left(
    original: Seq<char>,
    left: Seq<(usize, OpView)>,
    right: Seq<(usize, OpView)>,
    i: int,
    j: int,
    lc: MergeContextView,
    rc: MergeContextView,
    ops: Seq<(usize, OpView)>,
    side: int,
    sidx: int,
    lpk: int,
    rpk: int,
) -> (next: (int, int, int))
    requires
        apart_inv(original, left, right, i, j, lc, rc, ops, side, sidx, lpk, rpk),
        i < left.len(),
        j == right.len() || left[i].0 < right[j].0,
    ensures
        ({
            let (result, rc2, lc2) = merge_step(left[i].1, rc, lc);
            apart_inv(
                original,
                left,
                right,
                i + 1,
                j,
                lc2,
                rc2,
                ops + produced(left[i].0, result),
                next.0,
                next.1,
                next.2,
                rpk,
            )
        }),
{
    let n = original.len() as int;
    let last = fold_ops(original, ops).0 as int;
    let built = fold_ops(original, ops).1;
    let o = left[i].0 as int;
    let y = left[i].1;
    lemma_pos_mono(left, left.len() as int, left.len() as int);
    lemma_pos_mono(right, right.len() as int, right.len() as int);
    if i + 1 < left.len() {
        lemma_orders_sorted(left, n, i, i + 1);
    }
    if side == 1 {
        lemma_orders_sorted(left, n, sidx, i);
    }
    if side == 2 {
        lemma_orders_sorted(right, n, sidx, j - 1);
        assert(left[i].0 + old_len(left[i].1) < right[sidx].0 || right[sidx].0 + old_len(
            right[sidx].1,
        ) < left[i].0 || y is Equal);
    }
    if rc.last_delete is Some {
        lemma_orders_sorted(right, n, rpk, j - 1);
        assert(left[i].0 + old_len(left[i].1) < right[rpk].0 || right[rpk].0 + old_len(
            right[rpk].1,
        ) < left[i].0 || y is Equal);
    }
    lemma_side_step(original, left, i, right, j, rc, lc, lpk, rpk, last, built, side == 1, side == 2);
    let (result, rc2, lc2) = merge_step(y, rc, lc);
    let r = result->0;
    assert(ops + produced(left[i].0, result) =~= ops.push((left[i].0, r)));
    lemma_fold_push(original, ops, (left[i].0, r));
    lemma_changes_take(left, i);
    let next = if !(y is Equal) {
        if changes(right.take(j)).len() > 0 {
            let q = lemma_last_change(right, j);
            lemma_orders_sorted(right, n, q, j - 1);
        }
        assert(changes(left.take(i + 1)) == changes(left.take(i)).push(left[i])) by {
            assert(changes(left.take(i)) + seq![left[i]] =~= changes(left.take(i)).push(left[i]));
        }
        lemma_pos_merge_push_a(changes(left.take(i)), changes(right.take(j)), left[i]);
        lemma_splice_push(original, pos_merge(changes(left.take(i)), changes(right.take(j))), left[i]);
        assert(last as usize == fold_ops(original, ops).0);
        assert(fold_ops(original, ops + produced(left[i].0, result)) == apply_step(original, last as usize, built, r));
        assert(splice_state(original, pos_merge(changes(left.take(i)), changes(right.take(j))).push(left[i])) == (o + old_len(y), built + original.subrange(last, o) + op_text(y)));
        assert(o + old_len(y) <= isize::MAX);
        assert(((o + old_len(y)) as usize) as int == o + old_len(y));
        assert(splice_state(original, pos_merge(changes(left.take(i + 1)), changes(right.take(j)))) == (fold_ops(original, ops + produced(left[i].0, result)).0 as int, fold_ops(original, ops + produced(left[i].0, result)).1));
        (1int, i, if y is Delete { i } else { lpk })
    } else {
        assert(changes(left.take(i + 1)) =~= changes(left.take(i)));
        assert(apply_step(original, fold_ops(original, ops).0, built, r) == (fold_ops(original, ops).0, built));
        assert(splice_state(original, pos_merge(changes(left.take(i + 1)), changes(right.take(j)))) == (fold_ops(original, ops + produced(left[i].0, result)).0 as int, fold_ops(original, ops + produced(left[i].0, result)).1));
        (side, sidx, lpk)
    };
    let ops2 = ops + produced(left[i].0, result);
    let last2 = fold_ops(original, ops2).0 as int;
    let built2 = fold_ops(original, ops2).1;
    assert(splice_state(original, pos_merge(changes(left.take(i + 1)), changes(right.take(j)))) == (
    last2,
    built2,
    ));
    assert(built2.len() - last2 == new_pos(left, i + 1) - old_pos(left, i + 1) + new_pos(right, j)
        - old_pos(right, j));
    assert(0 <= last2 <= n);
    assert(ctx_inv(left, i + 1, lc2, next.2, built2.len() as int, last2, next.0 == 1));
    assert(ctx_inv(right, j, rc2, rpk, built2.len() as int, last2, next.0 == 2));
    next
}

#[verifier::rlimit(80)]
#[verifier::spinoff_prover]
proof fn lemma_take_right(
    original: Seq<char>,
    left: Seq<(usize, OpView)>,
    right: Seq<(usize, OpView)>,
    i: int,
    j: int,
    lc: MergeContextView,
    rc: MergeContextView,
    ops: Seq<(usize, OpView)>,
    side: int,
    sidx: int,
    lpk: int,
    rpk: int,
) -> (next: (int, int, int))
    requires
        apart_inv(original, left, right, i, j, lc, rc, ops, side, sidx, lpk, rpk),
        j < right.len(),
        i == left.len() || left[i].0 >= right[j].0,
    ensures
        ({
            let (result, lc2, rc2) = merge_step(right[j].1, lc, rc);
            apart_inv(
                original,
                left,
                right,
                i,
                j + 1,
                lc2,
                rc2,
                ops + produced(right[j].0, result),
                next.0,
                next.1,
                lpk,
                next.2,
            )
        }),
{
    let n = original.len() as int;
    let last = fold_ops(original, ops).0 as int;
    let built = fold_ops(original, ops).1;
    let o = right[j].0 as int;
    let y = right[j].1;
    lemma_pos_mono(left, left.len() as int, left.len() as int);
    lemma_pos_mono(right, right.len() as int, right.len() as int);
    if j + 1 < right.len() {
        lemma_orders_sorted(right, n, j, j + 1);
    }
    if side == 2 {
        lemma_orders_sorted(right, n, sidx, j);
    }
    if side == 1 {
        lemma_orders_sorted(left, n, sidx, i - 1);
        assert(left[sidx].0 + old_len(left[sidx].1) < right[j].0 || right[j].0 + old_len(
            right[j].1,
        ) < left[sidx].0 || y is Equal);
    }
    if lc.last_delete is Some {
        lemma_orders_sorted(left, n, lpk, i - 1);
        assert(left[lpk].0 + old_len(left[lpk].1) < right[j].0 || right[j].0 + old_len(
            right[j].1,
        ) < left[lpk].0 || y is Equal);
    }
    lemma_side_step(original, right, j, left, i, lc, rc, rpk, lpk, last, built, side == 2, side == 1);
    let (result, lc2, rc2) = merge_step(y, lc, rc);
    let r = result->0;
    assert(ops + produced(right[j].0, result) =~= ops.push((right[j].0, r)));
    lemma_fold_push(original, ops, (right[j].0, r));
    lemma_changes_take(right, j);
    let next = if !(y is Equal) {
        if changes(left.take(i)).len() > 0 {
            let q = lemma_last_change(left, i);
            lemma_orders_sorted(left, n, q, i - 1);
        }
        assert(changes(right.take(j + 1)) == changes(right.take(j)).push(right[j])) by {
            assert(changes(right.take(j)) + seq![right[j]] =~= changes(right.take(j)).push(right[j]));
        }
        lemma_pos_merge_push_b(changes(left.take(i)), changes(right.take(j)), right[j]);
        lemma_splice_push(original, pos_merge(changes(left.take(i)), changes(right.take(j))), right[j]);
        assert(last as usize == fold_ops(original, ops).0);
        assert(fold_ops(original, ops + produced(right[j].0, result)) == apply_step(original, last as usize, built, r));
        assert(splice_state(original, pos_merge(changes(left.take(i)), changes(right.take(j))).push(right[j])) == (o + old_len(y), built + original.subrange(last, o) + op_text(y)));
        assert(o + old_len(y) <= isize::MAX);
        assert(((o + old_len(y)) as usize) as int == o + old_len(y));
        assert(splice_state(original, pos_merge(changes(left.take(i)), changes(right.take(j + 1)))) == (fold_ops(original, ops + produced(right[j].0, result)).0 as int, fold_ops(original, ops + produced(right[j].0, result)).1));
        (2int, j, if y is Delete { j } else { rpk })
    } else {
        assert(changes(right.take(j + 1)) =~= changes(right.take(j)));
        assert(apply_step(original, fold_ops(original, ops).0, built, r) == (fold_ops(original, ops).0, built));
        assert(splice_state(original, pos_merge(changes(left.take(i)), changes(right.take(j + 1)))) == (fold_ops(original, ops + produced(right[j].0, result)).0 as int, fold_ops(original, ops + produced(right[j].0, result)).1));
        (side, sidx, rpk)
    };
    let ops2 = ops + produced(right[j].0, result);
    let last2 = fold_ops(original, ops2).0 as int;
    let built2 = fold_ops(original, ops2).1;
    assert(splice_state(original, pos_merge(changes(left.take(i)), changes(right.take(j + 1)))) == (
    last2,
    built2,
    ));
    assert(built2.len() - last2 == new_pos(left, i) - old_pos(left, i) + new_pos(right, j + 1)
        - old_pos(right, j + 1));
    assert(0 <= last2 <= n);
    assert(ctx_inv(left, i, lc2, lpk, built2.len() as int, last2, next.0 == 1));
    assert(ctx_inv(right, j + 1, rc2, next.2, built2.len() as int, last2, next.0 == 2));
    next
}

proof fn lemma_merge_apart_from(
    original: Seq<char>,
    left: Seq<(usize, OpView)>,
    right: Seq<(usize, OpView)>,
    left_cursors: Seq<CursorPosition>,
    right_cursors: Seq<CursorPosition>,
    i: int,
    j: int,
    li: int,
    ri: int,
    lc: MergeContextView,
    rc: MergeContextView,
    ops: Seq<(usize, OpView)>,
    cursors: Seq<CursorPosition>,
    side: int,
    sidx: int,
    lpk: int,
    rpk: int,
)
    requires
        apart_inv(original, left, right, i, j, lc, rc, ops, side, sidx, lpk, rpk),
    ensures
        applied(
            original,
            merge_edits(left, right, left_cursors, right_cursors, i, j, li, ri, lc, rc, ops, cursors).0,
        ) == spliced(original, pos_merge(changes(left), changes(right))),
    decreases left.len() - i + right.len() - j,
{
    if i == left.len() && j == right.len() {
        lemma_merge_edits_done(left, right, left_cursors, right_cursors, li, ri, lc, rc, ops, cursors);
        assert(left.take(i) =~= left);
        assert(right.take(j) =~= right);
    } else if i < left.len() && (j == right.len() || left[i].0 < right[j].0) {
        lemma_merge_edits_left(left, right, left_cursors, right_cursors, i, j, li, ri, lc, rc, ops, cursors);
        let next = lemma_take_left(original, left, right, i, j, lc, rc, ops, side, sidx, lpk, rpk);
        let (result, rc2, lc2) = merge_step(left[i].1, rc, lc);
        let li2 = carried_end(left_cursors, li, left[i].1, result);
        lemma_merge_apart_from(
            original,
            left,
            right,
            left_cursors,
            right_cursors,
            i + 1,
            j,
            li2,
            ri,
            lc2,
            rc2,
            ops + produced(left[i].0, result),
            cursors + carried(left_cursors, li, li2, left[i].1, result),
            next.0,
            next.1,
            next.2,
            rpk,
        );
    } else {
        lemma_merge_edits_right(left, right, left_cursors, right_cursors, i, j, li, ri, lc, rc, ops, cursors);
        let next = lemma_take_right(original, left, right, i, j, lc, rc, ops, side, sidx, lpk, rpk);
        let (result, lc2, rc2) = merge_step(right[j].1, lc, rc);
        let ri2 = carried_end(right_cursors, ri, right[j].1, result);
        lemma_merge_apart_from(
            original,
            left,
            right,
            left_cursors,
            right_cursors,
            i,
            j + 1,
            li,
            ri2,
            lc2,
            rc2,
            ops + produced(right[j].0, result),
            cursors + carried(right_cursors, ri, ri2, right[j].1, result),
            next.0,
            next.1,
            lpk,
            next.2,
        );
    }
}

/// Merging two edits `left` and `right` of `original` whose changes lie
/// apart makes every change of both sides: the merged text is `original`
/// with the changes of both spliced in, each replacing what it covers of
/// the original text with what it inserts.
pub proof fn lemma_separated_merge(
    original: Seq<char>,
    left: Seq<(usize, OpView)>,
    right: Seq<(usize, OpView)>,
    left_cursors: Seq<CursorPosition>,
    right_cursors: Seq<CursorPosition>,
)
    requires
        edit_of_length(left, original.len() as int),
        edit_of_length(right, original.len() as int),
        separated(left, right),
        original.len() + new_pos(left, left.len() as int) + new_pos(right, right.len() as int)
            <= isize::MAX,
    ensures
        applied(
            original,
            merge_edits(
                left,
                right,
                left_cursors,
                right_cursors,
                0,
                0,
                0,
                0,
                empty_context(),
                empty_context(),
                Seq::empty(),
                Seq::empty(),
            ).0,
        ) == spliced(original, pos_merge(changes(left), changes(right))),
{
    let e: Seq<(usize, OpView)> = Seq::empty();
    assert(left.take(0) =~= e);
    assert(right.take(0) =~= e);
    assert(changes(e) == e);
    assert(pos_merge(e, e) == e);
    assert(fold_ops(original, e) == (0usize, Seq::<char>::empty()));
    assert(apart_inv(original, left, right, 0, 0, empty_context(), empty_context(), e, 0, 0, 0, 0));
    lemma_merge_apart_from(
        original,
        left,
        right,
        left_cursors,
        right_cursors,
        0,
        0,
        0,
        0,
        empty_context(),
        empty_context(),
        e,
        Seq::empty(),
        0,
        0,
        0,
        0,
    );
}

} // verus!
