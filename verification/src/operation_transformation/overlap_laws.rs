//! What merging gives where the operations of the two sides meet: where an
//! operation of one side falls inside a range that the other side deletes,
//! the deleted range goes, and what the one side inserts there, or deletes
//! beyond it, is kept; an insert right after the other side's insert drops
//! what repeats it.
use vstd::prelude::*;

use super::merge_context::{consumed, ctx_wf, is_behind, MergeContextView};
use super::operation::{
    delete_of, len64, merge_step, op_end, op_index, op_len, op_text, op_tokens,
    op_wf, op_with_index, repeated_count, shifted, OpView,
};
use crate::tokenizer::token::{flatten, Token};
use crate::utils::find_common_overlap::{common_overlap, first_overlap_from, lowest_offset, overlaps_at};
use vstd::wrapping::i64_specs;
use vstd::wrapping::usize_specs::wrapping_add;

verus! {

/// `t` after `op` is made at its index: an insert puts its text there, a
/// delete removes its characters from there, an equal stretch changes
/// nothing.
pub open spec fn text_after(op: OpView, t: Seq<char>) -> Seq<char> {
    match op {
        OpView::Insert { index, .. } => t.take(index as int) + op_text(op) + t.skip(index as int),
        OpView::Delete { index, count, .. } => t.take(index as int) + t.skip(index + count),
        OpView::Equal { .. } => t,
    }
}

/// `t` after `op`, if there is one, is made.
pub open spec fn opt_text_after(op: Option<OpView>, t: Seq<char>) -> Seq<char> {
    match op {
        Some(o) => text_after(o, t),
        None => t,
    }
}

/// The other side's delete that `a` holds back, which `t` still contains,
/// removes at least one character of `t` and starts at most `start` and
/// ends after `start`.
pub open spec fn pending_delete_over(a: MergeContextView, start: int, t: Seq<char>) -> bool {
    &&& a.last_delete matches Some(d)
    &&& d is Delete
    &&& op_len(d) > 0
    &&& op_index(d) <= start < op_index(d) + op_len(d) <= t.len()
}

/// The step that merges an insert inside the other side's held-back delete:
/// the insert moves to the delete's start, and what is left of the delete
/// stays held back behind the inserted text.
proof fn lemma_insert_step_within(op: OpView, a: MergeContextView, p: MergeContextView, t: Seq<char>)
    requires
        op is Insert,
        op_len(op) > 0,
        op_wf(op),
        a.last_insert is None,
        pending_delete_over(a, op_index(op) + a.shift, t),
        op_index(op) <= isize::MAX,
        t.len() <= isize::MAX,
    ensures
        ({
            let d = a.last_delete->Some_0;
            let delta = op_index(op) + a.shift - op_index(d);
            &&& merge_step(op, a, p).0 == Some(op_with_index(op, op_index(d)))
            &&& t.len() + op_len(op) <= isize::MAX ==> merge_step(op, a, p).1 == MergeContextView {
                last_delete: delete_of((op_index(d) + op_len(op)) as usize, (op_len(d) - delta) as usize),
                shift: (a.shift - delta) as i64,
                ..a
            }
        }),
{
    let d = a.last_delete->Some_0;
    let s = (op_index(op) + a.shift) as usize;
    assert(i64_specs::wrapping_add(op_index(op) as i64, a.shift) == s as i64);
    assert(!is_behind(a, op_index(op)));
    assert(consumed(a, op_index(op)) == a);
    assert(shifted(op_index(op), a.shift) == s);
    let text = op_tokens(op);
    assert(repeated_count(a, s, text) == 0);
    assert(text.skip(0) =~= text);
    let moved = op_with_index(op, op_index(d));
    if t.len() + op_len(op) <= isize::MAX {
        assert(op_end(moved) == op_index(d) + op_len(op) - 1);
    }
}

/// An insert of one side whose place, moved by the other side's shift,
/// lies inside the range that the other side's held-back delete removes
/// ends up where that range was: made after the delete, the merged insert
/// leaves the text before the range, the inserted text, and the text after
/// the range.
pub proof fn lemma_insert_within_delete(op: OpView, a: MergeContextView, p: MergeContextView, t: Seq<char>)
    requires
        op is Insert,
        op_len(op) > 0,
        op_wf(op),
        ctx_wf(a),
        ctx_wf(p),
        a.last_insert is None,
        pending_delete_over(a, op_index(op) + a.shift, t),
        op_index(op) <= isize::MAX,
        t.len() <= isize::MAX,
    ensures
        ({
            let d = a.last_delete->Some_0;
            let r = merge_step(op, a, p).0;
            &&& r is Some
            &&& opt_text_after(r, text_after(d, t)) == t.take(op_index(d) as int) + op_text(op) + t.skip(
                op_index(d) + op_len(d),
            )
        }),
{
    let d = a.last_delete->Some_0;
    let di = op_index(d) as int;
    let dc = op_len(d);
    lemma_insert_step_within(op, a, p, t);
    let u = t.take(di) + t.skip(di + dc);
    assert(text_after(d, t) == u);
    assert(u.take(di) =~= t.take(di));
    assert(u.skip(di) =~= t.skip(di + dc));
}

/// Two inserts of one side, one after the other, whose places both lie
/// inside the range that the other side's held-back delete removes: merged
/// one after the other, both end up where that range was, in their order.
/// `op2` lies `op_index(op2) - op_index(op1) - op_len(op1)` characters
/// after the text that `op1` inserts.
pub proof fn lemma_inserts_within_delete(
    op1: OpView,
    op2: OpView,
    a: MergeContextView,
    p: MergeContextView,
    t: Seq<char>,
)
    requires
        op1 is Insert,
        op2 is Insert,
        op_len(op1) > 0,
        op_len(op2) > 0,
        op_wf(op1),
        op_wf(op2),
        ctx_wf(a),
        ctx_wf(p),
        a.last_insert is None,
        op_index(op1) + op_len(op1) <= op_index(op2),
        pending_delete_over(a, op_index(op1) + a.shift, t),
        pending_delete_over(a, op_index(op2) - op_len(op1) + a.shift, t),
        op_index(op2) <= isize::MAX,
        t.len() + op_len(op1) <= isize::MAX,
    ensures
        ({
            let d = a.last_delete->Some_0;
            let (r1, a1, p1) = merge_step(op1, a, p);
            let r2 = merge_step(op2, a1, p1).0;
            &&& r1 is Some
            &&& r2 is Some
            &&& opt_text_after(r2, opt_text_after(r1, text_after(d, t))) == t.take(op_index(d) as int)
                + op_text(op1) + op_text(op2) + t.skip(op_index(d) + op_len(d))
        }),
{
    let d = a.last_delete->Some_0;
    let di = op_index(d) as int;
    let dc = op_len(d);
    let l1 = op_len(op1);
    let (r1, a1, p1) = merge_step(op1, a, p);
    lemma_insert_step_within(op1, a, p, t);
    let s1 = op_index(op1) + a.shift;
    let moved1 = op_with_index(op1, op_index(d));
    let delta = s1 - di;
    let a1_pending = MergeContextView {
        last_delete: Some(OpView::Delete { index: (di + l1) as usize, count: (dc - delta) as usize, deleted_text: None }),
        ..a1
    };
    assert(a1 == a1_pending);
    let t1 = t.take(di) + op_text(op1) + t.skip(di);
    assert(t1.len() == t.len() + l1);
    assert(t1.take(di + l1) =~= t.take(di) + op_text(op1));
    assert(pending_delete_over(a1, op_index(op2) + a1.shift, t1));
    lemma_insert_step_within(op2, a1, p1, t1);
    let moved2 = op_with_index(op2, (di + l1) as usize);
    let u = t.take(di) + t.skip(di + dc);
    assert(text_after(d, t) == u);
    let v = t.take(di) + op_text(op1) + t.skip(di + dc);
    assert(text_after(moved1, u) == v);
    assert(v.take(di + l1) =~= t.take(di) + op_text(op1));
    assert(v.skip(di + l1) =~= t.skip(di + dc));
    assert(text_after(moved2, v) =~= t.take(di) + op_text(op1) + op_text(op2) + t.skip(di + dc));
}

/// The step that merges a delete starting inside the other side's held-back
/// delete: what reaches past that delete is deleted from its start, and
/// what is left of it after this delete stays held back.
proof fn lemma_delete_step_within(op: OpView, a: MergeContextView, p: MergeContextView, t: Seq<char>)
    requires
        op is Delete,
        op_len(op) > 0,
        pending_delete_over(a, op_index(op) + a.shift, t),
        op_index(op) + a.shift + op_len(op) <= t.len(),
        op_index(op) <= isize::MAX,
        t.len() <= isize::MAX,
    ensures
        ({
            let d = a.last_delete->Some_0;
            let start = op_index(op) + a.shift;
            let end = start + op_len(op);
            let d_end = op_index(d) + op_len(d);
            &&& merge_step(op, a, p).0 == delete_of(
                op_index(d),
                (if end <= d_end { 0 } else { end - d_end }) as usize,
            )
            &&& merge_step(op, a, p).1 == MergeContextView {
                last_delete: delete_of(op_index(d), (if end <= d_end { d_end - end } else { 0 }) as usize),
                shift: (a.shift - (start - op_index(d))) as i64,
                ..a
            }
        }),
{
    let d = a.last_delete->Some_0;
    let di = op_index(d) as int;
    let dc = op_len(d);
    let s = (op_index(op) + a.shift) as usize;
    let oc = op_len(op);
    assert(i64_specs::wrapping_add(op_index(op) as i64, a.shift) == s as i64);
    assert(!is_behind(a, op_index(op)));
    assert(consumed(a, op_index(op)) == a);
    assert(shifted(op_index(op), a.shift) == s);
    let moved = op_with_index(op, s);
    assert(op_end(moved) == s + oc - 1);
    assert(op_end(d) == di + dc - 1);
}

/// A delete of one side that starts, moved by the other side's shift,
/// inside the range that the other side's held-back delete removes: made
/// after that delete, the merged result removes the union of both ranges,
/// so that the part of this delete that reaches past the other one goes
/// too.
pub proof fn lemma_delete_within_delete(op: OpView, a: MergeContextView, p: MergeContextView, t: Seq<char>)
    requires
        op is Delete,
        op_len(op) > 0,
        op_wf(op),
        ctx_wf(a),
        ctx_wf(p),
        pending_delete_over(a, op_index(op) + a.shift, t),
        op_index(op) + a.shift + op_len(op) <= t.len(),
        op_index(op) <= isize::MAX,
        t.len() <= isize::MAX,
    ensures
        ({
            let d = a.last_delete->Some_0;
            let end = op_index(op) + a.shift + op_len(op);
            let union_end = if end < op_index(d) + op_len(d) {
                op_index(d) + op_len(d)
            } else {
                end
            };
            opt_text_after(merge_step(op, a, p).0, text_after(d, t)) == t.take(op_index(d) as int) + t.skip(
                union_end,
            )
        }),
{
    let d = a.last_delete->Some_0;
    let di = op_index(d) as int;
    let dc = op_len(d);
    let e = op_index(op) + a.shift + op_len(op);
    lemma_delete_step_within(op, a, p, t);
    let u = t.take(di) + t.skip(di + dc);
    assert(text_after(d, t) == u);
    if e > di + dc {
        assert(u.take(di) =~= t.take(di));
        assert(u.skip(di + (e - di - dc)) =~= t.skip(e));
    }
}

/// Two deletes of one side, one after the other, that both start inside
/// the range that the other side's held-back delete removes: merged one
/// after the other and made after that delete, they leave the text with
/// the union of all three ranges removed. `op2` starts
/// `op_index(op2) - op_index(op1)` characters after the end of `op1`.
pub proof fn lemma_deletes_within_delete(
    op1: OpView,
    op2: OpView,
    a: MergeContextView,
    p: MergeContextView,
    t: Seq<char>,
)
    requires
        op1 is Delete,
        op2 is Delete,
        op_len(op1) > 0,
        op_len(op2) > 0,
        op_wf(op1),
        op_wf(op2),
        ctx_wf(a),
        ctx_wf(p),
        op_index(op1) <= op_index(op2),
        pending_delete_over(a, op_index(op1) + a.shift, t),
        pending_delete_over(a, op_index(op2) + op_len(op1) + a.shift, t),
        op_index(op2) + op_len(op1) + a.shift + op_len(op2) <= t.len(),
        op_index(op2) <= isize::MAX,
        t.len() <= isize::MAX,
    ensures
        ({
            let d = a.last_delete->Some_0;
            let (r1, a1, p1) = merge_step(op1, a, p);
            let r2 = merge_step(op2, a1, p1).0;
            let end = op_index(op2) + op_len(op1) + a.shift + op_len(op2);
            let union_end = if end < op_index(d) + op_len(d) {
                op_index(d) + op_len(d)
            } else {
                end
            };
            opt_text_after(r2, opt_text_after(r1, text_after(d, t))) == t.take(op_index(d) as int)
                + t.skip(union_end)
        }),
{
    let d = a.last_delete->Some_0;
    let di = op_index(d) as int;
    let dc = op_len(d);
    let s1 = op_index(op1) + a.shift;
    let e1 = s1 + op_len(op1);
    let (r1, a1, p1) = merge_step(op1, a, p);
    lemma_delete_step_within(op1, a, p, t);
    assert(r1 is None);
    let t2 = t.take(di) + t.skip(e1);
    let d2 = OpView::Delete { index: di as usize, count: (di + dc - e1) as usize, deleted_text: None };
    assert(a1.last_delete == Some(d2));
    assert(t2.take(di) =~= t.take(di));
    assert(t2.skip(di + (di + dc - e1)) =~= t.skip(di + dc));
    assert(text_after(d2, t2) =~= text_after(d, t));
    lemma_delete_within_delete(op2, a1, p1, t2);
    let end = op_index(op2) + op_len(op1) + a.shift + op_len(op2);
    let k2 = if end < di + dc { di + dc } else { end };
    assert(t2.skip(k2 - e1 + di) =~= t.skip(k2));
}

/// The step that merges an operation lying past the other side's held-back
/// delete: the delete is dropped from the context and its length taken off
/// the shift, so that the operation lands that much further back.
proof fn lemma_step_past(op: OpView, a: MergeContextView, p: MergeContextView)
    requires
        op_len(op) > 0,
        a.last_insert is None,
        a.last_delete matches Some(d) && d is Delete && op_len(d) > 0 && op_index(d) + op_len(d)
            <= op_index(op) + a.shift,
        op_index(op) + a.shift <= isize::MAX,
        op_index(op) <= isize::MAX,
    ensures
        merge_step(op, a, p).0 == Some(
            op_with_index(op, (op_index(op) + a.shift - op_len(a.last_delete->Some_0)) as usize),
        ),
{
    let d = a.last_delete->Some_0;
    let dc = op_len(d);
    let s = (op_index(op) + a.shift) as usize;
    assert(i64_specs::wrapping_add(op_index(op) as i64, a.shift) == s as i64);
    assert(is_behind(a, op_index(op)));
    let a1 = consumed(a, op_index(op));
    assert(a1.last_delete is None && a1.last_insert is None);
    assert(a1.shift == a.shift - dc);
    assert(shifted(op_index(op), a1.shift) == s - dc);
    if op is Insert {
        assert(repeated_count(a1, (s - dc) as usize, op_tokens(op)) == 0);
        assert(op_tokens(op).skip(0) =~= op_tokens(op));
    }
}

/// An operation of one side whose place, moved by the other side's shift,
/// lies at or after the end of the other side's held-back delete: merged and
/// made after that delete, it leaves the same text as the operation made at
/// its moved place before the delete.
pub proof fn lemma_past_delete(op: OpView, a: MergeContextView, p: MergeContextView, t: Seq<char>)
    requires
        op_len(op) > 0,
        op_wf(op),
        ctx_wf(a),
        ctx_wf(p),
        a.last_insert is None,
        a.last_delete matches Some(d) && d is Delete && op_len(d) > 0 && op_index(d) + op_len(d)
            <= op_index(op) + a.shift,
        op_index(op) + a.shift <= t.len(),
        op is Delete ==> op_index(op) + a.shift + op_len(op) <= t.len(),
        op_index(op) <= isize::MAX,
        t.len() <= isize::MAX,
    ensures
        ({
            let d = a.last_delete->Some_0;
            let r = merge_step(op, a, p).0;
            &&& r is Some
            &&& opt_text_after(r, text_after(d, t)) == text_after(
                d,
                text_after(op_with_index(op, (op_index(op) + a.shift) as usize), t),
            )
        }),
{
    let d = a.last_delete->Some_0;
    let s = (op_index(op) + a.shift) as usize;
    lemma_step_past(op, a, p);
    lemma_made_past(op, d, t, s);
}

/// Making `op` at `index - count` after `d` removed `count` characters
/// from `start`, which ends at or before `index`, leaves the same text as
/// making `op` at `index` first and `d` after it.
proof fn lemma_made_past(op: OpView, d: OpView, t: Seq<char>, index: usize)
    requires
        d is Delete,
        op_index(d) + op_len(d) <= index <= t.len(),
        op is Delete ==> index + op_len(op) <= t.len(),
    ensures
        text_after(op_with_index(op, (index - op_len(d)) as usize), text_after(d, t)) == text_after(
            d,
            text_after(op_with_index(op, index), t),
        ),
{
    let di = op_index(d) as int;
    let dc = op_len(d);
    let s = index as int;
    let u = t.take(di) + t.skip(di + dc);
    let moved = op_with_index(op, (s - dc) as usize);
    let w = text_after(op_with_index(op, index), t);
    let mid = t.take(di) + t.subrange(di + dc, s);
    assert(u.take(s - dc) =~= mid);
    if op is Insert {
        assert(u.skip(s - dc) =~= t.skip(s));
        assert(w.take(di) =~= t.take(di));
        assert(w.skip(di + dc) =~= t.subrange(di + dc, s) + op_text(op) + t.skip(s));
        assert(text_after(moved, u) =~= text_after(d, w));
    } else if op is Delete {
        let c = op_len(op);
        assert(u.skip(s - dc + c) =~= t.skip(s + c));
        assert(w.take(di) =~= t.take(di));
        assert(w.skip(di + dc) =~= t.subrange(di + dc, s) + t.skip(s + c));
        assert(text_after(moved, u) =~= text_after(d, w));
    }
}

/// The last `n` tokens of `previous` have the normalised forms of the first
/// `n` tokens of `text`.
pub open spec fn repeats(previous: Seq<Token>, text: Seq<Token>, n: int) -> bool {
    &&& 0 <= n <= previous.len()
    &&& n <= text.len()
    &&& forall|k: int| 0 <= k < n ==> (#[trigger] previous[previous.len() - n + k]).norm() == text[k].norm()
}

/// No offset from `from` up to the first overlap found from there is an
/// overlap, and the one found is one, or the length of `old`.
proof fn lemma_first_overlap_from(old: Seq<Token>, new: Seq<Token>, from: int)
    requires
        0 <= from <= old.len(),
    ensures
        from <= first_overlap_from(old, new, from) <= old.len(),
        first_overlap_from(old, new, from) == old.len() || overlaps_at(
            old,
            new,
            first_overlap_from(old, new, from),
        ),
        forall|o: int| from <= o < first_overlap_from(old, new, from) ==> !overlaps_at(old, new, o),
    decreases old.len() - from,
{
    if from < old.len() && !overlaps_at(old, new, from) {
        lemma_first_overlap_from(old, new, from + 1);
    }
}

/// An insert of one side that starts, moved by the other side's shift,
/// right where the other side's last insert ends, with no delete of the
/// other side held back: its longest run of leading tokens that repeats the
/// end of the other side's insert is dropped, and the rest is inserted at
/// its moved place, or nothing is when no character is left.
pub proof fn lemma_repeated_tokens_dropped(op: OpView, a: MergeContextView, p: MergeContextView)
    requires
        op is Insert,
        op_wf(op),
        a.last_delete is None,
        a.last_insert matches Some(previous) && previous is Insert && op_len(previous) > 0 && op_index(
            previous,
        ) + op_len(previous) == op_index(op) + a.shift,
        op_index(op) <= isize::MAX,
        op_index(op) + a.shift <= isize::MAX,
    ensures
        ({
            let previous = op_tokens(a.last_insert->Some_0);
            let text = op_tokens(op);
            let r = merge_step(op, a, p).0;
            exists|n: int|
                #![trigger repeats(previous, text, n)]
                repeats(previous, text, n) && (forall|m: int| n < m && repeats(previous, text, m) ==> false) && (
                flatten(text.skip(n)).len() == 0 ==> r is None) && (flatten(text.skip(n)).len() > 0 ==> r
                == Some(
                    OpView::Insert {
                        index: (op_index(op) + a.shift) as usize,
                        text: text.skip(n),
                    },
                ))
        }),
{
    let prev_op = a.last_insert->Some_0;
    let previous = op_tokens(prev_op);
    let text = op_tokens(op);
    let s = (op_index(op) + a.shift) as usize;
    assert(i64_specs::wrapping_add(op_index(op) as i64, a.shift) == s as i64);
    assert(consumed(a, op_index(op)) == a);
    assert(shifted(op_index(op), a.shift) == s);
    assert(wrapping_add(op_end(prev_op), 1) == s);
    let lo = lowest_offset(previous, text);
    lemma_first_overlap_from(previous, text, lo);
    let o = common_overlap(previous, text);
    let n = previous.len() - o;
    assert(repeated_count(a, s, text) == n);
    assert(repeats(previous, text, n)) by {
        if o < previous.len() {
            assert forall|k: int| 0 <= k < n implies (#[trigger] previous[previous.len() - n + k]).norm()
                == text[k].norm() by {
                assert(previous[o + k] == previous[previous.len() - n + k]);
            }
        }
    }
    assert forall|m: int| n < m && repeats(previous, text, m) implies false by {
        let om = previous.len() - m;
        assert(lo <= om < o);
        assert(overlaps_at(previous, text, om)) by {
            assert forall|k: int| 0 <= k < previous.len() - om && k < text.len() implies (#[trigger] previous[
                om + k]).norm() == text[k].norm() by {
                assert(previous[previous.len() - m + k] == previous[om + k]);
            }
        }
    }
    if n == 0 {
        assert(text.skip(0) =~= text);
    }
    assert(repeats(previous, text, n));
}

/// Both sides insert the same tokens at the same place, with no delete of
/// either side held back and no insert of the other side before the first
/// one: the insert merged first lands at its moved place, and the other
/// side's, merged next against what the first one left, adds nothing, so
/// the text appears once.
pub proof fn lemma_same_insert_once(
    op1: OpView,
    op2: OpView,
    a: MergeContextView,
    p: MergeContextView,
)
    requires
        op1 is Insert,
        op2 is Insert,
        op_len(op1) > 0,
        op_wf(op1),
        op_tokens(op1) == op_tokens(op2),
        a.last_delete is None,
        a.last_insert is None,
        p.last_delete is None,
        op_index(op1) + a.shift == op_index(op2) + p.shift,
        0 <= op_index(op1) + a.shift,
        op_index(op1) + a.shift + op_len(op1) <= isize::MAX,
        op_index(op1) <= isize::MAX,
        op_index(op2) <= isize::MAX,
        p.shift + op_len(op1) <= i64::MAX,
    ensures
        ({
            let (r1, a1, p1) = merge_step(op1, a, p);
            &&& r1 == Some(op_with_index(op1, (op_index(op1) + a.shift) as usize))
            &&& merge_step(op2, p1, a1).0 is None
        }),
{
    let text = op_tokens(op1);
    let s = (op_index(op1) + a.shift) as usize;
    assert(i64_specs::wrapping_add(op_index(op1) as i64, a.shift) == s as i64);
    assert(consumed(a, op_index(op1)) == a);
    assert(shifted(op_index(op1), a.shift) == s);
    assert(repeated_count(a, s, text) == 0);
    assert(text.skip(0) =~= text);
    let moved = op_with_index(op1, s);
    let (r1, a1, p1) = merge_step(op1, a, p);
    assert(p1.last_insert == Some(moved));
    assert(p1.last_delete is None);
    assert(len64(moved) == op_len(op1));
    assert(p1.shift == p.shift + op_len(op1));
    let s2 = (op_index(op2) + p1.shift) as usize;
    assert(s2 == s + op_len(op1));
    assert(i64_specs::wrapping_add(op_index(op2) as i64, p1.shift) == s2 as i64);
    assert(consumed(p1, op_index(op2)) == p1);
    assert(shifted(op_index(op2), p1.shift) == s2);
    assert(wrapping_add(op_end(moved), 1) == s2);
    lemma_first_overlap_from(text, text, 0);
    assert(overlaps_at(text, text, 0));
    assert(common_overlap(text, text) == 0);
    assert(repeated_count(p1, s2, text) == text.len());
    assert(text.skip(text.len() as int) =~= Seq::<Token>::empty());
    assert(flatten(Seq::<Token>::empty()) =~= Seq::<char>::empty());
}

/// The step that merges a delete with nothing of the other side held back:
/// the delete lands at its moved place and is held back for the other
/// side's next operations, the shift left as it is.
proof fn lemma_delete_held_back(op: OpView, a: MergeContextView, p: MergeContextView)
    requires
        op is Delete,
        a.last_delete is None,
        p.last_delete is None,
        0 <= op_index(op) + a.shift <= isize::MAX,
        op_index(op) <= isize::MAX,
    ensures
        ({
            let moved = op_with_index(op, (op_index(op) + a.shift) as usize);
            let (r, a1, p1) = merge_step(op, a, p);
            &&& r == Some(moved)
            &&& p1 == MergeContextView { last_delete: Some(moved), ..p }
            &&& a1 == a
        }),
{
    let s = (op_index(op) + a.shift) as usize;
    assert(i64_specs::wrapping_add(op_index(op) as i64, a.shift) == s as i64);
    assert(consumed(a, op_index(op)) == a);
    assert(shifted(op_index(op), a.shift) == s);
}

/// One side deletes a range, and the other side deletes a range that
/// starts inside it: merged one after the other from where neither holds
/// anything back, the two merged deletes remove the union of both ranges.
pub proof fn lemma_overlapping_deletes(
    op1: OpView,
    op2: OpView,
    a: MergeContextView,
    p: MergeContextView,
    t: Seq<char>,
)
    requires
        op1 is Delete,
        op2 is Delete,
        op_len(op1) > 0,
        op_len(op2) > 0,
        op_wf(op1),
        op_wf(op2),
        ctx_wf(a),
        ctx_wf(p),
        a.last_delete is None,
        p.last_delete is None,
        op_index(op1) + a.shift <= op_index(op2) + p.shift < op_index(op1) + a.shift + op_len(op1),
        0 <= op_index(op1) + a.shift,
        op_index(op1) + a.shift + op_len(op1) <= t.len(),
        op_index(op2) + p.shift + op_len(op2) <= t.len(),
        op_index(op1) <= isize::MAX,
        op_index(op2) <= isize::MAX,
        t.len() <= isize::MAX,
    ensures
        ({
            let (r1, a1, p1) = merge_step(op1, a, p);
            let r2 = merge_step(op2, p1, a1).0;
            let end1 = op_index(op1) + a.shift + op_len(op1);
            let end2 = op_index(op2) + p.shift + op_len(op2);
            opt_text_after(r2, opt_text_after(r1, t)) == t.take(op_index(op1) + a.shift) + t.skip(
                if end1 < end2 {
                    end2
                } else {
                    end1
                },
            )
        }),
{
    lemma_delete_held_back(op1, a, p);
    let (r1, a1, p1) = merge_step(op1, a, p);
    lemma_delete_within_delete(op2, p1, a1, t);
}

/// One side deletes a range, and the other side inserts inside it:
/// merged one after the other from where neither holds anything back, the
/// insert ends up where the range was, which is gone.
pub proof fn lemma_insert_into_deleted_range(
    op1: OpView,
    op2: OpView,
    a: MergeContextView,
    p: MergeContextView,
    t: Seq<char>,
)
    requires
        op1 is Delete,
        op2 is Insert,
        op_len(op1) > 0,
        op_len(op2) > 0,
        op_wf(op1),
        op_wf(op2),
        ctx_wf(a),
        ctx_wf(p),
        a.last_delete is None,
        p.last_delete is None,
        p.last_insert is None,
        op_index(op1) + a.shift <= op_index(op2) + p.shift < op_index(op1) + a.shift + op_len(op1),
        0 <= op_index(op1) + a.shift,
        op_index(op1) + a.shift + op_len(op1) <= t.len(),
        op_index(op1) <= isize::MAX,
        op_index(op2) <= isize::MAX,
        t.len() <= isize::MAX,
    ensures
        ({
            let (r1, a1, p1) = merge_step(op1, a, p);
            let r2 = merge_step(op2, p1, a1).0;
            let start = op_index(op1) + a.shift;
            &&& r1 is Some
            &&& r2 is Some
            &&& opt_text_after(r2, opt_text_after(r1, t)) == t.take(start) + op_text(op2) + t.skip(
                start + op_len(op1),
            )
        }),
{
    lemma_delete_held_back(op1, a, p);
    let (r1, a1, p1) = merge_step(op1, a, p);
    lemma_insert_within_delete(op2, p1, a1, t);
}

/// One side deletes a range, and the other side makes two inserts inside
/// it, one after the other: merged from where neither side holds anything
/// back, both inserts end up where the range was, in their order, and the
/// range is gone. `op3` lies `op_index(op3) - op_index(op2) - op_len(op2)`
/// characters after the text that `op2` inserts.
pub proof fn lemma_inserts_into_deleted_range(
    op1: OpView,
    op2: OpView,
    op3: OpView,
    a: MergeContextView,
    p: MergeContextView,
    t: Seq<char>,
)
    requires
        op1 is Delete,
        op2 is Insert,
        op3 is Insert,
        op_len(op1) > 0,
        op_len(op2) > 0,
        op_len(op3) > 0,
        op_wf(op1),
        op_wf(op2),
        op_wf(op3),
        ctx_wf(a),
        ctx_wf(p),
        a.last_delete is None,
        p.last_delete is None,
        p.last_insert is None,
        op_index(op2) + op_len(op2) <= op_index(op3),
        op_index(op1) + a.shift <= op_index(op2) + p.shift,
        op_index(op3) - op_len(op2) + p.shift < op_index(op1) + a.shift + op_len(op1),
        0 <= op_index(op1) + a.shift,
        op_index(op1) + a.shift + op_len(op1) <= t.len(),
        op_index(op1) <= isize::MAX,
        op_index(op3) <= isize::MAX,
        t.len() + op_len(op2) <= isize::MAX,
    ensures
        ({
            let (r1, a1, p1) = merge_step(op1, a, p);
            let (r2, p2, a2) = merge_step(op2, p1, a1);
            let r3 = merge_step(op3, p2, a2).0;
            let start = op_index(op1) + a.shift;
            opt_text_after(r3, opt_text_after(r2, opt_text_after(r1, t))) == t.take(start) + op_text(op2)
                + op_text(op3) + t.skip(start + op_len(op1))
        }),
{
    lemma_delete_held_back(op1, a, p);
    let (r1, a1, p1) = merge_step(op1, a, p);
    lemma_inserts_within_delete(op2, op3, p1, a1, t);
}

} // verus!
