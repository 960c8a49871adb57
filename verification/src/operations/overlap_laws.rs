//! What merging two operation sequences gives where an operation of one
//! side falls inside a range that the other side deletes: the deleted range
//! goes, and what the one side inserts there, or deletes beyond it, is kept.
use vstd::prelude::*;

use super::operation::{delete_of, op_end, op_index, op_len, op_wf, op_with_index, shifted_index, OpView};
use super::operation_sequence::{merge_step, picked_up, ContextView};
use vstd::wrapping::i64_specs;

verus! {

/// `t` after `op` is made at its index: an insert puts its text there, a
/// delete removes its characters from there.
pub open spec fn made(op: OpView, t: Seq<char>) -> Seq<char> {
    match op {
        OpView::Insert { index, text } => t.take(index as int) + text + t.skip(index as int),
        OpView::Delete { index, count, .. } => t.take(index as int) + t.skip(index + count),
    }
}

/// `t` after `op`, if there is one, is made.
pub open spec fn opt_made(op: Option<OpView>, t: Seq<char>) -> Seq<char> {
    match op {
        Some(o) => made(o, t),
        None => t,
    }
}

/// The text that an insert puts in (none for a delete).
pub open spec fn put_text(op: OpView) -> Seq<char> {
    match op {
        OpView::Insert { text, .. } => text,
        OpView::Delete { .. } => Seq::empty(),
    }
}

/// How a merge of two sequences merges one operation `op` of a side, with
/// the other side's context `a` and its own side's context `p`: the other
/// side's delete is dropped once `op` lies past it, `op` is moved by the
/// other side's shift, and then merged.
#[verifier::opaque]
pub open spec fn merged_one(op: OpView, a: ContextView, p: ContextView) -> (
    Option<OpView>,
    ContextView,
    ContextView,
) {
    let a0 = picked_up(a, op_index(op));
    merge_step(op_with_index(op, shifted_index(op_index(op), a0.shift) as usize), a0, p)
}

/// The other side's delete that `a` holds back, which `t` still contains,
/// removes at least one character of `t`, starts at most `start` and ends
/// after `start`.
pub open spec fn held_delete_over(a: ContextView, start: int, t: Seq<char>) -> bool {
    &&& a.last_delete matches Some(d)
    &&& d is Delete
    &&& op_len(d) > 0
    &&& op_index(d) <= start < op_index(d) + op_len(d) <= t.len()
}

/// An operation whose place, moved by the other side's shift, lies inside
/// the other side's held-back delete keeps that delete and is moved by the
/// shift as it stands.
proof fn lemma_not_picked_up(op: OpView, a: ContextView, t: Seq<char>)
    requires
        held_delete_over(a, op_index(op) + a.shift, t),
        op_index(op) <= isize::MAX,
        t.len() <= isize::MAX,
    ensures
        picked_up(a, op_index(op)) == a,
        shifted_index(op_index(op), a.shift) == op_index(op) + a.shift,
{
    let d = a.last_delete->Some_0;
    assert(i64_specs::wrapping_add(op_index(op) as i64, a.shift) == op_index(op) + a.shift);
    assert(op_end(d) == op_index(d) + op_len(d) - 1);
}

/// The step that merges an insert inside the other side's held-back delete:
/// the insert moves to the delete's start, and what is left of the delete
/// stays held back behind the inserted text.
proof fn lemma_insert_in_held_delete(op: OpView, a: ContextView, p: ContextView, t: Seq<char>)
    requires
        op is Insert,
        op_len(op) > 0,
        held_delete_over(a, op_index(op) + a.shift, t),
        op_index(op) <= isize::MAX,
        t.len() <= isize::MAX,
    ensures
        ({
            let d = a.last_delete->Some_0;
            let delta = op_index(op) + a.shift - op_index(d);
            &&& merged_one(op, a, p).0 == Some(op_with_index(op, op_index(d)))
            &&& t.len() + op_len(op) <= isize::MAX ==> merged_one(op, a, p).1 == ContextView {
                last_delete: delete_of((op_index(d) + op_len(op)) as usize, (op_len(d) - delta) as usize),
                shift: (a.shift - delta) as i64,
            }
        }),
{
    reveal(merged_one);
    let d = a.last_delete->Some_0;
    lemma_not_picked_up(op, a, t);
    let moved = op_with_index(op, op_index(d));
    if t.len() + op_len(op) <= isize::MAX {
        assert(op_end(moved) == op_index(d) + op_len(op) - 1);
    }
}

/// An insert of one side whose place, moved by the other side's shift,
/// lies inside the range that the other side's held-back delete removes
/// ends up where that range was: made after the delete, the merged insert
/// leaves the text before the range, the inserted text, and the text after
/// the range.
pub proof fn lemma_sequence_insert_within_delete(op: OpView, a: ContextView, p: ContextView, t: Seq<char>)
    requires
        op is Insert,
        op_len(op) > 0,
        op_wf(op),
        held_delete_over(a, op_index(op) + a.shift, t),
        op_index(op) <= isize::MAX,
        t.len() <= isize::MAX,
    ensures
        ({
            let d = a.last_delete->Some_0;
            let r = merged_one(op, a, p).0;
            &&& r is Some
            &&& opt_made(r, made(d, t)) == t.take(op_index(d) as int) + put_text(op) + t.skip(
                op_index(d) + op_len(d),
            )
        }),
{
    let d = a.last_delete->Some_0;
    let di = op_index(d) as int;
    let dc = op_len(d);
    lemma_insert_in_held_delete(op, a, p, t);
    let u = t.take(di) + t.skip(di + dc);
    assert(made(d, t) == u);
    assert(u.take(di) =~= t.take(di));
    assert(u.skip(di) =~= t.skip(di + dc));
}

/// Two inserts of one side, one after the other, whose places both lie
/// inside the range that the other side's held-back delete removes: merged
/// one after the other, both end up where that range was, in their order.
/// `op2` lies `op_index(op2) - op_index(op1) - op_len(op1)` characters
/// after the text that `op1` inserts.
pub proof fn lemma_sequence_inserts_within_delete(
    op1: OpView,
    op2: OpView,
    a: ContextView,
    p: ContextView,
    t: Seq<char>,
)
    requires
        op1 is Insert,
        op2 is Insert,
        op_len(op1) > 0,
        op_len(op2) > 0,
        op_wf(op1),
        op_wf(op2),
        op_index(op1) + op_len(op1) <= op_index(op2),
        held_delete_over(a, op_index(op1) + a.shift, t),
        held_delete_over(a, op_index(op2) - op_len(op1) + a.shift, t),
        op_index(op2) <= isize::MAX,
        t.len() + op_len(op1) <= isize::MAX,
    ensures
        ({
            let d = a.last_delete->Some_0;
            let (r1, a1, p1) = merged_one(op1, a, p);
            let r2 = merged_one(op2, a1, p1).0;
            &&& r1 is Some
            &&& r2 is Some
            &&& opt_made(r2, opt_made(r1, made(d, t))) == t.take(op_index(d) as int) + put_text(op1)
                + put_text(op2) + t.skip(op_index(d) + op_len(d))
        }),
{
    let d = a.last_delete->Some_0;
    let di = op_index(d) as int;
    let dc = op_len(d);
    let l1 = op_len(op1);
    let (r1, a1, p1) = merged_one(op1, a, p);
    lemma_insert_in_held_delete(op1, a, p, t);
    let s1 = op_index(op1) + a.shift;
    let moved1 = op_with_index(op1, op_index(d));
    let delta = s1 - di;
    let a1_held = ContextView {
        last_delete: Some(OpView::Delete { index: (di + l1) as usize, count: (dc - delta) as usize, deleted_text: None }),
        ..a1
    };
    assert(a1 == a1_held);
    let t1 = t.take(di) + put_text(op1) + t.skip(di);
    assert(t1.len() == t.len() + l1);
    assert(held_delete_over(a1, op_index(op2) + a1.shift, t1));
    lemma_insert_in_held_delete(op2, a1, p1, t1);
    lemma_two_inserts_made(t, d, moved1, op_with_index(op2, (di + l1) as usize));
}

/// Making the delete `d`, then an insert at its start, then another right
/// after the first one's text, leaves the text before `d`'s range, the two
/// inserted texts and the text after the range.
proof fn lemma_two_inserts_made(t: Seq<char>, d: OpView, ins1: OpView, ins2: OpView)
    requires
        d is Delete,
        ins1 is Insert,
        ins2 is Insert,
        op_index(d) + op_len(d) <= t.len(),
        op_index(ins1) == op_index(d),
        op_index(ins2) == op_index(d) + op_len(ins1),
    ensures
        made(ins2, made(ins1, made(d, t))) == t.take(op_index(d) as int) + put_text(ins1) + put_text(ins2)
            + t.skip(op_index(d) + op_len(d)),
{
    let di = op_index(d) as int;
    let dc = op_len(d);
    let l1 = op_len(ins1);
    let u = t.take(di) + t.skip(di + dc);
    assert(made(d, t) == u);
    let v = t.take(di) + put_text(ins1) + t.skip(di + dc);
    assert(u.take(di) =~= t.take(di));
    assert(u.skip(di) =~= t.skip(di + dc));
    assert(made(ins1, u) =~= v);
    assert(v.take(di + l1) =~= t.take(di) + put_text(ins1));
    assert(v.skip(di + l1) =~= t.skip(di + dc));
    assert(made(ins2, v) =~= t.take(di) + put_text(ins1) + put_text(ins2) + t.skip(di + dc));
}

/// The step that merges a delete starting inside the other side's held-back
/// delete: what reaches past that delete is deleted from its start, and
/// what is left of it after this delete stays held back.
proof fn lemma_delete_in_held_delete(op: OpView, a: ContextView, p: ContextView, t: Seq<char>)
    requires
        op is Delete,
        op_len(op) > 0,
        held_delete_over(a, op_index(op) + a.shift, t),
        op_index(op) + a.shift + op_len(op) <= t.len(),
        op_index(op) <= isize::MAX,
        t.len() <= isize::MAX,
    ensures
        ({
            let d = a.last_delete->Some_0;
            let start = op_index(op) + a.shift;
            let end = start + op_len(op);
            let d_end = op_index(d) + op_len(d);
            &&& merged_one(op, a, p).0 == delete_of(
                op_index(d),
                (if end <= d_end { 0 } else { end - d_end }) as usize,
            )
            &&& merged_one(op, a, p).1 == ContextView {
                last_delete: delete_of(op_index(d), (if end <= d_end { d_end - end } else { 0 }) as usize),
                shift: (a.shift - (start - op_index(d))) as i64,
            }
        }),
{
    reveal(merged_one);
    let d = a.last_delete->Some_0;
    lemma_not_picked_up(op, a, t);
    let moved = op_with_index(op, (op_index(op) + a.shift) as usize);
    assert(op_end(moved) == op_index(op) + a.shift + op_len(op) - 1);
    assert(op_end(d) == op_index(d) + op_len(d) - 1);
}

/// A delete of one side that starts, moved by the other side's shift,
/// inside the range that the other side's held-back delete removes: made
/// after that delete, the merged result removes the union of both ranges,
/// so that the part of this delete that reaches past the other one goes
/// too.
pub proof fn lemma_sequence_delete_within_delete(op: OpView, a: ContextView, p: ContextView, t: Seq<char>)
    requires
        op is Delete,
        op_len(op) > 0,
        op_wf(op),
        held_delete_over(a, op_index(op) + a.shift, t),
        op_index(op) + a.shift + op_len(op) <= t.len(),
        op_index(op) <= isize::MAX,
        t.len() <= isize::MAX,
    ensures
        ({
            let d = a.last_delete->Some_0;
            let end = op_index(op) + a.shift + op_len(op);
            let union_end = if end < op_index(d) + op_len(d) {
                op_index(d) + op_len(d)
            } else {
                end
            };
            opt_made(merged_one(op, a, p).0, made(d, t)) == t.take(op_index(d) as int) + t.skip(union_end)
        }),
{
    let d = a.last_delete->Some_0;
    let di = op_index(d) as int;
    let dc = op_len(d);
    let e = op_index(op) + a.shift + op_len(op);
    lemma_delete_in_held_delete(op, a, p, t);
    let u = t.take(di) + t.skip(di + dc);
    assert(made(d, t) == u);
    if e > di + dc {
        assert(u.take(di) =~= t.take(di));
        assert(u.skip(di + (e - di - dc)) =~= t.skip(e));
    }
}

/// Two deletes of one side, one after the other, that both start inside
/// the range that the other side's held-back delete removes: merged one
/// after the other and made after that delete, they leave the text with
/// the union of all three ranges removed. `op2` starts
/// `op_index(op2) - op_index(op1)` characters after the end of `op1`.
pub proof fn lemma_sequence_deletes_within_delete(
    op1: OpView,
    op2: OpView,
    a: ContextView,
    p: ContextView,
    t: Seq<char>,
)
    requires
        op1 is Delete,
        op2 is Delete,
        op_len(op1) > 0,
        op_len(op2) > 0,
        op_wf(op1),
        op_wf(op2),
        op_index(op1) <= op_index(op2),
        held_delete_over(a, op_index(op1) + a.shift, t),
        held_delete_over(a, op_index(op2) + op_len(op1) + a.shift, t),
        op_index(op2) + op_len(op1) + a.shift + op_len(op2) <= t.len(),
        op_index(op2) <= isize::MAX,
        t.len() <= isize::MAX,
    ensures
        ({
            let d = a.last_delete->Some_0;
            let (r1, a1, p1) = merged_one(op1, a, p);
            let r2 = merged_one(op2, a1, p1).0;
            let end = op_index(op2) + op_len(op1) + a.shift + op_len(op2);
            let union_end = if end < op_index(d) + op_len(d) {
                op_index(d) + op_len(d)
            } else {
                end
            };
            opt_made(r2, opt_made(r1, made(d, t))) == t.take(op_index(d) as int) + t.skip(union_end)
        }),
{
    let d = a.last_delete->Some_0;
    let di = op_index(d) as int;
    let dc = op_len(d);
    let s1 = op_index(op1) + a.shift;
    let e1 = s1 + op_len(op1);
    let (r1, a1, p1) = merged_one(op1, a, p);
    lemma_delete_in_held_delete(op1, a, p, t);
    assert(r1 is None);
    let t2 = t.take(di) + t.skip(e1);
    let d2 = OpView::Delete { index: di as usize, count: (di + dc - e1) as usize, deleted_text: None };
    assert(a1.last_delete == Some(d2));
    assert(t2.take(di) =~= t.take(di));
    assert(t2.skip(di + (di + dc - e1)) =~= t.skip(di + dc));
    assert(made(d2, t2) =~= made(d, t));
    lemma_sequence_delete_within_delete(op2, a1, p1, t2);
    let end = op_index(op2) + op_len(op1) + a.shift + op_len(op2);
    let k2 = if end < di + dc { di + dc } else { end };
    assert(t2.skip(k2 - e1 + di) =~= t.skip(k2));
}

/// The step that merges an operation lying past the other side's held-back
/// delete: the delete is dropped from the context and its length taken off
/// the shift, so that the operation lands that much further back.
proof fn lemma_step_past_held(op: OpView, a: ContextView, p: ContextView)
    requires
        a.last_delete matches Some(d) && d is Delete && op_len(d) > 0 && op_index(d) + op_len(d)
            <= op_index(op) + a.shift,
        op_index(op) + a.shift <= isize::MAX,
        op_index(op) <= isize::MAX,
    ensures
        merged_one(op, a, p).0 == Some(
            op_with_index(op, (op_index(op) + a.shift - op_len(a.last_delete->Some_0)) as usize),
        ),
{
    reveal(merged_one);
    let d = a.last_delete->Some_0;
    let s = op_index(op) + a.shift;
    assert(i64_specs::wrapping_add(op_index(op) as i64, a.shift) == s);
    assert(op_end(d) == op_index(d) + op_len(d) - 1);
    let a0 = picked_up(a, op_index(op));
    assert(a0.last_delete is None);
    assert(a0.shift == a.shift - op_len(d));
    assert(shifted_index(op_index(op), a0.shift) == s - op_len(d));
}

/// Making `op` at `index - count` after `d` removed `count` characters
/// from `start`, which ends at or before `index`, leaves the same text as
/// making `op` at `index` first and `d` after it.
proof fn lemma_made_after(op: OpView, d: OpView, t: Seq<char>, index: usize)
    requires
        d is Delete,
        op_index(d) + op_len(d) <= index <= t.len(),
        op is Delete ==> index + op_len(op) <= t.len(),
    ensures
        made(op_with_index(op, (index - op_len(d)) as usize), made(d, t)) == made(
            d,
            made(op_with_index(op, index), t),
        ),
{
    let di = op_index(d) as int;
    let dc = op_len(d);
    let s = index as int;
    let u = t.take(di) + t.skip(di + dc);
    let moved = op_with_index(op, (s - dc) as usize);
    let w = made(op_with_index(op, index), t);
    let mid = t.take(di) + t.subrange(di + dc, s);
    assert(u.take(s - dc) =~= mid);
    if op is Insert {
        assert(u.skip(s - dc) =~= t.skip(s));
        assert(w.take(di) =~= t.take(di));
        assert(w.skip(di + dc) =~= t.subrange(di + dc, s) + put_text(op) + t.skip(s));
        assert(made(moved, u) =~= made(d, w));
    } else {
        let c = op_len(op);
        assert(u.skip(s - dc + c) =~= t.skip(s + c));
        assert(w.take(di) =~= t.take(di));
        assert(w.skip(di + dc) =~= t.subrange(di + dc, s) + t.skip(s + c));
        assert(made(moved, u) =~= made(d, w));
    }
}

/// An operation of one side whose place, moved by the other side's shift,
/// lies at or after the end of the other side's held-back delete: merged and
/// made after that delete, it leaves the same text as the operation made at
/// its moved place before the delete.
pub proof fn lemma_sequence_past_delete(op: OpView, a: ContextView, p: ContextView, t: Seq<char>)
    requires
        op_len(op) > 0,
        op_wf(op),
        a.last_delete matches Some(d) && d is Delete && op_len(d) > 0 && op_index(d) + op_len(d)
            <= op_index(op) + a.shift,
        op_index(op) + a.shift <= t.len(),
        op is Delete ==> op_index(op) + a.shift + op_len(op) <= t.len(),
        op_index(op) <= isize::MAX,
        t.len() <= isize::MAX,
    ensures
        ({
            let d = a.last_delete->Some_0;
            let r = merged_one(op, a, p).0;
            &&& r is Some
            &&& opt_made(r, made(d, t)) == made(
                d,
                made(op_with_index(op, (op_index(op) + a.shift) as usize), t),
            )
        }),
{
    let d = a.last_delete->Some_0;
    lemma_step_past_held(op, a, p);
    lemma_made_after(op, d, t, (op_index(op) + a.shift) as usize);
}

/// The merge of a delete with nothing of the other side held back: the
/// delete lands at its moved place and is held back for the other side's
/// next operations, the shift left as it is.
proof fn lemma_delete_held(op: OpView, a: ContextView, p: ContextView)
    requires
        op is Delete,
        a.last_delete is None,
        p.last_delete is None,
        0 <= op_index(op) + a.shift <= isize::MAX,
        op_index(op) <= isize::MAX,
    ensures
        ({
            let moved = op_with_index(op, (op_index(op) + a.shift) as usize);
            let (r, a1, p1) = merged_one(op, a, p);
            &&& r == Some(moved)
            &&& p1 == ContextView { last_delete: Some(moved), ..p }
            &&& a1 == a
        }),
{
    reveal(merged_one);
    assert(i64_specs::wrapping_add(op_index(op) as i64, a.shift) == op_index(op) + a.shift);
}

/// One side deletes a range, and the other side deletes a range that
/// starts inside it: merged one after the other from where neither holds
/// anything back, the two merged deletes remove the union of both ranges.
pub proof fn lemma_sequence_overlapping_deletes(
    op1: OpView,
    op2: OpView,
    a: ContextView,
    p: ContextView,
    t: Seq<char>,
)
    requires
        op1 is Delete,
        op2 is Delete,
        op_len(op1) > 0,
        op_len(op2) > 0,
        op_wf(op1),
        op_wf(op2),
        a.last_delete is None,
        p.last_delete is None,
        op_index(op1) + a.shift <= op_index(op2) + p.shift < op_index(op1) + a.shift + op_len(op1),
        0 <= op_index(op1) + a.shift,
        op_index(op1) + a.shift + op_len(op1) <= t.len(),
        op_index(op2) + p.shift + op_len(op2) <= t.len(),
        op_index(op1) <= isize::MAX,
        op_index(op2) <= isize::MAX,
        t.len() <= isize::MAX,
    ensures
        ({
            let (r1, a1, p1) = merged_one(op1, a, p);
            let r2 = merged_one(op2, p1, a1).0;
            let end1 = op_index(op1) + a.shift + op_len(op1);
            let end2 = op_index(op2) + p.shift + op_len(op2);
            opt_made(r2, opt_made(r1, t)) == t.take(op_index(op1) + a.shift) + t.skip(
                if end1 < end2 {
                    end2
                } else {
                    end1
                },
            )
        }),
{
    lemma_delete_held(op1, a, p);
    let (r1, a1, p1) = merged_one(op1, a, p);
    lemma_sequence_delete_within_delete(op2, p1, a1, t);
}

/// One side deletes a range, and the other side makes two inserts inside
/// it, one after the other: merged from where neither side holds anything
/// back, both inserts end up where the range was, in their order, and the
/// range is gone. `op3` lies `op_index(op3) - op_index(op2) - op_len(op2)`
/// characters after the text that `op2` inserts.
pub proof fn lemma_sequence_inserts_into_deleted_range(
    op1: OpView,
    op2: OpView,
    op3: OpView,
    a: ContextView,
    p: ContextView,
    t: Seq<char>,
)
    requires
        op1 is Delete,
        op2 is Insert,
        op3 is Insert,
        op_len(op1) > 0,
        op_len(op2) > 0,
        op_len(op3) > 0,
        op_wf(op1),
        op_wf(op2),
        op_wf(op3),
        a.last_delete is None,
        p.last_delete is None,
        op_index(op2) + op_len(op2) <= op_index(op3),
        op_index(op1) + a.shift <= op_index(op2) + p.shift,
        op_index(op3) - op_len(op2) + p.shift < op_index(op1) + a.shift + op_len(op1),
        0 <= op_index(op1) + a.shift,
        op_index(op1) + a.shift + op_len(op1) <= t.len(),
        op_index(op1) <= isize::MAX,
        op_index(op3) <= isize::MAX,
        t.len() + op_len(op2) <= isize::MAX,
    ensures
        ({
            let (r1, a1, p1) = merged_one(op1, a, p);
            let (r2, p2, a2) = merged_one(op2, p1, a1);
            let r3 = merged_one(op3, p2, a2).0;
            let start = op_index(op1) + a.shift;
            opt_made(r3, opt_made(r2, opt_made(r1, t))) == t.take(start) + put_text(op2) + put_text(op3)
                + t.skip(start + op_len(op1))
        }),
{
    lemma_delete_held(op1, a, p);
    let (r1, a1, p1) = merged_one(op1, a, p);
    lemma_sequence_inserts_within_delete(op2, op3, p1, a1, t);
}

} // verus!
