//! What merging two sequences of rope operations gives where an operation
//! of one side falls inside a range that the other side deletes: the deleted
//! range goes, and what the one side inserts there, or deletes beyond it, is
//! kept.
use vstd::prelude::*;

use super::merge_context::{delete_of, picked, sync_step, SyncContextView};
use super::operation::{edit_end, edit_index, edit_len, edit_with_index, EditView};
use crate::operations::operation::shifted_index;
use vstd::wrapping::i64_specs;

verus! {

/// `t` after `op` is made at its index: an insert puts its text there, a
/// delete removes its characters from there.
pub open spec fn edit_made(op: EditView, t: Seq<char>) -> Seq<char> {
    match op {
        EditView::Insert { index, text } => t.take(index as int) + text + t.skip(index as int),
        EditView::Delete { index, count } => t.take(index as int) + t.skip(index + count),
    }
}

/// `t` after `op`, if there is one, is made.
pub open spec fn opt_edit_made(op: Option<EditView>, t: Seq<char>) -> Seq<char> {
    match op {
        Some(o) => edit_made(o, t),
        None => t,
    }
}

/// The text that an insert puts in (none for a delete).
pub open spec fn edit_text(op: EditView) -> Seq<char> {
    match op {
        EditView::Insert { text, .. } => text,
        EditView::Delete { .. } => Seq::empty(),
    }
}

/// How a merge of two sequences merges one operation `op` of a side, with
/// the other side's context `a` and its own side's context `p`: the other
/// side's pending delete is dropped once `op` lies past it, `op` is moved by
/// the other side's shift, and then merged.
#[verifier::opaque]
pub open spec fn sync_merged_one(op: EditView, a: SyncContextView, p: SyncContextView) -> (
    Option<EditView>,
    SyncContextView,
    SyncContextView,
) {
    let a0 = picked(a, edit_index(op));
    sync_step(edit_with_index(op, shifted_index(edit_index(op), a0.shift) as usize), a0, p)
}

/// The other side's pending delete in `a`, which `t` still contains,
/// removes at least one character of `t`, starts at most `start` and ends
/// after `start`.
pub open spec fn pending_over(a: SyncContextView, start: int, t: Seq<char>) -> bool {
    &&& a.previous_delete matches Some(d)
    &&& d is Delete
    &&& edit_len(d) > 0
    &&& edit_index(d) <= start < edit_index(d) + edit_len(d) <= t.len()
}

/// An operation whose place, moved by the other side's shift, lies inside
/// the other side's pending delete keeps that delete, is moved by the shift
/// as it stands, and lies in what the delete covers.
proof fn lemma_kept_pending(op: EditView, a: SyncContextView, t: Seq<char>)
    requires
        pending_over(a, edit_index(op) + a.shift, t),
        edit_index(op) <= isize::MAX,
        t.len() <= isize::MAX,
    ensures
        picked(a, edit_index(op)) == a,
        shifted_index(edit_index(op), a.shift) == edit_index(op) + a.shift,
        edit_end(a.previous_delete->Some_0) == edit_index(a.previous_delete->Some_0) + edit_len(
            a.previous_delete->Some_0,
        ) - 1,
{
    let d = a.previous_delete->Some_0;
    assert(i64_specs::wrapping_add(edit_index(op) as i64, a.shift) == edit_index(op) + a.shift);
    assert(edit_end(d) == edit_index(d) + edit_len(d) - 1);
}

/// The step that merges an insert inside the other side's pending delete:
/// the insert moves to the delete's start, and the delete stays pending
/// behind the inserted text.
proof fn lemma_insert_in_pending(op: EditView, a: SyncContextView, p: SyncContextView, t: Seq<char>)
    requires
        op is Insert,
        edit_len(op) > 0,
        pending_over(a, edit_index(op) + a.shift, t),
        edit_index(op) <= isize::MAX,
        t.len() <= isize::MAX,
    ensures
        ({
            let d = a.previous_delete->Some_0;
            &&& sync_merged_one(op, a, p).0 == Some(edit_with_index(op, edit_index(d)))
            &&& t.len() + edit_len(op) <= isize::MAX ==> sync_merged_one(op, a, p).1 == SyncContextView {
                previous_delete: delete_of((edit_index(d) + edit_len(op)) as usize, edit_len(d) as usize),
                ..a
            }
        }),
{
    reveal(sync_merged_one);
    let d = a.previous_delete->Some_0;
    lemma_kept_pending(op, a, t);
    let moved = edit_with_index(op, edit_index(d));
    if t.len() + edit_len(op) <= isize::MAX {
        assert(edit_end(moved) == edit_index(d) + edit_len(op) - 1);
    }
}

/// An insert of one side whose place, moved by the other side's shift,
/// lies inside the range that the other side's pending delete removes ends
/// up where that range was: made after the delete, the merged insert leaves
/// the text before the range, the inserted text, and the text after the
/// range.
pub proof fn lemma_edit_insert_within_delete(op: EditView, a: SyncContextView, p: SyncContextView, t: Seq<char>)
    requires
        op is Insert,
        edit_len(op) > 0,
        pending_over(a, edit_index(op) + a.shift, t),
        edit_index(op) <= isize::MAX,
        t.len() <= isize::MAX,
    ensures
        ({
            let d = a.previous_delete->Some_0;
            let r = sync_merged_one(op, a, p).0;
            &&& r is Some
            &&& opt_edit_made(r, edit_made(d, t)) == t.take(edit_index(d) as int) + edit_text(op) + t.skip(
                edit_index(d) + edit_len(d),
            )
        }),
{
    let d = a.previous_delete->Some_0;
    let di = edit_index(d) as int;
    let dc = edit_len(d);
    lemma_insert_in_pending(op, a, p, t);
    let u = t.take(di) + t.skip(di + dc);
    assert(edit_made(d, t) == u);
    assert(u.take(di) =~= t.take(di));
    assert(u.skip(di) =~= t.skip(di + dc));
}

/// Making the delete `d`, then an insert at its start, then another right
/// after the first one's text, leaves the text before `d`'s range, the two
/// inserted texts and the text after the range.
proof fn lemma_two_inserts_edit_made(t: Seq<char>, d: EditView, ins1: EditView, ins2: EditView)
    requires
        d is Delete,
        ins1 is Insert,
        ins2 is Insert,
        edit_index(d) + edit_len(d) <= t.len(),
        edit_index(ins1) == edit_index(d),
        edit_index(ins2) == edit_index(d) + edit_len(ins1),
    ensures
        edit_made(ins2, edit_made(ins1, edit_made(d, t))) == t.take(edit_index(d) as int) + edit_text(ins1)
            + edit_text(ins2) + t.skip(edit_index(d) + edit_len(d)),
{
    let di = edit_index(d) as int;
    let dc = edit_len(d);
    let l1 = edit_len(ins1);
    let u = t.take(di) + t.skip(di + dc);
    assert(edit_made(d, t) == u);
    let v = t.take(di) + edit_text(ins1) + t.skip(di + dc);
    assert(u.take(di) =~= t.take(di));
    assert(u.skip(di) =~= t.skip(di + dc));
    assert(edit_made(ins1, u) =~= v);
    assert(v.take(di + l1) =~= t.take(di) + edit_text(ins1));
    assert(v.skip(di + l1) =~= t.skip(di + dc));
    assert(edit_made(ins2, v) =~= t.take(di) + edit_text(ins1) + edit_text(ins2) + t.skip(di + dc));
}

/// Two inserts of one side, one after the other, whose places both lie
/// inside the range that the other side's pending delete removes: merged
/// one after the other, both end up where that range was, in their order.
/// `op2` lies `edit_index(op2) - edit_index(op1) - edit_len(op1)`
/// characters after the text that `op1` inserts.
pub proof fn lemma_edit_inserts_within_delete(
    op1: EditView,
    op2: EditView,
    a: SyncContextView,
    p: SyncContextView,
    t: Seq<char>,
)
    requires
        op1 is Insert,
        op2 is Insert,
        edit_len(op1) > 0,
        edit_len(op2) > 0,
        edit_index(op1) + edit_len(op1) <= edit_index(op2),
        pending_over(a, edit_index(op1) + a.shift, t),
        pending_over(a, edit_index(op2) - edit_len(op1) + a.shift, t),
        edit_index(op2) <= isize::MAX,
        t.len() + edit_len(op1) <= isize::MAX,
    ensures
        ({
            let d = a.previous_delete->Some_0;
            let (r1, a1, p1) = sync_merged_one(op1, a, p);
            let r2 = sync_merged_one(op2, a1, p1).0;
            &&& r1 is Some
            &&& r2 is Some
            &&& opt_edit_made(r2, opt_edit_made(r1, edit_made(d, t))) == t.take(edit_index(d) as int)
                + edit_text(op1) + edit_text(op2) + t.skip(edit_index(d) + edit_len(d))
        }),
{
    let d = a.previous_delete->Some_0;
    let di = edit_index(d) as int;
    let dc = edit_len(d);
    let l1 = edit_len(op1);
    let (r1, a1, p1) = sync_merged_one(op1, a, p);
    lemma_insert_in_pending(op1, a, p, t);
    let moved1 = edit_with_index(op1, edit_index(d));
    let a1_pending = SyncContextView {
        previous_delete: Some(EditView::Delete { index: (di + l1) as usize, count: dc as usize }),
        ..a1
    };
    assert(a1 == a1_pending);
    let t1 = t.take(di) + edit_text(op1) + t.skip(di);
    assert(t1.len() == t.len() + l1);
    assert(pending_over(a1, edit_index(op2) + a1.shift, t1));
    lemma_insert_in_pending(op2, a1, p1, t1);
    lemma_two_inserts_edit_made(t, d, moved1, edit_with_index(op2, (di + l1) as usize));
}

/// The step that merges a delete starting inside the other side's pending
/// delete: what reaches past that delete is deleted from its start; where
/// this delete ends inside the other one, the rest of the other one stays
/// pending.
proof fn lemma_delete_in_pending(op: EditView, a: SyncContextView, p: SyncContextView, t: Seq<char>)
    requires
        op is Delete,
        edit_len(op) > 0,
        pending_over(a, edit_index(op) + a.shift, t),
        edit_index(op) + a.shift + edit_len(op) <= t.len(),
        edit_index(op) <= isize::MAX,
        t.len() <= isize::MAX,
    ensures
        ({
            let d = a.previous_delete->Some_0;
            let end = edit_index(op) + a.shift + edit_len(op);
            let d_end = edit_index(d) + edit_len(d);
            &&& sync_merged_one(op, a, p).0 == delete_of(
                edit_index(d),
                (if end <= d_end { 0 } else { end - d_end }) as usize,
            )
            &&& end <= d_end ==> sync_merged_one(op, a, p).1 == SyncContextView {
                previous_delete: delete_of(edit_index(d), (edit_len(d) - edit_len(op)) as usize),
                ..a
            }
        }),
{
    reveal(sync_merged_one);
    let d = a.previous_delete->Some_0;
    lemma_kept_pending(op, a, t);
    let moved = edit_with_index(op, (edit_index(op) + a.shift) as usize);
    assert(edit_end(moved) == edit_index(op) + a.shift + edit_len(op) - 1);
}

/// A delete of one side that starts, moved by the other side's shift,
/// inside the range that the other side's pending delete removes: made
/// after that delete, the merged result removes the union of both ranges,
/// so that the part of this delete that reaches past the other one goes
/// too.
pub proof fn lemma_edit_delete_within_delete(op: EditView, a: SyncContextView, p: SyncContextView, t: Seq<char>)
    requires
        op is Delete,
        edit_len(op) > 0,
        pending_over(a, edit_index(op) + a.shift, t),
        edit_index(op) + a.shift + edit_len(op) <= t.len(),
        edit_index(op) <= isize::MAX,
        t.len() <= isize::MAX,
    ensures
        ({
            let d = a.previous_delete->Some_0;
            let end = edit_index(op) + a.shift + edit_len(op);
            let union_end = if end < edit_index(d) + edit_len(d) {
                edit_index(d) + edit_len(d)
            } else {
                end
            };
            opt_edit_made(sync_merged_one(op, a, p).0, edit_made(d, t)) == t.take(edit_index(d) as int)
                + t.skip(union_end)
        }),
{
    let d = a.previous_delete->Some_0;
    let di = edit_index(d) as int;
    let dc = edit_len(d);
    let e = edit_index(op) + a.shift + edit_len(op);
    lemma_delete_in_pending(op, a, p, t);
    let u = t.take(di) + t.skip(di + dc);
    assert(edit_made(d, t) == u);
    if e > di + dc {
        assert(u.take(di) =~= t.take(di));
        assert(u.skip(di + (e - di - dc)) =~= t.skip(e));
    }
}

/// Two deletes of one side, one after the other, that both start inside
/// the range that the other side's pending delete removes: merged one after
/// the other and made after that delete, they leave the text with the union
/// of all three ranges removed. `op2` starts
/// `edit_index(op2) - edit_index(op1)` characters after the end of `op1`.
pub proof fn lemma_edit_deletes_within_delete(
    op1: EditView,
    op2: EditView,
    a: SyncContextView,
    p: SyncContextView,
    t: Seq<char>,
)
    requires
        op1 is Delete,
        op2 is Delete,
        edit_len(op1) > 0,
        edit_len(op2) > 0,
        edit_index(op1) <= edit_index(op2),
        pending_over(a, edit_index(op1) + a.shift, t),
        pending_over(a, edit_index(op2) + edit_len(op1) + a.shift, t),
        edit_index(op2) + edit_len(op1) + a.shift + edit_len(op2) <= t.len(),
        edit_index(op2) <= isize::MAX,
        t.len() <= isize::MAX,
    ensures
        ({
            let d = a.previous_delete->Some_0;
            let (r1, a1, p1) = sync_merged_one(op1, a, p);
            let r2 = sync_merged_one(op2, a1, p1).0;
            let end = edit_index(op2) + edit_len(op1) + a.shift + edit_len(op2);
            let union_end = if end < edit_index(d) + edit_len(d) {
                edit_index(d) + edit_len(d)
            } else {
                end
            };
            opt_edit_made(r2, opt_edit_made(r1, edit_made(d, t))) == t.take(edit_index(d) as int) + t.skip(
                union_end,
            )
        }),
{
    let d = a.previous_delete->Some_0;
    let di = edit_index(d) as int;
    let dc = edit_len(d);
    let c1 = edit_len(op1);
    let s1 = edit_index(op1) + a.shift;
    let e1 = s1 + c1;
    let (r1, a1, p1) = sync_merged_one(op1, a, p);
    lemma_delete_in_pending(op1, a, p, t);
    assert(r1 is None);
    let t2 = t.take(s1) + t.skip(e1);
    let d2 = EditView::Delete { index: di as usize, count: (dc - c1) as usize };
    assert(a1.previous_delete == Some(d2));
    assert(t2.take(di) =~= t.take(di));
    assert(t2.skip(di + (dc - c1)) =~= t.skip(di + dc));
    assert(edit_made(d2, t2) =~= edit_made(d, t));
    lemma_edit_delete_within_delete(op2, a1, p1, t2);
    let end = edit_index(op2) + c1 + a.shift + edit_len(op2);
    let k2 = if end < di + dc { di + dc } else { end };
    assert(t2.skip(k2 - c1) =~= t.skip(k2));
}

/// The step that merges an operation lying past the other side's pending
/// delete: the delete is dropped from the context and its length taken off
/// the shift, so that the operation lands that much further back.
proof fn lemma_step_past_pending(op: EditView, a: SyncContextView, p: SyncContextView)
    requires
        a.previous_delete matches Some(d) && d is Delete && edit_len(d) > 0 && edit_index(d) + edit_len(d)
            <= edit_index(op) + a.shift,
        edit_index(op) + a.shift <= isize::MAX,
        edit_index(op) <= isize::MAX,
    ensures
        sync_merged_one(op, a, p).0 == Some(
            edit_with_index(op, (edit_index(op) + a.shift - edit_len(a.previous_delete->Some_0)) as usize),
        ),
{
    reveal(sync_merged_one);
    let d = a.previous_delete->Some_0;
    let s = edit_index(op) + a.shift;
    assert(i64_specs::wrapping_add(edit_index(op) as i64, a.shift) == s);
    assert(edit_end(d) == edit_index(d) + edit_len(d) - 1);
    let a0 = picked(a, edit_index(op));
    assert(a0.previous_delete is None);
    assert(a0.shift == a.shift - edit_len(d));
    assert(shifted_index(edit_index(op), a0.shift) == s - edit_len(d));
}

/// Making `op` at `index - count` after `d` removed `count` characters
/// from `start`, which ends at or before `index`, leaves the same text as
/// making `op` at `index` first and `d` after it.
proof fn lemma_edit_made_after(op: EditView, d: EditView, t: Seq<char>, index: usize)
    requires
        d is Delete,
        edit_index(d) + edit_len(d) <= index <= t.len(),
        op is Delete ==> index + edit_len(op) <= t.len(),
    ensures
        edit_made(edit_with_index(op, (index - edit_len(d)) as usize), edit_made(d, t)) == edit_made(
            d,
            edit_made(edit_with_index(op, index), t),
        ),
{
    let di = edit_index(d) as int;
    let dc = edit_len(d);
    let s = index as int;
    let u = t.take(di) + t.skip(di + dc);
    let moved = edit_with_index(op, (s - dc) as usize);
    let w = edit_made(edit_with_index(op, index), t);
    let mid = t.take(di) + t.subrange(di + dc, s);
    assert(u.take(s - dc) =~= mid);
    if op is Insert {
        assert(u.skip(s - dc) =~= t.skip(s));
        assert(w.take(di) =~= t.take(di));
        assert(w.skip(di + dc) =~= t.subrange(di + dc, s) + edit_text(op) + t.skip(s));
        assert(edit_made(moved, u) =~= edit_made(d, w));
    } else {
        let c = edit_len(op);
        assert(u.skip(s - dc + c) =~= t.skip(s + c));
        assert(w.take(di) =~= t.take(di));
        assert(w.skip(di + dc) =~= t.subrange(di + dc, s) + t.skip(s + c));
        assert(edit_made(moved, u) =~= edit_made(d, w));
    }
}

/// An operation of one side whose place, moved by the other side's shift,
/// lies at or after the end of the other side's pending delete: merged and
/// made after that delete, it leaves the same text as the operation made at
/// its moved place before the delete.
pub proof fn lemma_edit_past_delete(op: EditView, a: SyncContextView, p: SyncContextView, t: Seq<char>)
    requires
        edit_len(op) > 0,
        a.previous_delete matches Some(d) && d is Delete && edit_len(d) > 0 && edit_index(d) + edit_len(d)
            <= edit_index(op) + a.shift,
        edit_index(op) + a.shift <= t.len(),
        op is Delete ==> edit_index(op) + a.shift + edit_len(op) <= t.len(),
        edit_index(op) <= isize::MAX,
        t.len() <= isize::MAX,
    ensures
        ({
            let d = a.previous_delete->Some_0;
            let r = sync_merged_one(op, a, p).0;
            &&& r is Some
            &&& opt_edit_made(r, edit_made(d, t)) == edit_made(
                d,
                edit_made(edit_with_index(op, (edit_index(op) + a.shift) as usize), t),
            )
        }),
{
    let d = a.previous_delete->Some_0;
    lemma_step_past_pending(op, a, p);
    lemma_edit_made_after(op, d, t, (edit_index(op) + a.shift) as usize);
}

/// The merge of a delete with nothing of the other side pending: the
/// delete lands at its moved place and stays pending for the other side's
/// next operations, the shift left as it is.
proof fn lemma_delete_pending(op: EditView, a: SyncContextView, p: SyncContextView)
    requires
        op is Delete,
        a.previous_delete is None,
        p.previous_delete is None,
        0 <= edit_index(op) + a.shift <= isize::MAX,
        edit_index(op) <= isize::MAX,
    ensures
        ({
            let moved = edit_with_index(op, (edit_index(op) + a.shift) as usize);
            let (r, a1, p1) = sync_merged_one(op, a, p);
            &&& r == Some(moved)
            &&& p1 == SyncContextView { previous_delete: Some(moved), ..p }
            &&& a1 == a
        }),
{
    reveal(sync_merged_one);
    assert(i64_specs::wrapping_add(edit_index(op) as i64, a.shift) == edit_index(op) + a.shift);
}

/// One side deletes a range, and the other side deletes a range that
/// starts inside it: merged one after the other from where neither has
/// anything pending, the two merged deletes remove the union of both
/// ranges.
pub proof fn lemma_edit_overlapping_deletes(
    op1: EditView,
    op2: EditView,
    a: SyncContextView,
    p: SyncContextView,
    t: Seq<char>,
)
    requires
        op1 is Delete,
        op2 is Delete,
        edit_len(op1) > 0,
        edit_len(op2) > 0,
        a.previous_delete is None,
        p.previous_delete is None,
        edit_index(op1) + a.shift <= edit_index(op2) + p.shift < edit_index(op1) + a.shift + edit_len(op1),
        0 <= edit_index(op1) + a.shift,
        edit_index(op1) + a.shift + edit_len(op1) <= t.len(),
        edit_index(op2) + p.shift + edit_len(op2) <= t.len(),
        edit_index(op1) <= isize::MAX,
        edit_index(op2) <= isize::MAX,
        t.len() <= isize::MAX,
    ensures
        ({
            let (r1, a1, p1) = sync_merged_one(op1, a, p);
            let r2 = sync_merged_one(op2, p1, a1).0;
            let end1 = edit_index(op1) + a.shift + edit_len(op1);
            let end2 = edit_index(op2) + p.shift + edit_len(op2);
            opt_edit_made(r2, opt_edit_made(r1, t)) == t.take(edit_index(op1) + a.shift) + t.skip(
                if end1 < end2 {
                    end2
                } else {
                    end1
                },
            )
        }),
{
    lemma_delete_pending(op1, a, p);
    let (r1, a1, p1) = sync_merged_one(op1, a, p);
    lemma_edit_delete_within_delete(op2, p1, a1, t);
}

/// One side deletes a range, and the other side makes two inserts inside
/// it, one after the other: merged from where neither side has anything
/// pending, both inserts end up where the range was, in their order, and
/// the range is gone. `op3` lies
/// `edit_index(op3) - edit_index(op2) - edit_len(op2)` characters after the
/// text that `op2` inserts.
pub proof fn lemma_edit_inserts_into_deleted_range(
    op1: EditView,
    op2: EditView,
    op3: EditView,
    a: SyncContextView,
    p: SyncContextView,
    t: Seq<char>,
)
    requires
        op1 is Delete,
        op2 is Insert,
        op3 is Insert,
        edit_len(op1) > 0,
        edit_len(op2) > 0,
        edit_len(op3) > 0,
        a.previous_delete is None,
        p.previous_delete is None,
        edit_index(op2) + edit_len(op2) <= edit_index(op3),
        edit_index(op1) + a.shift <= edit_index(op2) + p.shift,
        edit_index(op3) - edit_len(op2) + p.shift < edit_index(op1) + a.shift + edit_len(op1),
        0 <= edit_index(op1) + a.shift,
        edit_index(op1) + a.shift + edit_len(op1) <= t.len(),
        edit_index(op1) <= isize::MAX,
        edit_index(op3) <= isize::MAX,
        t.len() + edit_len(op2) <= isize::MAX,
    ensures
        ({
            let (r1, a1, p1) = sync_merged_one(op1, a, p);
            let (r2, p2, a2) = sync_merged_one(op2, p1, a1);
            let r3 = sync_merged_one(op3, p2, a2).0;
            let start = edit_index(op1) + a.shift;
            opt_edit_made(r3, opt_edit_made(r2, opt_edit_made(r1, t))) == t.take(start) + edit_text(op2)
                + edit_text(op3) + t.skip(start + edit_len(op1))
        }),
{
    lemma_delete_pending(op1, a, p);
    let (r1, a1, p1) = sync_merged_one(op1, a, p);
    lemma_edit_inserts_within_delete(op2, op3, p1, a1, t);
}

} // verus!
