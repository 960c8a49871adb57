//! What merging two edits of one text gives, step by step.
use vstd::prelude::*;

use super::cursor::CursorPosition;
use super::merge_context::MergeContextView;
use super::operation::{len64, merge_step, op_end, op_index, OpView};
use vstd::wrapping::i64_specs;
use vstd::wrapping::usize_specs::wrapping_add;

verus! {

/// The result of a merge step moves the cursors behind it (inserts and
/// equal runs do, deletes and dropped operations do not).
pub open spec fn moves_cursors(result: Option<OpView>) -> bool {
    result matches Some(o) && (o is Insert || o is Equal)
}

/// How far the cursors of an operation move when it becomes `result`: the
/// change of its start plus the change of its length.
pub open spec fn cursor_shift(op: OpView, result: OpView) -> i64 {
    i64_specs::wrapping_sub(
        i64_specs::wrapping_add(
            i64_specs::wrapping_sub(op_index(result) as i64, op_index(op) as i64),
            len64(result),
        ),
        len64(op),
    )
}

/// A cursor moved by `shift`, but not in front of `start`.
pub open spec fn moved_cursor(c: CursorPosition, shift: i64, start: usize) -> CursorPosition {
    let moved = i64_specs::wrapping_add(c.char_index as i64, shift);
    CursorPosition { id: c.id, char_index: if moved < start as i64 { start } else { moved as usize } }
}

/// The first cursor from `from` on that stands after `bound`, or the end.
pub open spec fn run_end(cursors: Seq<CursorPosition>, from: int, bound: usize) -> int
    decreases cursors.len() - from,
{
    if from < 0 || from >= cursors.len() || cursors[from].char_index > bound {
        from
    } else {
        run_end(cursors, from + 1, bound)
    }
}

/// Where the cursors that `op` carries end, when it became `result`.
pub open spec fn carried_end(
    cursors: Seq<CursorPosition>,
    from: int,
    op: OpView,
    result: Option<OpView>,
) -> int {
    if moves_cursors(result) {
        run_end(cursors, from, wrapping_add(op_end(op), 1))
    } else {
        from
    }
}

/// The cursors from `from` to `to`, moved with `op` that became `result`.
pub open spec fn carried(
    cursors: Seq<CursorPosition>,
    from: int,
    to: int,
    op: OpView,
    result: Option<OpView>,
) -> Seq<CursorPosition> {
    match result {
        Some(res) => cursors.subrange(from, to).map_values(
            |c: CursorPosition| moved_cursor(c, cursor_shift(op, res), op_index(res)),
        ),
        None => Seq::empty(),
    }
}

/// The operation that a merge step produced, with its order.
pub open spec fn produced(order: usize, result: Option<OpView>) -> Seq<(usize, OpView)> {
    match result {
        Some(o) => seq![(order, o)],
        None => Seq::empty(),
    }
}

/// The end of the last insert or equal run, or 0 where there is none.
pub open spec fn last_end(ops: Seq<(usize, OpView)>) -> usize
    decreases ops.len(),
{
    if ops.len() == 0 {
        0
    } else if ops.last().1 is Insert || ops.last().1 is Equal {
        op_end(ops.last().1)
    } else {
        last_end(ops.drop_last())
    }
}

/// The cursors from `from` on, all put at `index`.
pub open spec fn parked(cursors: Seq<CursorPosition>, from: int, index: usize) -> Seq<
    CursorPosition,
> {
    cursors.skip(from).map_values(|c: CursorPosition| CursorPosition { id: c.id, char_index: index })
}

/// The operations and cursors that merging two edits gives, from the state
/// after the left side's first `i` operations and the right side's first
/// `j` ones were taken, with `li` and `ri` cursors of each side placed, the
/// merge contexts `lc` and `rc`, and `ops` and `cursors` produced so far.
/// Operations are taken by their order, the right one on a tie; each goes
/// through `merge_step` with the other side's context as the affecting one.
/// The cursors that an insert or equal run carries move with it; those left
/// at the end go to the end of the last insert or equal run, the left
/// side's first.
#[verifier::opaque]
pub open spec fn merge_edits(
    left: Seq<(usize, OpView)>,
    right: Seq<(usize, OpView)>,
    left_cursors: Seq<CursorPosition>,
    right_cursors: Seq<CursorPosition>,
    i: int,
    j: int,
    li: int,
    ri: int,
    lc: MergeContextView,
    rc: MergeContextView,
    ops: Seq<(usize, OpView)>,
    cursors: Seq<CursorPosition>,
) -> (Seq<(usize, OpView)>, Seq<CursorPosition>)
    decreases left.len() - i + right.len() - j,
{
    if i < 0 || j < 0 || i > left.len() || j > right.len() || (i == left.len() && j == right.len()) {
        (
            ops,
            cursors + parked(left_cursors, li, last_end(ops)) + parked(
                right_cursors,
                ri,
                last_end(ops),
            ),
        )
    } else if i < left.len() && (j == right.len() || left[i].0 < right[j].0) {
        let (order, op) = left[i];
        let (result, rc2, lc2) = merge_step(op, rc, lc);
        let li2 = carried_end(left_cursors, li, op, result);
        merge_edits(
            left,
            right,
            left_cursors,
            right_cursors,
            i + 1,
            j,
            li2,
            ri,
            lc2,
            rc2,
            ops + produced(order, result),
            cursors + carried(left_cursors, li, li2, op, result),
        )
    } else {
        let (order, op) = right[j];
        let (result, lc2, rc2) = merge_step(op, lc, rc);
        let ri2 = carried_end(right_cursors, ri, op, result);
        merge_edits(
            left,
            right,
            left_cursors,
            right_cursors,
            i,
            j + 1,
            li,
            ri2,
            lc2,
            rc2,
            ops + produced(order, result),
            cursors + carried(right_cursors, ri, ri2, op, result),
        )
    }
}

/// The state after the last operation of both sides was taken.
pub proof fn lemma_merge_edits_done(
    left: Seq<(usize, OpView)>,
    right: Seq<(usize, OpView)>,
    left_cursors: Seq<CursorPosition>,
    right_cursors: Seq<CursorPosition>,
    li: int,
    ri: int,
    lc: MergeContextView,
    rc: MergeContextView,
    ops: Seq<(usize, OpView)>,
    cursors: Seq<CursorPosition>,
)
    ensures
        merge_edits(
            left,
            right,
            left_cursors,
            right_cursors,
            left.len() as int,
            right.len() as int,
            li,
            ri,
            lc,
            rc,
            ops,
            cursors,
        ) == (
            ops,
            cursors + parked(left_cursors, li, last_end(ops)) + parked(
                right_cursors,
                ri,
                last_end(ops),
            ),
        ),
{
    reveal(merge_edits);
}

/// One step of `merge_edits` that takes the left side's operation.
pub proof fn lemma_merge_edits_left(
    left: Seq<(usize, OpView)>,
    right: Seq<(usize, OpView)>,
    left_cursors: Seq<CursorPosition>,
    right_cursors: Seq<CursorPosition>,
    i: int,
    j: int,
    li: int,
    ri: int,
    lc: MergeContextView,
    rc: MergeContextView,
    ops: Seq<(usize, OpView)>,
    cursors: Seq<CursorPosition>,
)
    requires
        0 <= i < left.len(),
        0 <= j <= right.len(),
        j == right.len() || left[i].0 < right[j].0,
    ensures
        ({
            let (order, op) = left[i];
            let (result, rc2, lc2) = merge_step(op, rc, lc);
            let li2 = carried_end(left_cursors, li, op, result);
            merge_edits(left, right, left_cursors, right_cursors, i, j, li, ri, lc, rc, ops, cursors)
                == merge_edits(
                left,
                right,
                left_cursors,
                right_cursors,
                i + 1,
                j,
                li2,
                ri,
                lc2,
                rc2,
                ops + produced(order, result),
                cursors + carried(left_cursors, li, li2, op, result),
            )
        }),
{
    reveal(merge_edits);
}

/// One step of `merge_edits` that takes the right side's operation.
pub proof fn lemma_merge_edits_right(
    left: Seq<(usize, OpView)>,
    right: Seq<(usize, OpView)>,
    left_cursors: Seq<CursorPosition>,
    right_cursors: Seq<CursorPosition>,
    i: int,
    j: int,
    li: int,
    ri: int,
    lc: MergeContextView,
    rc: MergeContextView,
    ops: Seq<(usize, OpView)>,
    cursors: Seq<CursorPosition>,
)
    requires
        0 <= i <= left.len(),
        0 <= j < right.len(),
        i == left.len() || left[i].0 >= right[j].0,
    ensures
        ({
            let (order, op) = right[j];
            let (result, lc2, rc2) = merge_step(op, lc, rc);
            let ri2 = carried_end(right_cursors, ri, op, result);
            merge_edits(left, right, left_cursors, right_cursors, i, j, li, ri, lc, rc, ops, cursors)
                == merge_edits(
                left,
                right,
                left_cursors,
                right_cursors,
                i,
                j + 1,
                li,
                ri2,
                lc2,
                rc2,
                ops + produced(order, result),
                cursors + carried(right_cursors, ri, ri2, op, result),
            )
        }),
{
    reveal(merge_edits);
}

/// The run of cursors at or before `bound` from `from` ends at `to`.
pub proof fn lemma_run_end(cursors: Seq<CursorPosition>, from: int, to: int, bound: usize)
    requires
        0 <= from <= to <= cursors.len(),
        forall|k: int| from <= k < to ==> (#[trigger] cursors[k]).char_index <= bound,
        to == cursors.len() || cursors[to].char_index > bound,
    ensures
        run_end(cursors, from, bound) == to,
    decreases to - from,
{
    if from < to {
        lemma_run_end(cursors, from + 1, to, bound);
    }
}

} // verus!
