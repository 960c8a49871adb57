//! Texts split at whitespace, and sequences of operations on ropes.
use vstd::prelude::*;

use super::merge_context::{
    fresh_context, merge_with_context, pending_end, picked, sync_step, MergeContext,
    SyncContextView,
};
use super::operation::{edit_applied, edit_index, edit_with_index, EditView, Operation};
use crate::errors::SyncLibError;
use super::separated_merge::{
    edit_put_total, edit_spliced, edits_apart, edits_of_length, lemma_diff_edits_shape,
    lemma_edits_apart_merge, positioned,
};
use crate::operation_transformation::separated_edits::pos_merge;
use crate::operations::operation::{fits_usize, negative_index_message, shifted_index};
use vstd::wrapping::i64_specs;
use vstd::wrapping::usize_specs::wrapping_add;
use crate::rope::rope_chars;
use crate::text::{is_split_after_whitespace, split_after_whitespace, strings_view};

verus! {

/// Splits the text after each whitespace character, keeping the whitespace
/// at the end of the pieces (`split_inclusive`).
pub fn tokenize(text: &str) -> (pieces: Vec<String>)
    ensures
        is_split_after_whitespace(strings_view(pieces@), text@),
{
    split_after_whitespace(text)
}

/// What applying `ops` in order to a text holding `chars` gives, or nothing
/// when one of them does not fit.
pub open spec fn edits_applied(ops: Seq<EditView>, chars: Seq<char>) -> Option<Seq<char>>
    decreases ops.len(),
{
    if ops.len() == 0 {
        Some(chars)
    } else {
        match edits_applied(ops.drop_last(), chars) {
            Some(c) => edit_applied(ops.last(), c),
            None => None,
        }
    }
}

/// The text that applying `ops` in order to `chars` leaves: every operation
/// up to the first one that does not fit is applied, and none after it.
pub open spec fn edits_applied_until_stuck(ops: Seq<EditView>, chars: Seq<char>) -> Seq<char>
    decreases ops.len(),
{
    if ops.len() == 0 {
        chars
    } else {
        match edits_applied(ops.drop_last(), chars) {
            Some(c) => match edit_applied(ops.last(), c) {
                Some(d) => d,
                None => c,
            },
            None => edits_applied_until_stuck(ops.drop_last(), chars),
        }
    }
}

/// Where all operations fit, the text left is the one they give.
proof fn lemma_edits_applied_until_stuck_fits(ops: Seq<EditView>, chars: Seq<char>)
    requires
        edits_applied(ops, chars) is Some,
    ensures
        edits_applied_until_stuck(ops, chars) == edits_applied(ops, chars)->0,
{
}

/// Where the operation after the first `k` does not fit, the text left is
/// the one the first `k` give.
proof fn lemma_edits_applied_until_stuck_at(ops: Seq<EditView>, k: int, n: int, chars: Seq<char>, c: Seq<char>)
    requires
        0 <= k < n <= ops.len(),
        edits_applied(ops.take(k), chars) == Some(c),
        edits_applied(ops.take(k + 1), chars) is None,
    ensures
        edits_applied_until_stuck(ops.take(n), chars) == c,
    decreases n - k,
{
    assert(ops.take(n).drop_last() =~= ops.take(n - 1));
    if n == k + 1 {
    } else {
        lemma_edits_applied_until_stuck_at(ops, k, n - 1, chars, c);
        assert(ops.take(n - 1).take(k + 1) =~= ops.take(k + 1));
        lemma_edits_stuck(ops.take(n - 1), k + 1, chars);
    }
}

/// Once an operation does not fit, applying all of them fails.
proof fn lemma_edits_stuck(ops: Seq<EditView>, k: int, chars: Seq<char>)
    requires
        0 <= k <= ops.len(),
        edits_applied(ops.take(k), chars) is None,
    ensures
        edits_applied(ops, chars) is None,
    decreases ops.len() - k,
{
    if k < ops.len() {
        assert(ops.take(k + 1).drop_last() =~= ops.take(k));
        lemma_edits_stuck(ops, k + 1, chars);
    } else {
        assert(ops.take(k) =~= ops);
    }
}

/// The operation as a sequence of none or one.
pub open spec fn edit_seq(op: Option<EditView>) -> Seq<EditView> {
    match op {
        Some(o) => seq![o],
        None => Seq::empty(),
    }
}

/// Where an operation stands in the merge order: its start, or the end of
/// its own side's pending delete where that is later.
pub open spec fn merge_key(op: EditView, own: SyncContextView) -> i64 {
    (if edit_index(op) >= pending_end(own) {
        edit_index(op)
    } else {
        pending_end(own)
    }) as i64
}

/// The merge takes the left operation next: it is there, and the right one
/// is not, or it comes first, or both come at once and it is not an insert
/// facing a delete.
pub open spec fn takes_left(
    has_left: bool,
    has_right: bool,
    left_op: EditView,
    right_op: EditView,
    lc: SyncContextView,
    rc: SyncContextView,
) -> bool {
    has_left && (!has_right || merge_key(left_op, lc) < merge_key(right_op, rc) || (merge_key(
        left_op,
        lc,
    ) == merge_key(right_op, rc) && !(left_op is Insert && right_op is Delete)))
}

/// What merging `left` and `right` gives from the state after the left
/// side's first `i` operations and the right side's first `j` ones were
/// taken, with the contexts `lc` and `rc` and `merged` produced so far: the
/// merged operations, or the first shifted index that was not a valid
/// index. In each step the next operation of each side drops the other
/// side's pending delete if it comes after it, and is shifted by the other
/// side's shift; the one that comes first in the merge order then goes
/// through `sync_step`.
#[verifier::opaque]
pub open spec fn sync_merge_from(
    left: Seq<EditView>,
    right: Seq<EditView>,
    i: int,
    j: int,
    lc: SyncContextView,
    rc: SyncContextView,
    merged: Seq<EditView>,
) -> Result<Seq<EditView>, i64>
    decreases left.len() - i + right.len() - j,
{
    if i < 0 || j < 0 || i > left.len() || j > right.len() || (i == left.len() && j
        == right.len()) {
        Ok(merged)
    } else {
        let has_left = i < left.len();
        let has_right = j < right.len();
        let rc1 = if has_left {
            picked(rc, edit_index(left[i]))
        } else {
            rc
        };
        let left_index = shifted_index(edit_index(left[i]), rc1.shift);
        if has_left && !fits_usize(left_index) {
            Err(left_index)
        } else {
            let lc1 = if has_right {
                picked(lc, edit_index(right[j]))
            } else {
                lc
            };
            let right_index = shifted_index(edit_index(right[j]), lc1.shift);
            if has_right && !fits_usize(right_index) {
                Err(right_index)
            } else {
                let left_op = edit_with_index(left[i], left_index as usize);
                let right_op = edit_with_index(right[j], right_index as usize);
                if takes_left(has_left, has_right, left_op, right_op, lc1, rc1) {
                    let (result, rc2, lc2) = sync_step(left_op, rc1, lc1);
                    sync_merge_from(left, right, i + 1, j, lc2, rc2, merged + edit_seq(result))
                } else {
                    let (result, lc2, rc2) = sync_step(right_op, lc1, rc1);
                    sync_merge_from(left, right, i, j + 1, lc2, rc2, merged + edit_seq(result))
                }
            }
        }
    }
}

/// One step of `sync_merge_from` before both sides are done.
pub(crate) proof fn lemma_sync_merge_step(
    left: Seq<EditView>,
    right: Seq<EditView>,
    i: int,
    j: int,
    lc: SyncContextView,
    rc: SyncContextView,
    merged: Seq<EditView>,
)
    requires
        0 <= i <= left.len(),
        0 <= j <= right.len(),
        i < left.len() || j < right.len(),
    ensures
        ({
            let has_left = i < left.len();
            let has_right = j < right.len();
            let rc1 = if has_left {
                picked(rc, edit_index(left[i]))
            } else {
                rc
            };
            let left_index = shifted_index(edit_index(left[i]), rc1.shift);
            let lc1 = if has_right {
                picked(lc, edit_index(right[j]))
            } else {
                lc
            };
            let right_index = shifted_index(edit_index(right[j]), lc1.shift);
            let left_op = edit_with_index(left[i], left_index as usize);
            let right_op = edit_with_index(right[j], right_index as usize);
            sync_merge_from(left, right, i, j, lc, rc, merged) == if has_left && !fits_usize(
                left_index,
            ) {
                Err(left_index)
            } else if has_right && !fits_usize(right_index) {
                Err(right_index)
            } else if takes_left(has_left, has_right, left_op, right_op, lc1, rc1) {
                let (result, rc2, lc2) = sync_step(left_op, rc1, lc1);
                sync_merge_from(left, right, i + 1, j, lc2, rc2, merged + edit_seq(result))
            } else {
                let (result, lc2, rc2) = sync_step(right_op, lc1, rc1);
                sync_merge_from(left, right, i, j + 1, lc2, rc2, merged + edit_seq(result))
            }
        }),
{
    reveal(sync_merge_from);
}

/// Every operation's index is at most `i64::MAX`, so that shifting it by 0
/// keeps it.
pub open spec fn edit_indices_fit_i64(ops: Seq<EditView>) -> bool {
    forall|k: int| 0 <= k < ops.len() ==> edit_index(#[trigger] ops[k]) <= i64::MAX
}

proof fn lemma_edit_unshifted(op: EditView)
    requires
        edit_index(op) <= i64::MAX,
    ensures
        fits_usize(shifted_index(edit_index(op), 0)),
        edit_with_index(op, shifted_index(edit_index(op), 0) as usize) == op,
{
    let x = edit_index(op);
    assert(i64_specs::wrapping_add(x as i64, 0) == x as i64);
    assert((x as i64) as usize == x);
}

proof fn lemma_sync_only_left(left: Seq<EditView>, i: int, lc: SyncContextView, merged: Seq<EditView>)
    requires
        0 <= i <= left.len(),
        edit_indices_fit_i64(left),
    ensures
        sync_merge_from(left, Seq::empty(), i, 0, lc, fresh_context(), merged) == Ok::<
            Seq<EditView>,
            i64,
        >(merged + left.skip(i)),
    decreases left.len() - i,
{
    if i == left.len() {
        lemma_sync_merge_done(left, Seq::empty(), lc, fresh_context(), merged);
        assert(merged + left.skip(i) =~= merged);
    } else {
        lemma_sync_merge_step(left, Seq::empty(), i, 0, lc, fresh_context(), merged);
        let op = left[i];
        lemma_edit_unshifted(op);
        let (result, a2, p2) = sync_step(op, fresh_context(), lc);
        assert(result == Some(op) && a2 == fresh_context());
        lemma_sync_only_left(left, i + 1, p2, merged + seq![op]);
        assert(merged + seq![op] + left.skip(i + 1) =~= merged + left.skip(i));
    }
}

proof fn lemma_sync_only_right(right: Seq<EditView>, j: int, rc: SyncContextView, merged: Seq<EditView>)
    requires
        0 <= j <= right.len(),
        edit_indices_fit_i64(right),
    ensures
        sync_merge_from(Seq::empty(), right, 0, j, fresh_context(), rc, merged) == Ok::<
            Seq<EditView>,
            i64,
        >(merged + right.skip(j)),
    decreases right.len() - j,
{
    if j == right.len() {
        lemma_sync_merge_done(Seq::empty(), right, fresh_context(), rc, merged);
        assert(merged + right.skip(j) =~= merged);
    } else {
        lemma_sync_merge_step(Seq::empty(), right, 0, j, fresh_context(), rc, merged);
        let op = right[j];
        lemma_edit_unshifted(op);
        let (result, a2, p2) = sync_step(op, fresh_context(), rc);
        assert(result == Some(op) && a2 == fresh_context());
        lemma_sync_only_right(right, j + 1, p2, merged + seq![op]);
        assert(merged + seq![op] + right.skip(j + 1) =~= merged + right.skip(j));
    }
}

/// Merging a sequence of operations with one that has none, on either
/// side, gives the same operations back.
pub proof fn lemma_sync_merge_with_unchanged_side(ops: Seq<EditView>)
    requires
        edit_indices_fit_i64(ops),
    ensures
        sync_merge_from(ops, Seq::empty(), 0, 0, fresh_context(), fresh_context(), Seq::empty())
            == Ok::<Seq<EditView>, i64>(ops),
        sync_merge_from(Seq::empty(), ops, 0, 0, fresh_context(), fresh_context(), Seq::empty())
            == Ok::<Seq<EditView>, i64>(ops),
{
    lemma_sync_only_left(ops, 0, fresh_context(), Seq::empty());
    lemma_sync_only_right(ops, 0, fresh_context(), Seq::empty());
    assert(Seq::<EditView>::empty() + ops.skip(0) =~= ops);
}

/// `r` is what the merge returns when the spec merge gives `spec`.
pub open spec fn sync_merge_outcome(
    spec: Result<Seq<EditView>, i64>,
    r: Result<OperationSequence, SyncLibError>,
) -> bool {
    match spec {
        Ok(merged) => r matches Ok(s) && s.operations_view() == merged,
        Err(index) => r matches Err(SyncLibError::NegativeOperationIndexError(message))
            && message@ == negative_index_message(index),
    }
}

/// The views of the operations.
pub open spec fn views(ops: Seq<Operation>) -> Seq<EditView> {
    ops.map_values(|o: Operation| o@)
}

/// The state after both sides are done.
pub(crate) proof fn lemma_sync_merge_done(
    left: Seq<EditView>,
    right: Seq<EditView>,
    lc: SyncContextView,
    rc: SyncContextView,
    merged: Seq<EditView>,
)
    ensures
        sync_merge_from(left, right, left.len() as int, right.len() as int, lc, rc, merged) == Ok::<
            Seq<EditView>,
            i64,
        >(merged),
{
    reveal(sync_merge_from);
}

/// Pushes the merged operation, if any.
fn append(merged: &mut Vec<Operation>, result: Option<Operation>)
    ensures
        views(final(merged)@) == views(old(merged)@) + edit_seq(
            match result {
                Some(o) => Some(o@),
                None => None,
            },
        ),
{
    if let Some(o) = result {
        merged.push(o);
        assert(views(merged@) =~= views(old(merged)@) + edit_seq(Some(o@)));
    } else {
        assert(views(merged@) =~= views(old(merged)@) + edit_seq(None));
    }
}

/// The next operation of a side, after the other side's context
/// `affecting` dropped its pending delete if the operation comes after it,
/// shifted by that context's shift.
fn shifted_next(op: &Operation, affecting: &mut MergeContext) -> (r: Result<Operation, SyncLibError>)
    ensures
        final(affecting)@ == picked(old(affecting)@, edit_index(op@)),
        fits_usize(shifted_index(edit_index(op@), final(affecting)@.shift)) ==> (r matches Ok(o)
            && o@ == edit_with_index(
            op@,
            shifted_index(edit_index(op@), final(affecting)@.shift) as usize,
        )),
        !fits_usize(shifted_index(edit_index(op@), final(affecting)@.shift)) ==> (r matches Err(
            SyncLibError::NegativeOperationIndexError(message),
        ) && message@ == negative_index_message(
            shifted_index(edit_index(op@), final(affecting)@.shift),
        )),
{
    affecting.pick_up_dangling_delete(op.start_index());
    op.with_shifted_index(affecting.shift())
}

/// Whether the merge takes the left operation next.
fn takes_left_of(
    left_op: &Option<Operation>,
    right_op: &Option<Operation>,
    lc: &MergeContext,
    rc: &MergeContext,
) -> (b: bool)
    ensures
        b == takes_left(
            left_op is Some,
            right_op is Some,
            match left_op {
                Some(o) => o@,
                None => arbitrary(),
            },
            match right_op {
                Some(o) => o@,
                None => arbitrary(),
            },
            lc@,
            rc@,
        ),
{
    match (left_op, right_op) {
        (Some(l), Some(r)) => {
            let left_key = merge_key_of(l, lc);
            let right_key = merge_key_of(r, rc);
            let insert_facing_delete = match (l, r) {
                (Operation::Insert { .. }, Operation::Delete { .. }) => true,
                _ => false,
            };
            left_key < right_key || (left_key == right_key && !insert_facing_delete)
        },
        (Some(_), None) => true,
        _ => false,
    }
}

/// Where `op` stands in the merge order, with its side's context `own`.
fn merge_key_of(op: &Operation, own: &MergeContext) -> (k: i64)
    ensures
        k == merge_key(op@, own@),
{
    let start = op.start_index();
    let pending = own.pending_end();
    (if start >= pending {
        start
    } else {
        pending
    }) as i64
}

/// A sequence of operations that can be applied to a text document, in the
/// order in which they are applied.
#[derive(Debug, Clone, PartialEq, Eq, Hash, Default)]
pub struct OperationSequence {
    operations: Vec<Operation>,
}

impl OperationSequence {
    /// The operations.
    pub closed spec fn operations_view(&self) -> Seq<EditView> {
        self.operations@.map_values(|o: Operation| o@)
    }

    /// A sequence of the given operations.
    pub fn new(operations: Vec<Operation>) -> (r: Self)
        ensures
            r.operations_view() == operations@.map_values(|o: Operation| o@),
    {
        Self { operations }
    }

    /// Merges two sequences of operations made from the same text into one
    /// that holds the changes of both, by operational transformation.
    ///
    /// # Errors
    ///
    /// Returns a `NegativeOperationIndexError` where an operation shifted by
    /// the changes of the other side would start before the text.
    pub fn merge(&self, other: &Self) -> (r: Result<Self, SyncLibError>)
        ensures
            sync_merge_outcome(
                sync_merge_from(
                    self.operations_view(),
                    other.operations_view(),
                    0,
                    0,
                    fresh_context(),
                    fresh_context(),
                    Seq::empty(),
                ),
                r,
            ),
            forall|original: Seq<char>|
                #![trigger edit_spliced(original, pos_merge(positioned(self.operations_view()), positioned(other.operations_view())))]
                edits_of_length(self.operations_view(), original.len() as int) && edits_of_length(
                    other.operations_view(),
                    original.len() as int,
                ) && edits_apart(self.operations_view(), other.operations_view()) && original.len()
                    + edit_put_total(self.operations_view(), self.operations_view().len() as int)
                    + edit_put_total(other.operations_view(), other.operations_view().len() as int)
                    <= isize::MAX ==> (r matches Ok(s) && edits_applied(s.operations_view(), original)
                    == Some(
                    edit_spliced(
                        original,
                        pos_merge(positioned(self.operations_view()), positioned(other.operations_view())),
                    ),
                )),
    {
        let ghost left = self.operations_view();
        let ghost right = other.operations_view();
        let ghost target = sync_merge_from(left, right, 0, 0, fresh_context(), fresh_context(), Seq::empty());
        let mut merged: Vec<Operation> = Vec::new();
        let mut left_context = MergeContext::fresh();
        let mut right_context = MergeContext::fresh();
        let mut i: usize = 0;
        let mut j: usize = 0;
        proof {
            assert(views(merged@) =~= Seq::<EditView>::empty());
        }
        while i < self.operations.len() || j < other.operations.len()
            invariant
                left == self.operations_view(),
                right == other.operations_view(),
                target == sync_merge_from(left, right, 0, 0, fresh_context(), fresh_context(), Seq::empty()),
                left == views(self.operations@),
                right == views(other.operations@),
                i <= left.len(),
                j <= right.len(),
                sync_merge_from(
                    left,
                    right,
                    i as int,
                    j as int,
                    left_context@,
                    right_context@,
                    views(merged@),
                ) == target,
            decreases left.len() - i + right.len() - j,
        {
            let has_left = i < self.operations.len();
            let has_right = j < other.operations.len();
            proof {
                lemma_sync_merge_step(left, right, i as int, j as int, left_context@, right_context@, views(merged@));
                if has_left {
                    assert(left[i as int] == self.operations@[i as int]@);
                }
                if has_right {
                    assert(right[j as int] == other.operations@[j as int]@);
                }
            }
            let mut left_op: Option<Operation> = None;
            if has_left {
                match shifted_next(&self.operations[i], &mut right_context) {
                    Ok(op) => {
                        left_op = Some(op);
                    },
                    Err(error) => {
                        proof {
                            assert forall|original: Seq<char>|
                                edits_of_length(left, original.len() as int) && edits_of_length(
                                    right,
                                    original.len() as int,
                                ) && edits_apart(left, right) && original.len() + edit_put_total(
                                    left,
                                    left.len() as int,
                                ) + edit_put_total(right, right.len() as int) <= isize::MAX implies false by {
                                lemma_edits_apart_merge(original, left, right);
                            }
                        }
                        return Err(error);
                    },
                }
            }
            let mut right_op: Option<Operation> = None;
            if has_right {
                match shifted_next(&other.operations[j], &mut left_context) {
                    Ok(op) => {
                        right_op = Some(op);
                    },
                    Err(error) => {
                        proof {
                            assert forall|original: Seq<char>|
                                edits_of_length(left, original.len() as int) && edits_of_length(
                                    right,
                                    original.len() as int,
                                ) && edits_apart(left, right) && original.len() + edit_put_total(
                                    left,
                                    left.len() as int,
                                ) + edit_put_total(right, right.len() as int) <= isize::MAX implies false by {
                                lemma_edits_apart_merge(original, left, right);
                            }
                        }
                        return Err(error);
                    },
                }
            }
            let take_left = takes_left_of(&left_op, &right_op, &left_context, &right_context);
            let ghost before = merged@;
            if take_left {
                if let Some(op) = left_op {
                    let result = merge_with_context(op, &mut right_context, &mut left_context);
                    append(&mut merged, result);
                }
                i = i + 1;
            } else {
                if let Some(op) = right_op {
                    let result = merge_with_context(op, &mut left_context, &mut right_context);
                    append(&mut merged, result);
                }
                j = j + 1;
            }
        }
        proof {
            lemma_sync_merge_done(left, right, left_context@, right_context@, views(merged@));
        }
        let r = Self::new(merged);
        proof {
            assert forall|original: Seq<char>|
                edits_of_length(left, original.len() as int) && edits_of_length(
                    right,
                    original.len() as int,
                ) && edits_apart(left, right) && original.len() + edit_put_total(
                    left,
                    left.len() as int,
                ) + edit_put_total(right, right.len() as int) <= isize::MAX implies edits_applied(
                r.operations_view(),
                original,
            ) == Some(#[trigger] edit_spliced(original, pos_merge(positioned(left), positioned(right)))) by {
                lemma_edits_apart_merge(original, left, right);
            }
        }
        Ok(r)
    }

    /// Tries to apply the operations in order to the given rope.
    ///
    /// # Errors
    ///
    /// Returns an `OperationApplicationError` if an operation does not fit
    /// the text; the operations before it stay applied.
    pub fn apply(&self, rope_text: &mut ropey::Rope) -> (r: Result<(), SyncLibError>)
        ensures
            edits_applied(self.operations_view(), rope_chars(*old(rope_text))) matches Some(c) ==> (
            r is Ok && rope_chars(*final(rope_text)) == c),
            edits_applied(self.operations_view(), rope_chars(*old(rope_text))) is None ==> r matches Err(
                SyncLibError::OperationApplicationError(_),
            ),
            rope_chars(*final(rope_text)) == edits_applied_until_stuck(
            self.operations_view(),
            rope_chars(*old(rope_text)),
        ),
    {
        let ghost initial = rope_chars(*rope_text);
        let ghost ops = self.operations_view();
        let mut i: usize = 0;
        proof {
            assert(ops.take(0) =~= Seq::<EditView>::empty());
        }
        while i < self.operations.len()
            invariant
                ops == self.operations@.map_values(|o: Operation| o@),
                0 <= i <= ops.len(),
                initial == rope_chars(*old(rope_text)),
                edits_applied(ops.take(i as int), initial) == Some(rope_chars(*rope_text)),
            decreases self.operations.len() - i,
        {
            proof {
                assert(ops.take(i + 1) =~= ops.take(i as int).push(ops[i as int]));
                assert(ops.take(i + 1).drop_last() =~= ops.take(i as int));
            }
            let result = self.operations[i].apply(rope_text);
            match result {
                Ok(()) => {},
                Err(error) => {
                    proof {
                        lemma_edits_stuck(ops, i + 1, initial);
                        lemma_edits_applied_until_stuck_at(ops, i as int, ops.len() as int, initial, rope_chars(*rope_text));
                        assert(ops.take(ops.len() as int) =~= ops);
                    }
                    return Err(error);
                },
            }
            i = i + 1;
        }
        proof {
            assert(ops.take(i as int) =~= ops);
            lemma_edits_applied_until_stuck_fits(ops, initial);
        }
        Ok(())
    }
}

/// Which text a piece of a diff comes from: both, only the new one, or only
/// the old one.
#[derive(Debug, Clone, Copy, PartialEq, Eq, Structural)]
pub enum DiffTag {
    Equal,
    Insert,
    Delete,
}

/// The pieces of a diff with their texts as characters.
pub open spec fn pieces_view(pieces: Seq<(DiffTag, String)>) -> Seq<(DiffTag, Seq<char>)> {
    pieces.map_values(|p: (DiffTag, String)| (p.0, p.1@))
}

/// The old text of a diff: its equal and deleted pieces in order.
pub open spec fn diff_old(pieces: Seq<(DiffTag, Seq<char>)>) -> Seq<char>
    decreases pieces.len(),
{
    if pieces.len() == 0 {
        Seq::empty()
    } else {
        diff_old(pieces.drop_last()) + match pieces.last().0 {
            DiffTag::Insert => Seq::<char>::empty(),
            _ => pieces.last().1,
        }
    }
}

/// The new text of a diff: its equal and inserted pieces in order.
pub open spec fn diff_new(pieces: Seq<(DiffTag, Seq<char>)>) -> Seq<char>
    decreases pieces.len(),
{
    if pieces.len() == 0 {
        Seq::empty()
    } else {
        diff_new(pieces.drop_last()) + match pieces.last().0 {
            DiffTag::Delete => Seq::<char>::empty(),
            _ => pieces.last().1,
        }
    }
}

/// The operations that the pieces of a diff stand for: an insert of each
/// inserted piece and a delete of each deleted one, at the index in the new
/// text that the pieces before it reach; empty pieces stand for nothing.
pub open spec fn diff_edits(pieces: Seq<(DiffTag, Seq<char>)>) -> Seq<EditView>
    decreases pieces.len(),
{
    if pieces.len() == 0 {
        Seq::empty()
    } else {
        let before = diff_edits(pieces.drop_last());
        let index = diff_new(pieces.drop_last()).len() as usize;
        let text = pieces.last().1;
        if text.len() == 0 {
            before
        } else {
            match pieces.last().0 {
                DiffTag::Equal => before,
                DiffTag::Insert => before.push(EditView::Insert { index, text }),
                DiffTag::Delete => before.push(
                    EditView::Delete { index, count: text.len() as usize },
                ),
            }
        }
    }
}

/// The old and new texts of the first `k` pieces begin those of all of them.
proof fn lemma_diff_prefix(pieces: Seq<(DiffTag, Seq<char>)>, k: int)
    requires
        0 <= k <= pieces.len(),
    ensures
        diff_old(pieces.take(k)).len() <= diff_old(pieces).len(),
        diff_old(pieces).take(diff_old(pieces.take(k)).len() as int) == diff_old(pieces.take(k)),
        diff_new(pieces.take(k)).len() <= diff_new(pieces).len(),
        diff_new(pieces).take(diff_new(pieces.take(k)).len() as int) == diff_new(pieces.take(k)),
    decreases pieces.len() - k,
{
    if k < pieces.len() {
        lemma_diff_prefix(pieces, k + 1);
        assert(pieces.take(k + 1).drop_last() =~= pieces.take(k));
        let o1 = diff_old(pieces.take(k));
        let o2 = diff_old(pieces.take(k + 1));
        let n1 = diff_new(pieces.take(k));
        let n2 = diff_new(pieces.take(k + 1));
        assert(o2.take(o1.len() as int) =~= o1);
        assert(n2.take(n1.len() as int) =~= n1);
        assert(diff_old(pieces).take(o1.len() as int) =~= o2.take(o1.len() as int));
        assert(diff_new(pieces).take(n1.len() as int) =~= n2.take(n1.len() as int));
    } else {
        assert(pieces.take(k) =~= pieces);
        assert(diff_old(pieces).take(diff_old(pieces).len() as int) =~= diff_old(pieces));
        assert(diff_new(pieces).take(diff_new(pieces).len() as int) =~= diff_new(pieces));
    }
}

/// Applying the operations of the first `k` pieces to the old text gives
/// their new text followed by the rest of the old text.
proof fn lemma_diff_edits_prefix(pieces: Seq<(DiffTag, Seq<char>)>, k: int)
    requires
        0 <= k <= pieces.len(),
        diff_old(pieces).len() + diff_new(pieces).len() <= usize::MAX,
    ensures
        edits_applied(diff_edits(pieces.take(k)), diff_old(pieces)) == Some(
            diff_new(pieces.take(k)) + diff_old(pieces).skip(diff_old(pieces.take(k)).len() as int),
        ),
    decreases k,
{
    let old = diff_old(pieces);
    if k == 0 {
        assert(pieces.take(0) =~= Seq::<(DiffTag, Seq<char>)>::empty());
        assert(old.skip(0) =~= old);
        assert(Seq::<char>::empty() + old =~= old);
    } else {
        lemma_diff_edits_prefix(pieces, k - 1);
        lemma_diff_prefix(pieces, k);
        lemma_diff_prefix(pieces, k - 1);
        let p = pieces.take(k);
        assert(p.drop_last() =~= pieces.take(k - 1));
        let o1 = diff_old(pieces.take(k - 1));
        let n1 = diff_new(pieces.take(k - 1));
        let o2 = diff_old(p);
        let n2 = diff_new(p);
        let t = p.last().1;
        let rest1 = old.skip(o1.len() as int);
        let before = diff_edits(pieces.take(k - 1));
        assert(edits_applied(before, old) == Some(n1 + rest1));
        if t.len() == 0 {
            assert(o2 =~= o1);
            assert(n2 =~= n1);
        } else {
            match p.last().0 {
                DiffTag::Equal => {
                    assert(o2 == o1 + t);
                    assert(n2 == n1 + t);
                    assert(old.take(o2.len() as int) == o2);
                    assert(rest1 =~= t + old.skip(o2.len() as int)) by {
                        assert forall|j: int| 0 <= j < t.len() implies rest1[j] == t[j] by {
                            assert(old.take(o2.len() as int)[o1.len() + j] == o2[o1.len() + j]);
                        }
                    }
                    assert(n1 + rest1 =~= n2 + old.skip(o2.len() as int));
                },
                DiffTag::Insert => {
                    assert(o2 == o1 + Seq::<char>::empty());
                    assert(o2 =~= o1);
                    assert(n2 == n1 + t);
                    let e = EditView::Insert { index: n1.len() as usize, text: t };
                    assert(diff_edits(p) == before.push(e));
                    assert(before.push(e).drop_last() =~= before);
                    let c = n1 + rest1;
                    assert(c.take(n1.len() as int) =~= n1);
                    assert(c.skip(n1.len() as int) =~= rest1);
                    assert(c.take(n1.len() as int) + t + c.skip(n1.len() as int) =~= n2 + rest1);
                },
                DiffTag::Delete => {
                    assert(o2 == o1 + t);
                    assert(n2 == n1 + Seq::<char>::empty());
                    assert(n2 =~= n1);
                    assert(old.take(o2.len() as int) == o2);
                    let e = EditView::Delete { index: n1.len() as usize, count: t.len() as usize };
                    assert(diff_edits(p) == before.push(e));
                    assert(before.push(e).drop_last() =~= before);
                    let c = n1 + rest1;
                    assert(wrapping_add(n1.len() as usize, t.len() as usize) == n1.len() + t.len());
                    assert(c.take(n1.len() as int) =~= n1);
                    assert(c.skip(n1.len() + t.len() as int) =~= old.skip(o2.len() as int));
                    assert(c.take(n1.len() as int) + c.skip(n1.len() + t.len() as int) =~= n2 + old.skip(
                        o2.len() as int,
                    ));
                },
            }
        }
    }
}

/// Applying the operations that the pieces of a diff stand for to its old
/// text gives its new text.
pub proof fn lemma_diff_edits_applied(pieces: Seq<(DiffTag, Seq<char>)>)
    requires
        diff_old(pieces).len() + diff_new(pieces).len() <= usize::MAX,
    ensures
        edits_applied(diff_edits(pieces), diff_old(pieces)) == Some(diff_new(pieces)),
{
    lemma_diff_edits_prefix(pieces, pieces.len() as int);
    assert(pieces.take(pieces.len() as int) =~= pieces);
    assert(diff_new(pieces) + diff_old(pieces).skip(diff_old(pieces).len() as int) =~= diff_new(
        pieces,
    ));
}

impl OperationSequence {
    /// The operations that the pieces of a diff from an old text to a new one
    /// stand for, in order: equal pieces move the index on, inserted pieces
    /// are inserted at it and move it on, deleted pieces are deleted at it.
    pub fn from_diff_pieces(pieces: &Vec<(DiffTag, String)>) -> (r: Self)
        requires
            diff_new(pieces_view(pieces@)).len() <= usize::MAX,
        ensures
            r.operations_view() == diff_edits(pieces_view(pieces@)),
            diff_old(pieces_view(pieces@)).len() + diff_new(pieces_view(pieces@)).len() <= usize::MAX
                ==> edits_applied(r.operations_view(), diff_old(pieces_view(pieces@))) == Some(
                diff_new(pieces_view(pieces@)),
            ),
            diff_old(pieces_view(pieces@)).len() + diff_new(pieces_view(pieces@)).len() <= usize::MAX
                ==> edits_of_length(
                r.operations_view(),
                diff_old(pieces_view(pieces@)).len() as int,
            ) && edit_put_total(r.operations_view(), r.operations_view().len() as int) <= diff_new(
                pieces_view(pieces@),
            ).len(),
    {
        let ghost all = pieces_view(pieces@);
        let mut index: usize = 0;
        let mut operations: Vec<Operation> = Vec::new();
        let mut i: usize = 0;
        while i < pieces.len()
            invariant
                all == pieces_view(pieces@),
                diff_new(all).len() <= usize::MAX,
                0 <= i <= pieces.len(),
                index == diff_new(all.take(i as int)).len(),
                operations@.map_values(|o: Operation| o@) == diff_edits(all.take(i as int)),
            decreases pieces.len() - i,
        {
            proof {
                assert(all.take(i + 1).drop_last() =~= all.take(i as int));
                lemma_diff_prefix(all, i + 1);
            }
            let tag = pieces[i].0;
            let text = &pieces[i].1;
            let count = crate::text::char_count(text);
            let ghost before = operations@;
            match tag {
                DiffTag::Equal => {
                    index = index + count;
                },
                DiffTag::Insert => {
                    if let Ok(Some(op)) = Operation::create_insert(index, text.as_str()) {
                        operations.push(op);
                        proof {
                            assert(operations@ =~= before.push(op));
                            assert(operations@.map_values(|o: Operation| o@) =~= before.map_values(
                                |o: Operation| o@,
                            ).push(op@));
                        }
                    }
                    index = index + count;
                },
                DiffTag::Delete => {
                    if let Ok(Some(op)) = Operation::create_delete(index, count) {
                        operations.push(op);
                        proof {
                            assert(operations@ =~= before.push(op));
                            assert(operations@.map_values(|o: Operation| o@) =~= before.map_values(
                                |o: Operation| o@,
                            ).push(op@));
                        }
                    }
                },
            }
            i = i + 1;
        }
        proof {
            assert(all.take(i as int) =~= all);
            if diff_old(all).len() + diff_new(all).len() <= usize::MAX {
                lemma_diff_edits_applied(all);
                lemma_diff_edits_shape(all);
            }
        }
        OperationSequence::new(operations)
    }
}

} // verus!
