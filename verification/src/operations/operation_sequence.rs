//! A sequence of operations on a rope, and the merge of two of them.
use vstd::prelude::*;

use super::operation::{
    applied_to, delete_of, fits_usize, len64, negative_index_message, op_end, op_index, op_len,
    op_with_index, opt_view, shifted_index, OpView, Operation,
};
use crate::diffs::lcs::{diff, diff_steps, is_edit_script, only_equal};
use crate::diffs::raw_operation::{lemma_sides_push, new_side, old_side, raw_new, raw_old, raw_tokens, step_of, steps_of, RawOperation, StepKind};
use crate::errors::SyncLibError;
use super::separated_merge::{
    growth, lemma_sequence_empty, lemma_sequence_extend, lemma_sequence_push,
    lemma_sequences_apart_merge, put_in_total, sequence_of_length, sequence_spliced, sequences_apart,
};
use crate::operation_transformation::separated_edits::pos_merge;
use crate::rope::rope_chars;
use crate::tokenizer::token::{flatten, lemma_flatten_append, lemma_flatten_push, originals, Token};
use vstd::wrapping::i64_specs;
use vstd::wrapping::usize_specs::wrapping_add;

verus! {

/// What the operations of one side leave behind for the merge of the other
/// side's operations: a delete that may still cover them and how far their
/// indices are shifted.
#[derive(Debug)]
struct MergeContext {
    last_delete: Option<Operation>,
    shift: i64,
}

/// The mathematical value of a merge context.
pub struct ContextView {
    pub last_delete: Option<OpView>,
    pub shift: i64,
}

/// The context that nothing has touched yet.
pub open spec fn empty_context() -> ContextView {
    ContextView { last_delete: None, shift: 0 }
}

impl MergeContext {
    spec fn view(&self) -> ContextView {
        ContextView { last_delete: opt_view(self.last_delete), shift: self.shift }
    }
}

/// `c` after its last delete was dropped, if it ends before an operation at
/// `index` (in the other side's coordinates) starts.
pub open spec fn picked_up(c: ContextView, index: usize) -> ContextView {
    match c.last_delete {
        Some(d) => if i64_specs::wrapping_add(index as i64, c.shift) > op_end(d) as i64 {
            ContextView { last_delete: None, shift: i64_specs::wrapping_sub(c.shift, len64(d)) }
        } else {
            c
        },
        None => c,
    }
}

/// `p` with its last delete replaced by `delete`, the replaced one's length
/// taken off the shift.
pub open spec fn replaced(p: ContextView, delete: Option<OpView>) -> ContextView {
    ContextView {
        last_delete: delete,
        shift: match p.last_delete {
            Some(d) => i64_specs::wrapping_sub(p.shift, len64(d)),
            None => p.shift,
        },
    }
}

/// `0.max(a - b)` in `i64`.
pub open spec fn nonneg_difference(a: i64, b: i64) -> i64 {
    let d = i64_specs::wrapping_sub(a, b);
    if d < 0 {
        0
    } else {
        d
    }
}

/// What merging an (already shifted) operation against the affecting context
/// `a` and the produced context `p` gives: the merged operation and the two
/// new contexts.
pub open spec fn merge_step(op: OpView, a: ContextView, p: ContextView) -> (
    Option<OpView>,
    ContextView,
    ContextView,
) {
    match (op, a.last_delete) {
        (OpView::Insert { .. }, None) => (
            Some(op),
            a,
            ContextView { shift: i64_specs::wrapping_add(p.shift, len64(op)), ..p },
        ),
        (OpView::Delete { .. }, None) => (Some(op), a, replaced(p, Some(op))),
        (OpView::Insert { .. }, Some(last_delete)) => {
            let difference = i64_specs::wrapping_sub(
                op_index(op) as i64,
                op_index(last_delete) as i64,
            );
            let moved = op_with_index(op, op_index(last_delete));
            (
                Some(moved),
                ContextView {
                    last_delete: delete_of(
                        wrapping_add(op_end(moved), 1),
                        i64_specs::wrapping_sub(len64(last_delete), difference) as usize,
                    ),
                    shift: i64_specs::wrapping_sub(a.shift, difference),
                },
                ContextView { shift: i64_specs::wrapping_add(p.shift, len64(op)), ..p },
            )
        },
        (OpView::Delete { .. }, Some(last_delete)) => {
            let difference = i64_specs::wrapping_sub(
                op_index(op) as i64,
                op_index(last_delete) as i64,
            );
            let updated = delete_of(
                op_index(last_delete),
                nonneg_difference(op_end(op) as i64, op_end(last_delete) as i64) as usize,
            );
            (
                updated,
                ContextView {
                    last_delete: delete_of(
                        op_index(last_delete),
                        nonneg_difference(op_end(last_delete) as i64, op_end(op) as i64) as usize,
                    ),
                    shift: i64_specs::wrapping_sub(a.shift, difference),
                },
                replaced(p, updated),
            )
        },
    }
}

/// The operations of an optional operation.
pub open spec fn as_seq(op: Option<OpView>) -> Seq<OpView> {
    match op {
        Some(o) => seq![o],
        None => Seq::empty(),
    }
}

/// The merge of `left[i..]` and `right[j..]` given the contexts so far and
/// the operations merged so far: the merged operations, or the shifted index
/// that was not a valid index. Operations are taken by their order, the left
/// one on a tie.
#[verifier::opaque]
pub open spec fn merge_from(
    left: Seq<(usize, OpView)>,
    right: Seq<(usize, OpView)>,
    i: int,
    j: int,
    left_context: ContextView,
    right_context: ContextView,
    merged: Seq<OpView>,
) -> Result<Seq<OpView>, i64>
    decreases left.len() - i + right.len() - j,
{
    if i < 0 || j < 0 || i > left.len() || j > right.len() || (i >= left.len() && j >= right.len()) {
        Ok(merged)
    } else if i < left.len() && (j >= right.len() || left[i].0 <= right[j].0) {
        let op = left[i].1;
        let affecting = picked_up(right_context, op_index(op));
        let index = shifted_index(op_index(op), affecting.shift);
        if !fits_usize(index) {
            Err(index)
        } else {
            let (result, affecting2, produced2) = merge_step(
                op_with_index(op, index as usize),
                affecting,
                left_context,
            );
            merge_from(left, right, i + 1, j, produced2, affecting2, merged + as_seq(result))
        }
    } else {
        let op = right[j].1;
        let affecting = picked_up(left_context, op_index(op));
        let index = shifted_index(op_index(op), affecting.shift);
        if !fits_usize(index) {
            Err(index)
        } else {
            let (result, affecting2, produced2) = merge_step(
                op_with_index(op, index as usize),
                affecting,
                right_context,
            );
            merge_from(left, right, i, j + 1, affecting2, produced2, merged + as_seq(result))
        }
    }
}

/// What applying `ops` in order to a text holding `chars` gives, or nothing
/// when one of them does not fit.
pub open spec fn apply_all(ops: Seq<(usize, OpView)>, chars: Seq<char>) -> Option<Seq<char>>
    decreases ops.len(),
{
    if ops.len() == 0 {
        Some(chars)
    } else {
        match apply_all(ops.drop_last(), chars) {
            Some(c) => applied_to(ops.last().1, c),
            None => None,
        }
    }
}

/// `r` is what the merge returns when the spec merge gives `spec`: the
/// merged operations with order 0, or the error for the invalid index.
pub open spec fn merge_outcome(
    spec: Result<Seq<OpView>, i64>,
    r: Result<OperationSequence, SyncLibError>,
) -> bool {
    match spec {
        Ok(merged) => r matches Ok(s) && s.operations_view() == unordered(merged),
        Err(index) => r matches Err(SyncLibError::NegativeOperationIndexError(message))
            && message@ == negative_index_message(index),
    }
}

/// The operations with order 0, as the merge gives them.
pub open spec fn unordered(ops: Seq<OpView>) -> Seq<(usize, OpView)> {
    ops.map_values(|o: OpView| (0usize, o))
}

/// The views of a list of ordered operations.
pub open spec fn ops_view(ops: Seq<(usize, Operation)>) -> Seq<(usize, OpView)> {
    ops.map_values(|o: (usize, Operation)| (o.0, o.1@))
}

/// `tokens` split `text` after each whitespace character, each token's
/// normalised form being its original form.
pub open spec fn is_whitespace_tokenization(tokens: Seq<Token>, text: Seq<char>) -> bool {
    &&& flatten(tokens) == text
    &&& crate::text::is_split_after_whitespace(originals(tokens), text)
    &&& forall|k: int| 0 <= k < tokens.len() ==> (#[trigger] tokens[k]).norm() == tokens[k].orig()
}

/// The operations that cooking the steps from the `i`th on gives, with the
/// next operation starting at `new_index` in the new text and at
/// `old_index` in the original text: kept runs give nothing, an insertion
/// an insert of its text, a deletion a delete of its text; steps without
/// characters give nothing.
pub open spec fn text_cooked_from(
    steps: Seq<(StepKind, Seq<Token>)>,
    i: int,
    new_index: usize,
    old_index: usize,
) -> Seq<(usize, OpView)>
    decreases steps.len() - i,
{
    if i < 0 || i >= steps.len() {
        Seq::empty()
    } else {
        let text = flatten(steps[i].1);
        let len = text.len() as usize;
        match steps[i].0 {
            StepKind::Equal => text_cooked_from(
                steps,
                i + 1,
                wrapping_add(new_index, len),
                wrapping_add(old_index, len),
            ),
            StepKind::Insert => (if text.len() > 0 {
                seq![(old_index, OpView::Insert { index: new_index, text })]
            } else {
                Seq::empty()
            }) + text_cooked_from(steps, i + 1, wrapping_add(new_index, len), old_index),
            StepKind::Delete => (if text.len() > 0 {
                seq![
                    (
                        old_index,
                        OpView::Delete { index: new_index, count: len, deleted_text: Some(text) },
                    ),
                ]
            } else {
                Seq::empty()
            }) + text_cooked_from(steps, i + 1, new_index, wrapping_add(old_index, len)),
        }
    }
}

/// `ops` are the operations of the edit from `original` to `updated`:
/// the LCS diff of their whitespace tokenizations, cooked.
pub open spec fn text_edit(original: Seq<char>, updated: Seq<char>, ops: Seq<(usize, OpView)>) -> bool {
    exists|original_tokens: Seq<Token>, updated_tokens: Seq<Token>|
        #![trigger is_whitespace_tokenization(original_tokens, original), is_whitespace_tokenization(updated_tokens, updated)]
        is_whitespace_tokenization(original_tokens, original) && is_whitespace_tokenization(
            updated_tokens,
            updated,
        ) && ops == text_cooked_from(diff_steps(original_tokens, updated_tokens), 0, 0, 0)
}

/// Every whitespace tokenization of `text` has at most `u32::MAX` tokens.
pub open spec fn token_count_fits(text: Seq<char>) -> bool {
    forall|tokens: Seq<Token>| #[trigger] is_whitespace_tokenization(tokens, text) ==> tokens.len() <= u32::MAX
}

/// A sequence of operations that can be applied to a text document.
/// `OperationSequence` supports merging two sequences of operations using the
/// principle of Operational Transformation.
///
/// It's mainly created through the `from_strings` method, then merged with
/// another `OperationSequence` derived from the same original text and then
/// applied to the original text to get the reconciled text of concurrent
/// edits.
#[derive(Debug, Clone, PartialEq, Eq, Hash, Default)]
pub struct OperationSequence {
    operations: Vec<(usize, Operation)>,
}

impl OperationSequence {
    /// The operations and the positions in the original text they belong
    /// to.
    pub closed spec fn operations_view(&self) -> Seq<(usize, OpView)> {
        ops_view(self.operations@)
    }

    /// Creates a new `OperationSequence` with the given operations, which
    /// should be in the order in which they are applied.
    pub fn new(operations: Vec<(usize, Operation)>) -> (r: Self)
        ensures
            r.operations_view() == ops_view(operations@),
    {
        OperationSequence { operations }
    }

    /// The number of operations.
    pub fn operation_count(&self) -> (n: usize)
        ensures
            n == self.operations_view().len(),
    {
        self.operations.len()
    }
}


/// One step of `merge_from` that takes the left operation.
pub(crate) proof fn lemma_merge_from_left(
    left: Seq<(usize, OpView)>,
    right: Seq<(usize, OpView)>,
    i: int,
    j: int,
    lc: ContextView,
    rc: ContextView,
    merged: Seq<OpView>,
)
    requires
        0 <= i < left.len(),
        0 <= j <= right.len(),
        j >= right.len() || left[i].0 <= right[j].0,
    ensures
        ({
            let op = left[i].1;
            let affecting = picked_up(rc, op_index(op));
            let index = shifted_index(op_index(op), affecting.shift);
            merge_from(left, right, i, j, lc, rc, merged) == if !fits_usize(index) {
                Err(index)
            } else {
                let (result, affecting2, produced2) = merge_step(
                    op_with_index(op, index as usize),
                    affecting,
                    lc,
                );
                merge_from(left, right, i + 1, j, produced2, affecting2, merged + as_seq(result))
            }
        }),
{
    reveal(merge_from);
}

/// One step of `merge_from` that takes the right operation.
pub(crate) proof fn lemma_merge_from_right(
    left: Seq<(usize, OpView)>,
    right: Seq<(usize, OpView)>,
    i: int,
    j: int,
    lc: ContextView,
    rc: ContextView,
    merged: Seq<OpView>,
)
    requires
        0 <= i <= left.len(),
        0 <= j < right.len(),
        i >= left.len() || left[i].0 > right[j].0,
    ensures
        ({
            let op = right[j].1;
            let affecting = picked_up(lc, op_index(op));
            let index = shifted_index(op_index(op), affecting.shift);
            merge_from(left, right, i, j, lc, rc, merged) == if !fits_usize(index) {
                Err(index)
            } else {
                let (result, affecting2, produced2) = merge_step(
                    op_with_index(op, index as usize),
                    affecting,
                    rc,
                );
                merge_from(left, right, i, j + 1, affecting2, produced2, merged + as_seq(result))
            }
        }),
{
    reveal(merge_from);
}

/// `merge_from` when both lists are used up.
pub(crate) proof fn lemma_merge_from_done(
    left: Seq<(usize, OpView)>,
    right: Seq<(usize, OpView)>,
    lc: ContextView,
    rc: ContextView,
    merged: Seq<OpView>,
)
    ensures
        merge_from(left, right, left.len() as int, right.len() as int, lc, rc, merged) == Ok::<
            Seq<OpView>,
            i64,
        >(merged),
{
    reveal(merge_from);
}

/// The operations of a list of ordered operations.
pub open spec fn plain(ops: Seq<(usize, OpView)>) -> Seq<OpView> {
    ops.map_values(|o: (usize, OpView)| o.1)
}

/// Every operation's index is at most `i64::MAX`, so that shifting it by 0
/// keeps it.
pub open spec fn indices_fit_i64(ops: Seq<(usize, OpView)>) -> bool {
    forall|k: int| 0 <= k < ops.len() ==> op_index(#[trigger] ops[k].1) <= i64::MAX
}

proof fn lemma_unshifted(op: OpView)
    requires
        op_index(op) <= i64::MAX,
    ensures
        fits_usize(shifted_index(op_index(op), 0)),
        op_with_index(op, shifted_index(op_index(op), 0) as usize) == op,
{
    let x = op_index(op);
    assert(i64_specs::wrapping_add(x as i64, 0) == x as i64);
    assert((x as i64) as usize == x);
}

proof fn lemma_merge_from_only_left(
    left: Seq<(usize, OpView)>,
    i: int,
    lc: ContextView,
    merged: Seq<OpView>,
)
    requires
        0 <= i <= left.len(),
        indices_fit_i64(left),
    ensures
        merge_from(left, Seq::empty(), i, 0, lc, empty_context(), merged) == Ok::<
            Seq<OpView>,
            i64,
        >(merged + plain(left).skip(i)),
    decreases left.len() - i,
{
    if i == left.len() {
        lemma_merge_from_done(left, Seq::empty(), lc, empty_context(), merged);
        assert(merged + plain(left).skip(i) =~= merged);
    } else {
        lemma_merge_from_left(left, Seq::empty(), i, 0, lc, empty_context(), merged);
        let op = left[i].1;
        lemma_unshifted(op);
        let (result, a2, p2) = merge_step(op, empty_context(), lc);
        assert(result == Some(op) && a2 == empty_context());
        lemma_merge_from_only_left(left, i + 1, p2, merged + seq![op]);
        assert(merged + seq![op] + plain(left).skip(i + 1) =~= merged + plain(left).skip(i));
    }
}

proof fn lemma_merge_from_only_right(
    right: Seq<(usize, OpView)>,
    j: int,
    rc: ContextView,
    merged: Seq<OpView>,
)
    requires
        0 <= j <= right.len(),
        indices_fit_i64(right),
    ensures
        merge_from(Seq::empty(), right, 0, j, empty_context(), rc, merged) == Ok::<
            Seq<OpView>,
            i64,
        >(merged + plain(right).skip(j)),
    decreases right.len() - j,
{
    if j == right.len() {
        lemma_merge_from_done(Seq::empty(), right, empty_context(), rc, merged);
        assert(merged + plain(right).skip(j) =~= merged);
    } else {
        lemma_merge_from_right(Seq::empty(), right, 0, j, empty_context(), rc, merged);
        let op = right[j].1;
        lemma_unshifted(op);
        let (result, a2, p2) = merge_step(op, empty_context(), rc);
        assert(result == Some(op) && a2 == empty_context());
        lemma_merge_from_only_right(right, j + 1, p2, merged + seq![op]);
        assert(merged + seq![op] + plain(right).skip(j + 1) =~= merged + plain(right).skip(j));
    }
}

proof fn lemma_apply_unordered(ops: Seq<(usize, OpView)>, chars: Seq<char>)
    ensures
        apply_all(unordered(plain(ops)), chars) == apply_all(ops, chars),
    decreases ops.len(),
{
    if ops.len() > 0 {
        lemma_apply_unordered(ops.drop_last(), chars);
        assert(unordered(plain(ops)).drop_last() =~= unordered(plain(ops.drop_last())));
    }
}

/// Merging a sequence of operations with one that has none, on either side,
/// gives a sequence that does to a text what the first one does.
pub proof fn lemma_merge_with_unchanged_side(ops: Seq<(usize, OpView)>, chars: Seq<char>)
    requires
        indices_fit_i64(ops),
    ensures
        merge_from(ops, Seq::empty(), 0, 0, empty_context(), empty_context(), Seq::empty()) matches Ok(m)
            && apply_all(unordered(m), chars) == apply_all(ops, chars),
        merge_from(Seq::empty(), ops, 0, 0, empty_context(), empty_context(), Seq::empty()) matches Ok(m)
            && apply_all(unordered(m), chars) == apply_all(ops, chars),
{
    lemma_merge_from_only_left(ops, 0, empty_context(), Seq::empty());
    lemma_merge_from_only_right(ops, 0, empty_context(), Seq::empty());
    assert(Seq::<OpView>::empty() + plain(ops).skip(0) =~= plain(ops));
    lemma_apply_unordered(ops, chars);
}

/// A copy of an optional operation.
fn copy_operation(op: &Option<Operation>) -> (r: Option<Operation>)
    ensures
        opt_view(r) == opt_view(*op),
{
    match op {
        Some(o) => Some(o.with_index(o.start_index())),
        None => None,
    }
}

/// `0.max(x)`.
fn non_negative(x: i64) -> (r: i64)
    ensures
        r == (if x < 0 {
            0
        } else {
            x
        }),
{
    if x < 0 {
        0
    } else {
        x
    }
}

impl OperationSequence {
    fn merge_operations_with_context(
        aligned_operation: Operation,
        affecting_context: &mut MergeContext,
        produced_context: &mut MergeContext,
    ) -> (r: Option<Operation>)
        ensures
            (opt_view(r), final(affecting_context).view(), final(produced_context).view())
                == merge_step(aligned_operation@, old(affecting_context).view(), old(produced_context).view()),
    {
        let last_delete = copy_operation(&affecting_context.last_delete);
        match (aligned_operation, last_delete) {
            (operation @ Operation::Insert { .. }, None) => {
                produced_context.shift = produced_context.shift.wrapping_add(operation.len() as i64);
                Some(operation)
            },
            (operation @ Operation::Delete { .. }, None) => {
                let copy = operation.with_index(operation.start_index());
                Self::replace_delete_in_produced_context(produced_context, Some(copy));
                Some(operation)
            },
            (operation @ Operation::Insert { .. }, Some(last_delete)) => {
                produced_context.shift = produced_context.shift.wrapping_add(operation.len() as i64);
                let difference = (operation.start_index() as i64).wrapping_sub(
                    last_delete.start_index() as i64,
                );
                let moved_operation = operation.with_index(last_delete.start_index());
                affecting_context.last_delete = Operation::create_delete(
                    moved_operation.end_index().wrapping_add(1),
                    (last_delete.len() as i64).wrapping_sub(difference) as usize,
                );
                affecting_context.shift = affecting_context.shift.wrapping_sub(difference);
                Some(moved_operation)
            },
            (operation @ Operation::Delete { .. }, Some(last_delete)) => {
                let difference = (operation.start_index() as i64).wrapping_sub(
                    last_delete.start_index() as i64,
                );
                let updated_delete = Operation::create_delete(
                    last_delete.start_index(),
                    non_negative(
                        (operation.end_index() as i64).wrapping_sub(last_delete.end_index() as i64),
                    ) as usize,
                );
                affecting_context.shift = affecting_context.shift.wrapping_sub(difference);
                affecting_context.last_delete = Operation::create_delete(
                    last_delete.start_index(),
                    non_negative(
                        (last_delete.end_index() as i64).wrapping_sub(operation.end_index() as i64),
                    ) as usize,
                );
                Self::replace_delete_in_produced_context(
                    produced_context,
                    copy_operation(&updated_delete),
                );
                updated_delete
            },
        }
    }

    fn replace_delete_in_produced_context(
        produced_context: &mut MergeContext,
        delete: Option<Operation>,
    )
        ensures
            final(produced_context).view() == replaced(old(produced_context).view(), opt_view(delete)),
    {
        let previous = produced_context.last_delete.take();
        if let Some(produced_last_delete) = previous {
            produced_context.shift = produced_context.shift.wrapping_sub(
                produced_last_delete.len() as i64,
            );
        }
        produced_context.last_delete = delete;
    }

    fn pick_up_dangling_delete_from_affecting_context(
        start_index: usize,
        affecting_context: &mut MergeContext,
    )
        ensures
            final(affecting_context).view() == picked_up(old(affecting_context).view(), start_index),
    {
        let behind = match &affecting_context.last_delete {
            Some(last_delete) => (start_index as i64).wrapping_add(affecting_context.shift)
                > last_delete.end_index() as i64,
            None => false,
        };
        if behind {
            let previous = affecting_context.last_delete.take();
            if let Some(last_delete) = previous {
                affecting_context.shift = affecting_context.shift.wrapping_sub(
                    last_delete.len() as i64,
                );
            }
        }
    }

    /// Merges two sequences derived from the same text into one that holds
    /// the changes of both. Operations are taken in the order of their
    /// position in the original text, the left one on a tie, and each is moved
    /// past the changes of the other side that came before it.
    ///
    /// # Errors
    ///
    /// Returns a `NegativeOperationIndexError` if an operation would be moved
    /// to a negative index.
    #[verifier::rlimit(40)]
    pub fn merge(&self, other: &Self) -> (r: Result<Self, SyncLibError>)
        ensures
            merge_outcome(
                merge_from(
                    self.operations_view(),
                    other.operations_view(),
                    0,
                    0,
                    empty_context(),
                    empty_context(),
                    Seq::empty(),
                ),
                r,
            ),
            forall|original: Seq<char>|
                #![trigger sequence_spliced(original, pos_merge(self.operations_view(), other.operations_view()))]
                sequence_of_length(self.operations_view(), original.len() as int) && sequence_of_length(
                    other.operations_view(),
                    original.len() as int,
                ) && sequences_apart(self.operations_view(), other.operations_view()) && original.len()
                    + put_in_total(self.operations_view(), self.operations_view().len() as int)
                    + put_in_total(other.operations_view(), other.operations_view().len() as int)
                    <= isize::MAX ==> (r matches Ok(s) && apply_all(s.operations_view(), original)
                    == Some(
                    sequence_spliced(
                        original,
                        pos_merge(self.operations_view(), other.operations_view()),
                    ),
                )),
    {
        let ghost left = self.operations_view();
        let ghost right = other.operations_view();
        let ghost total = merge_from(left, right, 0, 0, empty_context(), empty_context(), Seq::empty());
        let mut merged_operations: Vec<Operation> = Vec::new();
        let mut left_merge_context = MergeContext { last_delete: None, shift: 0 };
        let mut right_merge_context = MergeContext { last_delete: None, shift: 0 };
        let mut left_index: usize = 0;
        let mut right_index: usize = 0;
        proof {
            assert(merged_operations@.map_values(|o: Operation| o@) =~= Seq::<OpView>::empty());
        }
        while left_index < self.operations.len() || right_index < other.operations.len()
            invariant
                left == ops_view(self.operations@),
                right == ops_view(other.operations@),
                total == merge_from(left, right, 0, 0, empty_context(), empty_context(), Seq::empty()),
                left_index <= self.operations@.len(),
                right_index <= other.operations@.len(),
                total == merge_from(
                    left,
                    right,
                    left_index as int,
                    right_index as int,
                    left_merge_context.view(),
                    right_merge_context.view(),
                    merged_operations@.map_values(|o: Operation| o@),
                ),
            decreases self.operations@.len() - left_index + other.operations@.len() - right_index,
        {
            let take_left = if left_index < self.operations.len() && right_index
                < other.operations.len() {
                self.operations[left_index].0 <= other.operations[right_index].0
            } else {
                left_index < self.operations.len()
            };
            let ghost merged_before = merged_operations@.map_values(|o: Operation| o@);
            proof {
                if left_index < self.operations@.len() {
                    assert(left[left_index as int] == (self.operations@[left_index as int].0, self.operations@[left_index as int].1@));
                }
                if right_index < other.operations@.len() {
                    assert(right[right_index as int] == (other.operations@[right_index as int].0, other.operations@[right_index as int].1@));
                }
                if take_left {
                    lemma_merge_from_left(left, right, left_index as int, right_index as int, left_merge_context.view(), right_merge_context.view(), merged_before);
                } else {
                    lemma_merge_from_right(left, right, left_index as int, right_index as int, left_merge_context.view(), right_merge_context.view(), merged_before);
                }
            }
            let result = if take_left {
                let left_op = &self.operations[left_index].1;
                Self::pick_up_dangling_delete_from_affecting_context(
                    left_op.start_index(),
                    &mut right_merge_context,
                );
                let shifted = left_op.with_shifted_index(right_merge_context.shift);
                match shifted {
                    Ok(op) => Self::merge_operations_with_context(
                        op,
                        &mut right_merge_context,
                        &mut left_merge_context,
                    ),
                    Err(error) => {
                        proof {
                            let index = shifted_index(op_index(left_op@), right_merge_context.view().shift);
                            assert(!fits_usize(index));
                            assert(total == Err::<Seq<OpView>, i64>(index));
                            assert(merge_outcome(total, Err(error)));
                            assert forall|original: Seq<char>|
                                sequence_of_length(left, original.len() as int) && sequence_of_length(
                                    right,
                                    original.len() as int,
                                ) && sequences_apart(left, right) && original.len() + put_in_total(
                                    left,
                                    left.len() as int,
                                ) + put_in_total(right, right.len() as int) <= isize::MAX implies false by {
                                lemma_sequences_apart_merge(original, left, right);
                            }
                        }
                        return Err(error);
                    },
                }
            } else {
                let right_op = &other.operations[right_index].1;
                Self::pick_up_dangling_delete_from_affecting_context(
                    right_op.start_index(),
                    &mut left_merge_context,
                );
                let shifted = right_op.with_shifted_index(left_merge_context.shift);
                match shifted {
                    Ok(op) => Self::merge_operations_with_context(
                        op,
                        &mut left_merge_context,
                        &mut right_merge_context,
                    ),
                    Err(error) => {
                        proof {
                            let index = shifted_index(op_index(right_op@), left_merge_context.view().shift);
                            assert(!fits_usize(index));
                            assert(total == Err::<Seq<OpView>, i64>(index));
                            assert(merge_outcome(total, Err(error)));
                            assert forall|original: Seq<char>|
                                sequence_of_length(left, original.len() as int) && sequence_of_length(
                                    right,
                                    original.len() as int,
                                ) && sequences_apart(left, right) && original.len() + put_in_total(
                                    left,
                                    left.len() as int,
                                ) + put_in_total(right, right.len() as int) <= isize::MAX implies false by {
                                lemma_sequences_apart_merge(original, left, right);
                            }
                        }
                        return Err(error);
                    },
                }
            };
            let ghost result_view = opt_view(result);
            if let Some(op) = result {
                merged_operations.push(op);
            }
            proof {
                assert(merged_operations@.map_values(|o: Operation| o@) =~= merged_before + as_seq(
                    result_view,
                ));
            }
            if take_left {
                left_index = left_index + 1;
            } else {
                right_index = right_index + 1;
            }
        }
        proof {
            lemma_merge_from_done(left, right, left_merge_context.view(), right_merge_context.view(), merged_operations@.map_values(|o: Operation| o@));
        }
        let mut operations: Vec<(usize, Operation)> = Vec::new();
        let mut k: usize = 0;
        let ghost merged = merged_operations@.map_values(|o: Operation| o@);
        while k < merged_operations.len()
            invariant
                k <= merged_operations@.len(),
                merged == merged_operations@.map_values(|o: Operation| o@),
                ops_view(operations@) == unordered(merged.take(k as int)),
            decreases merged_operations@.len() - k,
        {
            let op = &merged_operations[k];
            let copy = op.with_index(op.start_index());
            proof {
                assert(merged.take(k + 1) =~= merged.take(k as int).push(merged[k as int]));
                assert(unordered(merged.take(k + 1)) =~= unordered(merged.take(k as int)).push(
                    (0usize, merged[k as int]),
                ));
            }
            operations.push((0, copy));
            proof {
                assert(ops_view(operations@) =~= unordered(merged.take(k + 1)));
            }
            k = k + 1;
        }
        proof {
            assert(merged.take(k as int) =~= merged);
        }
        let r = OperationSequence::new(operations);
        proof {
            assert forall|original: Seq<char>|
                sequence_of_length(left, original.len() as int) && sequence_of_length(
                    right,
                    original.len() as int,
                ) && sequences_apart(left, right) && original.len() + put_in_total(
                    left,
                    left.len() as int,
                ) + put_in_total(right, right.len() as int) <= isize::MAX implies apply_all(
                r.operations_view(),
                original,
            ) == Some(#[trigger] sequence_spliced(original, pos_merge(left, right))) by {
                lemma_sequences_apart_merge(original, left, right);
            }
        }
        Ok(r)
    }
}

proof fn lemma_apply_all_push(ops: Seq<(usize, OpView)>, op: (usize, OpView), chars: Seq<char>)
    ensures
        apply_all(ops.push(op), chars) == match apply_all(ops, chars) {
            Some(c) => applied_to(op.1, c),
            None => None,
        },
{
    assert(ops.push(op).drop_last() =~= ops);
}

/// The text that applying `ops` in order to `chars` leaves: every operation
/// up to the first one that does not fit is applied, and none after it.
pub open spec fn apply_all_until_stuck(ops: Seq<(usize, OpView)>, chars: Seq<char>) -> Seq<char>
    decreases ops.len(),
{
    if ops.len() == 0 {
        chars
    } else {
        match apply_all(ops.drop_last(), chars) {
            Some(c) => match applied_to(ops.last().1, c) {
                Some(d) => d,
                None => c,
            },
            None => apply_all_until_stuck(ops.drop_last(), chars),
        }
    }
}

/// Where all operations fit, the text left is the one they give.
proof fn lemma_apply_all_until_stuck_fits(ops: Seq<(usize, OpView)>, chars: Seq<char>)
    requires
        apply_all(ops, chars) is Some,
    ensures
        apply_all_until_stuck(ops, chars) == apply_all(ops, chars)->0,
{
}

/// Where the operation after the first `k` does not fit, the text left is
/// the one the first `k` give.
proof fn lemma_apply_all_until_stuck_at(ops: Seq<(usize, OpView)>, k: int, n: int, chars: Seq<char>, c: Seq<char>)
    requires
        0 <= k < n <= ops.len(),
        apply_all(ops.take(k), chars) == Some(c),
        apply_all(ops.take(k + 1), chars) is None,
    ensures
        apply_all_until_stuck(ops.take(n), chars) == c,
    decreases n - k,
{
    assert(ops.take(n).drop_last() =~= ops.take(n - 1));
    if n == k + 1 {
    } else {
        lemma_apply_all_until_stuck_at(ops, k, n - 1, chars, c);
        assert(ops.take(n - 1).take(k + 1) =~= ops.take(k + 1));
        lemma_apply_all_stuck(ops.take(n - 1), k + 1, chars);
    }
}

/// Once an operation does not fit, applying all of them fails.
proof fn lemma_apply_all_stuck(ops: Seq<(usize, OpView)>, k: int, chars: Seq<char>)
    requires
        0 <= k <= ops.len(),
        apply_all(ops.take(k), chars) is None,
    ensures
        apply_all(ops, chars) is None,
    decreases ops.len() - k,
{
    if k < ops.len() {
        assert(ops.take(k + 1).drop_last() =~= ops.take(k));
        lemma_apply_all_stuck(ops, k + 1, chars);
    } else {
        assert(ops.take(k) =~= ops);
    }
}

proof fn lemma_ops_view_push(ops: Seq<(usize, Operation)>, op: (usize, Operation))
    ensures
        ops_view(ops.push(op)) == ops_view(ops).push((op.0, op.1@)),
{
    assert(ops_view(ops.push(op)) =~= ops_view(ops).push((op.0, op.1@)));
}

/// The invariant of cooking: applying the cooked operations so far gives
/// the new side so far followed by the rest of the original.
pub open spec fn cooking(
    original: Seq<char>,
    done: Seq<RawOperation>,
    ops: Seq<(usize, OpView)>,
    new_index: usize,
    order: usize,
) -> bool {
    &&& order <= original.len()
    &&& original.take(order as int) == flatten(old_side(done))
    &&& new_index == flatten(new_side(done)).len()
    &&& apply_all(ops, original) == Some(flatten(new_side(done)) + original.skip(order as int))
}

impl OperationSequence {
    /// Tries to apply the operations in order to the given rope.
    ///
    /// # Errors
    ///
    /// Returns an `OperationApplicationError` if an operation does not fit
    /// the text; the operations before it stay applied.
    pub fn apply(&self, rope_text: &mut ropey::Rope) -> (r: Result<(), SyncLibError>)
        ensures
            apply_all(self.operations_view(), rope_chars(*old(rope_text))) matches Some(c) ==> (r is Ok
                && rope_chars(*final(rope_text)) == c),
            apply_all(self.operations_view(), rope_chars(*old(rope_text))) is None ==> r matches Err(
                SyncLibError::OperationApplicationError(_),
            ),
            rope_chars(*final(rope_text)) == apply_all_until_stuck(
            self.operations_view(),
            rope_chars(*old(rope_text)),
        ),
    {
        let ghost initial = rope_chars(*rope_text);
        let ghost ops = self.operations_view();
        let mut i: usize = 0;
        proof {
            assert(ops.take(0) =~= Seq::<(usize, OpView)>::empty());
        }
        while i < self.operations.len()
            invariant
                ops == ops_view(self.operations@),
                0 <= i <= ops.len(),
                initial == rope_chars(*old(rope_text)),
                apply_all(ops.take(i as int), initial) == Some(rope_chars(*rope_text)),
            decreases self.operations.len() - i,
        {
            proof {
                assert(ops.take(i + 1) =~= ops.take(i as int).push(ops[i as int]));
                assert(ops[i as int] == (self.operations@[i as int].0, self.operations@[i as int].1@));
                lemma_apply_all_push(ops.take(i as int), ops[i as int], initial);
            }
            let result = self.operations[i].1.apply(rope_text);
            match result {
                Ok(()) => {},
                Err(error) => {
                    proof {
                        lemma_apply_all_stuck(ops, i + 1, initial);
                        lemma_apply_all_until_stuck_at(ops, i as int, ops.len() as int, initial, rope_chars(*rope_text));
                        assert(ops.take(ops.len() as int) =~= ops);
                    }
                    return Err(error);
                },
            }
            i = i + 1;
        }
        proof {
            assert(ops.take(i as int) =~= ops);
            lemma_apply_all_until_stuck_fits(ops, initial);
        }
        Ok(())
    }

    // Turn raw operations into operations with the positions in the original
    // text that they belong to, keeping track of the old and new indices. The
    // positions never decrease, so the operations are already sorted by them.
    fn cook_operations(raw_operations: &Vec<RawOperation>) -> (r: Vec<(usize, Operation)>)
        ensures
            flatten(old_side(raw_operations@)).len() + flatten(new_side(raw_operations@)).len()
                <= usize::MAX ==> apply_all(ops_view(r@), flatten(old_side(raw_operations@)))
                == Some(flatten(new_side(raw_operations@))),
            only_equal(raw_operations@) ==> r@.len() == 0,
            flatten(old_side(raw_operations@)).len() + flatten(new_side(raw_operations@)).len()
                <= usize::MAX ==> ops_view(r@) == text_cooked_from(steps_of(raw_operations@), 0, 0, 0),
            flatten(old_side(raw_operations@)).len() + flatten(new_side(raw_operations@)).len()
                <= usize::MAX ==> sequence_of_length(
                ops_view(r@),
                flatten(old_side(raw_operations@)).len() as int,
            ) && put_in_total(ops_view(r@), r@.len() as int) <= flatten(new_side(raw_operations@)).len(),
    {
        let ghost original = flatten(old_side(raw_operations@));
        let ghost bounded = flatten(old_side(raw_operations@)).len() + flatten(
            new_side(raw_operations@),
        ).len() <= usize::MAX;
        let mut result: Vec<(usize, Operation)> = Vec::new();
        let mut new_index: usize = 0;
        let mut old_index: usize = 0;
        let mut i: usize = 0;
        proof {
            assert(raw_operations@.take(0) =~= Seq::<RawOperation>::empty());
            assert(flatten(old_side(Seq::<RawOperation>::empty())) =~= Seq::<char>::empty());
            assert(original.take(0) =~= Seq::<char>::empty());
            assert(original.skip(0) =~= original);
            assert(flatten(new_side(Seq::<RawOperation>::empty())) + original =~= original);
            assert(ops_view(result@) =~= Seq::<(usize, OpView)>::empty());
            lemma_sequence_empty(0);
        }
        while i < raw_operations.len()
            invariant
                0 <= i <= raw_operations@.len(),
                original == flatten(old_side(raw_operations@)),
                bounded == (flatten(old_side(raw_operations@)).len() + flatten(
                    new_side(raw_operations@),
                ).len() <= usize::MAX),
                bounded ==> cooking(
                    original,
                    raw_operations@.take(i as int),
                    ops_view(result@),
                    new_index,
                    old_index,
                ),
                only_equal(raw_operations@) ==> result@.len() == 0,
                bounded ==> ops_view(result@) + text_cooked_from(steps_of(raw_operations@), i as int, new_index, old_index)
                    == text_cooked_from(steps_of(raw_operations@), 0, 0, 0),
                bounded ==> sequence_of_length(ops_view(result@), old_index as int) && new_index as int
                    == old_index + growth(ops_view(result@), result@.len() as int) && put_in_total(
                    ops_view(result@),
                    result@.len() as int,
                ) <= new_index,
            decreases raw_operations.len() - i,
        {
            let raw_operation = &raw_operations[i];
            let tokens = raw_operation.tokens();
            let length = crate::operation_transformation::edited_text::wrapping_length(tokens);
            let ghost done = raw_operations@.take(i as int);
            let ghost next = raw_operations@[i as int];
            let ghost before = ops_view(result@);
            let ghost text = flatten(tokens@);
            let ghost steps = steps_of(raw_operations@);
            let ghost ni = new_index;
            let ghost oi = old_index;
            proof {
                assert(steps[i as int] == step_of(next));
                assert(tokens@ == step_of(next).1);
                assert(raw_operations@.take(i + 1) =~= done.push(next));
                lemma_sides_push(done, next);
                lemma_flatten_append(new_side(done), raw_new(next));
                lemma_flatten_append(old_side(done), raw_old(next));
                if bounded {
                    crate::operation_transformation::edited_text::lemma_prefix_bounded(raw_operations@, i as int);
                    let o2 = flatten(old_side(done.push(next))).len() as int;
                    assert(original.take(o2) == flatten(old_side(done.push(next))));
                    assert(o2 == old_index + flatten(raw_old(next)).len());
                    assert(original.take(o2) =~= original.take(old_index as int) + flatten(raw_old(next)));
                    assert(original.skip(old_index as int) =~= flatten(raw_old(next)) + original.skip(o2)) by {
                        assert forall|k: int| 0 <= k < original.len() - old_index implies original.skip(old_index as int)[k]
                            == (flatten(raw_old(next)) + original.skip(o2))[k] by {
                            if k < flatten(raw_old(next)).len() {
                                assert(original.take(o2)[old_index + k] == flatten(raw_old(next))[k]);
                            }
                        }
                    }
                }
            }
            match raw_operation {
                RawOperation::Equal(..) => {
                    proof {
                        if bounded {
                            assert(flatten(new_side(done)) + original.skip(old_index as int) =~= flatten(new_side(done)) + text + original.skip(old_index + length));
                        }
                    }
                    new_index = new_index.wrapping_add(length);
                    old_index = old_index.wrapping_add(length);
                    proof {
                        if bounded {
                            lemma_sequence_extend(before, oi as int, old_index as int);
                        }
                    }
                },
                RawOperation::Insert(..) => {
                    let op = Operation::create_insert(
                        new_index,
                        crate::operation_transformation::edited_text::tokens_text(tokens),
                    );
                    if let Some(operation) = op {
                        proof {
                            lemma_ops_view_push(result@, (old_index, operation));
                            lemma_apply_all_push(before, (old_index, operation@), original);
                            if bounded {
                                lemma_sequence_push(before, old_index as int, (old_index, operation@));
                            }
                            if bounded {
                                let cur = flatten(new_side(done)) + original.skip(old_index as int);
                                assert(cur.take(new_index as int) =~= flatten(new_side(done)));
                                assert(cur.skip(new_index as int) =~= original.skip(old_index as int));
                            }
                        }
                        result.push((old_index, operation));
                    }
                    proof {
                        if bounded {
                            assert(flatten(raw_old(next)) =~= Seq::<char>::empty());
                            assert(flatten(old_side(done)) + Seq::<char>::empty() =~= flatten(old_side(done)));
                        }
                    }
                    new_index = new_index.wrapping_add(length);
                },
                RawOperation::Delete(..) => {
                    let op = Operation::create_delete_with_text(
                        new_index,
                        crate::operation_transformation::edited_text::tokens_text(tokens),
                    );
                    if let Some(operation) = op {
                        proof {
                            lemma_ops_view_push(result@, (old_index, operation));
                            lemma_apply_all_push(before, (old_index, operation@), original);
                            if bounded {
                                lemma_sequence_push(before, old_index as int, (old_index, operation@));
                            }
                            if bounded {
                                let cur = flatten(new_side(done)) + original.skip(old_index as int);
                                assert(cur.take(new_index as int) =~= flatten(new_side(done)));
                                assert(cur.skip(new_index + length) =~= original.skip(old_index + length));
                            }
                        }
                        result.push((old_index, operation));
                    }
                    proof {
                        if bounded {
                            assert(flatten(raw_new(next)) =~= Seq::<char>::empty());
                            assert(flatten(new_side(done)) + Seq::<char>::empty() =~= flatten(new_side(done)));
                        }
                    }
                    old_index = old_index.wrapping_add(length);
                },
            }
            proof {
                if bounded {
                    assert(length == text.len());
                    assert(ops_view(result@) + text_cooked_from(steps, i + 1, new_index, old_index)
                        =~= before + text_cooked_from(steps, i as int, ni, oi));
                }
            }
            i = i + 1;
        }
        proof {
            assert(raw_operations@.take(i as int) =~= raw_operations@);
            if bounded {
                assert(original.take(old_index as int) =~= original);
                assert(original.skip(old_index as int) =~= Seq::<char>::empty());
                assert(flatten(new_side(raw_operations@)) + Seq::<char>::empty() =~= flatten(new_side(raw_operations@)));
                assert(ops_view(result@) + text_cooked_from(steps_of(raw_operations@), i as int, new_index, old_index) =~= ops_view(result@));
            }
        }
        result
    }

    /// Creates an `OperationSequence` from the given original (old) and
    /// updated (new) strings, split into tokens after each whitespace
    /// character. Applied to the original text, it gives the updated text.
    pub fn from_strings(original: &str, updated: &str) -> (r: Self)
        requires
            token_count_fits(original@),
            original@.len() + updated@.len() <= usize::MAX,
        ensures
            text_edit(original@, updated@, r.operations_view()),
            apply_all(r.operations_view(), original@) == Some(updated@),
            original@ == updated@ ==> r.operations_view().len() == 0,
            sequence_of_length(r.operations_view(), original@.len() as int),
            put_in_total(r.operations_view(), r.operations_view().len() as int) <= updated@.len(),
    {
        let original_tokens = Token::tokenize(original);
        let updated_tokens = Token::tokenize(updated);
        proof {
            assert forall|k: int| 0 <= k < original_tokens@.len() implies (
            #[trigger] original_tokens@[k]).orig().len() > 0 by {
                assert(originals(original_tokens@)[k] == original_tokens@[k].orig());
            }
            assert(is_whitespace_tokenization(original_tokens@, original@));
            crate::operation_transformation::edited_text::lemma_count_le_flatten(original_tokens@);
            if original@ == updated@ {
                crate::text::lemma_split_after_whitespace_unique(
                    originals(original_tokens@),
                    originals(updated_tokens@),
                    original@,
                );
                assert forall|k: int| 0 <= k < original_tokens@.len() implies (
                #[trigger] original_tokens@[k]).norm() == updated_tokens@[k].norm() by {
                    assert(originals(original_tokens@)[k] == originals(updated_tokens@)[k]);
                }
            }
        }
        let script = diff(original_tokens.as_slice(), updated_tokens.as_slice());
        proof {
            assert(original_tokens@.take(original_tokens@.len() as int) =~= original_tokens@);
            assert(crate::operation_transformation::edited_text::consistent(original_tokens@, updated_tokens@)) by {
                assert forall|i: int, j: int|
                    0 <= i < original_tokens@.len() && 0 <= j < updated_tokens@.len() && (
                    #[trigger] original_tokens@[i]).norm() == (#[trigger] updated_tokens@[j]).norm()
                    implies original_tokens@[i].orig() == updated_tokens@[j].orig() by {}
            }
            crate::operation_transformation::edited_text::lemma_script_writes_new(
                script@,
                original_tokens@,
                updated_tokens@,
            );
        }
        let operations = Self::cook_operations(&script);
        let r = OperationSequence::new(operations);
        proof {
            assert(is_whitespace_tokenization(original_tokens@, original@));
            assert(is_whitespace_tokenization(updated_tokens@, updated@));
        }
        r
    }
}

} // verus!
