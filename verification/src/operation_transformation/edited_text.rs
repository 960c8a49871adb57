//! A text and the operations that turn it into an edited version of it.
use vstd::multiset::Multiset;
use vstd::prelude::*;
use vstd::wrapping::usize_specs::wrapping_add;

use super::cursor::{CursorPosition, TextWithCursors};
use super::elongate_operations::{elongate_operations, elongated_from};
use super::edit_merge::{
    carried, cursor_shift, last_end, lemma_merge_edits_done,
    lemma_merge_edits_left, lemma_merge_edits_right, lemma_run_end, merge_edits, moved_cursor,
    moves_cursors, parked, produced,
};
use super::merge_context::{empty_context, MergeContext, MergeContextView};
use super::operation::{apply_step, merge_step, op_index, op_with_index, op_wf, shifted, OpView, Operation};
use super::ordered_operation::OrderedOperation;
use super::separated_edits::{
    edit_of_length, lemma_edit_empty, lemma_edit_push, lemma_separated_merge, new_pos, pos_merge,
    separated, spliced,
};
use crate::diffs::lcs::{copy_tokens, diff, diff_steps, inserted_tokens, is_edit_script, lemma_diff_inserted, only_equal};
use crate::diffs::raw_operation::{
    step_of, steps_of, StepKind,
    lemma_sides_push, new_side, old_side, raw_new, raw_old, raw_tokens, RawOperation,
};
use crate::text::concat_strings;
use crate::tokenizer::token::{flatten, lemma_flatten_append, lemma_flatten_push, Token};
use crate::tokenizer::word_tokenizer::{is_word_tokenization, lemma_word_tokens_faithful, word_tokenizer};
use crate::utils::string_builder::{chars_from, rest_from, StringBuilder};

verus! {

broadcast use vstd::seq_lib::group_to_multiset_ensures;

/// The `(consumed, built)` state of a string builder over `original` after
/// applying `ops` in order.
pub open spec fn fold_ops(original: Seq<char>, ops: Seq<(usize, OpView)>) -> (usize, Seq<char>)
    decreases ops.len(),
{
    if ops.len() == 0 {
        (0, Seq::empty())
    } else {
        let (last, built) = fold_ops(original, ops.drop_last());
        apply_step(original, last, built, ops.last().1)
    }
}

/// The text that applying `ops` in order to `original` gives.
pub open spec fn applied(original: Seq<char>, ops: Seq<(usize, OpView)>) -> Seq<char> {
    fold_ops(original, ops).1 + rest_from(original, fold_ops(original, ops).0 as int)
}

/// The views of a sequence of ordered operations.
pub open spec fn ops_view(ops: Seq<OrderedOperation>) -> Seq<(usize, OpView)> {
    ops.map_values(|o: OrderedOperation| o@)
}

/// The cursors are sorted by their character index.
pub open spec fn sorted_by_index(cursors: Seq<CursorPosition>) -> bool {
    forall|i: int, j: int| 0 <= i <= j < cursors.len() ==> cursors[i].char_index <= cursors[j].char_index
}

/// Tokens of `a` and `b` with the same normalised form have the same original
/// form.
pub open spec fn consistent(a: Seq<Token>, b: Seq<Token>) -> bool {
    forall|i: int, j: int|
        0 <= i < a.len() && 0 <= j < b.len() && (#[trigger] a[i]).norm() == (#[trigger] b[j]).norm()
            ==> a[i].orig() == b[j].orig()
}

/// A text document and a sequence of operations that can be applied to the
/// text document. `EditedText` supports merging two sequences of operations
/// using the principles of Operational Transformation.
///
/// It's mainly created through the `from_strings` method, then merged with
/// another `EditedText` derived from the same original text and then applied
/// to the original text to get the reconciled text of concurrent edits.
///
/// In addition to text and operations, it also keeps track of cursor
/// positions. The cursor positions are updated when the operations are
/// merged, so that they can be restored in the merged text.
#[derive(Debug)]
pub struct EditedText {
    text: String,
    operations: Vec<OrderedOperation>,
    cursors: Vec<CursorPosition>,
}

impl EditedText {
    /// The original text.
    pub closed spec fn text_view(&self) -> Seq<char> {
        self.text@
    }

    /// The operations, in the order in which they are applied.
    pub closed spec fn operations_view(&self) -> Seq<(usize, OpView)> {
        ops_view(self.operations@)
    }

    /// The cursors, sorted by their index.
    pub closed spec fn cursors_view(&self) -> Seq<CursorPosition> {
        self.cursors@
    }

    /// The text that `apply` gives.
    pub open spec fn result(&self) -> Seq<char> {
        applied(self.text_view(), self.operations_view())
    }

    /// The cursors of the edited text.
    pub fn cursors(&self) -> (r: &Vec<CursorPosition>)
        ensures
            r@ == self.cursors_view(),
    {
        &self.cursors
    }

    /// The number of operations.
    pub fn operation_count(&self) -> (n: usize)
        ensures
            n == self.operations_view().len(),
    {
        self.operations.len()
    }
}

/// The concatenation of the original forms of `ts`.
pub(crate) fn tokens_text(ts: &Vec<Token>) -> (s: String)
    ensures
        s@ == flatten(ts@),
{
    let mut s = String::new();
    let mut i: usize = 0;
    while i < ts.len()
        invariant
            0 <= i <= ts@.len(),
            s@ == flatten(ts@.take(i as int)),
        decreases ts.len() - i,
    {
        proof {
            assert(ts@.take(i + 1) =~= ts@.take(i as int).push(ts@[i as int]));
            lemma_flatten_push(ts@.take(i as int), ts@[i as int]);
        }
        let piece = String::from_str(ts[i].original());
        s = concat_strings(&s, &piece);
        i = i + 1;
    }
    assert(ts@.take(i as int) =~= ts@);
    s
}

/// The total length of the original forms of `ts`, wrapping around on
/// overflow.
pub(crate) fn wrapping_length(ts: &Vec<Token>) -> (n: usize)
    ensures
        flatten(ts@).len() <= usize::MAX ==> n == flatten(ts@).len(),
{
    let mut total: usize = 0;
    let mut i: usize = 0;
    while i < ts.len()
        invariant
            0 <= i <= ts@.len(),
            flatten(ts@.take(i as int)).len() <= usize::MAX ==> total == flatten(
                ts@.take(i as int),
            ).len(),
        decreases ts.len() - i,
    {
        proof {
            assert(ts@.take(i + 1) =~= ts@.take(i as int).push(ts@[i as int]));
            lemma_flatten_push(ts@.take(i as int), ts@[i as int]);
        }
        total = total.wrapping_add(ts[i].get_original_length());
        i = i + 1;
    }
    assert(ts@.take(i as int) =~= ts@);
    total
}

proof fn lemma_fold_push(original: Seq<char>, ops: Seq<(usize, OpView)>, op: (usize, OpView))
    ensures
        fold_ops(original, ops.push(op)) == apply_step(
            original,
            fold_ops(original, ops).0,
            fold_ops(original, ops).1,
            op.1,
        ),
{
    assert(ops.push(op).drop_last() =~= ops);
}

proof fn lemma_ops_view_push(ops: Seq<OrderedOperation>, op: OrderedOperation)
    ensures
        ops_view(ops.push(op)) == ops_view(ops).push(op@),
{
    assert(ops_view(ops.push(op)) =~= ops_view(ops).push(op@));
}

/// The invariant of cooking: the builder state after the cooked operations
/// so far, followed by the not yet copied characters of the original, spells
/// the new side so far.
pub open spec fn cooking(
    original: Seq<char>,
    done: Seq<RawOperation>,
    ops: Seq<(usize, OpView)>,
    new_index: usize,
    order: usize,
) -> bool {
    let (last, built) = fold_ops(original, ops);
    &&& last <= order <= original.len()
    &&& original.take(order as int) == flatten(old_side(done))
    &&& built + original.subrange(last as int, order as int) == flatten(new_side(done))
    &&& new_index == flatten(new_side(done)).len()
    &&& built.len() + (order - last) == new_index
}

/// What one step of cooking may rely on: the state before it, and how the
/// sides grow by the step.
pub open spec fn step_facts(
    original: Seq<char>,
    done: Seq<RawOperation>,
    next: RawOperation,
    before: Seq<(usize, OpView)>,
    new_index: usize,
    order: usize,
    length: usize,
) -> bool {
    &&& cooking(original, done, before, new_index, order)
    &&& length == flatten(raw_tokens(next)).len()
    &&& flatten(old_side(done.push(next))) == flatten(old_side(done)) + flatten(raw_old(next))
    &&& flatten(new_side(done.push(next))) == flatten(new_side(done)) + flatten(raw_new(next))
    &&& flatten(old_side(done.push(next))).len() <= original.len()
    &&& original.take(flatten(old_side(done.push(next))).len() as int) == flatten(
        old_side(done.push(next)),
    )
    &&& flatten(old_side(done.push(next))).len() + flatten(new_side(done.push(next))).len()
        <= usize::MAX
}

pub(crate) proof fn lemma_prefix_bounded(ops: Seq<RawOperation>, i: int)
    requires
        0 <= i < ops.len(),
    ensures
        flatten(old_side(ops.take(i + 1))).len() <= flatten(old_side(ops)).len(),
        flatten(old_side(ops)).take(flatten(old_side(ops.take(i + 1))).len() as int) == flatten(
            old_side(ops.take(i + 1)),
        ),
        flatten(new_side(ops.take(i + 1))).len() <= flatten(new_side(ops)).len(),
{
    let d = ops.take(i + 1);
    let e = ops.skip(i + 1);
    assert(ops =~= d + e);
    crate::diffs::raw_operation::lemma_sides_append(d, e);
    lemma_flatten_append(old_side(d), old_side(e));
    lemma_flatten_append(new_side(d), new_side(e));
    assert(flatten(old_side(ops)).take(flatten(old_side(d)).len() as int) =~= flatten(old_side(d)));
}

proof fn lemma_equal_step(
    original: Seq<char>,
    done: Seq<RawOperation>,
    next: RawOperation,
    before: Seq<(usize, OpView)>,
    after: Seq<(usize, OpView)>,
    new_index: usize,
    order: usize,
    length: usize,
)
    requires
        step_facts(original, done, next, before, new_index, order, length),
        next is Equal,
        fold_ops(original, after) == fold_ops(original, before),
    ensures
        cooking(
            original,
            done.push(next),
            after,
            (new_index + length) as usize,
            (order + length) as usize,
        ),
{
    let (last, built) = fold_ops(original, before);
    let toks = flatten(raw_tokens(next));
    assert(raw_old(next) == raw_tokens(next));
    assert(raw_new(next) == raw_tokens(next));
    assert(flatten(old_side(done)).len() == order);
    let o2 = (order + length) as int;
    assert(flatten(old_side(done.push(next))).len() == o2);
    assert(original.take(o2) =~= original.take(order as int) + toks);
    assert(original.subrange(order as int, o2) =~= toks) by {
        assert forall|k: int| 0 <= k < length implies original.subrange(order as int, o2)[k]
            == toks[k] by {
            assert(original.take(o2)[order + k] == toks[k]);
        }
    }
    assert(original.subrange(last as int, o2) =~= original.subrange(last as int, order as int)
        + toks);
    assert(built + original.subrange(last as int, o2) =~= built + original.subrange(last as int, order as int) + toks);
    assert(flatten(new_side(done.push(next))) == flatten(new_side(done)) + toks);
}

proof fn lemma_insert_step(
    original: Seq<char>,
    done: Seq<RawOperation>,
    next: RawOperation,
    before: Seq<(usize, OpView)>,
    after: Seq<(usize, OpView)>,
    new_index: usize,
    order: usize,
    length: usize,
)
    requires
        step_facts(original, done, next, before, new_index, order, length),
        next is Insert,
        flatten(raw_tokens(next)).len() == 0 ==> after == before,
        flatten(raw_tokens(next)).len() > 0 ==> after == before.push(
            (order, OpView::Insert { index: new_index, text: raw_tokens(next) }),
        ),
    ensures
        cooking(original, done.push(next), after, (new_index + length) as usize, order),
{
    let (last, built) = fold_ops(original, before);
    if flatten(raw_tokens(next)).len() == 0 {
        assert(flatten(raw_tokens(next)) =~= Seq::<char>::empty());
        assert(flatten(new_side(done)) + Seq::<char>::empty() =~= flatten(new_side(done)));
    } else {
        lemma_fold_push(original, before, (order, OpView::Insert { index: new_index, text: raw_tokens(next) }));
        let jump = (order - last) as usize;
        assert(vstd::wrapping::usize_specs::wrapping_sub(new_index, built.len() as usize) == jump);
        assert(chars_from(original, last as int, jump as int) =~= original.subrange(
            last as int,
            order as int,
        ));
        assert(original.subrange(order as int, order as int) =~= Seq::<char>::empty());
        let (last2, built2) = fold_ops(original, after);
        assert(built2 + original.subrange(last2 as int, order as int) =~= built2);
    }
    assert(flatten(raw_old(next)) =~= Seq::<char>::empty());
    assert(flatten(old_side(done)) + Seq::<char>::empty() =~= flatten(old_side(done)));
}

proof fn lemma_delete_step(
    original: Seq<char>,
    done: Seq<RawOperation>,
    next: RawOperation,
    before: Seq<(usize, OpView)>,
    after: Seq<(usize, OpView)>,
    new_index: usize,
    order: usize,
    length: usize,
    text: Seq<char>,
)
    requires
        step_facts(original, done, next, before, new_index, order, length),
        next is Delete,
        text == flatten(raw_tokens(next)),
        text.len() == 0 ==> after == before,
        text.len() > 0 ==> after == before.push(
            (
                order,
                OpView::Delete {
                    index: new_index,
                    count: text.len() as usize,
                    deleted_text: Some(text),
                },
            ),
        ),
    ensures
        cooking(original, done.push(next), after, new_index, (order + length) as usize),
{
    let (last, built) = fold_ops(original, before);
    let o2 = (order + length) as int;
    assert(flatten(raw_new(next)) =~= Seq::<char>::empty());
    assert(flatten(new_side(done)) + Seq::<char>::empty() =~= flatten(new_side(done)));
    assert(original.take(o2) =~= original.take(order as int) + text);
    if text.len() > 0 {
        let op = OpView::Delete { index: new_index, count: text.len() as usize, deleted_text: Some(text) };
        lemma_fold_push(original, before, (order, op));
        let jump = (order - last) as usize;
        assert(vstd::wrapping::usize_specs::wrapping_sub(new_index, built.len() as usize) == jump);
        assert(chars_from(original, last as int, jump as int) =~= original.subrange(
            last as int,
            order as int,
        ));
        let (last2, built2) = fold_ops(original, after);
        assert(original.subrange(last2 as int, o2) =~= Seq::<char>::empty());
        assert(built2 + original.subrange(last2 as int, o2) =~= built2);
    } else {
        assert(original.subrange(last as int, o2) =~= original.subrange(last as int, order as int));
    }
}

/// The operations of the edit from the tokens `original_tokens` to the
/// tokens `updated_tokens`: the LCS diff of the tokens, elongated, then
/// cooked.
pub open spec fn edit_ops(original_tokens: Seq<Token>, updated_tokens: Seq<Token>) -> Seq<
    (usize, OpView),
> {
    cooked_from(
        elongated_from(diff_steps(original_tokens, updated_tokens), 0, Seq::empty(), None, None),
        0,
        0,
        0,
    )
}

/// `ops` are the operations of the word edit from `original` to `updated`:
/// those of the edit between their word tokenizations.
pub open spec fn word_edit(original: Seq<char>, updated: Seq<char>, ops: Seq<(usize, OpView)>) -> bool {
    exists|original_tokens: Seq<Token>, updated_tokens: Seq<Token>|
        #![trigger is_word_tokenization(original_tokens, original), is_word_tokenization(updated_tokens, updated)]
        is_word_tokenization(original_tokens, original) && is_word_tokenization(
            updated_tokens,
            updated,
        ) && ops == edit_ops(original_tokens, updated_tokens)
}

/// `ops` are the operations of the edit from `original` to `updated`
/// between tokens that `tokenizer` may give for the two texts.
pub open spec fn tokenizer_edit<F: Fn(&str) -> Vec<Token>>(
    tokenizer: F,
    original: &str,
    updated: Seq<char>,
    ops: Seq<(usize, OpView)>,
) -> bool {
    exists|text: &str, original_tokens: Vec<Token>, updated_tokens: Vec<Token>|
        #![trigger tokenizer.ensures((original,), original_tokens), tokenizer.ensures((text,), updated_tokens)]
        text@ == updated && tokenizer.ensures((original,), original_tokens) && tokenizer.ensures(
            (text,),
            updated_tokens,
        ) && ops == edit_ops(original_tokens@, updated_tokens@)
}

/// Every word tokenization of `text` has at most `u32::MAX` tokens.
pub open spec fn word_count_fits(text: Seq<char>) -> bool {
    forall|tokens: Seq<Token>| #[trigger] is_word_tokenization(tokens, text) ==> tokens.len() <= u32::MAX
}

/// The operations that cooking the steps from the `i`th on gives, with the
/// next operation starting at `new_index` in the new text and at `order`
/// in the original text: a kept run becomes an equal stretch of its length,
/// an insertion an insert of its tokens, a deletion a delete of its text;
/// steps without characters give nothing.
pub open spec fn cooked_from(
    steps: Seq<(StepKind, Seq<Token>)>,
    i: int,
    new_index: usize,
    order: usize,
) -> Seq<(usize, OpView)>
    decreases steps.len() - i,
{
    if i < 0 || i >= steps.len() {
        Seq::empty()
    } else {
        let t = steps[i].1;
        let text = flatten(t);
        let len = text.len() as usize;
        match steps[i].0 {
            StepKind::Equal => (if len > 0 {
                seq![(order, OpView::Equal { index: new_index, length: len })]
            } else {
                Seq::empty()
            }) + cooked_from(steps, i + 1, wrapping_add(new_index, len), wrapping_add(order, len)),
            StepKind::Insert => (if text.len() > 0 {
                seq![(order, OpView::Insert { index: new_index, text: t })]
            } else {
                Seq::empty()
            }) + cooked_from(steps, i + 1, wrapping_add(new_index, len), order),
            StepKind::Delete => (if text.len() > 0 {
                seq![
                    (
                        order,
                        OpView::Delete { index: new_index, count: len, deleted_text: Some(text) },
                    ),
                ]
            } else {
                Seq::empty()
            }) + cooked_from(steps, i + 1, new_index, wrapping_add(order, len)),
        }
    }
}

// Turn raw operations into ordered operations while keeping track of the old
// and new indices: an operation's index is its start in the new text, its
// order its start in the original text.
#[verifier::rlimit(40)]
fn cook_operations(raw_operations: &Vec<RawOperation>) -> (r: Vec<OrderedOperation>)
    ensures
        flatten(old_side(raw_operations@)).len() + flatten(new_side(raw_operations@)).len()
            <= usize::MAX ==> applied(flatten(old_side(raw_operations@)), ops_view(r@))
            == flatten(new_side(raw_operations@)) && proper_ops(ops_view(r@)),
        only_equal(raw_operations@) ==> no_changes(ops_view(r@)),
        flatten(old_side(raw_operations@)).len() + flatten(new_side(raw_operations@)).len()
            <= usize::MAX ==> ops_view(r@) == cooked_from(steps_of(raw_operations@), 0, 0, 0),
        flatten(old_side(raw_operations@)).len() + flatten(new_side(raw_operations@)).len()
            <= usize::MAX ==> edit_of_length(
            ops_view(r@),
            flatten(old_side(raw_operations@)).len() as int,
        ) && new_pos(ops_view(r@), r@.len() as int) == flatten(new_side(raw_operations@)).len(),
{
    let ghost original = flatten(old_side(raw_operations@));
    let ghost bounded = flatten(old_side(raw_operations@)).len() + flatten(
        new_side(raw_operations@),
    ).len() <= usize::MAX;
    let mut result: Vec<OrderedOperation> = Vec::new();
    let mut new_index: usize = 0;
    let mut order: usize = 0;
    let mut i: usize = 0;
    proof {
        assert(raw_operations@.take(0) =~= Seq::<RawOperation>::empty());
        assert(flatten(old_side(Seq::<RawOperation>::empty())) =~= Seq::<char>::empty());
        lemma_edit_empty();
        assert(ops_view(result@) =~= Seq::<(usize, OpView)>::empty());
        assert(original.take(0) =~= Seq::<char>::empty());
        assert(original.subrange(0, 0) =~= Seq::<char>::empty());
    }
    while i < raw_operations.len()
        invariant
            0 <= i <= raw_operations@.len(),
            original == flatten(old_side(raw_operations@)),
            bounded == (flatten(old_side(raw_operations@)).len() + flatten(
                new_side(raw_operations@),
            ).len() <= usize::MAX),
            bounded ==> cooking(
                original,
                raw_operations@.take(i as int),
                ops_view(result@),
                new_index,
                order,
            ),
            bounded ==> proper_ops(ops_view(result@)),
            only_equal(raw_operations@) ==> no_changes(ops_view(result@)),
            bounded ==> ops_view(result@) + cooked_from(steps_of(raw_operations@), i as int, new_index, order)
                == cooked_from(steps_of(raw_operations@), 0, 0, 0),
            bounded ==> edit_of_length(ops_view(result@), order as int) && new_pos(
                ops_view(result@),
                result@.len() as int,
            ) == new_index as int,
        decreases raw_operations.len() - i,
    {
        let raw_operation = &raw_operations[i];
        let tokens = raw_operation.tokens();
        let length = wrapping_length(tokens);
        let ghost done = raw_operations@.take(i as int);
        let ghost next = raw_operations@[i as int];
        let ghost before = ops_view(result@);
        let ghost steps = steps_of(raw_operations@);
        proof {
            assert(steps[i as int] == step_of(next));
            assert(tokens@ == step_of(next).1);
            assert(raw_operations@.take(i + 1) =~= done.push(next));
            lemma_sides_push(done, next);
            lemma_flatten_append(new_side(done), raw_new(next));
            lemma_flatten_append(old_side(done), raw_old(next));
            if bounded {
                lemma_prefix_bounded(raw_operations@, i as int);
            }
        }
        match raw_operation {
            RawOperation::Equal(..) => {
                let op = Operation::create_equal(new_index, length);
                if let Some(operation) = op {
                    proof {
                        lemma_ops_view_push(result@, OrderedOperation { order, operation });
                        lemma_fold_push(original, before, (order, operation@));
                        if bounded {
                            lemma_edit_push(before, order as int, (order, operation@));
                        }
                    }
                    result.push(OrderedOperation { order, operation });
                }
                proof {
                    if bounded {
                        lemma_equal_step(original, done, next, before, ops_view(result@), new_index, order, length);
                        assert(length == flatten(tokens@).len());
                        assert(ops_view(result@) + cooked_from(steps, i + 1, wrapping_add(new_index, length), wrapping_add(order, length))
                            =~= before + cooked_from(steps, i as int, new_index, order));
                    }
                }
                new_index = new_index.wrapping_add(length);
                order = order.wrapping_add(length);
            },
            RawOperation::Insert(..) => {
                let op = Operation::create_insert(new_index, copy_tokens(tokens.as_slice(), 0, tokens.len()));
                if let Some(operation) = op {
                    proof {
                        lemma_ops_view_push(result@, OrderedOperation { order, operation });
                        lemma_fold_push(original, before, (order, operation@));
                        if bounded {
                            lemma_edit_push(before, order as int, (order, operation@));
                        }
                    }
                    result.push(OrderedOperation { order, operation });
                }
                proof {
                    if bounded {
                        assert(tokens@.subrange(0, tokens@.len() as int) =~= tokens@);
                        lemma_insert_step(original, done, next, before, ops_view(result@), new_index, order, length);
                        assert(length == flatten(tokens@).len());
                        assert(ops_view(result@) + cooked_from(steps, i + 1, wrapping_add(new_index, length), order)
                            =~= before + cooked_from(steps, i as int, new_index, order));
                    }
                }
                new_index = new_index.wrapping_add(length);
            },
            RawOperation::Delete(..) => {
                let op = Operation::create_delete_with_text(new_index, tokens_text(tokens));
                if let Some(operation) = op {
                    proof {
                        lemma_ops_view_push(result@, OrderedOperation { order, operation });
                        lemma_fold_push(original, before, (order, operation@));
                        if bounded {
                            lemma_edit_push(before, order as int, (order, operation@));
                        }
                    }
                    result.push(OrderedOperation { order, operation });
                }
                proof {
                    if bounded {
                        lemma_delete_step(original, done, next, before, ops_view(result@), new_index, order, length, flatten(tokens@));
                        assert(length == flatten(tokens@).len());
                        assert(ops_view(result@) + cooked_from(steps, i + 1, new_index, wrapping_add(order, length))
                            =~= before + cooked_from(steps, i as int, new_index, order));
                    }
                }
                order = order.wrapping_add(length);
            },
        }
        i = i + 1;
    }
    proof {
        assert(raw_operations@.take(i as int) =~= raw_operations@);
        if bounded {
            assert(ops_view(result@) + cooked_from(steps_of(raw_operations@), i as int, new_index, order) =~= ops_view(result@));
            let (last, built) = fold_ops(original, ops_view(result@));
            assert(original.take(order as int) =~= original);
            assert(rest_from(original, last as int) =~= original.subrange(last as int, order as int));
        }
    }
    result
}

/// The first position from `k` on in `s` whose cursor is after `c`.
pub open spec fn insertion_point(s: Seq<CursorPosition>, c: CursorPosition, k: int) -> int
    decreases s.len() - k,
{
    if k < 0 || k >= s.len() || s[k].char_index > c.char_index {
        k
    } else {
        insertion_point(s, c, k + 1)
    }
}

/// The cursors sorted by their index, cursors at the same index in the order
/// they came in (insertion sort).
pub open spec fn cursor_sort(cursors: Seq<CursorPosition>) -> Seq<CursorPosition>
    decreases cursors.len(),
{
    if cursors.len() == 0 {
        Seq::empty()
    } else {
        let sorted = cursor_sort(cursors.drop_last());
        sorted.insert(insertion_point(sorted, cursors.last(), 0), cursors.last())
    }
}

/// The ids of the cursors.
pub open spec fn cursor_ids(cursors: Seq<CursorPosition>) -> Seq<usize> {
    cursors.map_values(|c: CursorPosition| c.id)
}

proof fn lemma_insertion_point_bounds(s: Seq<CursorPosition>, c: CursorPosition, k: int)
    requires
        0 <= k <= s.len(),
    ensures
        k <= insertion_point(s, c, k) <= s.len(),
    decreases s.len() - k,
{
    if k < s.len() && s[k].char_index <= c.char_index {
        lemma_insertion_point_bounds(s, c, k + 1);
    }
}

/// Sorts the cursors by their index, keeping the order of cursors at the same
/// index.
fn sort_cursors(cursors: Vec<CursorPosition>) -> (r: Vec<CursorPosition>)
    ensures
        r@ == cursor_sort(cursors@),
        sorted_by_index(r@),
        r@.to_multiset() == cursors@.to_multiset(),
        cursor_ids(r@).to_multiset() == cursor_ids(cursors@).to_multiset(),
{
    let mut sorted: Vec<CursorPosition> = Vec::new();
    let mut i: usize = 0;
    proof {
        assert(cursors@.take(0) =~= Seq::<CursorPosition>::empty());
        assert(cursor_ids(sorted@) =~= Seq::<usize>::empty());
        assert(cursor_ids(cursors@.take(0)) =~= Seq::<usize>::empty());
    }
    while i < cursors.len()
        invariant
            0 <= i <= cursors@.len(),
            sorted@ == cursor_sort(cursors@.take(i as int)),
            sorted_by_index(sorted@),
            sorted@.to_multiset() == cursors@.take(i as int).to_multiset(),
            cursor_ids(sorted@).to_multiset() == cursor_ids(cursors@.take(i as int)).to_multiset(),
        decreases cursors.len() - i,
    {
        let c = cursors[i];
        let mut pos: usize = 0;
        while pos < sorted.len() && sorted[pos].char_index <= c.char_index
            invariant
                0 <= pos <= sorted@.len(),
                forall|k: int| 0 <= k < pos ==> sorted@[k].char_index <= c.char_index,
                insertion_point(sorted@, c, 0) == insertion_point(sorted@, c, pos as int),
            decreases sorted.len() - pos,
        {
            pos = pos + 1;
        }
        proof {
            assert(cursors@.take(i + 1) =~= cursors@.take(i as int).push(c));
            assert(cursors@.take(i + 1).drop_last() =~= cursors@.take(i as int));
            vstd::seq_lib::to_multiset_insert(sorted@, pos as int, c);
            if pos < sorted@.len() {
                assert(sorted@[pos as int].char_index > c.char_index);
            }
            assert(insertion_point(sorted@, c, pos as int) == pos);
            assert(cursor_ids(sorted@.insert(pos as int, c)) =~= cursor_ids(sorted@).insert(pos as int, c.id));
            vstd::seq_lib::to_multiset_insert(cursor_ids(sorted@), pos as int, c.id);
            assert(cursor_ids(cursors@.take(i + 1)) =~= cursor_ids(cursors@.take(i as int)).push(c.id));
        }
        let ghost old_sorted = sorted@;
        sorted.insert(pos, c);
        proof {
            assert forall|a: int, b: int| 0 <= a <= b < sorted@.len() implies sorted@[a].char_index
                <= sorted@[b].char_index by {
                if a < pos && b > pos {
                    assert(old_sorted[a].char_index <= c.char_index);
                    assert(old_sorted[pos as int].char_index > c.char_index);
                    assert(old_sorted[b - 1].char_index >= old_sorted[pos as int].char_index);
                } else if a == pos && b > pos {
                    assert(old_sorted[pos as int].char_index > c.char_index);
                    assert(old_sorted[b - 1].char_index >= old_sorted[pos as int].char_index);
                }
            }
        }
        i = i + 1;
    }
    assert(cursors@.take(i as int) =~= cursors@);
    sorted
}

proof fn lemma_flatten_pointwise(a: Seq<Token>, b: Seq<Token>)
    requires
        a.len() == b.len(),
        forall|k: int| 0 <= k < a.len() ==> (#[trigger] a[k]).orig() == b[k].orig(),
    ensures
        flatten(a) == flatten(b),
    decreases a.len(),
{
    if a.len() > 0 {
        lemma_flatten_pointwise(a.drop_last(), b.drop_last());
    }
}

/// With consistent tokens, an edit script writes the text of the new list.
/// What a script writes holds no more characters than what it reads and
/// what it inserts together.
proof fn lemma_new_side_bound(ops: Seq<RawOperation>)
    ensures
        flatten(new_side(ops)).len() <= flatten(old_side(ops)).len() + flatten(
            inserted_tokens(steps_of(ops)),
        ).len(),
    decreases ops.len(),
{
    if ops.len() > 0 {
        let prev = ops.drop_last();
        let last = ops.last();
        lemma_new_side_bound(prev);
        assert(prev.push(last) =~= ops);
        lemma_sides_push(prev, last);
        assert(steps_of(ops).drop_last() =~= steps_of(prev));
        assert(steps_of(ops).last() == step_of(last));
        lemma_flatten_append(new_side(prev), raw_new(last));
        lemma_flatten_append(old_side(prev), raw_old(last));
        let ins = if step_of(last).0 is Insert { step_of(last).1 } else { Seq::<Token>::empty() };
        lemma_flatten_append(inserted_tokens(steps_of(prev)), ins);
        if !(last is Insert) {
            assert(flatten(Seq::<Token>::empty()).len() == 0);
        }
    }
}

pub(crate) proof fn lemma_script_writes_new(ops: Seq<RawOperation>, old: Seq<Token>, new: Seq<Token>)
    requires
        is_edit_script(ops, old, new),
        consistent(old, new),
    ensures
        flatten(new_side(ops)) == flatten(new),
{
    let ns = new_side(ops);
    assert forall|k: int| 0 <= k < ns.len() implies (#[trigger] ns[k]).orig() == new[k].orig() by {
        if ns[k] != new[k] {
            let i = choose|i: int| 0 <= i < old.len() && old[i] == ns[k];
            assert(old[i].norm() == new[k].norm());
        }
    }
    lemma_flatten_pointwise(ns, new);
}

/// A text of at most `u32::MAX` characters has at most that many word
/// tokens.
pub proof fn lemma_word_count_fits(text: Seq<char>)
    requires
        text.len() <= u32::MAX,
    ensures
        word_count_fits(text),
{
    assert forall|ts: Seq<Token>| #[trigger] is_word_tokenization(ts, text) implies ts.len()
        <= u32::MAX by {
        assert forall|k: int| 0 <= k < ts.len() implies (#[trigger] ts[k]).orig().len() > 0 by {
            assert(crate::tokenizer::word_tokenizer::homogeneous(
                ts[k].orig(),
                crate::tokenizer::word_tokenizer::starts_with_ws(ts[k]),
            ));
        }
        lemma_count_le_flatten(ts);
    }
}

pub(crate) proof fn lemma_count_le_flatten(ts: Seq<Token>)
    requires
        forall|k: int| 0 <= k < ts.len() ==> (#[trigger] ts[k]).orig().len() > 0,
    ensures
        ts.len() <= flatten(ts).len(),
    decreases ts.len(),
{
    if ts.len() > 0 {
        lemma_count_le_flatten(ts.drop_last());
    }
}

/// The operations of `ops` that change the text: all but the equal
/// stretches.
pub open spec fn changes(ops: Seq<(usize, OpView)>) -> Seq<(usize, OpView)>
    decreases ops.len(),
{
    if ops.len() == 0 {
        Seq::empty()
    } else if ops.last().1 is Equal {
        changes(ops.drop_last())
    } else {
        changes(ops.drop_last()).push(ops.last())
    }
}

/// Every operation's length fits in a `usize` and every insert inserts at
/// least one token.
pub open spec fn proper_ops(ops: Seq<(usize, OpView)>) -> bool {
    forall|k: int|
        0 <= k < ops.len() ==> op_wf(#[trigger] ops[k].1) && (ops[k].1 is Insert
            ==> flatten(super::operation::op_tokens(ops[k].1)).len() > 0)
}

/// None of the operations changes the text.
pub open spec fn no_changes(ops: Seq<(usize, OpView)>) -> bool {
    forall|k: int| 0 <= k < ops.len() ==> (#[trigger] ops[k]).1 is Equal
}

proof fn lemma_no_changes(ops: Seq<(usize, OpView)>)
    requires
        no_changes(ops),
    ensures
        changes(ops) == Seq::<(usize, OpView)>::empty(),
    decreases ops.len(),
{
    if ops.len() > 0 {
        lemma_no_changes(ops.drop_last());
    }
}

proof fn lemma_changes_push(ops: Seq<(usize, OpView)>, op: (usize, OpView))
    ensures
        changes(ops.push(op)) == (if op.1 is Equal {
            changes(ops)
        } else {
            changes(ops).push(op)
        }),
{
    assert(ops.push(op).drop_last() =~= ops);
}

/// Equal stretches change nothing: applying only the changes gives the same
/// builder state.
pub proof fn lemma_fold_changes(original: Seq<char>, ops: Seq<(usize, OpView)>)
    ensures
        fold_ops(original, ops) == fold_ops(original, changes(ops)),
    decreases ops.len(),
{
    if ops.len() > 0 {
        lemma_fold_changes(original, ops.drop_last());
        if !(ops.last().1 is Equal) {
            lemma_fold_push(original, changes(ops.drop_last()), ops.last());
        }
    }
}

/// Operation lists with the same changes give the same text.
pub proof fn lemma_applied_by_changes(
    original: Seq<char>,
    a: Seq<(usize, OpView)>,
    b: Seq<(usize, OpView)>,
)
    requires
        changes(a) == changes(b),
    ensures
        applied(original, a) == applied(original, b),
{
    lemma_fold_changes(original, a);
    lemma_fold_changes(original, b);
}

/// Shifting an index by 0 leaves it as it is.
proof fn lemma_shift_by_zero(index: usize)
    ensures
        shifted(index, 0) == index,
{
    assert(vstd::wrapping::i64_specs::wrapping_add(index as i64, 0) == index as i64);
    assert(((index as i64) as usize) == index) by (bit_vector);
}

/// Merging an operation against an empty affecting context gives the
/// operation back and leaves the affecting context empty.
proof fn lemma_merge_step_unaffected(op: OpView, p: MergeContextView)
    requires
        op is Insert ==> flatten(super::operation::op_tokens(op)).len() > 0,
    ensures
        merge_step(op, empty_context(), p).0 == Some(op),
        merge_step(op, empty_context(), p).1 == empty_context(),
{
    lemma_shift_by_zero(op_index(op));
    assert(op_with_index(op, op_index(op)) == op);
    if let OpView::Insert { index, text } = op {
        assert(text.skip(0) =~= text);
    }
}

/// An equal stretch leaves the produced context as it is.
proof fn lemma_merge_step_equal(op: OpView, a: MergeContextView, p: MergeContextView)
    requires
        op is Equal,
    ensures
        merge_step(op, a, p).2 == p,
        merge_step(op, a, p).0 matches Some(o) && o is Equal,
{
}

impl EditedText {
    /// Create a new `EditedText` with the given operations, which must be in
    /// the order in which they are meant to be applied. The cursors are
    /// sorted by their index.
    fn new(text: String, operations: Vec<OrderedOperation>, cursors: Vec<CursorPosition>) -> (r:
        Self)
        ensures
            r.text_view() == text@,
            r.operations_view() == ops_view(operations@),
            sorted_by_index(r.cursors_view()),
            r.cursors_view().to_multiset() == cursors@.to_multiset(),
            r.cursors_view() == cursor_sort(cursors@),
            cursor_ids(r.cursors_view()).to_multiset() == cursor_ids(cursors@).to_multiset(),
    {
        EditedText { text, operations, cursors: sort_cursors(cursors) }
    }

    /// The edit from `original` to the text that `updated_tokens` spell.
    fn from_tokens(
        original: &str,
        original_tokens: Vec<Token>,
        updated_tokens: Vec<Token>,
        cursors: Vec<CursorPosition>,
    ) -> (r: Self)
        requires
            original_tokens@.len() <= u32::MAX,
        ensures
            r.text_view() == original@,
            sorted_by_index(r.cursors_view()),
            r.cursors_view().to_multiset() == cursors@.to_multiset(),
            r.cursors_view() == cursor_sort(cursors@),
            cursor_ids(r.cursors_view()).to_multiset() == cursor_ids(cursors@).to_multiset(),
            flatten(original_tokens@) == original@ && consistent(original_tokens@, updated_tokens@)
                && original@.len() + flatten(updated_tokens@).len() <= usize::MAX ==> r.result()
                == flatten(updated_tokens@) && r.wf(),
            crate::diffs::lcs::same_tokens(original_tokens@, updated_tokens@) ==> no_changes(
                r.operations_view(),
            ),
            flatten(original_tokens@) == original@ && consistent(original_tokens@, updated_tokens@)
                && original@.len() + flatten(updated_tokens@).len() <= usize::MAX ==> r.operations_view()
                == edit_ops(original_tokens@, updated_tokens@),
            2 * flatten(original_tokens@).len() + flatten(updated_tokens@).len() <= usize::MAX ==> r.wf()
                && r.operations_view() == edit_ops(original_tokens@, updated_tokens@),
            flatten(original_tokens@) == original@ && consistent(original_tokens@, updated_tokens@)
                && original@.len() + flatten(updated_tokens@).len() <= usize::MAX ==> edit_of_length(
                r.operations_view(),
                original@.len() as int,
            ) && new_pos(r.operations_view(), r.operations_view().len() as int) == flatten(
                updated_tokens@,
            ).len(),
    {
        let script = diff(original_tokens.as_slice(), updated_tokens.as_slice());
        let elongated = elongate_operations(script);
        let operations = cook_operations(&elongated);
        proof {
            assert(original_tokens@.take(original_tokens@.len() as int) =~= original_tokens@);
            assert(old_side(script@) == original_tokens@);
            lemma_new_side_bound(script@);
            lemma_diff_inserted(original_tokens@, updated_tokens@);
            if flatten(original_tokens@) == original@ && consistent(original_tokens@, updated_tokens@) {
                lemma_script_writes_new(script@, original_tokens@, updated_tokens@);
                assert(flatten(old_side(elongated@)) == original@);
                assert(flatten(new_side(elongated@)) == flatten(updated_tokens@));
                if original@.len() + flatten(updated_tokens@).len() <= usize::MAX {
                    assert(flatten(old_side(elongated@)).len() + flatten(new_side(elongated@)).len()
                        <= usize::MAX);
                }
            }
        }
        EditedText::new(original.to_string(), operations, cursors)
    }

    /// Create an `EditedText` from the given original (old) and updated (new)
    /// strings. The returned `EditedText` represents the changes from the
    /// original to the updated text: when it is applied to the original text,
    /// it results in the updated text. The default word tokenizer is used,
    /// which splits the text on whitespace.
    pub fn from_strings(original: &str, updated: TextWithCursors) -> (r: Self)
        requires
            word_count_fits(original@),
            original@.len() + updated.text@.len() <= usize::MAX,
        ensures
            word_edit(original@, updated.text@, r.operations_view()),
            r.text_view() == original@,
            sorted_by_index(r.cursors_view()),
            r.cursors_view().to_multiset() == updated.cursors@.to_multiset(),
            r.cursors_view() == cursor_sort(updated.cursors@),
            cursor_ids(r.cursors_view()).to_multiset() == cursor_ids(updated.cursors@).to_multiset(),
            r.wf(),
            r.result() == updated.text@,
            original@ == updated.text@ ==> no_changes(r.operations_view()),
            edit_of_length(r.operations_view(), original@.len() as int),
            new_pos(r.operations_view(), r.operations_view().len() as int) == updated.text@.len(),
    {
        let original_tokens = word_tokenizer(original);
        let updated_tokens = word_tokenizer(updated.text.as_str());
        proof {
            lemma_word_tokens_faithful(original_tokens@, original@);
            lemma_word_tokens_faithful(updated_tokens@, updated.text@);
            assert forall|k: int| 0 <= k < original_tokens@.len() implies (
            #[trigger] original_tokens@[k]).orig().len() > 0 by {
                assert(crate::tokenizer::word_tokenizer::homogeneous(
                    original_tokens@[k].orig(),
                    crate::tokenizer::word_tokenizer::starts_with_ws(original_tokens@[k]),
                ));
            }
            lemma_count_le_flatten(original_tokens@);
            if original@ == updated.text@ {
                crate::tokenizer::word_tokenizer::lemma_word_tokenization_unique(
                    original_tokens@,
                    updated_tokens@,
                    original@,
                );
            }
            assert(consistent(original_tokens@, updated_tokens@)) by {
                assert forall|i: int, j: int|
                    0 <= i < original_tokens@.len() && 0 <= j < updated_tokens@.len() && (
                    #[trigger] original_tokens@[i]).norm() == (#[trigger] updated_tokens@[j]).norm()
                    implies original_tokens@[i].orig() == updated_tokens@[j].orig() by {}
            }
        }
        let ghost ot = original_tokens@;
        let ghost ut = updated_tokens@;
        let r = EditedText::from_tokens(original, original_tokens, updated_tokens, updated.cursors);
        proof {
            assert(is_word_tokenization(ot, original@) && is_word_tokenization(ut, updated.text@));
        }
        r
    }

    /// Apply the operations to the text and return the resulting text.
    pub fn apply(&self) -> (s: String)
        ensures
            s@ == self.result(),
    {
        let mut builder = StringBuilder::new(self.text.as_str());
        let mut i: usize = 0;
        while i < self.operations.len()
            invariant
                0 <= i <= self.operations@.len(),
                builder.original_chars() == self.text@,
                (builder.last_old(), builder.built()) == fold_ops(
                    self.text@,
                    ops_view(self.operations@.take(i as int)),
                ),
            decreases self.operations.len() - i,
        {
            proof {
                assert(self.operations@.take(i + 1) =~= self.operations@.take(i as int).push(
                    self.operations@[i as int],
                ));
                lemma_ops_view_push(self.operations@.take(i as int), self.operations@[i as int]);
                lemma_fold_push(
                    self.text@,
                    ops_view(self.operations@.take(i as int)),
                    self.operations@[i as int]@,
                );
            }
            builder = self.operations[i].operation.apply(builder);
            i = i + 1;
        }
        assert(self.operations@.take(i as int) =~= self.operations@);
        builder.build()
    }
}

/// Every list of tokens that `tokenizer` returns spells the text it was
/// given.
pub open spec fn spells_input<F: Fn(&str) -> Vec<Token>>(tokenizer: F) -> bool {
    forall|text: &str, tokens: Vec<Token>|
        #[trigger] tokenizer.ensures((text,), tokens) ==> flatten(tokens@) == text@
}

/// In every list of tokens that `tokenizer` returns, the original form of a
/// token is `form` of its normalised form.
pub open spec fn forms_determined<F: Fn(&str) -> Vec<Token>>(
    tokenizer: F,
    form: spec_fn(Seq<char>) -> Seq<char>,
) -> bool {
    forall|text: &str, tokens: Vec<Token>|
        #[trigger] tokenizer.ensures((text,), tokens) ==> forall|k: int|
            0 <= k < tokens@.len() ==> (#[trigger] tokens@[k]).orig() == form(tokens@[k].norm())
}

/// `tokenizer` returns at most `u32::MAX` tokens, as many as the diff's table
/// can count.
pub open spec fn bounded_tokenizer<F: Fn(&str) -> Vec<Token>>(tokenizer: F) -> bool {
    forall|text: &str, tokens: Vec<Token>|
        #[trigger] tokenizer.ensures((text,), tokens) ==> tokens@.len() <= u32::MAX
}

impl EditedText {
    /// Create an `EditedText` from the given original (old) and updated (new)
    /// strings, tokenizing both with `tokenizer`. When the tokenizer's tokens
    /// spell its input and a token's normalised form determines its original
    /// form, applying the returned `EditedText` to the original text results
    /// in the updated text.
    pub fn from_strings_with_tokenizer<F: Fn(&str) -> Vec<Token>>(
        original: &str,
        updated: TextWithCursors,
        tokenizer: &F,
    ) -> (r: Self)
        requires
            forall|text: &str| #[trigger] tokenizer.requires((text,)),
            bounded_tokenizer(*tokenizer),
        ensures
            r.text_view() == original@,
            sorted_by_index(r.cursors_view()),
            r.cursors_view().to_multiset() == updated.cursors@.to_multiset(),
            r.cursors_view() == cursor_sort(updated.cursors@),
            cursor_ids(r.cursors_view()).to_multiset() == cursor_ids(updated.cursors@).to_multiset(),
            forall|form: spec_fn(Seq<char>) -> Seq<char>|
                spells_input(*tokenizer) && #[trigger] forms_determined(*tokenizer, form)
                    && original@.len() + updated.text@.len() <= usize::MAX ==> r.result()
                    == updated.text@ && r.wf() && tokenizer_edit(
                    *tokenizer,
                    original,
                    updated.text@,
                    r.operations_view(),
                ),
            spells_input(*tokenizer) && 2 * original@.len() + updated.text@.len() <= usize::MAX
                ==> r.wf() && tokenizer_edit(*tokenizer, original, updated.text@, r.operations_view()),
    {
        let original_tokens = tokenizer(original);
        let updated_text = updated.text.as_str();
        let updated_tokens = tokenizer(updated_text);
        let r = EditedText::from_tokens(original, original_tokens, updated_tokens, updated.cursors);
        proof {
            assert forall|form: spec_fn(Seq<char>) -> Seq<char>|
                spells_input(*tokenizer) && #[trigger] forms_determined(*tokenizer, form)
                    && original@.len() + updated.text@.len() <= usize::MAX implies r.result()
                    == updated.text@ && r.wf() && tokenizer_edit(
                    *tokenizer,
                    original,
                    updated.text@,
                    r.operations_view(),
                ) by {
                assert(consistent(original_tokens@, updated_tokens@)) by {
                    assert forall|i: int, j: int|
                        0 <= i < original_tokens@.len() && 0 <= j < updated_tokens@.len() && (
                        #[trigger] original_tokens@[i]).norm() == (#[trigger] updated_tokens@[j]).norm()
                        implies original_tokens@[i].orig() == updated_tokens@[j].orig() by {
                        assert(tokenizer.ensures((original,), original_tokens));
                        assert(tokenizer.ensures((updated_text,), updated_tokens));
                    }
                }
                assert(r.operations_view() == edit_ops(original_tokens@, updated_tokens@));
                assert(tokenizer.ensures((original,), original_tokens));
                assert(tokenizer.ensures((updated_text,), updated_tokens));
            }
            if spells_input(*tokenizer) && 2 * original@.len() + updated.text@.len() <= usize::MAX {
                assert(tokenizer.ensures((original,), original_tokens));
                assert(tokenizer.ensures((updated_text,), updated_tokens));
                assert(r.operations_view() == edit_ops(original_tokens@, updated_tokens@));
            }
        }
        r
    }
}


/// The ids of two lists of cursors together are those of each.
pub proof fn lemma_ids_concat(a: Seq<CursorPosition>, b: Seq<CursorPosition>)
    ensures
        cursor_ids(a + b).to_multiset() == cursor_ids(a).to_multiset().add(
            cursor_ids(b).to_multiset(),
        ),
{
    assert(cursor_ids(a + b) =~= cursor_ids(a) + cursor_ids(b));
    vstd::seq_lib::lemma_multiset_commutative(cursor_ids(a), cursor_ids(b));
}

/// The ids of the cursors of both sides taken so far.
pub open spec fn taken_ids(
    left: Seq<CursorPosition>,
    li: int,
    right: Seq<CursorPosition>,
    ri: int,
) -> Multiset<usize> {
    cursor_ids(left.take(li)).to_multiset().add(cursor_ids(right.take(ri)).to_multiset())
}

proof fn lemma_take_left_cursor(
    merged: Seq<CursorPosition>,
    left: Seq<CursorPosition>,
    li: int,
    right: Seq<CursorPosition>,
    ri: int,
    moved: CursorPosition,
)
    requires
        0 <= li < left.len(),
        0 <= ri <= right.len(),
        moved.id == left[li].id,
        cursor_ids(merged).to_multiset() == taken_ids(left, li, right, ri),
    ensures
        cursor_ids(merged.push(moved)).to_multiset() == taken_ids(left, li + 1, right, ri),
{
    broadcast use vstd::multiset::group_multiset_axioms;
    assert(cursor_ids(merged.push(moved)) =~= cursor_ids(merged).push(moved.id));
    assert(cursor_ids(left.take(li + 1)) =~= cursor_ids(left.take(li)).push(moved.id));
    assert(taken_ids(left, li + 1, right, ri) =~= taken_ids(left, li, right, ri).insert(moved.id));
}

proof fn lemma_take_right_cursor(
    merged: Seq<CursorPosition>,
    left: Seq<CursorPosition>,
    li: int,
    right: Seq<CursorPosition>,
    ri: int,
    moved: CursorPosition,
)
    requires
        0 <= li <= left.len(),
        0 <= ri < right.len(),
        moved.id == right[ri].id,
        cursor_ids(merged).to_multiset() == taken_ids(left, li, right, ri),
    ensures
        cursor_ids(merged.push(moved)).to_multiset() == taken_ids(left, li, right, ri + 1),
{
    broadcast use vstd::multiset::group_multiset_axioms;
    assert(cursor_ids(merged.push(moved)) =~= cursor_ids(merged).push(moved.id));
    assert(cursor_ids(right.take(ri + 1)) =~= cursor_ids(right.take(ri)).push(moved.id));
    assert(taken_ids(left, li, right, ri + 1) =~= taken_ids(left, li, right, ri).insert(moved.id));
}

proof fn lemma_all_ids(left: Seq<CursorPosition>, right: Seq<CursorPosition>)
    ensures
        taken_ids(left, left.len() as int, right, right.len() as int) == cursor_ids(left + right).to_multiset(),
{
    assert(left.take(left.len() as int) =~= left);
    assert(right.take(right.len() as int) =~= right);
    assert(cursor_ids(left + right) =~= cursor_ids(left) + cursor_ids(right));
    vstd::seq_lib::lemma_multiset_commutative(cursor_ids(left), cursor_ids(right));
}

/// The operations and the cursors, not yet sorted, that merging `left` with
/// `right` gives.
pub open spec fn merge_result(left: EditedText, right: EditedText) -> (
    Seq<(usize, OpView)>,
    Seq<CursorPosition>,
) {
    merge_edits(
        left.operations_view(),
        right.operations_view(),
        left.cursors_view(),
        right.cursors_view(),
        0,
        0,
        0,
        0,
        empty_context(),
        empty_context(),
        Seq::empty(),
        Seq::empty(),
    )
}

impl EditedText {
    /// The operations are proper: their lengths fit and inserts are not
    /// empty.
    pub open spec fn wf(&self) -> bool {
        proper_ops(self.operations_view())
    }

    /// Merges two edits of the same text into one that holds the changes of
    /// both. Operations are taken in the order of their position in the
    /// original text, on a tie the other side's first, and each is moved
    /// past the changes of the other side that came before it. A side's
    /// cursors move with the operations of that side; the cursors after the
    /// last operation go to its end.
    #[verifier::rlimit(60)]
    #[verifier::spinoff_prover]
    pub fn merge(self, other: Self) -> (r: Self)
        requires
            self.wf(),
            other.wf(),
        ensures
            r.wf(),
            r.text_view() == self.text_view(),
            sorted_by_index(r.cursors_view()),
            r.cursors_view().len() == self.cursors_view().len() + other.cursors_view().len(),
            cursor_ids(r.cursors_view()).to_multiset() == cursor_ids(
                self.cursors_view() + other.cursors_view(),
            ).to_multiset(),
            no_changes(other.operations_view()) ==> changes(r.operations_view()) == changes(
                self.operations_view(),
            ),
            no_changes(self.operations_view()) ==> changes(r.operations_view()) == changes(
                other.operations_view(),
            ),
            no_changes(other.operations_view()) ==> r.result() == self.result(),
            no_changes(self.operations_view()) && other.text_view() == self.text_view()
                ==> r.result() == other.result(),
            r.operations_view() == merge_result(self, other).0,
            r.cursors_view() == cursor_sort(merge_result(self, other).1),
            edit_of_length(self.operations_view(), self.text_view().len() as int) && edit_of_length(
                other.operations_view(),
                self.text_view().len() as int,
            ) && separated(self.operations_view(), other.operations_view()) && self.text_view().len()
                + new_pos(self.operations_view(), self.operations_view().len() as int) + new_pos(
                other.operations_view(),
                other.operations_view().len() as int,
            ) <= isize::MAX ==> r.result() == spliced(
                self.text_view(),
                pos_merge(changes(self.operations_view()), changes(other.operations_view())),
            ),
    {
        let ghost left_ops = self.operations_view();
        let ghost right_ops = other.operations_view();
        let mut left_merge_context = MergeContext::default();
        let mut right_merge_context = MergeContext::default();
        let left_cursors = self.cursors;
        let right_cursors = other.cursors;
        let mut left_cursor_index: usize = 0;
        let mut right_cursor_index: usize = 0;
        let mut merged_cursors: Vec<CursorPosition> = Vec::new();
        let mut merged_operations: Vec<OrderedOperation> = Vec::new();
        let left_operations = self.operations;
        let right_operations = other.operations;
        let mut i: usize = 0;
        let mut j: usize = 0;
        let ghost target = merge_result(self, other);
        proof {
            assert(merged_cursors@ =~= Seq::<CursorPosition>::empty());
            assert(cursor_ids(merged_cursors@) =~= Seq::<usize>::empty());
            assert(cursor_ids(left_cursors@.take(0)) =~= Seq::<usize>::empty());
            assert(cursor_ids(right_cursors@.take(0)) =~= Seq::<usize>::empty());
            assert(taken_ids(left_cursors@, 0, right_cursors@, 0) =~= Multiset::<usize>::empty());
            assert(ops_view(merged_operations@) =~= Seq::<(usize, OpView)>::empty());
            assert(ops_view(left_operations@.take(0)) =~= Seq::<(usize, OpView)>::empty());
            assert(ops_view(right_operations@.take(0)) =~= Seq::<(usize, OpView)>::empty());
        }
        while i < left_operations.len() || j < right_operations.len()
            invariant
                left_ops == ops_view(left_operations@),
                right_ops == ops_view(right_operations@),
                proper_ops(left_ops),
                proper_ops(right_ops),
                0 <= i <= left_operations@.len(),
                0 <= j <= right_operations@.len(),
                left_cursor_index <= left_cursors@.len(),
                right_cursor_index <= right_cursors@.len(),
                merged_cursors@.len() == left_cursor_index + right_cursor_index,
                cursor_ids(merged_cursors@).to_multiset() == taken_ids(
                    left_cursors@,
                    left_cursor_index as int,
                    right_cursors@,
                    right_cursor_index as int,
                ),
                super::merge_context::ctx_wf(left_merge_context@),
                super::merge_context::ctx_wf(right_merge_context@),
                proper_ops(ops_view(merged_operations@)),
                merge_edits(
                    left_ops,
                    right_ops,
                    left_cursors@,
                    right_cursors@,
                    i as int,
                    j as int,
                    left_cursor_index as int,
                    right_cursor_index as int,
                    left_merge_context@,
                    right_merge_context@,
                    ops_view(merged_operations@),
                    merged_cursors@,
                ) == target,
                no_changes(right_ops) ==> right_merge_context@ == empty_context() && changes(
                    ops_view(merged_operations@),
                ) == changes(ops_view(left_operations@.take(i as int))),
                no_changes(left_ops) ==> left_merge_context@ == empty_context() && changes(
                    ops_view(merged_operations@),
                ) == changes(ops_view(right_operations@.take(j as int))),
            decreases left_operations@.len() - i + right_operations@.len() - j,
        {
            let take_left = if i < left_operations.len() && j < right_operations.len() {
                left_operations[i].order < right_operations[j].order
            } else {
                i < left_operations.len()
            };
            let ghost before = ops_view(merged_operations@);
            let ghost cursors_before = merged_cursors@;
            let ghost li0 = left_cursor_index as int;
            let ghost ri0 = right_cursor_index as int;
            proof {
                if i < left_operations.len() {
                    assert(left_ops[i as int] == left_operations@[i as int]@);
                }
                if j < right_operations.len() {
                    assert(right_ops[j as int] == right_operations@[j as int]@);
                }
                if take_left {
                    lemma_merge_edits_left(left_ops, right_ops, left_cursors@, right_cursors@, i as int, j as int, li0, ri0, left_merge_context@, right_merge_context@, before, cursors_before);
                } else {
                    lemma_merge_edits_right(left_ops, right_ops, left_cursors@, right_cursors@, i as int, j as int, li0, ri0, left_merge_context@, right_merge_context@, before, cursors_before);
                }
            }
            let next = if take_left {
                left_operations[i].duplicate()
            } else {
                right_operations[j].duplicate()
            };
            proof {
                if take_left {
                    assert(left_ops[i as int] == left_operations@[i as int]@);
                    assert(next@ == left_ops[i as int]);
                    assert(op_wf(left_ops[i as int].1));
                } else {
                    assert(right_ops[j as int] == right_operations@[j as int]@);
                    assert(next@ == right_ops[j as int]);
                    assert(op_wf(right_ops[j as int].1));
                }
            }
            let order = next.order;
            let operation = next.operation;
            let original_start = operation.start_index() as i64;
            let original_end = operation.end_index();
            let original_length = operation.len() as i64;
            let ghost op_view = operation@;
            let ghost lc = left_merge_context@;
            let ghost rc = right_merge_context@;
            let result = if take_left {
                operation.merge_operations_with_context(
                    &mut right_merge_context,
                    &mut left_merge_context,
                )
            } else {
                operation.merge_operations_with_context(
                    &mut left_merge_context,
                    &mut right_merge_context,
                )
            };
            let ghost result_view = opt_view_of(result);
            let carries = match &result {
                Some(Operation::Insert { .. }) => true,
                Some(Operation::Equal { .. }) => true,
                _ => false,
            };
            assert(carries == moves_cursors(result_view));
            if carries {
                if let Some(op) = &result {
                    let start = op.start_index();
                    let shift = (start as i64).wrapping_sub(original_start).wrapping_add(
                        op.len() as i64,
                    ).wrapping_sub(original_length);
                    let bound = original_end.wrapping_add(1);
                    if take_left {
                        while left_cursor_index < left_cursors.len()
                            && left_cursors[left_cursor_index].char_index <= bound
                            invariant
                                0 <= li0 <= left_cursor_index <= left_cursors@.len(),
                                merged_cursors@ == cursors_before + left_cursors@.subrange(
                                    li0,
                                    left_cursor_index as int,
                                ).map_values(|c: CursorPosition| moved_cursor(c, shift, start)),
                                forall|k: int|
                                    li0 <= k < left_cursor_index ==> (#[trigger] left_cursors@[k]).char_index
                                        <= bound,
                                right_cursor_index <= right_cursors@.len(),
                                merged_cursors@.len() == left_cursor_index + right_cursor_index,
                                cursor_ids(merged_cursors@).to_multiset() == taken_ids(
                                    left_cursors@,
                                    left_cursor_index as int,
                                    right_cursors@,
                                    right_cursor_index as int,
                                ),
                            decreases left_cursors@.len() - left_cursor_index,
                        {
                            let cursor = left_cursors[left_cursor_index];
                            let moved = (cursor.char_index as i64).wrapping_add(shift);
                            let index = if moved < start as i64 {
                                start
                            } else {
                                moved as usize
                            };
                            let placed = cursor.with_index(index);
                            proof {
                                lemma_take_left_cursor(merged_cursors@, left_cursors@, left_cursor_index as int, right_cursors@, right_cursor_index as int, placed);
                                assert(left_cursors@.subrange(li0, left_cursor_index + 1).map_values(
                                    |c: CursorPosition| moved_cursor(c, shift, start),
                                ) =~= left_cursors@.subrange(li0, left_cursor_index as int).map_values(
                                    |c: CursorPosition| moved_cursor(c, shift, start),
                                ).push(placed));
                            }
                            merged_cursors.push(placed);
                            left_cursor_index = left_cursor_index + 1;
                        }
                        proof {
                            lemma_run_end(left_cursors@, li0, left_cursor_index as int, bound);
                        }
                    } else {
                        while right_cursor_index < right_cursors.len()
                            && right_cursors[right_cursor_index].char_index <= bound
                            invariant
                                0 <= ri0 <= right_cursor_index <= right_cursors@.len(),
                                merged_cursors@ == cursors_before + right_cursors@.subrange(
                                    ri0,
                                    right_cursor_index as int,
                                ).map_values(|c: CursorPosition| moved_cursor(c, shift, start)),
                                forall|k: int|
                                    ri0 <= k < right_cursor_index ==> (#[trigger] right_cursors@[k]).char_index
                                        <= bound,
                                left_cursor_index <= left_cursors@.len(),
                                right_cursor_index <= right_cursors@.len(),
                                merged_cursors@.len() == left_cursor_index + right_cursor_index,
                                cursor_ids(merged_cursors@).to_multiset() == taken_ids(
                                    left_cursors@,
                                    left_cursor_index as int,
                                    right_cursors@,
                                    right_cursor_index as int,
                                ),
                            decreases right_cursors@.len() - right_cursor_index,
                        {
                            let cursor = right_cursors[right_cursor_index];
                            let moved = (cursor.char_index as i64).wrapping_add(shift);
                            let index = if moved < start as i64 {
                                start
                            } else {
                                moved as usize
                            };
                            let placed = cursor.with_index(index);
                            proof {
                                lemma_take_right_cursor(merged_cursors@, left_cursors@, left_cursor_index as int, right_cursors@, right_cursor_index as int, placed);
                                assert(right_cursors@.subrange(ri0, right_cursor_index + 1).map_values(
                                    |c: CursorPosition| moved_cursor(c, shift, start),
                                ) =~= right_cursors@.subrange(ri0, right_cursor_index as int).map_values(
                                    |c: CursorPosition| moved_cursor(c, shift, start),
                                ).push(placed));
                            }
                            merged_cursors.push(placed);
                            right_cursor_index = right_cursor_index + 1;
                        }
                        proof {
                            lemma_run_end(right_cursors@, ri0, right_cursor_index as int, bound);
                        }
                    }
                    proof {
                        let res = op@;
                        assert(result_view == Some(res));
                        assert(shift == cursor_shift(op_view, res));
                        if take_left {
                            assert(merged_cursors@ =~= cursors_before + carried(
                                left_cursors@,
                                li0,
                                left_cursor_index as int,
                                op_view,
                                result_view,
                            ));
                        } else {
                            assert(merged_cursors@ =~= cursors_before + carried(
                                right_cursors@,
                                ri0,
                                right_cursor_index as int,
                                op_view,
                                result_view,
                            ));
                        }
                    }
                }
            } else {
                proof {
                    assert(carried(left_cursors@, li0, li0, op_view, result_view) =~= Seq::empty());
                    assert(carried(right_cursors@, ri0, ri0, op_view, result_view) =~= Seq::empty());
                    assert(merged_cursors@ =~= cursors_before + Seq::<CursorPosition>::empty());
                }
            }
            if let Some(op) = result {
                proof {
                    lemma_ops_view_push(merged_operations@, OrderedOperation { order, operation: op });
                }
                merged_operations.push(OrderedOperation { order, operation: op });
            }
            proof {
                assert(ops_view(merged_operations@) =~= before + produced(order, result_view));
            }
            proof {
                let after = ops_view(merged_operations@);
                assert forall|k: int| 0 <= k < after.len() implies op_wf(#[trigger] after[k].1) && (
                after[k].1 is Insert ==> flatten(super::operation::op_tokens(after[k].1)).len() > 0) by {
                    if k < before.len() {
                        assert(after[k] == before[k]);
                    }
                }
                if take_left {
                    assert(left_operations@.take(i + 1) =~= left_operations@.take(i as int).push(
                        left_operations@[i as int],
                    ));
                    lemma_ops_view_push(left_operations@.take(i as int), left_operations@[i as int]);
                    lemma_changes_push(ops_view(left_operations@.take(i as int)), left_ops[i as int]);
                    if no_changes(right_ops) {
                        lemma_merge_step_unaffected(op_view, lc);
                    }
                    if no_changes(left_ops) {
                        lemma_merge_step_equal(op_view, rc, lc);
                    }
                } else {
                    assert(right_operations@.take(j + 1) =~= right_operations@.take(j as int).push(
                        right_operations@[j as int],
                    ));
                    lemma_ops_view_push(right_operations@.take(j as int), right_operations@[j as int]);
                    lemma_changes_push(ops_view(right_operations@.take(j as int)), right_ops[j as int]);
                    if no_changes(left_ops) {
                        lemma_merge_step_unaffected(op_view, rc);
                    }
                    if no_changes(right_ops) {
                        lemma_merge_step_equal(op_view, lc, rc);
                    }
                }
                match result_view {
                    Some(v) => {
                        lemma_changes_push(before, (order, v));
                    },
                    None => {},
                }
            }
            if take_left {
                i = i + 1;
            } else {
                j = j + 1;
            }
        }
        proof {
            lemma_merge_edits_done(
                left_ops,
                right_ops,
                left_cursors@,
                right_cursors@,
                left_cursor_index as int,
                right_cursor_index as int,
                left_merge_context@,
                right_merge_context@,
                ops_view(merged_operations@),
                merged_cursors@,
            );
        }
        let ghost merged_ops = ops_view(merged_operations@);
        assert(merged_ops.take(merged_ops.len() as int) =~= merged_ops);
        let mut last_index: usize = 0;
        let mut k: usize = merged_operations.len();
        while k > 0
            invariant_except_break
                last_index == 0,
                last_end(merged_ops) == last_end(merged_ops.take(k as int)),
            invariant
                k <= merged_operations@.len(),
                merged_ops == ops_view(merged_operations@),
                proper_ops(merged_ops),
            ensures
                last_index == last_end(merged_ops),
            decreases k,
        {
            k = k - 1;
            let found = match &merged_operations[k].operation {
                Operation::Insert { .. } => true,
                Operation::Equal { .. } => true,
                _ => false,
            };
            proof {
                assert(merged_ops[k as int] == merged_operations@[k as int]@);
                assert(merged_ops.take(k + 1).last() == merged_ops[k as int]);
                assert(merged_ops.take(k + 1).drop_last() =~= merged_ops.take(k as int));
            }
            if found {
                proof {
                    assert(op_wf(merged_ops[k as int].1));
                }
                last_index = merged_operations[k].operation.end_index();
                break;
            }
        }
        let ghost li1 = left_cursor_index as int;
        let ghost ri1 = right_cursor_index as int;
        let ghost cursors_moved = merged_cursors@;
        while left_cursor_index < left_cursors.len()
            invariant
                0 <= li1 <= left_cursor_index <= left_cursors@.len(),
                merged_cursors@ == cursors_moved + left_cursors@.subrange(
                    li1,
                    left_cursor_index as int,
                ).map_values(|c: CursorPosition| (CursorPosition { id: c.id, char_index: last_index })),
                right_cursor_index <= right_cursors@.len(),
                merged_cursors@.len() == left_cursor_index + right_cursor_index,
                cursor_ids(merged_cursors@).to_multiset() == taken_ids(
                    left_cursors@,
                    left_cursor_index as int,
                    right_cursors@,
                    right_cursor_index as int,
                ),
            decreases left_cursors@.len() - left_cursor_index,
        {
            let placed = left_cursors[left_cursor_index].with_index(last_index);
            proof {
                lemma_take_left_cursor(merged_cursors@, left_cursors@, left_cursor_index as int, right_cursors@, right_cursor_index as int, placed);
                assert(left_cursors@.subrange(li1, left_cursor_index + 1).map_values(
                    |c: CursorPosition| (CursorPosition { id: c.id, char_index: last_index }),
                ) =~= left_cursors@.subrange(li1, left_cursor_index as int).map_values(
                    |c: CursorPosition| (CursorPosition { id: c.id, char_index: last_index }),
                ).push(placed));
            }
            merged_cursors.push(placed);
            left_cursor_index = left_cursor_index + 1;
        }
        let ghost cursors_parked = merged_cursors@;
        proof {
            assert(cursors_parked =~= cursors_moved + parked(left_cursors@, li1, last_index));
        }
        while right_cursor_index < right_cursors.len()
            invariant
                left_cursor_index == left_cursors@.len(),
                0 <= ri1 <= right_cursor_index <= right_cursors@.len(),
                merged_cursors@ == cursors_parked + right_cursors@.subrange(
                    ri1,
                    right_cursor_index as int,
                ).map_values(|c: CursorPosition| (CursorPosition { id: c.id, char_index: last_index })),
                merged_cursors@.len() == left_cursor_index + right_cursor_index,
                cursor_ids(merged_cursors@).to_multiset() == taken_ids(
                    left_cursors@,
                    left_cursor_index as int,
                    right_cursors@,
                    right_cursor_index as int,
                ),
            decreases right_cursors@.len() - right_cursor_index,
        {
            let placed = right_cursors[right_cursor_index].with_index(last_index);
            proof {
                lemma_take_right_cursor(merged_cursors@, left_cursors@, left_cursor_index as int, right_cursors@, right_cursor_index as int, placed);
                assert(right_cursors@.subrange(ri1, right_cursor_index + 1).map_values(
                    |c: CursorPosition| (CursorPosition { id: c.id, char_index: last_index }),
                ) =~= right_cursors@.subrange(ri1, right_cursor_index as int).map_values(
                    |c: CursorPosition| (CursorPosition { id: c.id, char_index: last_index }),
                ).push(placed));
            }
            merged_cursors.push(placed);
            right_cursor_index = right_cursor_index + 1;
        }
        proof {
            lemma_all_ids(left_cursors@, right_cursors@);
            assert(merged_cursors@ =~= cursors_parked + parked(right_cursors@, ri1, last_index));
        }
        proof {
            assert(left_operations@.take(i as int) =~= left_operations@);
            assert(right_operations@.take(j as int) =~= right_operations@);
            vstd::seq_lib::to_multiset_len(merged_cursors@);
        }
        let ghost text = self.text@;
        let r = EditedText::new(self.text, merged_operations, merged_cursors);
        proof {
            vstd::seq_lib::to_multiset_len(r.cursors_view());
            if no_changes(right_ops) {
                lemma_applied_by_changes(text, r.operations_view(), left_ops);
            }
            if no_changes(left_ops) {
                lemma_applied_by_changes(text, r.operations_view(), right_ops);
            }
            if edit_of_length(left_ops, text.len() as int) && edit_of_length(
                right_ops,
                text.len() as int,
            ) && separated(left_ops, right_ops) && text.len() + new_pos(left_ops, left_ops.len() as int)
                + new_pos(right_ops, right_ops.len() as int) <= isize::MAX {
                lemma_separated_merge(text, left_ops, right_ops, self.cursors_view(), other.cursors_view());
            }
        }
        r
    }
}

/// The view of an optional operation.
pub open spec fn opt_view_of(op: Option<Operation>) -> Option<OpView> {
    super::operation::opt_view(op)
}

} // verus!
