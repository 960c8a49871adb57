//! Operational transformation of two concurrent edits of the same text.
use vstd::prelude::*;

pub mod cursor;
pub mod edit_merge;
pub mod edited_text;
pub mod elongate_operations;
pub mod merge_context;
pub mod operation;
pub mod ordered_operation;
pub mod overlap_laws;
pub mod separated_edits;

use crate::tokenizer::token::Token;
use cursor::TextWithCursors;
use cursor::CursorPosition;
use edit_merge::merge_edits;
use edited_text::{
    applied, bounded_tokenizer, changes, cursor_ids, cursor_sort, lemma_ids_concat,
    merge_result, sorted_by_index, spells_input, tokenizer_edit, word_count_fits, word_edit,
    EditedText,
};
use merge_context::empty_context;
use separated_edits::{edit_of_length, pos_merge, separated, spliced};
use operation::OpView;

verus! {

/// The text and the cursors that merging the edits `left_ops` and
/// `right_ops` of `original` gives, the cursors of each side sorted first:
/// the merged operations applied to `original`, and the moved cursors
/// sorted.
pub open spec fn merged_edits(
    original: Seq<char>,
    left_ops: Seq<(usize, OpView)>,
    right_ops: Seq<(usize, OpView)>,
    left_cursors: Seq<CursorPosition>,
    right_cursors: Seq<CursorPosition>,
) -> (Seq<char>, Seq<CursorPosition>) {
    let m = merge_edits(
        left_ops,
        right_ops,
        cursor_sort(left_cursors),
        cursor_sort(right_cursors),
        0,
        0,
        0,
        0,
        empty_context(),
        empty_context(),
        Seq::empty(),
        Seq::empty(),
    );
    (applied(original, m.0), cursor_sort(m.1))
}

/// `text` and `cursors` are what reconciling `left` and `right` with their
/// common `original` gives: the merge of the word edit from `original` to
/// `left` with the word edit from `original` to `right`. Each word edit
/// covers `original` operation by operation; where no change of one lies
/// next to a change of the other, `text` is `original` with the changes of
/// both made.
pub open spec fn reconciled(
    original: Seq<char>,
    left: Seq<char>,
    right: Seq<char>,
    left_cursors: Seq<CursorPosition>,
    right_cursors: Seq<CursorPosition>,
    text: Seq<char>,
    cursors: Seq<CursorPosition>,
) -> bool {
    exists|left_ops: Seq<(usize, OpView)>, right_ops: Seq<(usize, OpView)>|
        #![trigger word_edit(original, left, left_ops), word_edit(original, right, right_ops)]
        word_edit(original, left, left_ops) && word_edit(original, right, right_ops) && (text, cursors)
            == merged_edits(original, left_ops, right_ops, left_cursors, right_cursors)
            && edit_of_length(left_ops, original.len() as int) && edit_of_length(
            right_ops,
            original.len() as int,
        ) && (separated(left_ops, right_ops) && original.len() + left.len() + right.len()
            <= isize::MAX ==> text == spliced(original, pos_merge(changes(left_ops), changes(right_ops))))
}

/// Merges the edits that turned `original` into `left` and into `right` into
/// one text that holds the changes of both.
pub fn reconcile(original: &str, left: &str, right: &str) -> (r: String)
    requires
        word_count_fits(original@),
        original@.len() + left@.len() <= usize::MAX,
        original@.len() + right@.len() <= usize::MAX,
    ensures
        reconciled(original@, left@, right@, Seq::empty(), Seq::empty(), r@, Seq::empty()),
        left@ == original@ ==> r@ == right@,
        right@ == original@ ==> r@ == left@,
{
    let merged = reconcile_with_cursors(original, TextWithCursors::from(left), TextWithCursors::from(right));
    proof {
        assert(merged.cursors@ =~= Seq::<CursorPosition>::empty());
    }
    merged.text
}

/// Merges the edits that turned `original` into `left` and into `right`,
/// moving the cursors of both sides into the merged text.
pub fn reconcile_with_cursors(
    original: &str,
    left: TextWithCursors,
    right: TextWithCursors,
) -> (r: TextWithCursors)
    requires
        word_count_fits(original@),
        original@.len() + left.text@.len() <= usize::MAX,
        original@.len() + right.text@.len() <= usize::MAX,
    ensures
        reconciled(
            original@,
            left.text@,
            right.text@,
            left.cursors@,
            right.cursors@,
            r.text@,
            r.cursors@,
        ),
        left.text@ == original@ ==> r.text@ == right.text@,
        right.text@ == original@ ==> r.text@ == left.text@,
        sorted_by_index(r.cursors@),
        r.cursors@.len() == left.cursors@.len() + right.cursors@.len(),
        cursor_ids(r.cursors@).to_multiset() == cursor_ids(left.cursors@ + right.cursors@).to_multiset(),
{
    proof {
        vstd::seq_lib::to_multiset_len(left.cursors@);
        vstd::seq_lib::to_multiset_len(right.cursors@);
    }
    let left_operations = EditedText::from_strings(original, left);
    let right_operations = EditedText::from_strings(original, right);
    proof {
        vstd::seq_lib::to_multiset_len(left_operations.cursors_view());
        vstd::seq_lib::to_multiset_len(right_operations.cursors_view());
    }
    let ghost left_cursors = left_operations.cursors_view();
    let ghost right_cursors = right_operations.cursors_view();
    let ghost left_ops = left_operations.operations_view();
    let ghost right_ops = right_operations.operations_view();
    let merged_operations = left_operations.merge(right_operations);
    proof {
        lemma_ids_concat(left_cursors, right_cursors);
        lemma_ids_concat(left.cursors@, right.cursors@);
    }
    let text = merged_operations.apply();
    let cursors = copy_cursors(merged_operations.cursors());
    let r = TextWithCursors::new_owned(text, cursors);
    proof {
        assert(word_edit(original@, left.text@, left_ops));
        assert(word_edit(original@, right.text@, right_ops));
        assert((r.text@, r.cursors@) == merged_edits(original@, left_ops, right_ops, left.cursors@, right.cursors@));
    }
    r
}

/// Merges the edits that turned `original` into `left` and into `right`,
/// splitting the texts into tokens with `tokenizer`. The tokens must spell
/// the text they were made from: the merge finds its places in the texts by
/// the lengths of the tokens, and with tokens that spell something else it
/// would work at indices that do not lie in the texts.
pub fn reconcile_with_tokenizer<F: Fn(&str) -> Vec<Token>>(
    original: &str,
    left: TextWithCursors,
    right: TextWithCursors,
    tokenizer: &F,
) -> (r: TextWithCursors)
    requires
        forall|text: &str| #[trigger] tokenizer.requires((text,)),
        bounded_tokenizer(*tokenizer),
        spells_input(*tokenizer),
        2 * original@.len() + left.text@.len() <= usize::MAX,
        2 * original@.len() + right.text@.len() <= usize::MAX,
    ensures
        exists|left_ops: Seq<(usize, OpView)>, right_ops: Seq<(usize, OpView)>|
            #![trigger tokenizer_edit(*tokenizer, original, left.text@, left_ops), tokenizer_edit(*tokenizer, original, right.text@, right_ops)]
            tokenizer_edit(*tokenizer, original, left.text@, left_ops) && tokenizer_edit(
                *tokenizer,
                original,
                right.text@,
                right_ops,
            ) && (r.text@, r.cursors@) == merged_edits(
                original@,
                left_ops,
                right_ops,
                left.cursors@,
                right.cursors@,
            ),
        sorted_by_index(r.cursors@),
        r.cursors@.len() == left.cursors@.len() + right.cursors@.len(),
        cursor_ids(r.cursors@).to_multiset() == cursor_ids(left.cursors@ + right.cursors@).to_multiset(),
{
    proof {
        vstd::seq_lib::to_multiset_len(left.cursors@);
        vstd::seq_lib::to_multiset_len(right.cursors@);
    }
    let left_operations = EditedText::from_strings_with_tokenizer(original, left, tokenizer);
    let right_operations = EditedText::from_strings_with_tokenizer(original, right, tokenizer);
    proof {
        vstd::seq_lib::to_multiset_len(left_operations.cursors_view());
        vstd::seq_lib::to_multiset_len(right_operations.cursors_view());
    }
    let ghost left_cursors = left_operations.cursors_view();
    let ghost right_cursors = right_operations.cursors_view();
    let ghost left_ops = left_operations.operations_view();
    let ghost right_ops = right_operations.operations_view();
    let merged_operations = left_operations.merge(right_operations);
    proof {
        lemma_ids_concat(left_cursors, right_cursors);
        lemma_ids_concat(left.cursors@, right.cursors@);
    }
    let text = merged_operations.apply();
    let cursors = copy_cursors(merged_operations.cursors());
    let r = TextWithCursors::new_owned(text, cursors);
    proof {
        assert(tokenizer_edit(*tokenizer, original, left.text@, left_ops));
        assert(tokenizer_edit(*tokenizer, original, right.text@, right_ops));
        assert((r.text@, r.cursors@) == merged_edits(original@, left_ops, right_ops, left.cursors@, right.cursors@));
    }
    r
}

/// A copy of the cursors.
fn copy_cursors(cursors: &Vec<cursor::CursorPosition>) -> (r: Vec<cursor::CursorPosition>)
    ensures
        r@ == cursors@,
{
    let mut r: Vec<cursor::CursorPosition> = Vec::new();
    let mut i: usize = 0;
    while i < cursors.len()
        invariant
            0 <= i <= cursors@.len(),
            r@ == cursors@.take(i as int),
        decreases cursors.len() - i,
    {
        r.push(cursors[i]);
        assert(cursors@.take(i + 1) =~= cursors@.take(i as int).push(cursors@[i as int]));
        i = i + 1;
    }
    assert(cursors@.take(i as int) =~= cursors@);
    r
}

} // verus!
