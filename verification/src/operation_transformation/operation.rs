//! Insertions and deletions at character indices of a text.
use vstd::prelude::*;

use crate::diffs::lcs::copy_tokens;
use crate::text::{char_count, concat_strings};
use crate::tokenizer::token::{flatten, lemma_flatten_append, lemma_flatten_push, Token};
use crate::utils::find_common_overlap::{common_overlap, find_common_overlap};
use crate::utils::string_builder::{chars_from, StringBuilder};
use super::merge_context::{consumed, ctx_wf, MergeContext, MergeContextView};
use vstd::wrapping::usize_specs::{wrapping_add, wrapping_sub};
use vstd::wrapping::i64_specs;

verus! {

/// Represents a change that can be applied to a text document.
/// Operations are mainly expected to be created by `EditedText`.
#[derive(Debug)]
pub enum Operation {
    Insert { index: usize, text: Vec<Token> },
    Delete { index: usize, deleted_character_count: usize, deleted_text: Option<String> },
    /// A stretch of text that both the original and the updated text hold; it
    /// changes nothing when applied and carries cursors through a merge.
    Equal { index: usize, length: usize },
}

/// The mathematical value of an `Operation`.
pub enum OpView {
    Insert { index: usize, text: Seq<Token> },
    Delete { index: usize, count: usize, deleted_text: Option<Seq<char>> },
    Equal { index: usize, length: usize },
}

impl View for Operation {
    type V = OpView;

    open spec fn view(&self) -> OpView {
        match self {
            Operation::Insert { index, text } => OpView::Insert { index: *index, text: text@ },
            Operation::Delete { index, deleted_character_count, deleted_text } => OpView::Delete {
                index: *index,
                count: *deleted_character_count,
                deleted_text: match deleted_text {
                    Some(t) => Some(t@),
                    None => None,
                },
            },
            Operation::Equal { index, length } => OpView::Equal { index: *index, length: *length },
        }
    }
}

/// The view of an optional operation.
pub open spec fn opt_view(op: Option<Operation>) -> Option<OpView> {
    match op {
        Some(o) => Some(o@),
        None => None,
    }
}

/// The index of the first character that the operation affects.
pub open spec fn op_index(op: OpView) -> usize {
    match op {
        OpView::Insert { index, .. } => index,
        OpView::Delete { index, .. } => index,
        OpView::Equal { index, .. } => index,
    }
}

/// The tokens that an insert inserts (none for the other operations).
pub open spec fn op_tokens(op: OpView) -> Seq<Token> {
    match op {
        OpView::Insert { text, .. } => text,
        _ => Seq::empty(),
    }
}

/// The characters that an insert inserts (none for the other operations).
pub open spec fn op_text(op: OpView) -> Seq<char> {
    flatten(op_tokens(op))
}

/// The number of affected characters.
pub open spec fn op_len(op: OpView) -> int {
    match op {
        OpView::Insert { text, .. } => flatten(text).len() as int,
        OpView::Delete { count, .. } => count as int,
        OpView::Equal { length, .. } => length as int,
    }
}

/// The operation's length fits in a `usize`.
pub open spec fn op_wf(op: OpView) -> bool {
    op_len(op) <= usize::MAX
}

/// The index of the last affected character, wrapping around as index
/// arithmetic does in an optimised build (`start + len - 1`).
pub open spec fn op_end(op: OpView) -> usize {
    wrapping_sub(wrapping_add(op_index(op), op_len(op) as usize), 1)
}

/// The length as the merge arithmetic sees it (`len() as i64`).
pub open spec fn len64(op: OpView) -> i64 {
    (op_len(op) as usize) as i64
}

/// `op` with its index replaced by `index`.
pub open spec fn op_with_index(op: OpView, index: usize) -> OpView {
    match op {
        OpView::Insert { text, .. } => OpView::Insert { index, text },
        OpView::Delete { count, deleted_text, .. } => OpView::Delete { index, count, deleted_text },
        OpView::Equal { length, .. } => OpView::Equal { index, length },
    }
}

/// The index `index + offset`, computed in `i64` and cast back to `usize`.
pub open spec fn shifted(index: usize, offset: i64) -> usize {
    i64_specs::wrapping_add(index as i64, offset) as usize
}

/// What `Operation::create_delete` gives.
pub open spec fn delete_of(index: usize, count: usize) -> Option<OpView> {
    if count == 0 {
        None
    } else {
        Some(OpView::Delete { index, count, deleted_text: None })
    }
}

/// `a - b` in `i64`, but at least 0 (`0.max(a - b)`).
pub open spec fn nonneg_difference(a: i64, b: i64) -> i64 {
    let d = i64_specs::wrapping_sub(a, b);
    if d < 0 {
        0
    } else {
        d
    }
}

/// The number of leading tokens of an insert of `text` at `index` that repeat
/// the end of the other side's insert just before it; they are dropped.
pub open spec fn repeated_count(affecting: MergeContextView, index: usize, text: Seq<Token>) -> int {
    match affecting.last_insert {
        Some(previous) => if previous is Insert && wrapping_add(op_end(previous), 1) == index {
            op_tokens(previous).len() - common_overlap(op_tokens(previous), text)
        } else {
            0
        },
        None => 0,
    }
}

/// The merge of an insert `op` (already shifted) whose leading repeated
/// tokens were dropped, against the affecting context `a` and the produced
/// context `p`: the result and the two new contexts.
pub open spec fn insert_step(op: OpView, a: MergeContextView, p: MergeContextView) -> (
    Option<OpView>,
    MergeContextView,
    MergeContextView,
) {
    let p1 = MergeContextView { shift: i64_specs::wrapping_add(p.shift, len64(op)), ..p };
    match a.last_delete {
        None => (Some(op), a, MergeContextView { last_insert: Some(op), ..p1 }),
        Some(last_delete) => {
            let difference = i64_specs::wrapping_sub(
                op_index(op) as i64,
                op_index(last_delete) as i64,
            );
            let moved = op_with_index(op, op_index(last_delete));
            (
                Some(moved),
                MergeContextView {
                    last_delete: delete_of(
                        wrapping_add(op_end(moved), 1),
                        i64_specs::wrapping_sub(len64(last_delete), difference) as usize,
                    ),
                    shift: i64_specs::wrapping_sub(a.shift, difference),
                    ..a
                },
                MergeContextView { last_insert: Some(moved), ..p1 },
            )
        },
    }
}

/// `p` with its last delete replaced by `delete`, the replaced one's length
/// taken off the shift.
pub open spec fn replaced(p: MergeContextView, delete: Option<OpView>) -> MergeContextView {
    MergeContextView {
        last_delete: delete,
        shift: match p.last_delete {
            Some(d) => i64_specs::wrapping_sub(p.shift, len64(d)),
            None => p.shift,
        },
        ..p
    }
}

/// The merge of a delete `op` (already shifted) against the affecting context
/// `a` and the produced context `p`.
pub open spec fn delete_step(op: OpView, a: MergeContextView, p: MergeContextView) -> (
    Option<OpView>,
    MergeContextView,
    MergeContextView,
) {
    match a.last_delete {
        None => (Some(op), a, replaced(p, Some(op))),
        Some(last_delete) => {
            let difference = i64_specs::wrapping_sub(
                op_index(op) as i64,
                op_index(last_delete) as i64,
            );
            let updated = delete_of(
                op_index(last_delete),
                nonneg_difference(op_end(op) as i64, op_end(last_delete) as i64) as usize,
            );
            (
                updated,
                MergeContextView {
                    last_delete: delete_of(
                        op_index(last_delete),
                        nonneg_difference(op_end(last_delete) as i64, op_end(op) as i64) as usize,
                    ),
                    shift: i64_specs::wrapping_sub(a.shift, difference),
                    ..a
                },
                replaced(p, updated),
            )
        },
    }
}

/// What merging `op` against the affecting context `a` and the produced
/// context `p` gives: the merged operation and the two new contexts.
pub open spec fn merge_step(op: OpView, a: MergeContextView, p: MergeContextView) -> (
    Option<OpView>,
    MergeContextView,
    MergeContextView,
) {
    let a1 = consumed(a, op_index(op));
    let s = op_with_index(op, shifted(op_index(op), a1.shift));
    match s {
        OpView::Equal { .. } => (Some(s), a1, p),
        OpView::Delete { .. } => delete_step(s, a1, p),
        OpView::Insert { index, text } => {
            let n = repeated_count(a1, index, text);
            let a2 = if n == 0 {
                a1
            } else {
                MergeContextView {
                    shift: i64_specs::wrapping_sub(a1.shift, (flatten(text.take(n)).len() as usize) as i64),
                    ..a1
                }
            };
            if flatten(text.skip(n)).len() == 0 {
                (None, a2, p)
            } else {
                insert_step(OpView::Insert { index, text: text.skip(n) }, a2, p)
            }
        },
    }
}

impl Operation {
    /// Creates an insert operation with the given index and text.
    /// If the text is empty (meaning that the operation would be a no-op),
    /// returns None: an operation always affects at least one character.
    pub fn create_insert(index: usize, text: Vec<Token>) -> (r: Option<Self>)
        ensures
            flatten(text@).len() == 0 ==> r is None,
            flatten(text@).len() > 0 ==> opt_view(r) == Some(OpView::Insert { index, text: text@ }),
            r matches Some(o) ==> op_len(o@) > 0,
    {
        let mut i: usize = 0;
        while i < text.len()
            invariant
                0 <= i <= text@.len(),
                flatten(text@.take(i as int)).len() == 0,
            decreases text.len() - i,
        {
            proof {
                assert(text@.take(i + 1) =~= text@.take(i as int).push(text@[i as int]));
                lemma_flatten_push(text@.take(i as int), text@[i as int]);
                lemma_flatten_append(text@.take(i + 1), text@.skip(i + 1));
                assert(text@ =~= text@.take(i + 1) + text@.skip(i + 1));
            }
            if text[i].get_original_length() > 0 {
                return Some(Operation::Insert { index, text });
            }
            i = i + 1;
        }
        proof {
            assert(text@.take(i as int) =~= text@);
        }
        None
    }

    /// Creates a delete operation with the given index and number of
    /// to-be-deleted characters. If the operation would delete 0 (meaning that
    /// the operation would be a no-op), returns None.
    pub fn create_delete(index: usize, deleted_character_count: usize) -> (r: Option<Self>)
        ensures
            opt_view(r) == delete_of(index, deleted_character_count),
    {
        if deleted_character_count == 0 {
            return None;
        }
        Some(Operation::Delete { index, deleted_character_count, deleted_text: None })
    }

    /// Creates a delete operation that remembers the text it deletes.
    pub fn create_delete_with_text(index: usize, text: String) -> (r: Option<Self>)
        ensures
            text@.len() == 0 ==> r is None,
            text@.len() > 0 ==> opt_view(r) == Some(
                OpView::Delete { index, count: text@.len() as usize, deleted_text: Some(text@) },
            ),
    {
        let count = char_count(&text);
        if count == 0 {
            return None;
        }
        Some(Operation::Delete { index, deleted_character_count: count, deleted_text: Some(text) })
    }

    /// Creates an equal stretch of `length` characters at `index`, or None if
    /// it would be empty.
    pub fn create_equal(index: usize, length: usize) -> (r: Option<Self>)
        ensures
            length == 0 ==> r is None,
            length > 0 ==> opt_view(r) == Some(OpView::Equal { index, length }),
    {
        if length == 0 {
            return None;
        }
        Some(Operation::Equal { index, length })
    }

    /// A copy of the operation.
    pub fn duplicate(&self) -> (r: Self)
        ensures
            r@ == self@,
    {
        match self {
            Operation::Insert { index, text } => {
                let copy = copy_tokens(text.as_slice(), 0, text.len());
                assert(copy@ =~= text@);
                Operation::Insert { index: *index, text: copy }
            },
            Operation::Delete { index, deleted_character_count, deleted_text } => Operation::Delete {
                index: *index,
                deleted_character_count: *deleted_character_count,
                deleted_text: match deleted_text {
                    Some(t) => Some(t.clone()),
                    None => None,
                },
            },
            Operation::Equal { index, length } => Operation::Equal { index: *index, length: *length },
        }
    }

    /// Returns the index of the first character that the operation affects.
    pub fn start_index(&self) -> (r: usize)
        ensures
            r == op_index(self@),
    {
        match self {
            Operation::Insert { index, .. } => *index,
            Operation::Delete { index, .. } => *index,
            Operation::Equal { index, .. } => *index,
        }
    }

    /// Returns the number of affected characters.
    pub fn len(&self) -> (n: usize)
        requires
            op_wf(self@),
        ensures
            n == op_len(self@),
    {
        match self {
            Operation::Insert { text, .. } => {
                assert(text@.take(text@.len() as int) =~= text@);
                tokens_length(text.as_slice(), text.len())
            },
            Operation::Delete { deleted_character_count, .. } => *deleted_character_count,
            Operation::Equal { length, .. } => *length,
        }
    }

    /// Returns the index of the last character that the operation affects
    /// (`start + len - 1`, wrapping around for an empty operation at 0).
    pub fn end_index(&self) -> (r: usize)
        requires
            op_wf(self@),
        ensures
            r == op_end(self@),
    {
        self.start_index().wrapping_add(self.len()).wrapping_sub(1)
    }

    /// Returns the range of indices of characters that the operation
    /// affects, inclusive.
    pub fn range(&self) -> (r: core::ops::RangeInclusive<usize>)
        requires
            op_wf(self@),
        ensures
            r@.start == op_index(self@),
            r@.end == op_end(self@),
            !r@.exhausted,
    {
        core::ops::RangeInclusive::new(self.start_index(), self.end_index())
    }

    /// Whether the operation affects no characters.
    pub fn is_empty(&self) -> (b: bool)
        requires
            op_wf(self@),
        ensures
            b == (op_len(self@) == 0),
    {
        self.len() == 0
    }

    /// The inserted text of an insert, or the empty string otherwise.
    pub fn text(&self) -> (s: String)
        ensures
            s@ == op_text(self@),
    {
        match self {
            Operation::Insert { text, .. } => {
                let mut s = String::new();
                let mut i: usize = 0;
                while i < text.len()
                    invariant
                        0 <= i <= text@.len(),
                        s@ == flatten(text@.take(i as int)),
                    decreases text.len() - i,
                {
                    proof {
                        assert(text@.take(i + 1) =~= text@.take(i as int).push(text@[i as int]));
                        lemma_flatten_push(text@.take(i as int), text@[i as int]);
                    }
                    let piece = String::from_str(text[i].original());
                    s = concat_strings(&s, &piece);
                    i = i + 1;
                }
                assert(text@.take(i as int) =~= text@);
                s
            },
            _ => String::new(),
        }
    }

    /// Clones the operation while updating the index.
    pub fn with_index(self, index: usize) -> (r: Self)
        ensures
            r@ == op_with_index(self@, index),
    {
        match self {
            Operation::Insert { text, .. } => Operation::Insert { index, text },
            Operation::Delete { deleted_character_count, deleted_text, .. } => Operation::Delete {
                index,
                deleted_character_count,
                deleted_text,
            },
            Operation::Equal { length, .. } => Operation::Equal { index, length },
        }
    }

    /// Clones the operation while shifting the index by the given offset.
    /// The offset can be negative; the index is computed in `i64` and cast
    /// back.
    pub fn with_shifted_index(self, offset: i64) -> (r: Self)
        requires
            op_index(self@) <= i64::MAX,
            0 <= op_index(self@) + offset <= i64::MAX,
        ensures
            r@ == op_with_index(self@, (op_index(self@) + offset) as usize),
    {
        let index = self.start_index() as i64 + offset;
        self.with_index(index as usize)
    }

    /// The operation moved by `offset`, the index arithmetic wrapping around
    /// as in an optimised build.
    fn shifted_by(self, offset: i64) -> (r: Self)
        ensures
            r@ == op_with_index(self@, shifted(op_index(self@), offset)),
    {
        let index = (self.start_index() as i64).wrapping_add(offset);
        self.with_index(index as usize)
    }

    /// Applies the operation to the string being built: an insert inserts its
    /// text at its index, a delete skips its characters and an equal stretch
    /// leaves the builder as it is.
    pub fn apply(&self, builder: StringBuilder) -> (r: StringBuilder)
        ensures
            r.original_chars() == builder.original_chars(),
            (r.last_old(), r.built()) == apply_step(
                builder.original_chars(),
                builder.last_old(),
                builder.built(),
                self@,
            ),
    {
        let mut builder = builder;
        match self {
            Operation::Insert { index, .. } => {
                let text = self.text();
                builder.insert(*index, text.as_str());
            },
            Operation::Delete { index, deleted_character_count, .. } => {
                builder.delete(*index..index.wrapping_add(*deleted_character_count));
            },
            Operation::Equal { .. } => {},
        }
        builder
    }
}

impl Operation {
    /// Merges the operation with the given contexts, producing the merged
    /// operation (if anything is left of it) and updating the contexts in
    /// place. The affecting context holds what the other side's operations
    /// left behind; the produced context is what this side leaves for them.
    ///
    /// The operation is moved by the other side's shift. An insert right after
    /// the other side's last insert drops the tokens that repeat the end of
    /// that insert. An insert inside a delete of the other side is moved to
    /// the delete's start; a delete inside a delete of the other side deletes
    /// only what the other one does not.
    pub fn merge_operations_with_context(
        self,
        affecting_context: &mut MergeContext,
        produced_context: &mut MergeContext,
    ) -> (r: Option<Operation>)
        requires
            op_wf(self@),
            ctx_wf(old(affecting_context)@),
            ctx_wf(old(produced_context)@),
        ensures
            (opt_view(r), final(affecting_context)@, final(produced_context)@) == merge_step(
                self@,
                old(affecting_context)@,
                old(produced_context)@,
            ),
            ctx_wf(final(affecting_context)@),
            ctx_wf(final(produced_context)@),
            r matches Some(o) ==> op_wf(o@),
            r matches Some(o) ==> (o@ is Insert ==> flatten(op_tokens(o@)).len() > 0),
    {
        affecting_context.consume_delete_if_behind_operation(&self);
        let operation = self.shifted_by(affecting_context.shift);
        let operation = match operation {
            Operation::Insert { index, text } => {
                match drop_repeated_tokens(index, text, affecting_context) {
                    Some(op) => op,
                    None => {
                        return None;
                    },
                }
            },
            other => other,
        };
        match operation {
            Operation::Equal { .. } => Some(operation),
            Operation::Insert { .. } => {
                let length = operation.len();
                produced_context.shift = produced_context.shift.wrapping_add(length as i64);
                match &affecting_context.last_delete {
                    None => {
                        produced_context.last_insert = Some(operation.duplicate());
                        Some(operation)
                    },
                    Some(last_delete) => {
                        let last_start = last_delete.start_index();
                        let last_length = last_delete.len();
                        let difference = (operation.start_index() as i64).wrapping_sub(
                            last_start as i64,
                        );
                        let moved_operation = operation.with_index(last_start);
                        let next_delete = Operation::create_delete(
                            moved_operation.end_index().wrapping_add(1),
                            (last_length as i64).wrapping_sub(difference) as usize,
                        );
                        affecting_context.last_delete = next_delete;
                        affecting_context.shift = affecting_context.shift.wrapping_sub(difference);
                        produced_context.last_insert = Some(moved_operation.duplicate());
                        Some(moved_operation)
                    },
                }
            },
            Operation::Delete { .. } => {
                match &affecting_context.last_delete {
                    None => {
                        produced_context.replace_delete(Some(operation.duplicate()));
                        Some(operation)
                    },
                    Some(last_delete) => {
                        let last_start = last_delete.start_index();
                        let last_end = last_delete.end_index();
                        let end = operation.end_index();
                        let difference = (operation.start_index() as i64).wrapping_sub(
                            last_start as i64,
                        );
                        let updated_delete = Operation::create_delete(
                            last_start,
                            non_negative((end as i64).wrapping_sub(last_end as i64)) as usize,
                        );
                        let remaining_delete = Operation::create_delete(
                            last_start,
                            non_negative((last_end as i64).wrapping_sub(end as i64)) as usize,
                        );
                        affecting_context.last_delete = remaining_delete;
                        affecting_context.shift = affecting_context.shift.wrapping_sub(difference);
                        let copy = match &updated_delete {
                            Some(d) => Some(d.duplicate()),
                            None => None,
                        };
                        produced_context.replace_delete(copy);
                        updated_delete
                    },
                }
            },
        }
    }
}

/// `0.max(x)`.
fn non_negative(x: i64) -> (r: i64)
    ensures
        r == (if x < 0 {
            0
        } else {
            x
        }),
{
    if x < 0 {
        0
    } else {
        x
    }
}

/// Drops the leading tokens of an insert of `text` at `index` that repeat the
/// end of the other side's insert right before it, taking their length off
/// the affecting context's shift. None when nothing is left.
fn drop_repeated_tokens(index: usize, text: Vec<Token>, affecting_context: &mut MergeContext) -> (r:
    Option<Operation>)
    requires
        flatten(text@).len() <= usize::MAX,
        ctx_wf(old(affecting_context)@),
    ensures
        ({
            let n = repeated_count(old(affecting_context)@, index, text@);
            &&& 0 <= n <= text@.len()
            &&& final(affecting_context)@ == (if n == 0 {
                old(affecting_context)@
            } else {
                MergeContextView {
                    shift: i64_specs::wrapping_sub(
                        old(affecting_context)@.shift,
                        (flatten(text@.take(n)).len() as usize) as i64,
                    ),
                    ..old(affecting_context)@
                }
            })
            &&& (flatten(text@.skip(n)).len() == 0 ==> r is None)
            &&& (flatten(text@.skip(n)).len() > 0 ==> opt_view(r) == Some(
                OpView::Insert { index, text: text@.skip(n) },
            ))
            &&& (r matches Some(o) ==> op_wf(o@))
        }),
{
    let n: usize = match &affecting_context.last_insert {
        Some(Operation::Insert { index: previous_index, text: previous_text }) => {
            assert(previous_text@.take(previous_text@.len() as int) =~= previous_text@);
            let previous_length = tokens_length(previous_text.as_slice(), previous_text.len());
            let previous_end = previous_index.wrapping_add(previous_length).wrapping_sub(1);
            if previous_end.wrapping_add(1) == index {
                previous_text.len() - find_common_overlap(previous_text.as_slice(), text.as_slice())
            } else {
                0
            }
        },
        _ => 0,
    };
    proof {
        lemma_flatten_append(text@.take(n as int), text@.skip(n as int));
        assert(text@ =~= text@.take(n as int) + text@.skip(n as int));
    }
    if n == 0 {
        assert(text@.skip(0) =~= text@);
        return Operation::create_insert(index, text);
    }
    let dropped = tokens_length(text.as_slice(), n);
    affecting_context.shift = affecting_context.shift.wrapping_sub(dropped as i64);
    let rest = copy_tokens(text.as_slice(), n, text.len());
    assert(rest@ =~= text@.skip(n as int));
    Operation::create_insert(index, rest)
}

/// The total length of the original forms of `ts[..n]`.
fn tokens_length(ts: &[Token], n: usize) -> (len: usize)
    requires
        n <= ts@.len(),
        flatten(ts@).len() <= usize::MAX,
    ensures
        len == flatten(ts@.take(n as int)).len(),
{
    let mut total: usize = 0;
    let mut i: usize = 0;
    while i < n
        invariant
            flatten(ts@).len() <= usize::MAX,
            0 <= i <= n <= ts@.len(),
            total == flatten(ts@.take(i as int)).len(),
        decreases n - i,
    {
        proof {
            assert(ts@.take(i + 1) =~= ts@.take(i as int).push(ts@[i as int]));
            lemma_flatten_push(ts@.take(i as int), ts@[i as int]);
            lemma_flatten_append(ts@.take(i + 1), ts@.skip(i + 1));
            assert(ts@ =~= ts@.take(i + 1) + ts@.skip(i + 1));
        }
        total = total + ts[i].get_original_length();
        i = i + 1;
    }
    total
}

/// The number of characters that deleting `count` characters from `index`
/// skips: `count`, unless `index + count` wraps around, which leaves an empty
/// range.
pub open spec fn span(index: usize, count: usize) -> usize {
    if index + count <= usize::MAX {
        count
    } else {
        0
    }
}

/// What applying `op` does to a string builder over `original` that consumed
/// `last` characters of it and built `built`: the new `(last, built)`.
pub open spec fn apply_step(original: Seq<char>, last: usize, built: Seq<char>, op: OpView) -> (
    usize,
    Seq<char>,
) {
    let jump = wrapping_sub(op_index(op), built.len() as usize);
    match op {
        OpView::Insert { .. } => (
            wrapping_add(last, jump),
            built + chars_from(original, last as int, jump as int) + op_text(op),
        ),
        OpView::Delete { index, count, .. } => (
            wrapping_add(wrapping_add(last, jump), span(index, count)),
            built + chars_from(original, last as int, jump as int),
        ),
        OpView::Equal { .. } => (last, built),
    }
}

} // verus!
