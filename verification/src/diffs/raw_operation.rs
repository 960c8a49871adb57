//! The steps of an edit script between two token lists.
use vstd::prelude::*;

use crate::text::concat_strings;
use crate::tokenizer::token::{flatten, lemma_flatten_append, lemma_flatten_push, Token};

verus! {

/// One step of an edit script: tokens inserted from the new list, deleted
/// from the old list, or kept in both.
#[derive(Debug, Clone, PartialEq)]
pub enum RawOperation {
    Insert(Vec<Token>),
    Delete(Vec<Token>),
    Equal(Vec<Token>),
}

/// The tokens that a step carries.
pub open spec fn raw_tokens(op: RawOperation) -> Seq<Token> {
    match op {
        RawOperation::Insert(t) => t@,
        RawOperation::Delete(t) => t@,
        RawOperation::Equal(t) => t@,
    }
}

/// The tokens of the old list that a step accounts for.
pub open spec fn raw_old(op: RawOperation) -> Seq<Token> {
    match op {
        RawOperation::Insert(_) => Seq::empty(),
        RawOperation::Delete(t) => t@,
        RawOperation::Equal(t) => t@,
    }
}

/// The tokens of the new list that a step accounts for.
pub open spec fn raw_new(op: RawOperation) -> Seq<Token> {
    match op {
        RawOperation::Insert(t) => t@,
        RawOperation::Delete(_) => Seq::empty(),
        RawOperation::Equal(t) => t@,
    }
}

/// The old list that an edit script reads: its kept and deleted tokens.
pub open spec fn old_side(ops: Seq<RawOperation>) -> Seq<Token>
    decreases ops.len(),
{
    if ops.len() == 0 {
        Seq::empty()
    } else {
        old_side(ops.drop_last()) + raw_old(ops.last())
    }
}

/// The new list that an edit script writes: its kept and inserted tokens.
pub open spec fn new_side(ops: Seq<RawOperation>) -> Seq<Token>
    decreases ops.len(),
{
    if ops.len() == 0 {
        Seq::empty()
    } else {
        new_side(ops.drop_last()) + raw_new(ops.last())
    }
}

pub proof fn lemma_sides_push(ops: Seq<RawOperation>, op: RawOperation)
    ensures
        old_side(ops.push(op)) == old_side(ops) + raw_old(op),
        new_side(ops.push(op)) == new_side(ops) + raw_new(op),
{
    assert(ops.push(op).drop_last() =~= ops);
}

pub proof fn lemma_sides_append(a: Seq<RawOperation>, b: Seq<RawOperation>)
    ensures
        old_side(a + b) == old_side(a) + old_side(b),
        new_side(a + b) == new_side(a) + new_side(b),
    decreases b.len(),
{
    if b.len() == 0 {
        assert(a + b =~= a);
        assert(old_side(a) + old_side(b) =~= old_side(a));
        assert(new_side(a) + new_side(b) =~= new_side(a));
    } else {
        lemma_sides_append(a, b.drop_last());
        assert((a + b).drop_last() =~= a + b.drop_last());
        assert((a + b).last() == b.last());
        assert(old_side(a) + old_side(b) =~= old_side(a) + old_side(b.drop_last()) + raw_old(
            b.last(),
        ));
        assert(new_side(a) + new_side(b) =~= new_side(a) + new_side(b.drop_last()) + raw_new(
            b.last(),
        ));
    }
}

/// The kind of a step of an edit script.
pub enum StepKind {
    Insert,
    Delete,
    Equal,
}

/// A step as its kind and its tokens.
pub open spec fn step_of(op: RawOperation) -> (StepKind, Seq<Token>) {
    match op {
        RawOperation::Insert(t) => (StepKind::Insert, t@),
        RawOperation::Delete(t) => (StepKind::Delete, t@),
        RawOperation::Equal(t) => (StepKind::Equal, t@),
    }
}

/// The steps as kinds and tokens.
pub open spec fn steps_of(ops: Seq<RawOperation>) -> Seq<(StepKind, Seq<Token>)> {
    ops.map_values(|o: RawOperation| step_of(o))
}

pub proof fn lemma_steps_push(ops: Seq<RawOperation>, op: RawOperation)
    ensures
        steps_of(ops.push(op)) == steps_of(ops).push(step_of(op)),
{
    assert(steps_of(ops.push(op)) =~= steps_of(ops).push(step_of(op)));
}

/// Whether `a` and `b` are steps of the same kind.
pub open spec fn same_kind(a: RawOperation, b: RawOperation) -> bool {
    ||| (a is Insert && b is Insert)
    ||| (a is Delete && b is Delete)
    ||| (a is Equal && b is Equal)
}

impl RawOperation {
    pub fn tokens(&self) -> (r: &Vec<Token>)
        ensures
            r@ == raw_tokens(*self),
    {
        match self {
            RawOperation::Insert(tokens) | RawOperation::Delete(tokens) | RawOperation::Equal(
                tokens,
            ) => tokens,
        }
    }

    /// The number of characters of the original forms of the tokens.
    pub fn original_text_length(&self) -> (n: usize)
        requires
            flatten(raw_tokens(*self)).len() <= usize::MAX,
        ensures
            n == flatten(raw_tokens(*self)).len(),
    {
        let tokens = self.tokens();
        let mut n: usize = 0;
        let mut i: usize = 0;
        while i < tokens.len()
            invariant
                tokens@ == raw_tokens(*self),
                flatten(tokens@).len() <= usize::MAX,
                0 <= i <= tokens@.len(),
                n == flatten(tokens@.take(i as int)).len(),
            decreases tokens.len() - i,
        {
            proof {
                assert(tokens@.take(i + 1) =~= tokens@.take(i as int).push(tokens@[i as int]));
                lemma_flatten_push(tokens@.take(i as int), tokens@[i as int]);
                assert(tokens@ =~= tokens@.take(i + 1) + tokens@.skip(i + 1));
                lemma_flatten_append(tokens@.take(i + 1), tokens@.skip(i + 1));
            }
            n = n + tokens[i].get_original_length();
            i = i + 1;
        }
        assert(tokens@.take(i as int) =~= tokens@);
        n
    }

    /// The concatenation of the original forms of the tokens.
    pub fn get_original_text(self) -> (s: String)
        ensures
            s@ == flatten(raw_tokens(self)),
    {
        let tokens = self.tokens();
        let mut s = String::new();
        let mut i: usize = 0;
        while i < tokens.len()
            invariant
                tokens@ == raw_tokens(self),
                0 <= i <= tokens@.len(),
                s@ == flatten(tokens@.take(i as int)),
            decreases tokens.len() - i,
        {
            proof {
                assert(tokens@.take(i + 1) =~= tokens@.take(i as int).push(tokens@[i as int]));
                lemma_flatten_push(tokens@.take(i as int), tokens@[i as int]);
            }
            let piece = String::from_str(tokens[i].original());
            s = concat_strings(&s, &piece);
            i = i + 1;
        }
        assert(tokens@.take(i as int) =~= tokens@);
        s
    }

    /// Whether the first token joins with what precedes it (true when there
    /// are no tokens).
    pub fn is_left_joinable(&self) -> (b: bool)
        ensures
            b == (raw_tokens(*self).len() == 0 || raw_tokens(*self)[0].left_joinable()),
    {
        let tokens = self.tokens();
        if tokens.len() == 0 {
            true
        } else {
            tokens[0].get_is_left_joinable()
        }
    }

    /// Whether the last token joins with what follows it (true when there
    /// are no tokens).
    pub fn is_right_joinable(&self) -> (b: bool)
        ensures
            b == (raw_tokens(*self).len() == 0 || raw_tokens(*self).last().right_joinable()),
    {
        let tokens = self.tokens();
        if tokens.len() == 0 {
            true
        } else {
            tokens[tokens.len() - 1].get_is_right_joinable()
        }
    }

    /// Extends the operation with another operation of the same type, giving
    /// an operation whose tokens are those of `self` followed by those of
    /// `other`. Operations of different types give None.
    pub fn extend(self, other: RawOperation) -> (r: Option<RawOperation>)
        ensures
            same_kind(self, other) ==> r is Some && same_kind(r->0, self) && raw_tokens(r->0)
                == raw_tokens(self) + raw_tokens(other),
            !same_kind(self, other) ==> r is None,
    {
        match (self, other) {
            (RawOperation::Insert(mut tokens1), RawOperation::Insert(mut tokens2)) => {
                tokens1.append(&mut tokens2);
                Some(RawOperation::Insert(tokens1))
            },
            (RawOperation::Delete(mut tokens1), RawOperation::Delete(mut tokens2)) => {
                tokens1.append(&mut tokens2);
                Some(RawOperation::Delete(tokens1))
            },
            (RawOperation::Equal(mut tokens1), RawOperation::Equal(mut tokens2)) => {
                tokens1.append(&mut tokens2);
                Some(RawOperation::Equal(tokens1))
            },
            _ => None,
        }
    }
}

} // verus!
