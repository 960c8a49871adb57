//! Joining the insertions and deletions between two kept stretches.
use vstd::prelude::*;

use crate::diffs::lcs::{all_nonempty, only_equal};
use crate::diffs::raw_operation::{
    lemma_sides_append, lemma_sides_push, new_side, old_side, raw_new, raw_old, raw_tokens,
    same_kind, step_of, steps_of, lemma_steps_push, RawOperation, StepKind,
};

verus! {

/// The operations still held back: the pending insert, then the pending
/// delete.
pub open spec fn pending(insert: Option<RawOperation>, delete: Option<RawOperation>) -> Seq<
    RawOperation,
> {
    let i = match insert {
        Some(op) => seq![op],
        None => Seq::empty(),
    };
    let d = match delete {
        Some(op) => seq![op],
        None => Seq::empty(),
    };
    i + d
}

/// `op` is absent or an insert (`insert`) or delete (otherwise).
pub open spec fn pending_ok(op: Option<RawOperation>, insert: bool) -> bool {
    op matches Some(o) ==> if insert {
        o is Insert
    } else {
        o is Delete
    }
}

/// `op` is absent or carries tokens.
pub open spec fn pending_nonempty(op: Option<RawOperation>) -> bool {
    op matches Some(o) ==> raw_tokens(o).len() > 0
}

proof fn lemma_sides_of_single(op: RawOperation)
    ensures
        old_side(seq![op]) == raw_old(op),
        new_side(seq![op]) == raw_new(op),
{
    lemma_sides_push(Seq::empty(), op);
    assert(Seq::<RawOperation>::empty().push(op) =~= seq![op]);
    assert(old_side(Seq::<RawOperation>::empty()) + raw_old(op) =~= raw_old(op));
    assert(new_side(Seq::<RawOperation>::empty()) + raw_new(op) =~= raw_new(op));
}

/// The tokens that an optional step reads from the old list.
pub open spec fn old_of(op: Option<RawOperation>) -> Seq<crate::tokenizer::token::Token> {
    match op {
        Some(o) => raw_old(o),
        None => Seq::empty(),
    }
}

/// The tokens that an optional step writes to the new list.
pub open spec fn new_of(op: Option<RawOperation>) -> Seq<crate::tokenizer::token::Token> {
    match op {
        Some(o) => raw_new(o),
        None => Seq::empty(),
    }
}

proof fn lemma_pending_sides(a: Option<RawOperation>, b: Option<RawOperation>)
    ensures
        old_side(pending(a, b)) == old_of(a) + old_of(b),
        new_side(pending(a, b)) == new_of(a) + new_of(b),
        old_side(pending(a, None)) == old_of(a),
        new_side(pending(a, None)) == new_of(a),
        old_side(pending(None, b)) == old_of(b),
        new_side(pending(None, b)) == new_of(b),
{
    assert(pending(a, b) =~= pending(a, None) + pending(None, b));
    lemma_sides_append(pending(a, None), pending(None, b));
    match a {
        Some(x) => {
            lemma_sides_of_single(x);
            assert(pending(a, None) =~= seq![x]);
        },
        None => {
            assert(pending(a, None) =~= Seq::<RawOperation>::empty());
        },
    }
    match b {
        Some(x) => {
            lemma_sides_of_single(x);
            assert(pending(None, b) =~= seq![x]);
        },
        None => {
            assert(pending(None, b) =~= Seq::<RawOperation>::empty());
        },
    }
    assert(old_of(a) + Seq::empty() =~= old_of(a));
    assert(new_of(a) + Seq::empty() =~= new_of(a));
    assert(Seq::empty() + old_of(b) =~= old_of(b));
    assert(Seq::empty() + new_of(b) =~= new_of(b));
}

/// Tokens `next` can extend a step ending in `prev`: the last of `prev`
/// joins to the right and the first of `next` to the left (an empty side
/// always joins).
pub open spec fn joins(
    prev: Seq<crate::tokenizer::token::Token>,
    next: Seq<crate::tokenizer::token::Token>,
) -> bool {
    (prev.len() == 0 || prev.last().right_joinable()) && (next.len() == 0
        || next[0].left_joinable())
}

/// The held back insert, then the held back delete, as steps.
pub open spec fn held(
    insert: Option<Seq<crate::tokenizer::token::Token>>,
    delete: Option<Seq<crate::tokenizer::token::Token>>,
) -> Seq<(StepKind, Seq<crate::tokenizer::token::Token>)> {
    let i = match insert {
        Some(t) => seq![(StepKind::Insert, t)],
        None => Seq::empty(),
    };
    let d = match delete {
        Some(t) => seq![(StepKind::Delete, t)],
        None => Seq::empty(),
    };
    i + d
}

/// The steps that elongating `ops` gives, from its `i`th step on, with
/// `done` given out and an insert and a delete held back. An insert or a
/// delete joins the held back one of its kind where their tokens join, and
/// otherwise gives that one out and is held back itself; a kept step gives
/// out the held back insert, then the held back delete, then itself. At the
/// end the held back steps are given out, the insert first.
pub open spec fn elongated_from(
    ops: Seq<(StepKind, Seq<crate::tokenizer::token::Token>)>,
    i: int,
    done: Seq<(StepKind, Seq<crate::tokenizer::token::Token>)>,
    insert: Option<Seq<crate::tokenizer::token::Token>>,
    delete: Option<Seq<crate::tokenizer::token::Token>>,
) -> Seq<(StepKind, Seq<crate::tokenizer::token::Token>)>
    decreases ops.len() - i,
{
    if i < 0 || i >= ops.len() {
        done + held(insert, delete)
    } else {
        let t = ops[i].1;
        match ops[i].0 {
            StepKind::Insert => match insert {
                Some(p) => if joins(p, t) {
                    elongated_from(ops, i + 1, done, Some(p + t), delete)
                } else {
                    elongated_from(ops, i + 1, done.push((StepKind::Insert, p)), Some(t), delete)
                },
                None => elongated_from(ops, i + 1, done, Some(t), delete),
            },
            StepKind::Delete => match delete {
                Some(p) => if joins(p, t) {
                    elongated_from(ops, i + 1, done, insert, Some(p + t))
                } else {
                    elongated_from(ops, i + 1, done.push((StepKind::Delete, p)), insert, Some(t))
                },
                None => elongated_from(ops, i + 1, done, insert, Some(t)),
            },
            StepKind::Equal => elongated_from(
                ops,
                i + 1,
                done + held(insert, delete) + seq![(StepKind::Equal, t)],
                None,
                None,
            ),
        }
    }
}

/// The kept steps of `steps`, in order.
pub open spec fn kept_steps(
    steps: Seq<(StepKind, Seq<crate::tokenizer::token::Token>)>,
) -> Seq<(StepKind, Seq<crate::tokenizer::token::Token>)>
    decreases steps.len(),
{
    if steps.len() == 0 {
        Seq::empty()
    } else {
        kept_steps(steps.drop_last()) + if steps.last().0 is Equal {
            seq![steps.last()]
        } else {
            Seq::empty()
        }
    }
}

proof fn lemma_kept_steps_append(
    a: Seq<(StepKind, Seq<crate::tokenizer::token::Token>)>,
    b: Seq<(StepKind, Seq<crate::tokenizer::token::Token>)>,
)
    ensures
        kept_steps(a + b) == kept_steps(a) + kept_steps(b),
    decreases b.len(),
{
    if b.len() == 0 {
        assert(a + b =~= a);
        assert(kept_steps(a) + kept_steps(b) =~= kept_steps(a));
    } else {
        lemma_kept_steps_append(a, b.drop_last());
        assert((a + b).drop_last() =~= a + b.drop_last());
        assert((a + b).last() == b.last());
        let tail: Seq<(StepKind, Seq<crate::tokenizer::token::Token>)> = if b.last().0 is Equal {
            seq![b.last()]
        } else {
            Seq::empty()
        };
        assert(kept_steps(a) + kept_steps(b.drop_last()) + tail =~= kept_steps(a) + kept_steps(b));
    }
}

proof fn lemma_kept_steps_single(step: (StepKind, Seq<crate::tokenizer::token::Token>))
    ensures
        kept_steps(seq![step]) == if step.0 is Equal {
            seq![step]
        } else {
            Seq::<(StepKind, Seq<crate::tokenizer::token::Token>)>::empty()
        },
{
    assert(seq![step].drop_last() =~= Seq::<(StepKind, Seq<crate::tokenizer::token::Token>)>::empty());
    assert(seq![step].last() == step);
    assert(kept_steps(Seq::<(StepKind, Seq<crate::tokenizer::token::Token>)>::empty())
        == Seq::<(StepKind, Seq<crate::tokenizer::token::Token>)>::empty());
    assert(Seq::<(StepKind, Seq<crate::tokenizer::token::Token>)>::empty() + (if step.0 is Equal {
        seq![step]
    } else {
        Seq::<(StepKind, Seq<crate::tokenizer::token::Token>)>::empty()
    }) =~= (if step.0 is Equal {
        seq![step]
    } else {
        Seq::<(StepKind, Seq<crate::tokenizer::token::Token>)>::empty()
    }));
}

proof fn lemma_held_not_kept(
    insert: Option<Seq<crate::tokenizer::token::Token>>,
    delete: Option<Seq<crate::tokenizer::token::Token>>,
)
    ensures
        kept_steps(held(insert, delete)) == Seq::<(StepKind, Seq<crate::tokenizer::token::Token>)>::empty(),
{
    let i: Seq<(StepKind, Seq<crate::tokenizer::token::Token>)> = match insert {
        Some(t) => seq![(StepKind::Insert, t)],
        None => Seq::empty(),
    };
    let d: Seq<(StepKind, Seq<crate::tokenizer::token::Token>)> = match delete {
        Some(t) => seq![(StepKind::Delete, t)],
        None => Seq::empty(),
    };
    assert(held(insert, delete) == i + d);
    lemma_kept_steps_append(i, d);
    if let Some(t) = insert {
        lemma_kept_steps_single((StepKind::Insert, t));
    }
    if let Some(t) = delete {
        lemma_kept_steps_single((StepKind::Delete, t));
    }
    assert(kept_steps(i) =~= Seq::<(StepKind, Seq<crate::tokenizer::token::Token>)>::empty());
    assert(kept_steps(d) =~= Seq::<(StepKind, Seq<crate::tokenizer::token::Token>)>::empty());
}

proof fn lemma_elongated_kept(
    ops: Seq<(StepKind, Seq<crate::tokenizer::token::Token>)>,
    i: int,
    done: Seq<(StepKind, Seq<crate::tokenizer::token::Token>)>,
    insert: Option<Seq<crate::tokenizer::token::Token>>,
    delete: Option<Seq<crate::tokenizer::token::Token>>,
)
    requires
        0 <= i <= ops.len(),
    ensures
        kept_steps(elongated_from(ops, i, done, insert, delete)) == kept_steps(done) + kept_steps(
            ops.skip(i),
        ),
    decreases ops.len() - i,
{
    if i >= ops.len() {
        lemma_kept_steps_append(done, held(insert, delete));
        lemma_held_not_kept(insert, delete);
        assert(ops.skip(i) =~= Seq::<(StepKind, Seq<crate::tokenizer::token::Token>)>::empty());
        assert(kept_steps(done) + Seq::<(StepKind, Seq<crate::tokenizer::token::Token>)>::empty()
            =~= kept_steps(done));
    } else {
        let t = ops[i].1;
        assert(ops.skip(i) =~= seq![ops[i]] + ops.skip(i + 1));
        lemma_kept_steps_append(seq![ops[i]], ops.skip(i + 1));
        lemma_kept_steps_single(ops[i]);
        match ops[i].0 {
            StepKind::Insert => {
                lemma_kept_steps_single((StepKind::Insert, t));
                match insert {
                    Some(p) => {
                        lemma_kept_steps_single((StepKind::Insert, p));
                        lemma_kept_steps_append(done, seq![(StepKind::Insert, p)]);
                        assert(done.push((StepKind::Insert, p)) =~= done + seq![(StepKind::Insert, p)]);
                        lemma_elongated_kept(ops, i + 1, done, Some(p + t), delete);
                        lemma_elongated_kept(ops, i + 1, done.push((StepKind::Insert, p)), Some(t), delete);
                    },
                    None => {
                        lemma_elongated_kept(ops, i + 1, done, Some(t), delete);
                    },
                }
                assert(Seq::<(StepKind, Seq<crate::tokenizer::token::Token>)>::empty() + kept_steps(
                    ops.skip(i + 1),
                ) =~= kept_steps(ops.skip(i + 1)));
                assert(kept_steps(done) + Seq::<(StepKind, Seq<crate::tokenizer::token::Token>)>::empty()
                    =~= kept_steps(done));
            },
            StepKind::Delete => {
                match delete {
                    Some(p) => {
                        lemma_kept_steps_single((StepKind::Delete, p));
                        lemma_kept_steps_append(done, seq![(StepKind::Delete, p)]);
                        assert(done.push((StepKind::Delete, p)) =~= done + seq![(StepKind::Delete, p)]);
                        lemma_elongated_kept(ops, i + 1, done, insert, Some(p + t));
                        lemma_elongated_kept(ops, i + 1, done.push((StepKind::Delete, p)), insert, Some(t));
                    },
                    None => {
                        lemma_elongated_kept(ops, i + 1, done, insert, Some(t));
                    },
                }
                assert(Seq::<(StepKind, Seq<crate::tokenizer::token::Token>)>::empty() + kept_steps(
                    ops.skip(i + 1),
                ) =~= kept_steps(ops.skip(i + 1)));
                assert(kept_steps(done) + Seq::<(StepKind, Seq<crate::tokenizer::token::Token>)>::empty()
                    =~= kept_steps(done));
            },
            StepKind::Equal => {
                let d2 = done + held(insert, delete) + seq![(StepKind::Equal, t)];
                lemma_elongated_kept(ops, i + 1, d2, None, None);
                lemma_kept_steps_append(done + held(insert, delete), seq![(StepKind::Equal, t)]);
                lemma_kept_steps_append(done, held(insert, delete));
                lemma_held_not_kept(insert, delete);
                lemma_kept_steps_single((StepKind::Equal, t));
                assert(ops[i] == (StepKind::Equal, t));
                assert(kept_steps(done) + Seq::<(StepKind, Seq<crate::tokenizer::token::Token>)>::empty()
                    =~= kept_steps(done));
                assert(kept_steps(d2) + kept_steps(ops.skip(i + 1)) =~= kept_steps(done) + (seq![ops[i]]
                    + kept_steps(ops.skip(i + 1))));
            },
        }
    }
}

/// Elongating keeps the kept steps as they are and in their order: only
/// inserts and deletes are joined and moved.
pub proof fn lemma_elongate_keeps_kept_steps(ops: Seq<(StepKind, Seq<crate::tokenizer::token::Token>)>)
    ensures
        kept_steps(elongated_from(ops, 0, Seq::empty(), None, None)) == kept_steps(ops),
{
    lemma_elongated_kept(ops, 0, Seq::empty(), None, None);
    assert(ops.skip(0) =~= ops);
    assert(kept_steps(Seq::<(StepKind, Seq<crate::tokenizer::token::Token>)>::empty())
        == Seq::<(StepKind, Seq<crate::tokenizer::token::Token>)>::empty());
    assert(Seq::<(StepKind, Seq<crate::tokenizer::token::Token>)>::empty() + kept_steps(ops)
        =~= kept_steps(ops));
}

/// The tokens of an optional step.
pub open spec fn tokens_of(op: Option<RawOperation>) -> Option<Seq<crate::tokenizer::token::Token>> {
    match op {
        Some(o) => Some(raw_tokens(o)),
        None => None,
    }
}

proof fn lemma_held_steps(insert: Option<RawOperation>, delete: Option<RawOperation>)
    requires
        pending_ok(insert, true),
        pending_ok(delete, false),
    ensures
        steps_of(pending(insert, delete)) == held(tokens_of(insert), tokens_of(delete)),
{
    assert(steps_of(pending(insert, delete)) =~= held(tokens_of(insert), tokens_of(delete)));
}

/// Takes the last element of a vector of steps that is not empty.
fn take_last(v: &mut Vec<RawOperation>) -> (r: RawOperation)
    requires
        old(v)@.len() > 0,
    ensures
        final(v)@ == old(v)@.drop_last(),
        r == old(v)@.last(),
{
    match v.pop() {
        Some(op) => op,
        None => {
            proof {
                assert(false);
            }
            RawOperation::Equal(Vec::new())
        },
    }
}

/// Elongates the operations by merging adjacent insertions and deletions that
/// can be joined. This makes the subsequent merging of operations more
/// intuitive. Inserts and deletes between two kept stretches can be
/// interleaved, such as IDIDID; joinable ones become IIIDDD, the inserts
/// first. The tokens that the steps read from the old list and write to the
/// new list stay the same and in the same order.
pub fn elongate_operations(raw_operations: Vec<RawOperation>) -> (result: Vec<RawOperation>)
    ensures
        old_side(result@) == old_side(raw_operations@),
        new_side(result@) == new_side(raw_operations@),
        all_nonempty(raw_operations@) ==> all_nonempty(result@),
        result@.len() <= raw_operations@.len(),
        only_equal(raw_operations@) ==> only_equal(result@),
        steps_of(result@) == elongated_from(steps_of(raw_operations@), 0, Seq::empty(), None, None),
        kept_steps(steps_of(result@)) == kept_steps(steps_of(raw_operations@)),
{
    // Reverse the input so that its steps can be taken from the end in order.
    let mut reversed: Vec<RawOperation> = Vec::new();
    let mut input = raw_operations;
    while input.len() > 0
        invariant
            input@ + reversed@.reverse() == raw_operations@,
        decreases input.len(),
    {
        let ghost before = input@;
        let op = take_last(&mut input);
        proof {
            assert(reversed@.push(op).reverse() =~= seq![op] + reversed@.reverse());
            assert(before =~= input@.push(op));
            assert(input@ + (seq![op] + reversed@.reverse()) =~= input@.push(op) + reversed@.reverse());
        }
        reversed.push(op);
    }
    assert(reversed@.reverse() =~= raw_operations@);
    let ghost all = raw_operations@;
    let ghost target = elongated_from(steps_of(all), 0, Seq::empty(), None, None);
    let mut result: Vec<RawOperation> = Vec::new();
    assert(steps_of(result@) =~= Seq::<(StepKind, Seq<crate::tokenizer::token::Token>)>::empty());
    let mut maybe_previous_insert: Option<RawOperation> = None;
    let mut maybe_previous_delete: Option<RawOperation> = None;
    let ghost mut i: int = 0;
    while reversed.len() > 0
        invariant
            0 <= i <= all.len(),
            reversed@.reverse() == all.skip(i),
            all_nonempty(all) ==> all_nonempty(result@) && pending_nonempty(maybe_previous_insert)
                && pending_nonempty(maybe_previous_delete),
            result@.len() + pending(maybe_previous_insert, maybe_previous_delete).len() <= i,
            pending_ok(maybe_previous_insert, true),
            pending_ok(maybe_previous_delete, false),
            old_side(result@ + pending(maybe_previous_insert, maybe_previous_delete)) == old_side(
                all.take(i),
            ),
            new_side(result@ + pending(maybe_previous_insert, maybe_previous_delete)) == new_side(
                all.take(i),
            ),
            only_equal(all) ==> maybe_previous_insert is None && maybe_previous_delete is None
                && only_equal(result@),
            elongated_from(
                steps_of(all),
                i,
                steps_of(result@),
                tokens_of(maybe_previous_insert),
                tokens_of(maybe_previous_delete),
            ) == target,
        decreases reversed.len(),
    {
        let ghost before_rev = reversed@;
        let next = take_last(&mut reversed);
        proof {
            assert(before_rev.reverse().len() == before_rev.len());
            assert(i < all.len());
            assert(before_rev.reverse()[0] == before_rev[before_rev.len() - 1]);
            assert(before_rev.reverse()[0] == next);
            assert(all.skip(i)[0] == all[i]);
            assert(next == all[i]);
            assert(reversed@.reverse() =~= all.skip(i + 1)) by {
                assert(before_rev =~= reversed@.push(next));
                assert forall|k: int| 0 <= k < reversed@.len() implies reversed@.reverse()[k]
                    == all.skip(i + 1)[k] by {
                    assert(reversed@.reverse()[k] == reversed@[reversed@.len() - 1 - k]);
                    assert(before_rev.reverse()[k + 1] == before_rev[before_rev.len() - 1 - (k + 1)]);
                    assert(before_rev.reverse()[k + 1] == all.skip(i)[k + 1]);
                }
            }
            assert(all.take(i + 1) =~= all.take(i).push(next));
            lemma_sides_push(all.take(i), next);
            assert(all_nonempty(all) ==> raw_tokens(next).len() > 0);
        }
        let ghost pi = maybe_previous_insert;
        let ghost pd = maybe_previous_delete;
        let ghost r0 = result@;
        proof {
            lemma_pending_sides(pi, pd);
            assert(steps_of(all)[i] == step_of(next));
        }
        match next {
            RawOperation::Insert(..) => {
                let previous = maybe_previous_insert.take();
                match previous {
                    Some(prev) => {
                        if prev.is_right_joinable() && next.is_left_joinable() {
                            let joined = prev.extend(next);
                            match joined {
                                Some(op) => {
                                    maybe_previous_insert = Some(op);
                                },
                                None => {},
                            }
                            proof {
                                let p = prev;
                                let j = maybe_previous_insert->0;
                                lemma_sides_of_single(p);
                                lemma_sides_of_single(j);
                                lemma_sides_append(r0, pending(pi, pd));
                                lemma_sides_append(r0, pending(maybe_previous_insert, pd));
                                lemma_sides_append(seq![p], pending(None, pd));
                                lemma_sides_append(seq![j], pending(None, pd));
                                assert(pending(pi, pd) =~= seq![p] + pending(None, pd));
                                assert(pending(maybe_previous_insert, pd) =~= seq![j] + pending(None, pd));
                                assert(raw_tokens(next) == step_of(next).1);
                            }
                        } else {
                            result.push(prev);
                            maybe_previous_insert = Some(next);
                            proof {
                                lemma_sides_of_single(prev);
                                lemma_sides_of_single(next);
                                lemma_sides_append(r0, pending(pi, pd));
                                lemma_sides_append(result@, pending(maybe_previous_insert, pd));
                                lemma_sides_push(r0, prev);
                                lemma_sides_append(seq![prev], pending(None, pd));
                                lemma_sides_append(seq![next], pending(None, pd));
                                assert(pending(pi, pd) =~= seq![prev] + pending(None, pd));
                                assert(pending(maybe_previous_insert, pd) =~= seq![next] + pending(None, pd));
                                lemma_steps_push(r0, prev);
                            }
                        }
                    },
                    None => {
                        maybe_previous_insert = Some(next);
                        proof {
                            lemma_sides_of_single(next);
                            lemma_sides_append(r0, pending(pi, pd));
                            lemma_sides_append(r0, pending(maybe_previous_insert, pd));
                            lemma_sides_append(seq![next], pending(None, pd));
                            assert(pending(pi, pd) =~= pending(None, pd));
                            assert(pending(maybe_previous_insert, pd) =~= seq![next] + pending(None, pd));
                        }
                    },
                }
            },
            RawOperation::Delete(..) => {
                let previous = maybe_previous_delete.take();
                match previous {
                    Some(prev) => {
                        if prev.is_right_joinable() && next.is_left_joinable() {
                            let joined = prev.extend(next);
                            match joined {
                                Some(op) => {
                                    maybe_previous_delete = Some(op);
                                },
                                None => {},
                            }
                            proof {
                                let p = prev;
                                let j = maybe_previous_delete->0;
                                lemma_sides_of_single(p);
                                lemma_sides_of_single(j);
                                lemma_sides_append(r0, pending(pi, pd));
                                lemma_sides_append(r0, pending(pi, maybe_previous_delete));
                                lemma_sides_append(pending(pi, None), seq![p]);
                                lemma_sides_append(pending(pi, None), seq![j]);
                                assert(pending(pi, pd) =~= pending(pi, None) + seq![p]);
                                assert(pending(pi, maybe_previous_delete) =~= pending(pi, None) + seq![j]);
                            }
                        } else {
                            result.push(prev);
                            maybe_previous_delete = Some(next);
                            proof {
                                lemma_sides_of_single(prev);
                                lemma_sides_of_single(next);
                                lemma_sides_append(r0, pending(pi, pd));
                                lemma_sides_append(result@, pending(pi, maybe_previous_delete));
                                lemma_sides_push(r0, prev);
                                lemma_sides_append(pending(pi, None), seq![prev]);
                                lemma_sides_append(pending(pi, None), seq![next]);
                                assert(pending(pi, pd) =~= pending(pi, None) + seq![prev]);
                                assert(pending(pi, maybe_previous_delete) =~= pending(pi, None) + seq![next]);
                                lemma_steps_push(r0, prev);
                                match pi {
                                    Some(x) => {
                                        lemma_sides_of_single(x);
                                        assert(pending(pi, None) =~= seq![x]);
                                    },
                                    None => {
                                        assert(pending(pi, None) =~= Seq::<RawOperation>::empty());
                                    },
                                }
                            }
                        }
                    },
                    None => {
                        maybe_previous_delete = Some(next);
                        proof {
                            lemma_sides_of_single(next);
                            lemma_sides_append(r0, pending(pi, pd));
                            lemma_sides_append(r0, pending(pi, maybe_previous_delete));
                            lemma_sides_append(pending(pi, None), seq![next]);
                            assert(pending(pi, pd) =~= pending(pi, None));
                            assert(pending(pi, maybe_previous_delete) =~= pending(pi, None) + seq![next]);
                        }
                    },
                }
            },
            RawOperation::Equal(..) => {
                let previous_insert = maybe_previous_insert.take();
                if let Some(op) = previous_insert {
                    result.push(op);
                }
                let previous_delete = maybe_previous_delete.take();
                if let Some(op) = previous_delete {
                    result.push(op);
                }
                result.push(next);
                proof {
                    assert(r0 + pending(pi, pd) + seq![next] =~= result@);
                    lemma_held_steps(pi, pd);
                    assert(steps_of(result@) =~= steps_of(r0) + steps_of(pending(pi, pd)) + seq![step_of(next)]);
                    lemma_sides_append(r0, pending(pi, pd));
                    lemma_sides_push(r0 + pending(pi, pd), next);
                    assert(r0 + pending(pi, pd) + seq![next] =~= (r0 + pending(pi, pd)).push(next));
                    assert(pending(maybe_previous_insert, maybe_previous_delete) =~= Seq::<
                        RawOperation,
                    >::empty());
                    assert(result@ + pending(maybe_previous_insert, maybe_previous_delete) =~= result@);
                }
            },
        }
        proof {
            lemma_pending_sides(maybe_previous_insert, maybe_previous_delete);
            lemma_sides_append(result@, pending(maybe_previous_insert, maybe_previous_delete));
            lemma_sides_append(r0, pending(pi, pd));
            i = i + 1;
        }
    }
    let ghost r0 = result@;
    let ghost pi = maybe_previous_insert;
    let ghost pd = maybe_previous_delete;
    if let Some(prev) = maybe_previous_insert {
        result.push(prev);
    }
    if let Some(prev) = maybe_previous_delete {
        result.push(prev);
    }
    proof {
        assert(only_equal(all) ==> result@ == r0);
        assert(result@ =~= r0 + pending(pi, pd));
        lemma_held_steps(pi, pd);
        assert(steps_of(result@) =~= steps_of(r0) + steps_of(pending(pi, pd)));
        assert(all.take(i) =~= all) by {
            assert(reversed@.reverse().len() == 0);
        }
        lemma_elongate_keeps_kept_steps(steps_of(raw_operations@));
    }
    result
}

} // verus!
