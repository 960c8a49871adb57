//! The default tokenizer: words and the whitespace between them.
use vstd::prelude::*;

use super::token::{flatten, lemma_flatten_push, Token};
use crate::text::{all_whitespace, chars_of, concat_strings, is_whitespace, is_ws, string_from_chars};

verus! {

/// `s` is non-empty and all of its characters are whitespace (`ws`) or all are not.
pub open spec fn homogeneous(s: Seq<char>, ws: bool) -> bool {
    s.len() > 0 && forall|k: int| 0 <= k < s.len() ==> is_ws(#[trigger] s[k]) == ws
}

/// Every character of `s` is whitespace.
pub open spec fn all_ws(s: Seq<char>) -> bool {
    forall|k: int| 0 <= k < s.len() ==> is_ws(#[trigger] s[k])
}

/// Whether the token starts with a whitespace character.
pub open spec fn starts_with_ws(t: Token) -> bool {
    is_ws(t.orig()[0])
}

/// The tokens are alternating, non-empty runs of whitespace and of
/// non-whitespace characters.
pub open spec fn is_word_split(ts: Seq<Token>) -> bool {
    &&& forall|k: int| 0 <= k < ts.len() ==> homogeneous(#[trigger] ts[k].orig(), starts_with_ws(ts[k]))
    &&& forall|k: int|
        0 <= k < ts.len() - 1 ==> starts_with_ws(#[trigger] ts[k]) != starts_with_ws(ts[k + 1])
}

/// The normalised form that the word tokenizer gives to the `k`-th token: a
/// whitespace token carries the token after it, so that whitespace is only
/// matched when it precedes the same word.
pub open spec fn word_normalised(ts: Seq<Token>, k: int) -> Seq<char> {
    if k + 1 < ts.len() && all_ws(ts[k].orig()) {
        ts[k].orig() + ts[k + 1].orig()
    } else {
        ts[k].orig()
    }
}

/// What `word_tokenizer` returns for the text `text`.
pub open spec fn is_word_tokenization(ts: Seq<Token>, text: Seq<char>) -> bool {
    &&& flatten(ts) == text
    &&& is_word_split(ts)
    &&& forall|k: int|
        0 <= k < ts.len() ==> {
            &&& (#[trigger] ts[k]).norm() == word_normalised(ts, k)
            &&& ts[k].left_joinable()
            &&& ts[k].right_joinable()
        }
}

/// The whitespace characters at the start of `s`.
pub open spec fn ws_prefix(s: Seq<char>) -> Seq<char>
    decreases s.len(),
{
    if s.len() > 0 && is_ws(s[0]) {
        seq![s[0]] + ws_prefix(s.drop_first())
    } else {
        Seq::empty()
    }
}

/// The original form that a word token has, given its normalised form.
pub open spec fn word_original_of(normalised: Seq<char>) -> Seq<char> {
    if normalised.len() > 0 && is_ws(normalised[0]) {
        ws_prefix(normalised)
    } else {
        normalised
    }
}

proof fn lemma_ws_prefix_concat(a: Seq<char>, b: Seq<char>)
    requires
        all_ws(a),
        b.len() == 0 || !is_ws(b[0]),
    ensures
        ws_prefix(a + b) == a,
    decreases a.len(),
{
    if a.len() == 0 {
        assert(a + b =~= b);
    } else {
        assert((a + b)[0] == a[0]);
        assert((a + b).drop_first() =~= a.drop_first() + b);
        lemma_ws_prefix_concat(a.drop_first(), b);
        assert(seq![a[0]] + a.drop_first() =~= a);
    }
}

/// In a word tokenization the normalised form of every token determines its
/// original form.
pub proof fn lemma_word_tokens_faithful(ts: Seq<Token>, text: Seq<char>)
    requires
        is_word_tokenization(ts, text),
    ensures
        forall|k: int| 0 <= k < ts.len() ==> (#[trigger] ts[k]).orig() == word_original_of(ts[k].norm()),
{
    assert forall|k: int| 0 <= k < ts.len() implies (#[trigger] ts[k]).orig() == word_original_of(
        ts[k].norm(),
    ) by {
        let o = ts[k].orig();
        assert(homogeneous(o, starts_with_ws(ts[k])));
        assert(o[0] == o[0]);
        if starts_with_ws(ts[k]) {
            assert(all_ws(o));
            if k + 1 < ts.len() {
                let nx = ts[k + 1].orig();
                assert(starts_with_ws(ts[k]) != starts_with_ws(ts[k + 1]));
                assert(homogeneous(nx, starts_with_ws(ts[k + 1])));
                assert(ts[k].norm() == o + nx);
                assert((o + nx)[0] == o[0]);
                lemma_ws_prefix_concat(o, nx);
            } else {
                assert(o + Seq::<char>::empty() =~= o);
                lemma_ws_prefix_concat(o, Seq::<char>::empty());
            }
        } else {
            assert(!all_ws(o)) by {
                assert(!is_ws(o[0]));
            }
        }
    }
}

proof fn lemma_flatten_first(ts: Seq<Token>)
    requires
        ts.len() > 0,
    ensures
        flatten(ts) == ts[0].orig() + flatten(ts.drop_first()),
{
    assert(ts =~= seq![ts[0]] + ts.drop_first());
    crate::tokenizer::token::lemma_flatten_append(seq![ts[0]], ts.drop_first());
    crate::tokenizer::token::lemma_flatten_single(ts[0]);
}

/// A text splits into alternating runs of whitespace and non-whitespace in
/// one way only.
pub proof fn lemma_word_split_unique(a: Seq<Token>, b: Seq<Token>, text: Seq<char>)
    requires
        is_word_split(a),
        is_word_split(b),
        flatten(a) == text,
        flatten(b) == text,
    ensures
        a.len() == b.len(),
        forall|k: int| 0 <= k < a.len() ==> (#[trigger] a[k]).orig() == b[k].orig(),
    decreases a.len(),
{
    if a.len() == 0 {
        if b.len() > 0 {
            lemma_flatten_first(b);
            assert(homogeneous(b[0].orig(), starts_with_ws(b[0])));
            assert(flatten(a).len() == 0);
            assert((b[0].orig() + flatten(b.drop_first())).len() > 0);
            assert(false);
        }
    } else if b.len() == 0 {
        lemma_flatten_first(a);
        assert(homogeneous(a[0].orig(), starts_with_ws(a[0])));
        assert(flatten(b).len() == 0);
        assert((a[0].orig() + flatten(a.drop_first())).len() > 0);
        assert(false);
    } else {
        lemma_flatten_first(a);
        lemma_flatten_first(b);
        let x = a[0].orig();
        let y = b[0].orig();
        assert(homogeneous(x, starts_with_ws(a[0])));
        assert(homogeneous(y, starts_with_ws(b[0])));
        assert(x[0] == text[0]);
        assert(y[0] == text[0]);
        let w = is_ws(text[0]);
        let ra = a.drop_first();
        let rb = b.drop_first();
        assert(is_word_split(ra)) by {
            assert forall|k: int| 0 <= k < ra.len() implies homogeneous(
                #[trigger] ra[k].orig(),
                starts_with_ws(ra[k]),
            ) by {
                assert(ra[k] == a[k + 1]);
            }
            assert forall|k: int| 0 <= k < ra.len() - 1 implies starts_with_ws(#[trigger] ra[k])
                != starts_with_ws(ra[k + 1]) by {
                assert(ra[k] == a[k + 1]);
                assert(ra[k + 1] == a[k + 2]);
            }
        }
        assert(is_word_split(rb)) by {
            assert forall|k: int| 0 <= k < rb.len() implies homogeneous(
                #[trigger] rb[k].orig(),
                starts_with_ws(rb[k]),
            ) by {
                assert(rb[k] == b[k + 1]);
            }
            assert forall|k: int| 0 <= k < rb.len() - 1 implies starts_with_ws(#[trigger] rb[k])
                != starts_with_ws(rb[k + 1]) by {
                assert(rb[k] == b[k + 1]);
                assert(rb[k + 1] == b[k + 2]);
            }
        }
        if x.len() < y.len() {
            assert(flatten(ra).len() > 0);
            if ra.len() == 0 {
                assert(flatten(ra) =~= Seq::<char>::empty());
            }
            lemma_flatten_first(ra);
            assert(homogeneous(ra[0].orig(), starts_with_ws(ra[0])));
            assert(text[x.len() as int] == ra[0].orig()[0]);
            assert(text[x.len() as int] == y[x.len() as int]);
            assert(starts_with_ws(a[0]) != starts_with_ws(a[1]));
            assert(false);
        }
        if y.len() < x.len() {
            assert(flatten(rb).len() > 0);
            if rb.len() == 0 {
                assert(flatten(rb) =~= Seq::<char>::empty());
            }
            lemma_flatten_first(rb);
            assert(homogeneous(rb[0].orig(), starts_with_ws(rb[0])));
            assert(text[y.len() as int] == rb[0].orig()[0]);
            assert(text[y.len() as int] == x[y.len() as int]);
            assert(starts_with_ws(b[0]) != starts_with_ws(b[1]));
            assert(false);
        }
        assert(x =~= y) by {
            assert forall|k: int| 0 <= k < x.len() implies x[k] == y[k] by {
                assert(x[k] == text[k]);
                assert(y[k] == text[k]);
            }
        }
        assert(flatten(ra) =~= text.skip(x.len() as int));
        assert(flatten(rb) =~= text.skip(x.len() as int));
        lemma_word_split_unique(ra, rb, text.skip(x.len() as int));
        assert forall|k: int| 0 <= k < a.len() implies (#[trigger] a[k]).orig() == b[k].orig() by {
            if k > 0 {
                assert(a[k] == ra[k - 1]);
                assert(b[k] == rb[k - 1]);
            }
        }
    }
}

/// Two word tokenizations of the same text have tokens with the same
/// normalised forms.
pub proof fn lemma_word_tokenization_unique(a: Seq<Token>, b: Seq<Token>, text: Seq<char>)
    requires
        is_word_tokenization(a, text),
        is_word_tokenization(b, text),
    ensures
        crate::diffs::lcs::same_tokens(a, b),
{
    lemma_word_split_unique(a, b, text);
    assert forall|k: int| 0 <= k < a.len() implies (#[trigger] a[k]).norm() == b[k].norm() by {
        assert(a[k].norm() == word_normalised(a, k));
        assert(b[k].norm() == word_normalised(b, k));
        if k + 1 < a.len() {
            assert(a[k + 1].orig() == b[k + 1].orig());
        }
    }
}

/// Splits on word boundaries creating alternating words and whitespaces, where
/// each whitespace token is normalised together with the word that follows it.
///
/// ## Example
///
/// "Hi there!" -> ["Hi", " ", "there!"]
pub fn word_tokenizer(text: &str) -> (result: Vec<Token>)
    ensures
        is_word_tokenization(result@, text@),
{
    let chars = chars_of(text);
    let n = chars.len();
    let mut result: Vec<Token> = Vec::new();
    if n == 0 {
        assert(flatten(result@) =~= text@);
        return result;
    }
    // Pass 1: the boundaries of the maximal runs.

    let mut starts: Vec<usize> = Vec::new();
    let mut ends: Vec<usize> = Vec::new();
    let mut previous_boundary_index: usize = 0;
    let mut previous_char_is_whitespace = is_whitespace(chars[0]);
    let mut i: usize = 0;
    while i < n
        invariant
            n == chars@.len(),
            n > 0,
            0 <= previous_boundary_index <= i <= n,
            previous_boundary_index < n,
            is_ws(chars@[previous_boundary_index as int]) == previous_char_is_whitespace,
            forall|m: int|
                previous_boundary_index <= m < i ==> is_ws(#[trigger] chars@[m])
                    == previous_char_is_whitespace,
            starts@.len() == ends@.len(),
            starts@.len() == 0 ==> previous_boundary_index == 0,
            starts@.len() > 0 ==> starts@[0] == 0,
            starts@.len() > 0 ==> ends@.last() == previous_boundary_index,
            starts@.len() > 0 ==> is_ws(chars@[starts@.last() as int])
                != previous_char_is_whitespace,
            forall|k: int| 0 <= k < starts@.len() ==> #[trigger] starts@[k] < ends@[k],
            forall|k: int| 0 <= k < starts@.len() - 1 ==> #[trigger] ends@[k] == starts@[k + 1],
            forall|k: int| 0 <= k < starts@.len() ==> #[trigger] ends@[k] <= previous_boundary_index,
            forall|k: int, m: int|
                0 <= k < starts@.len() && starts@[k] <= m < ends@[k] ==> is_ws(
                    #[trigger] chars@[m],
                ) == is_ws(#[trigger] chars@[starts@[k] as int]),
            forall|k: int|
                0 <= k < starts@.len() - 1 ==> is_ws(chars@[#[trigger] starts@[k] as int])
                    != is_ws(chars@[starts@[k + 1] as int]),
        decreases n - i,
    {
        let is_current_char_whitespace = is_whitespace(chars[i]);
        if previous_char_is_whitespace != is_current_char_whitespace {
            starts.push(previous_boundary_index);
            ends.push(i);
            previous_boundary_index = i;
        }
        previous_char_is_whitespace = is_current_char_whitespace;
        i = i + 1;
    }
    starts.push(previous_boundary_index);
    ends.push(n);
    let count = starts.len();
    assert(forall|k: int| 0 <= k < count ==> #[trigger] ends@[k] <= n);
    // Pass 2: the tokens.

    let mut j: usize = 0;
    while j < count
        invariant
            count == starts@.len(),
            count == ends@.len(),
            count > 0,
            n == chars@.len(),
            chars@ == text@,
            0 <= j <= count,
            starts@[0] == 0,
            ends@[count - 1] == n,
            forall|k: int| 0 <= k < count ==> #[trigger] starts@[k] < ends@[k],
            forall|k: int| 0 <= k < count ==> #[trigger] ends@[k] <= n,
            forall|k: int| 0 <= k < count - 1 ==> #[trigger] ends@[k] == starts@[k + 1],
            forall|k: int, m: int|
                0 <= k < count && starts@[k] <= m < ends@[k] ==> is_ws(#[trigger] chars@[m])
                    == is_ws(#[trigger] chars@[starts@[k] as int]),
            forall|k: int|
                0 <= k < count - 1 ==> is_ws(chars@[#[trigger] starts@[k] as int]) != is_ws(
                    chars@[starts@[k + 1] as int],
                ),
            result@.len() == j,
            j == 0 ==> flatten(result@) =~= Seq::<char>::empty(),
            j > 0 ==> flatten(result@) == chars@.subrange(0, ends@[j - 1] as int),
            forall|k: int|
                0 <= k < j ==> (#[trigger] result@[k]).orig() == chars@.subrange(
                    starts@[k] as int,
                    ends@[k] as int,
                ),
            forall|k: int|
                0 <= k < j ==> {
                    &&& (#[trigger] result@[k]).left_joinable()
                    &&& result@[k].right_joinable()
                    &&& if k + 1 < count && all_ws(result@[k].orig()) {
                        result@[k].norm() == chars@.subrange(starts@[k] as int, ends@[k] as int)
                            + chars@.subrange(starts@[k + 1] as int, ends@[k + 1] as int)
                    } else {
                        result@[k].norm() == chars@.subrange(starts@[k] as int, ends@[k] as int)
                    }
                },
        decreases count - j,
    {
        let original = string_from_chars(&chars, starts[j], ends[j]);
        let normalised = if j + 1 < count && all_whitespace(&original) {
            let next = string_from_chars(&chars, starts[j + 1], ends[j + 1]);
            concat_strings(&original, &next)
        } else {
            original.clone()
        };
        let t = Token::new(normalised, original, true, true);
        proof {
            lemma_flatten_push(result@, t);
            if j > 0 {
                assert(chars@.subrange(0, ends@[j - 1] as int) + chars@.subrange(
                    starts@[j as int] as int,
                    ends@[j as int] as int,
                ) =~= chars@.subrange(0, ends@[j as int] as int));
            } else {
                assert(Seq::<char>::empty() + chars@.subrange(0, ends@[0] as int)
                    =~= chars@.subrange(0, ends@[0] as int));
            }
        }
        result.push(t);
        j = j + 1;
    }
    proof {
        assert(chars@.subrange(0, n as int) =~= chars@);
        let ts = result@;
        assert forall|k: int| 0 <= k < ts.len() implies homogeneous(
            #[trigger] ts[k].orig(),
            starts_with_ws(ts[k]),
        ) by {
            let o = ts[k].orig();
            assert(o[0] == chars@[starts@[k] as int]);
            assert forall|m: int| 0 <= m < o.len() implies is_ws(#[trigger] o[m]) == is_ws(o[0]) by {
                assert(o[m] == chars@[starts@[k] + m]);
            }
        }
        assert forall|k: int| 0 <= k < ts.len() - 1 implies starts_with_ws(#[trigger] ts[k])
            != starts_with_ws(ts[k + 1]) by {
            assert(ts[k].orig()[0] == chars@[starts@[k] as int]);
            assert(ts[k + 1].orig()[0] == chars@[starts@[k + 1] as int]);
        }
    }
    result
}

} // verus!
