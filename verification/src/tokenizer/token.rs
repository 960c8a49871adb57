//! Tokens: pieces of a text with a normalised form used for comparison.
use vstd::prelude::*;

use crate::text::char_count;

verus! {

/// A token is a string that has been normalised in some way.
/// The normalised form is used for comparison, while the original form is
/// used for applying operations.
#[derive(Debug, Clone)]
pub struct Token {
    /// The normalised form of the token used deriving the diff.
    pub normalised: String,
    /// The original string, that should be inserted or deleted in the document.
    original: String,
    /// Whether the token is joinable with the previous token.
    is_left_joinable: bool,
    /// Whether the token is joinable with the next token.
    is_right_joinable: bool,
}

impl Token {
    /// The characters of the original form.
    pub closed spec fn orig(&self) -> Seq<char> {
        self.original@
    }

    /// The characters of the normalised form.
    pub closed spec fn norm(&self) -> Seq<char> {
        self.normalised@
    }

    /// Whether the token joins with the token before it.
    pub closed spec fn left_joinable(&self) -> bool {
        self.is_left_joinable
    }

    /// Whether the token joins with the token after it.
    pub closed spec fn right_joinable(&self) -> bool {
        self.is_right_joinable
    }

    pub fn new(
        normalised: String,
        original: String,
        is_left_joinable: bool,
        is_right_joinable: bool,
    ) -> (t: Self)
        ensures
            t.norm() == normalised@,
            t.orig() == original@,
            t.left_joinable() == is_left_joinable,
            t.right_joinable() == is_right_joinable,
    {
        Token { normalised, original, is_left_joinable, is_right_joinable }
    }

    /// The original form of the token.
    pub fn original(&self) -> (r: &str)
        ensures
            r@ == self.orig(),
    {
        self.original.as_str()
    }

    /// The normalised form of the token.
    pub fn normalised(&self) -> (r: &String)
        ensures
            r@ == self.norm(),
    {
        &self.normalised
    }

    /// The number of characters of the original form.
    pub fn get_original_length(&self) -> (n: usize)
        ensures
            n == self.orig().len(),
    {
        char_count(&self.original)
    }

    pub fn get_is_left_joinable(&self) -> (b: bool)
        ensures
            b == self.left_joinable(),
    {
        self.is_left_joinable
    }

    pub fn get_is_right_joinable(&self) -> (b: bool)
        ensures
            b == self.right_joinable(),
    {
        self.is_right_joinable
    }

    /// A token equal to this one in every field.
    pub fn duplicate(&self) -> (t: Token)
        ensures
            t == *self,
    {
        Token {
            normalised: self.normalised.clone(),
            original: self.original.clone(),
            is_left_joinable: self.is_left_joinable,
            is_right_joinable: self.is_right_joinable,
        }
    }

    /// A joinable token whose original and normalised forms are both `text`.
    pub fn from_text(text: &str) -> (t: Token)
        ensures
            t.norm() == text@,
            t.orig() == text@,
            t.left_joinable(),
            t.right_joinable(),
    {
        Token::new(text.to_owned(), text.to_owned(), true, true)
    }
}

/// A joinable token whose original and normalised forms are both the text.
impl<'a> From<&'a str> for Token {
    fn from(text: &'a str) -> (t: Self)
        ensures
            t.norm() == text@,
            t.orig() == text@,
            t.left_joinable(),
            t.right_joinable(),
    {
        Token::from_text(text)
    }
}

impl<'a> vstd::std_specs::convert::FromSpecImpl<&'a str> for Token {
    open spec fn obeys_from_spec() -> bool {
        false
    }

    open spec fn from_spec(text: &'a str) -> Self {
        arbitrary()
    }
}

/// Tokens compare equal when their normalised forms are equal.
impl PartialEq for Token {
    fn eq(&self, other: &Self) -> (r: bool) {
        self.normalised == other.normalised
    }
}

impl vstd::std_specs::cmp::PartialEqSpecImpl for Token {
    open spec fn obeys_eq_spec() -> bool {
        true
    }

    open spec fn eq_spec(&self, other: &Self) -> bool {
        self.norm() == other.norm()
    }
}

/// The concatenation of the original forms of `ts`.
pub open spec fn flatten(ts: Seq<Token>) -> Seq<char>
    decreases ts.len(),
{
    if ts.len() == 0 {
        Seq::empty()
    } else {
        flatten(ts.drop_last()) + ts.last().orig()
    }
}

/// The sum of the lengths of the original forms of `ts`.
pub proof fn lemma_flatten_append(a: Seq<Token>, b: Seq<Token>)
    ensures
        flatten(a + b) == flatten(a) + flatten(b),
    decreases b.len(),
{
    if b.len() == 0 {
        assert(a + b =~= a);
        assert(flatten(b) =~= Seq::<char>::empty());
        assert(flatten(a) + flatten(b) =~= flatten(a));
    } else {
        lemma_flatten_append(a, b.drop_last());
        assert((a + b).drop_last() =~= a + b.drop_last());
        assert((a + b).last() == b.last());
        assert(flatten(a + b) == flatten(a + b.drop_last()) + b.last().orig());
        assert(flatten(a) + flatten(b) =~= flatten(a) + flatten(b.drop_last()) + b.last().orig());
    }
}

/// The concatenation of a single token is its original form.
pub proof fn lemma_flatten_single(t: Token)
    ensures
        flatten(seq![t]) == t.orig(),
{
    assert(seq![t].drop_last() =~= Seq::<Token>::empty());
    assert(flatten(Seq::<Token>::empty()) =~= Seq::<char>::empty());
    assert(flatten(seq![t]) =~= t.orig());
}

/// Appending a token appends its original form.
pub proof fn lemma_flatten_push(a: Seq<Token>, t: Token)
    ensures
        flatten(a.push(t)) == flatten(a) + t.orig(),
{
    assert(a.push(t).drop_last() =~= a);
}

/// The original forms of the tokens.
pub open spec fn originals(ts: Seq<Token>) -> Seq<Seq<char>> {
    ts.map_values(|t: Token| t.orig())
}

proof fn lemma_flatten_joined(ts: Seq<Token>)
    ensures
        flatten(ts) == crate::text::joined(originals(ts)),
    decreases ts.len(),
{
    if ts.len() > 0 {
        lemma_flatten_joined(ts.drop_last());
        assert(originals(ts).drop_last() =~= originals(ts.drop_last()));
    }
}

impl Token {
    /// Splits the text after each whitespace character into tokens whose
    /// normalised and original forms are both the piece.
    pub fn tokenize(text: &str) -> (tokens: Vec<Token>)
        ensures
            flatten(tokens@) == text@,
            crate::text::is_split_after_whitespace(originals(tokens@), text@),
            forall|k: int| 0 <= k < tokens@.len() ==> (#[trigger] tokens@[k]).norm() == tokens@[k].orig(),
    {
        let pieces = crate::text::split_after_whitespace(text);
        let mut tokens: Vec<Token> = Vec::new();
        let mut i: usize = 0;
        while i < pieces.len()
            invariant
                0 <= i <= pieces@.len(),
                originals(tokens@) == crate::text::strings_view(pieces@).take(i as int),
                forall|k: int| 0 <= k < tokens@.len() ==> (#[trigger] tokens@[k]).norm() == tokens@[k].orig(),
            decreases pieces.len() - i,
        {
            let piece = &pieces[i];
            let token = Token::new(piece.clone(), piece.clone(), true, true);
            let ghost before = tokens@;
            tokens.push(token);
            proof {
                assert(originals(tokens@) =~= originals(before).push(token.orig()));
                assert(crate::text::strings_view(pieces@).take(i + 1) =~= crate::text::strings_view(
                    pieces@,
                ).take(i as int).push(pieces@[i as int]@));
            }
            i = i + 1;
        }
        proof {
            assert(crate::text::strings_view(pieces@).take(i as int) =~= crate::text::strings_view(pieces@));
            lemma_flatten_joined(tokens@);
        }
        tokens
    }
}

} // verus!
