//! Character-level helpers shared by the whole crate: the Unicode
//! `White_Space` property, conversions between strings and character
//! vectors, and the concatenation of character sequences.
use vstd::prelude::*;

verus! {

/// The Unicode `White_Space` property, which is what `char::is_whitespace`
/// implements: U+0009..U+000D, U+0020, U+0085, U+00A0, U+1680,
/// U+2000..U+200A, U+2028, U+2029, U+202F, U+205F and U+3000.
pub open spec fn is_ws(c: char) -> bool {
    let u = c as u32;
    ||| (0x9 <= u && u <= 0xd)
    ||| u == 0x20
    ||| u == 0x85
    ||| u == 0xa0
    ||| u == 0x1680
    ||| (0x2000 <= u && u <= 0x200a)
    ||| u == 0x2028
    ||| u == 0x2029
    ||| u == 0x202f
    ||| u == 0x205f
    ||| u == 0x3000
}

/// Whether `c` is a whitespace character.
pub fn is_whitespace(c: char) -> (r: bool)
    ensures
        r == is_ws(c),
{
    let u = c as u32;
    (0x9 <= u && u <= 0xd) || u == 0x20 || u == 0x85 || u == 0xa0 || u == 0x1680 || (0x2000 <= u
        && u <= 0x200a) || u == 0x2028 || u == 0x2029 || u == 0x202f || u == 0x205f || u == 0x3000
}

/// The characters of `s`, in order.
pub fn chars_of(s: &str) -> (v: Vec<char>)
    ensures
        v@ == s@,
{
    let mut v: Vec<char> = Vec::new();
    for c in it: s.chars()
        invariant
            v@ == it.seq().take(it.index() as int),
            it.seq() == s@,
    {
        v.push(c);
    }
    v
}

/// Appends `c` to `s` (`String::push`).
#[verifier::external_body]
fn push_char(s: &mut String, c: char)
    ensures
        final(s)@ == old(s)@.push(c),
{
    s.push(c);
}

/// A string holding the characters `chars[start..end]`.
pub fn string_from_chars(chars: &Vec<char>, start: usize, end: usize) -> (s: String)
    requires
        start <= end <= chars@.len(),
    ensures
        s@ == chars@.subrange(start as int, end as int),
{
    let mut s = String::new();
    let mut i = start;
    while i < end
        invariant
            start <= i <= end <= chars@.len(),
            s@ == chars@.subrange(start as int, i as int),
        decreases end - i,
    {
        push_char(&mut s, chars[i]);
        i = i + 1;
    }
    s
}

/// A string holding all characters of `chars`.
pub fn string_from_all_chars(chars: &Vec<char>) -> (s: String)
    ensures
        s@ == chars@,
{
    let s = string_from_chars(chars, 0, chars.len());
    assert(chars@.subrange(0, chars@.len() as int) =~= chars@);
    s
}

/// The concatenation of `a` and `b` as a new string.
pub fn concat_strings(a: &String, b: &String) -> (s: String)
    ensures
        s@ == a@ + b@,
{
    let bc = chars_of(b.as_str());
    let mut s = a.clone();
    let mut i: usize = 0;
    while i < bc.len()
        invariant
            0 <= i <= bc@.len(),
            s@ == a@ + bc@.take(i as int),
        decreases bc.len() - i,
    {
        push_char(&mut s, bc[i]);
        assert(bc@.take(i + 1) =~= bc@.take(i as int).push(bc@[i as int]));
        i = i + 1;
    }
    assert(bc@.take(bc@.len() as int) =~= bc@);
    s
}

/// Whether every character of `s` is whitespace.
pub fn all_whitespace(s: &String) -> (r: bool)
    ensures
        r == (forall|k: int| 0 <= k < s@.len() ==> is_ws(#[trigger] s@[k])),
{
    let cs = chars_of(s.as_str());
    let mut i: usize = 0;
    while i < cs.len()
        invariant
            0 <= i <= cs@.len(),
            cs@ == s@,
            forall|k: int| 0 <= k < i ==> is_ws(#[trigger] s@[k]),
        decreases cs.len() - i,
    {
        if !is_whitespace(cs[i]) {
            return false;
        }
        i = i + 1;
    }
    true
}

/// The number of characters of `s`.
pub fn char_count(s: &String) -> (n: usize)
    ensures
        n == s@.len(),
{
    chars_of(s.as_str()).len()
}

/// The character of the decimal digit `d`.
pub open spec fn digit_char(d: int) -> char {
    if d == 0 { '0' } else if d == 1 { '1' } else if d == 2 { '2' } else if d == 3 { '3' }
    else if d == 4 { '4' } else if d == 5 { '5' } else if d == 6 { '6' } else if d == 7 { '7' }
    else if d == 8 { '8' } else { '9' }
}

/// The decimal digits of `n`.
pub open spec fn digits(n: nat) -> Seq<char>
    decreases n,
{
    if n < 10 {
        seq![digit_char(n as int)]
    } else {
        digits(n / 10).push(digit_char((n % 10) as int))
    }
}

/// The decimal form of `x`, with a minus sign when it is negative.
pub open spec fn decimal(x: int) -> Seq<char> {
    if x < 0 {
        seq!['-'] + digits((-x) as nat)
    } else {
        digits(x as nat)
    }
}

fn digit(d: u64) -> (c: char)
    requires
        d < 10,
    ensures
        c == digit_char(d as int),
{
    match d {
        0 => '0',
        1 => '1',
        2 => '2',
        3 => '3',
        4 => '4',
        5 => '5',
        6 => '6',
        7 => '7',
        8 => '8',
        _ => '9',
    }
}

fn digits_of(n: u64) -> (v: Vec<char>)
    ensures
        v@ == digits(n as nat),
    decreases n,
{
    if n < 10 {
        let mut v = Vec::new();
        v.push(digit(n));
        assert(v@ =~= seq![digit_char(n as int)]);
        v
    } else {
        let mut v = digits_of(n / 10);
        v.push(digit(n % 10));
        v
    }
}

/// The decimal form of `x`.
pub fn decimal_string(x: i64) -> (s: String)
    ensures
        s@ == decimal(x as int),
{
    if x < 0 {
        let n: u64 = ((-(x + 1)) as u64) + 1;
        let mut v: Vec<char> = Vec::new();
        v.push('-');
        let mut d = digits_of(n);
        v.append(&mut d);
        assert(v@ =~= seq!['-'] + digits((-x) as nat));
        string_from_all_chars(&v)
    } else {
        string_from_all_chars(&digits_of(x as u64))
    }
}

/// Whether two strings hold the same characters.
pub fn same_text(a: &str, b: &str) -> (r: bool)
    ensures
        r == (a@ == b@),
{
    let x = chars_of(a);
    let y = chars_of(b);
    if x.len() != y.len() {
        return false;
    }
    let mut i: usize = 0;
    while i < x.len()
        invariant
            x@ == a@,
            y@ == b@,
            x@.len() == y@.len(),
            0 <= i <= x@.len(),
            forall|k: int| 0 <= k < i ==> x@[k] == y@[k],
        decreases x.len() - i,
    {
        if x[i] != y[i] {
            return false;
        }
        i = i + 1;
    }
    assert(x@ =~= y@);
    true
}

/// The decimal form of an unsigned number.
pub fn unsigned_string(n: usize) -> (s: String)
    ensures
        s@ == decimal(n as int),
{
    string_from_all_chars(&digits_of(n as u64))
}

/// The concatenation of `a`, `b` and `c` as a new string.
pub fn concat3(a: &str, b: &String, c: &str) -> (s: String)
    ensures
        s@ == a@ + b@ + c@,
{
    let first = concat_strings(&a.to_string(), b);
    concat_strings(&first, &c.to_string())
}

/// The concatenation of the pieces.
pub open spec fn joined(pieces: Seq<Seq<char>>) -> Seq<char>
    decreases pieces.len(),
{
    if pieces.len() == 0 {
        Seq::empty()
    } else {
        joined(pieces.drop_last()) + pieces.last()
    }
}

/// The pieces split `text` after each whitespace character: every piece is
/// non-empty, ends with its only whitespace character, and only the last
/// piece may end without one.
pub open spec fn is_split_after_whitespace(pieces: Seq<Seq<char>>, text: Seq<char>) -> bool {
    &&& joined(pieces) == text
    &&& forall|k: int|
        0 <= k < pieces.len() ==> {
            let p = #[trigger] pieces[k];
            &&& p.len() > 0
            &&& forall|m: int| 0 <= m < p.len() - 1 ==> !is_ws(#[trigger] p[m])
            &&& (k < pieces.len() - 1 ==> is_ws(p[p.len() - 1]))
        }
}

/// The views of a list of strings.
pub open spec fn strings_view(pieces: Seq<String>) -> Seq<Seq<char>> {
    pieces.map_values(|s: String| s@)
}

/// Splits the text after each whitespace character, keeping the whitespace
/// at the end of the pieces (`split_inclusive`).
pub fn split_after_whitespace(text: &str) -> (pieces: Vec<String>)
    ensures
        is_split_after_whitespace(strings_view(pieces@), text@),
{
    let chars = chars_of(text);
    let mut pieces: Vec<String> = Vec::new();
    let mut start: usize = 0;
    let mut i: usize = 0;
    proof {
        assert(strings_view(pieces@) =~= Seq::<Seq<char>>::empty());
        assert(chars@.take(0) =~= Seq::<char>::empty());
    }
    while i < chars.len()
        invariant
            chars@ == text@,
            0 <= start <= i <= chars@.len(),
            joined(strings_view(pieces@)) == chars@.take(start as int),
            forall|m: int| start <= m < i ==> !is_ws(#[trigger] chars@[m]),
            forall|k: int|
                0 <= k < strings_view(pieces@).len() ==> {
                    let p = #[trigger] strings_view(pieces@)[k];
                    &&& p.len() > 0
                    &&& forall|m: int| 0 <= m < p.len() - 1 ==> !is_ws(#[trigger] p[m])
                    &&& is_ws(p[p.len() - 1])
                },
        decreases chars.len() - i,
    {
        if is_whitespace(chars[i]) {
            let piece = string_from_chars(&chars, start, i + 1);
            let ghost before = strings_view(pieces@);
            pieces.push(piece);
            proof {
                assert(strings_view(pieces@) =~= before.push(piece@));
                assert(strings_view(pieces@).drop_last() =~= before);
                assert(chars@.take(i + 1) =~= chars@.take(start as int) + chars@.subrange(start as int, i + 1));
            }
            start = i + 1;
        }
        i = i + 1;
    }
    if start < chars.len() {
        let piece = string_from_chars(&chars, start, chars.len());
        let ghost before = strings_view(pieces@);
        pieces.push(piece);
        proof {
            assert(strings_view(pieces@) =~= before.push(piece@));
            assert(strings_view(pieces@).drop_last() =~= before);
            assert(chars@ =~= chars@.take(start as int) + chars@.subrange(start as int, chars@.len() as int));
        }
    } else {
        assert(chars@.take(start as int) =~= chars@);
    }
    pieces
}


/// A text splits after its whitespace characters in one way only.
pub proof fn lemma_split_after_whitespace_unique(a: Seq<Seq<char>>, b: Seq<Seq<char>>, text: Seq<char>)
    requires
        is_split_after_whitespace(a, text),
        is_split_after_whitespace(b, text),
    ensures
        a == b,
    decreases a.len(),
{
    if a.len() == 0 {
        if b.len() > 0 {
            assert(b[b.len() - 1].len() > 0);
            assert(joined(b) == joined(b.drop_last()) + b.last());
            assert(false);
        }
        assert(a =~= b);
    } else if b.len() == 0 {
        assert(a[a.len() - 1].len() > 0);
        assert(joined(a) == joined(a.drop_last()) + a.last());
        assert(false);
    } else {
        let x = a.last();
        let y = b.last();
        let ra = a.drop_last();
        let rb = b.drop_last();
        assert(x == a[a.len() - 1] && y == b[b.len() - 1]);
        assert(x.len() > 0 && y.len() > 0);
        assert(joined(a) == joined(ra) + x);
        assert(joined(b) == joined(rb) + y);
        let n = text.len();
        if x.len() < y.len() {
            assert(ra.len() > 0) by {
                if ra.len() == 0 {
                    assert(joined(ra) =~= Seq::<char>::empty());
                }
            }
            let z = ra.last();
            assert(z == a[a.len() - 2]);
            assert(joined(ra) == joined(ra.drop_last()) + z);
            assert(is_ws(z[z.len() - 1]));
            assert(text[n - x.len() - 1] == z[z.len() - 1]);
            assert(text[n - x.len() - 1] == y[y.len() - x.len() - 1]);
            assert(!is_ws(y[y.len() - x.len() - 1]));
            assert(false);
        }
        if y.len() < x.len() {
            assert(rb.len() > 0) by {
                if rb.len() == 0 {
                    assert(joined(rb) =~= Seq::<char>::empty());
                }
            }
            let z = rb.last();
            assert(z == b[b.len() - 2]);
            assert(joined(rb) == joined(rb.drop_last()) + z);
            assert(is_ws(z[z.len() - 1]));
            assert(text[n - y.len() - 1] == z[z.len() - 1]);
            assert(text[n - y.len() - 1] == x[x.len() - y.len() - 1]);
            assert(!is_ws(x[x.len() - y.len() - 1]));
            assert(false);
        }
        assert(x =~= y) by {
            assert forall|k: int| 0 <= k < x.len() implies x[k] == y[k] by {
                assert(x[k] == text[n - x.len() + k]);
                assert(y[k] == text[n - y.len() + k]);
            }
        }
        let t = text.take(n - x.len());
        assert(joined(ra) =~= t);
        assert(joined(rb) =~= t);
        assert(is_split_after_whitespace(ra, t)) by {
            assert forall|k: int| 0 <= k < ra.len() implies ra[k] == a[k] by {}
        }
        assert(is_split_after_whitespace(rb, t)) by {
            assert forall|k: int| 0 <= k < rb.len() implies rb[k] == b[k] by {}
        }
        lemma_split_after_whitespace_unique(ra, rb, t);
        assert(a =~= ra.push(x));
        assert(b =~= rb.push(y));
    }
}

} // verus!
