//! Document paths: sanitising them, and proposing free names for them.
use vstd::prelude::*;

use crate::text::{chars_of, concat_strings, decimal, decimal_string, string_from_chars};

verus! {

/// The pieces of `text` between the occurrences of `sep` (`str::split`):
/// always at least one piece.
pub open spec fn split_on(text: Seq<char>, sep: char) -> Seq<Seq<char>>
    decreases text.len(),
{
    if text.len() == 0 {
        seq![Seq::<char>::empty()]
    } else {
        let pieces = split_on(text.drop_last(), sep);
        if text.last() == sep {
            pieces.push(Seq::empty())
        } else {
            pieces.update(pieces.len() - 1, pieces.last().push(text.last()))
        }
    }
}

/// The pieces joined with `sep` between them (`join`).
pub open spec fn join_with(pieces: Seq<Seq<char>>, sep: char) -> Seq<char>
    decreases pieces.len(),
{
    if pieces.len() == 0 {
        Seq::empty()
    } else if pieces.len() == 1 {
        pieces[0]
    } else {
        join_with(pieces.drop_last(), sep).push(sep) + pieces.last()
    }
}

proof fn lemma_split_on_nonempty(text: Seq<char>, sep: char)
    ensures
        split_on(text, sep).len() >= 1,
    decreases text.len(),
{
    if text.len() > 0 {
        lemma_split_on_nonempty(text.drop_last(), sep);
    }
}

/// The pieces of `text` between the occurrences of `sep`.
pub fn split_text(text: &str, sep: char) -> (pieces: Vec<String>)
    ensures
        pieces@.map_values(|p: String| p@) == split_on(text@, sep),
{
    let chars = chars_of(text);
    let mut pieces: Vec<String> = Vec::new();
    let mut start: usize = 0;
    let mut i: usize = 0;
    proof {
        assert(chars@.take(0) =~= Seq::<char>::empty());
    }
    while i < chars.len()
        invariant
            chars@ == text@,
            0 <= start <= i <= chars@.len(),
            pieces@.map_values(|p: String| p@).push(chars@.subrange(start as int, i as int))
                == split_on(chars@.take(i as int), sep),
        decreases chars.len() - i,
    {
        proof {
            assert(chars@.take(i + 1).drop_last() =~= chars@.take(i as int));
            lemma_split_on_nonempty(chars@.take(i as int), sep);
        }
        if chars[i] == sep {
            let piece = string_from_chars(&chars, start, i);
            let ghost before = pieces@.map_values(|p: String| p@);
            pieces.push(piece);
            proof {
                assert(pieces@.map_values(|p: String| p@) =~= before.push(piece@));
                assert(chars@.subrange(i + 1, i + 1) =~= Seq::<char>::empty());
            }
            start = i + 1;
        } else {
            proof {
                let before = pieces@.map_values(|p: String| p@);
                assert(chars@.subrange(start as int, i + 1) =~= chars@.subrange(start as int, i as int).push(chars@[i as int]));
                assert(before.push(chars@.subrange(start as int, i + 1)) =~= before.push(chars@.subrange(start as int, i as int)).update(before.len() as int, chars@.subrange(start as int, i as int).push(chars@[i as int])));
            }
        }
        i = i + 1;
    }
    let piece = string_from_chars(&chars, start, chars.len());
    let ghost before = pieces@.map_values(|p: String| p@);
    pieces.push(piece);
    proof {
        assert(pieces@.map_values(|p: String| p@) =~= before.push(piece@));
        assert(chars@.take(i as int) =~= chars@);
    }
    pieces
}

/// The pieces joined with `sep` between them.
pub fn join_text(pieces: &Vec<String>, sep: char) -> (s: String)
    ensures
        s@ == join_with(pieces@.map_values(|p: String| p@), sep),
{
    let ghost views = pieces@.map_values(|p: String| p@);
    let mut s = String::new();
    let mut i: usize = 0;
    let sep_chars: Vec<char> = vec![sep];
    let sep_string = crate::text::string_from_all_chars(&sep_chars);
    while i < pieces.len()
        invariant
            0 <= i <= pieces@.len(),
            views == pieces@.map_values(|p: String| p@),
            sep_string@ == seq![sep],
            s@ == join_with(views.take(i as int), sep),
        decreases pieces.len() - i,
    {
        proof {
            assert(views.take(i + 1).drop_last() =~= views.take(i as int));
            assert(views.take(i + 1).last() == pieces@[i as int]@);
        }
        if i == 0 {
            s = pieces[i].clone();
            proof {
                assert(views.take(1) =~= seq![pieces@[0]@]);
            }
        } else {
            let with_sep = concat_strings(&s, &sep_string);
            s = concat_strings(&with_sep, &pieces[i]);
            proof {
                assert(s@ =~= join_with(views.take(i as int), sep).push(sep) + pieces@[i as int]@);
            }
        }
        i = i + 1;
    }
    proof {
        assert(views.take(i as int) =~= views);
    }
    s
}

/// What `sanitize_filename::sanitize_with_options` makes of a file name.
pub uninterp spec fn sanitized_name(
    name: Seq<char>,
    windows: bool,
    truncate: bool,
    replacement: Seq<char>,
) -> Seq<char>;

/// `sanitize_filename::sanitize_with_options` with the given options: the
/// name with the characters and names that are not allowed in file names
/// replaced.
#[verifier::external_body]
fn sanitize_name(name: &str, windows: bool, truncate: bool, replacement: &str) -> (s: String)
    ensures
        s@ == sanitized_name(name@, windows, truncate, replacement@),
{
    sanitize_filename::sanitize_with_options(
        name,
        sanitize_filename::Options { windows, truncate, replacement },
    )
}

/// What a path part becomes: its sanitised form, or "_" when sanitising
/// leaves nothing of a part that was not empty.
pub open spec fn sanitized_part(part: Seq<char>) -> Seq<char> {
    let proposal = sanitized_name(part, true, true, Seq::empty());
    if part.len() > 0 && proposal.len() == 0 {
        seq!['_']
    } else {
        proposal
    }
}

/// Sanitize the document's path to allow all clients to create the same path
/// in their filesystem: each part between slashes is sanitised for Windows
/// (the lowest common denominator), truncated, with the characters that are
/// not allowed dropped. If we didn't do this server-side, clients would need
/// to deal with mapping invalid names to valid ones and then back.
pub fn sanitize_path(path: &str) -> (s: String)
    ensures
        s@ == join_with(split_on(path@, '/').map_values(|p: Seq<char>| sanitized_part(p)), '/'),
{
    let parts = split_text(path, '/');
    let ghost part_views = parts@.map_values(|p: String| p@);
    let mut sanitized: Vec<String> = Vec::new();
    let mut i: usize = 0;
    while i < parts.len()
        invariant
            0 <= i <= parts@.len(),
            part_views == parts@.map_values(|p: String| p@),
            sanitized@.map_values(|p: String| p@) == part_views.take(i as int).map_values(
                |p: Seq<char>| sanitized_part(p),
            ),
        decreases parts.len() - i,
    {
        let part = parts[i].as_str();
        let empty = "";
        proof {
            reveal_strlit("");
            assert(empty@ =~= Seq::<char>::empty());
        }
        let proposal = sanitize_name(part, true, true, empty);
        let ghost before = sanitized@;
        let fixed = if crate::text::char_count(&parts[i]) > 0 && crate::text::char_count(&proposal) == 0 {
            let underscore = "_";
            proof {
                reveal_strlit("_");
            }
            underscore.to_owned()
        } else {
            proposal
        };
        proof {
            assert(part_views[i as int] == parts@[i as int]@);
            assert(part@ == parts@[i as int]@);
            assert(fixed@ == sanitized_part(part_views[i as int]));
        }
        sanitized.push(fixed);
        proof {
            assert(part_views.take(i + 1) =~= part_views.take(i as int).push(part_views[i as int]));
            assert(sanitized@ =~= before.push(fixed));
            assert(sanitized@.map_values(|p: String| p@) =~= before.map_values(|p: String| p@).push(fixed@));
            assert(part_views.take(i + 1).map_values(|p: Seq<char>| sanitized_part(p)) =~= part_views.take(i as int).map_values(|p: Seq<char>| sanitized_part(p)).push(sanitized_part(part_views[i as int])));
        }
        i = i + 1;
    }
    proof {
        assert(part_views.take(i as int) =~= part_views);
    }
    join_text(&sanitized, '/')
}

/// The value of a list of decimal digits.
pub open spec fn digits_value(s: Seq<char>) -> int
    decreases s.len(),
{
    if s.len() == 0 {
        0
    } else {
        digits_value(s.drop_last()) * 10 + ((s.last() as int) - ('0' as int))
    }
}

/// The text without a leading `+`.
pub open spec fn unsigned_part(s: Seq<char>) -> Seq<char> {
    if s.len() > 0 && s[0] == '+' {
        s.drop_first()
    } else {
        s
    }
}

/// Every character is an ASCII digit.
pub open spec fn all_ascii_digits(s: Seq<char>) -> bool {
    forall|k: int| 0 <= k < s.len() ==> '0' <= #[trigger] s[k] <= '9'
}

/// What `str::parse::<u32>` gives: an optional `+` followed by at least one
/// ASCII digit, with a value that fits.
pub open spec fn parsed_u32(s: Seq<char>) -> Option<u32> {
    let digits = unsigned_part(s);
    if digits.len() > 0 && all_ascii_digits(digits) && digits_value(digits) <= u32::MAX {
        Some(digits_value(digits) as u32)
    } else {
        None
    }
}

proof fn lemma_digits_value_nonneg(s: Seq<char>)
    requires
        forall|k: int| 0 <= k < s.len() ==> '0' <= #[trigger] s[k] <= '9',
    ensures
        digits_value(s) >= 0,
    decreases s.len(),
{
    if s.len() > 0 {
        lemma_digits_value_nonneg(s.drop_last());
    }
}

/// Parses a decimal `u32` as `str::parse::<u32>` does.
pub fn parse_u32(text: &str) -> (r: Option<u32>)
    ensures
        r == parsed_u32(text@),
{
    let chars = chars_of(text);
    let start: usize = if chars.len() > 0 && chars[0] == '+' {
        1
    } else {
        0
    };
    let ghost digits = chars@.skip(start as int);
    proof {
        if chars@.len() > 0 && chars@[0] == '+' {
            assert(digits =~= text@.drop_first());
        } else {
            assert(digits =~= text@);
        }
    }
    if start >= chars.len() {
        return None;
    }
    let limit: u64 = 0x1_0000_0000;
    let mut value: u64 = 0;
    let mut i: usize = start;
    proof {
        assert(digits.take(0) =~= Seq::<char>::empty());
    }
    while i < chars.len()
        invariant
            chars@ == text@,
            start <= i <= chars@.len(),
            digits == chars@.skip(start as int),
            digits == unsigned_part(text@),
            limit == 0x1_0000_0000,
            forall|k: int| 0 <= k < i - start ==> '0' <= #[trigger] digits[k] <= '9',
            value == if digits_value(digits.take(i - start)) < limit {
                digits_value(digits.take(i - start))
            } else {
                limit as int
            },
        decreases chars.len() - i,
    {
        let c = chars[i];
        if !('0' <= c && c <= '9') {
            proof {
                assert(digits[i - start] == c);
                assert(!('0' <= digits[i - start] <= '9'));
                assert(!all_ascii_digits(digits));
            }
            return None;
        }
        proof {
            assert(digits.take(i - start + 1).drop_last() =~= digits.take(i - start));
            assert(digits.take(i - start + 1).last() == c);
            lemma_digits_value_nonneg(digits.take(i - start));
        }
        let d = (c as u32 - '0' as u32) as u64;
        value = if value >= limit {
            limit
        } else {
            let next = value * 10 + d;
            if next >= limit {
                limit
            } else {
                next
            }
        };
        i = i + 1;
    }
    proof {
        assert(digits.take(i - start) =~= digits);
        lemma_digits_value_nonneg(digits);
    }
    if value >= limit {
        None
    } else {
        Some(value as u32)
    }
}

/// The index of the last occurrence of `c` in `s`, or -1.
pub open spec fn last_index_of(s: Seq<char>, c: char) -> int
    decreases s.len(),
{
    if s.len() == 0 {
        -1
    } else if s.last() == c {
        s.len() - 1
    } else {
        last_index_of(s.drop_last(), c)
    }
}

proof fn lemma_last_index_of_bounds(s: Seq<char>, c: char)
    ensures
        -1 <= last_index_of(s, c) < s.len(),
        last_index_of(s, c) >= 0 ==> s[last_index_of(s, c)] == c,
    decreases s.len(),
{
    if s.len() > 0 {
        lemma_last_index_of_bounds(s.drop_last(), c);
    }
}

/// The pattern of a number in parentheses at the end of a name.
pub open spec fn number_suffix_pattern() -> Seq<char> {
    " \\((\\d+)\\)$"@
}

/// What group `group` of the first match of the regular expression
/// `pattern` in `text` is, if the pattern compiles, matches and the group
/// took part in the match.
pub uninterp spec fn regex_group(pattern: Seq<char>, text: Seq<char>, group: usize) -> Option<
    Seq<char>,
>;

/// What replacing the first match of the regular expression `pattern` in
/// `text` with `replacement` gives (`text` when the pattern does not compile).
pub uninterp spec fn regex_replaced(pattern: Seq<char>, text: Seq<char>, replacement: Seq<char>) -> Seq<char>;

/// `Regex::new(pattern)` then `captures(text)` and `get(group)`: the text
/// of the group in the first match.
#[verifier::external_body]
fn regex_capture_group(pattern: &str, text: &str, group: usize) -> (r: Option<String>)
    ensures
        match r {
            Some(s) => regex_group(pattern@, text@, group) == Some(s@),
            None => regex_group(pattern@, text@, group) is None,
        },
{
    let regex = match regex::Regex::new(pattern) {
        Ok(regex) => regex,
        Err(_) => return None,
    };
    match regex.captures(text) {
        Some(captures) => match captures.get(group) {
            Some(found) => Some(found.as_str().to_string()),
            None => None,
        },
        None => None,
    }
}

/// `Regex::new(pattern)` then `replace(text, replacement)`: the text with its
/// first match replaced.
#[verifier::external_body]
fn regex_replace_first(pattern: &str, text: &str, replacement: &str) -> (r: String)
    ensures
        r@ == regex_replaced(pattern@, text@, replacement@),
{
    match regex::Regex::new(pattern) {
        Ok(regex) => regex.replace(text, replacement).to_string(),
        Err(_) => text.to_string(),
    }
}

/// The names that `deduped_file_paths` proposes, one by one.
#[derive(Debug, Clone)]
pub struct DedupedFilePaths {
    prefix: String,
    extension: String,
    next_number: u32,
    exhausted: bool,
}

/// The name proposed for number `n`: the plain name for 0, else the number
/// in parentheses before the extension.
pub open spec fn proposed_name(prefix: Seq<char>, extension: Seq<char>, n: u32) -> Seq<char> {
    if n == 0 {
        prefix + extension
        } else {
        prefix + " ("@ + decimal(n as int) + ")"@ + extension
    }
}

impl DedupedFilePaths {
    /// The directory and the name without its number.
    pub closed spec fn prefix_view(&self) -> Seq<char> {
        self.prefix@
    }

    /// The extension, with its dot.
    pub closed spec fn extension_view(&self) -> Seq<char> {
        self.extension@
    }

    /// The number of the next proposal, if there is one.
    pub closed spec fn next_view(&self) -> Option<u32> {
        if self.exhausted {
            None
        } else {
            Some(self.next_number)
        }
    }

    /// The next proposed name; the numbers count up from the one the name
    /// had, up to `u32::MAX`.
    pub fn next(&mut self) -> (r: Option<String>)
        ensures
            final(self).prefix_view() == old(self).prefix_view(),
            final(self).extension_view() == old(self).extension_view(),
            match old(self).next_view() {
                None => r is None && final(self).next_view() is None,
                Some(n) => (r matches Some(s) && s@ == proposed_name(
                    old(self).prefix_view(),
                    old(self).extension_view(),
                    n,
                )) && final(self).next_view() == if n < u32::MAX {
                    Some((n + 1) as u32)
                } else {
                    None
                },
            },
    {
        if self.exhausted {
            return None;
        }
        let n = self.next_number;
        let name = if n == 0 {
            concat_strings(&self.prefix, &self.extension)
        } else {
            let number = decimal_string(n as i64);
            let with_number = crate::text::concat3(" (", &number, ")");
            let head = concat_strings(&self.prefix, &with_number);
            concat_strings(&head, &self.extension)
        };
        proof {
            reveal_strlit(" (");
            reveal_strlit(")");
        }
        if n < u32::MAX {
            self.next_number = n + 1;
        } else {
            self.exhausted = true;
        }
        Some(name)
    }
}

/// The next step of looking for a free path for a document.
pub enum FreePathStep {
    /// The path last asked about is free: the document takes it.
    Take(String),
    /// Ask the document store whether this path is taken.
    Ask(String),
    /// Every proposal is taken.
    Exhausted,
}

impl DedupedFilePaths {
    /// The next step of looking for a free path, once the store has answered
    /// whether `asked` is `taken` (`asked` is `None` before the first
    /// question): a free path is taken, otherwise the next proposal is asked
    /// about, until there is none.
    pub fn free_path_step(&mut self, asked: Option<String>, taken: bool) -> (r: FreePathStep)
        ensures
            (asked is Some && !taken) ==> (r matches FreePathStep::Take(p) && p@ == asked->0@
                && *final(self) == *old(self)),
            !(asked is Some && !taken) ==> {
                &&& final(self).prefix_view() == old(self).prefix_view()
                &&& final(self).extension_view() == old(self).extension_view()
                &&& match old(self).next_view() {
                    None => r is Exhausted && final(self).next_view() is None,
                    Some(n) => (r matches FreePathStep::Ask(p) && p@ == proposed_name(
                        old(self).prefix_view(),
                        old(self).extension_view(),
                        n,
                    )) && final(self).next_view() == if n < u32::MAX {
                        Some((n + 1) as u32)
                    } else {
                        None
                    },
                }
            },
    {
        if let Some(path) = asked {
            if !taken {
                return FreePathStep::Take(path);
            }
        }
        match self.next() {
            Some(path) => FreePathStep::Ask(path),
            None => FreePathStep::Exhausted,
        }
    }
}

/// The directory part of a path, with a trailing slash unless it is empty.
pub open spec fn directory_of(path: Seq<char>) -> Seq<char> {
    let joined = join_with(split_on(path, '/').drop_last(), '/');
    if joined.len() > 0 {
        joined.push('/')
    } else {
        joined
    }
}

/// The file name of a path: what follows its last slash.
pub open spec fn file_name_of(path: Seq<char>) -> Seq<char> {
    split_on(path, '/').last()
}

/// The file name before its last dot (all of it when there is none).
pub open spec fn stem_of(name: Seq<char>) -> Seq<char> {
    let dot = last_index_of(name, '.');
    if dot >= 0 {
        name.take(dot)
    } else {
        name
    }
}

/// The file name from its last dot on (empty when there is none).
pub open spec fn extension_of(name: Seq<char>) -> Seq<char> {
    let dot = last_index_of(name, '.');
    if dot >= 0 {
        name.skip(dot)
    } else {
        Seq::empty()
    }
}

/// The number that the digits `group` found in a name stand for, or 0 when
/// there are none or they do not fit in a `u32`.
pub open spec fn start_number_from(group: Option<Seq<char>>) -> u32 {
    match group {
        Some(g) => match parsed_u32(g) {
            Some(n) => n,
            None => 0,
        },
        None => 0,
    }
}

/// The number in parentheses at the end of the stem, or 0.
pub open spec fn start_number_of(stem: Seq<char>) -> u32 {
    start_number_from(regex_group(number_suffix_pattern(), stem, 1))
}

/// The proposals that start from `directory` followed by `clean_stem`, with
/// `extension`, counting from the number that the digits `number_group`
/// stand for (0 when there are none or they do not fit in a `u32`).
pub fn paths_from_parts(
    directory: &String,
    number_group: Option<String>,
    clean_stem: &String,
    extension: String,
) -> (r: DedupedFilePaths)
    ensures
        r.prefix_view() == directory@ + clean_stem@,
        r.extension_view() == extension@,
        r.next_view() == Some(
            start_number_from(
                match number_group {
                    Some(g) => Some(g@),
                    None => None,
                },
            ),
        ),
{
    let start_number = match number_group {
        Some(group) => match parse_u32(group.as_str()) {
            Some(n) => n,
            None => 0,
        },
        None => 0,
    };
    let prefix = concat_strings(directory, clean_stem);
    DedupedFilePaths { prefix, extension, next_number: start_number, exhausted: false }
}

impl DedupedFilePaths {
    /// What the proposals for `path` start from: the directory and the name
    /// without its number, the extension, and the number the name had.
    pub open spec fn starts_from(&self, path: Seq<char>) -> bool {
        let name = file_name_of(path);
        &&& self.prefix_view() == directory_of(path) + regex_replaced(
            number_suffix_pattern(),
            stem_of(name),
            Seq::empty(),
        )
        &&& self.extension_view() == extension_of(name)
        &&& self.next_view() == Some(start_number_of(stem_of(name)))
    }
}

/// The names that a file at `path` may take when its name is taken: the
/// path itself when it has no number in parentheses, then the same name with
/// the numbers counting up in parentheses before the extension.
pub fn deduped_file_paths(path: &str) -> (r: DedupedFilePaths)
    ensures
        r.starts_from(path@),
{
    let mut parts = split_text(path, '/');
    let ghost views = parts@.map_values(|p: String| p@);
    proof {
        lemma_split_on_nonempty(path@, '/');
    }
    let file_name = match parts.pop() {
        Some(name) => name,
        None => {
            proof {
                assert(false);
            }
            String::new()
        },
    };
    proof {
        assert(parts@.map_values(|p: String| p@) =~= views.drop_last());
        assert(file_name@ == views.last());
    }
    let joined = join_text(&parts, '/');
    let directory = if crate::text::char_count(&joined) > 0 {
        let slash = "/";
        proof {
            reveal_strlit("/");
        }
        concat_strings(&joined, &slash.to_owned())
    } else {
        joined
    };
    assert(directory@ == directory_of(path@));
    let name_chars = chars_of(file_name.as_str());
    let mut dot: usize = name_chars.len();
    let mut k: usize = name_chars.len();
    proof {
        assert(name_chars@.take(k as int) =~= name_chars@);
    }
    while k > 0
        invariant_except_break
            dot == name_chars@.len(),
        invariant
            name_chars@ == file_name@,
            k <= name_chars@.len(),
            last_index_of(name_chars@, '.') == last_index_of(name_chars@.take(k as int), '.'),
        ensures
            dot < name_chars@.len() ==> last_index_of(name_chars@, '.') == dot,
            dot >= name_chars@.len() ==> dot == name_chars@.len() && last_index_of(name_chars@, '.') == -1,
        decreases k,
    {
        proof {
            assert(name_chars@.take(k as int).drop_last() =~= name_chars@.take(k - 1));
        }
        if name_chars[k - 1] == '.' {
            dot = k - 1;
            break;
        }
        k = k - 1;
        proof {
            if k == 0 {
                assert(name_chars@.take(0) =~= Seq::<char>::empty());
            }
        }
    }
    proof {
        lemma_last_index_of_bounds(name_chars@, '.');
    }
    let (stem, extension) = if dot < name_chars.len() {
        (string_from_chars(&name_chars, 0, dot), string_from_chars(&name_chars, dot, name_chars.len()))
    } else {
        (file_name.clone(), String::new())
    };
    proof {
        assert(name_chars@.subrange(0, dot as int) =~= name_chars@.take(dot as int));
        assert(name_chars@.subrange(dot as int, name_chars@.len() as int) =~= name_chars@.skip(dot as int));
    }
    let pattern = " \\((\\d+)\\)$";
    let number_group = regex_capture_group(pattern, stem.as_str(), 1);
    let empty = "";
    proof {
        reveal_strlit("");
        assert(empty@ =~= Seq::<char>::empty());
    }
    let clean_stem = regex_replace_first(pattern, stem.as_str(), empty);
    paths_from_parts(&directory, number_group, &clean_stem, extension)
}

} // verus!
