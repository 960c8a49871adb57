//! Building a string from an original string and in-order edits.
use vstd::prelude::*;

use core::ops::Range;
use crate::text::{chars_of, string_from_all_chars};
use vstd::wrapping::usize_specs::{wrapping_add, wrapping_sub};

verus! {

/// `a` when it is at most `b`, else `b`.
pub open spec fn min_int(a: int, b: int) -> int {
    if a <= b {
        a
    } else {
        b
    }
}

/// The characters of `original` that copying `jump` characters from `last` on
/// yields: `original.chars().skip(last).take(jump)`.
pub open spec fn chars_from(original: Seq<char>, last: int, jump: int) -> Seq<char> {
    original.subrange(min_int(last, original.len() as int), min_int(last + jump, original.len() as int))
}

/// The characters of `original` from `last` on.
pub open spec fn rest_from(original: Seq<char>, last: int) -> Seq<char> {
    original.subrange(min_int(last, original.len() as int), original.len() as int)
}

/// A helper for building a string in order based on an original string and a
/// series of insertions and deletions applied to it. It is safe to use with
/// UTF-8 strings as all operations are based on character indices.
///
/// Indices are character indices. An edit at an index before the end of what
/// was already built makes the index arithmetic wrap around, as it does in an
/// optimised build.
#[derive(Debug, Clone)]
pub struct StringBuilder {
    original: Vec<char>,
    last_old_char_index: usize,
    buffer: Vec<char>,
}

impl StringBuilder {
    /// The characters of the original string.
    pub closed spec fn original_chars(&self) -> Seq<char> {
        self.original@
    }

    /// How many characters of the original string were copied or skipped.
    pub closed spec fn last_old(&self) -> usize {
        self.last_old_char_index
    }

    /// The characters built so far.
    pub closed spec fn built(&self) -> Seq<char> {
        self.buffer@
    }

    /// The string that `build` gives in this state.
    pub open spec fn result(&self) -> Seq<char> {
        self.built() + rest_from(self.original_chars(), self.last_old() as int)
    }

    pub fn new(original: &str) -> (b: StringBuilder)
        ensures
            b.original_chars() == original@,
            b.last_old() == 0,
            b.built() == Seq::<char>::empty(),
    {
        StringBuilder { original: chars_of(original), last_old_char_index: 0, buffer: Vec::new() }
    }

    /// Insert a string at the given index after copying the original string up
    /// to that index from the last insertion or deletion.
    pub fn insert(&mut self, from: usize, text: &str)
        ensures
            final(self).original_chars() == old(self).original_chars(),
            final(self).built() == old(self).built() + chars_from(
                old(self).original_chars(),
                old(self).last_old() as int,
                wrapping_sub(from, old(self).built().len() as usize) as int,
            ) + text@,
            final(self).last_old() == wrapping_add(
                old(self).last_old(),
                wrapping_sub(from, old(self).built().len() as usize),
            ),
    {
        self.copy_until(from);
        let cs = chars_of(text);
        let mut i: usize = 0;
        let ghost start = self.buffer@;
        while i < cs.len()
            invariant
                0 <= i <= cs@.len(),
                cs@ == text@,
                self.buffer@ == start + cs@.take(i as int),
                self.original@ == old(self).original@,
                self.last_old_char_index == wrapping_add(
                    old(self).last_old_char_index,
                    wrapping_sub(from, old(self).buffer@.len() as usize),
                ),
            decreases cs.len() - i,
        {
            self.buffer.push(cs[i]);
            assert(cs@.take(i + 1) =~= cs@.take(i as int).push(cs@[i as int]));
            i = i + 1;
        }
        assert(cs@.take(i as int) =~= cs@);
    }

    /// Delete a string at the given index after copying the original string up
    /// to that index from the last insertion or deletion.
    pub fn delete(&mut self, range: Range<usize>)
        ensures
            final(self).original_chars() == old(self).original_chars(),
            final(self).built() == old(self).built() + chars_from(
                old(self).original_chars(),
                old(self).last_old() as int,
                wrapping_sub(range.start, old(self).built().len() as usize) as int,
            ),
            final(self).last_old() == wrapping_add(
                wrapping_add(
                    old(self).last_old(),
                    wrapping_sub(range.start, old(self).built().len() as usize),
                ),
                if range.start <= range.end {
                    (range.end - range.start) as usize
                } else {
                    0
                },
            ),
    {
        self.copy_until(range.start);
        let length: usize = if range.start <= range.end {
            range.end - range.start
        } else {
            0
        };
        self.last_old_char_index = self.last_old_char_index.wrapping_add(length);
    }

    fn copy_until(&mut self, index: usize)
        ensures
            final(self).original_chars() == old(self).original_chars(),
            final(self).built() == old(self).built() + chars_from(
                old(self).original_chars(),
                old(self).last_old() as int,
                wrapping_sub(index, old(self).built().len() as usize) as int,
            ),
            final(self).last_old() == wrapping_add(
                old(self).last_old(),
                wrapping_sub(index, old(self).built().len() as usize),
            ),
    {
        let current_char_count = self.buffer.len();
        let jump = index.wrapping_sub(current_char_count);
        let n = self.original.len();
        let start = if self.last_old_char_index <= n {
            self.last_old_char_index
        } else {
            n
        };
        let end = if jump <= n - start {
            start + jump
        } else {
            n
        };
        let mut k = start;
        let ghost before = self.buffer@;
        while k < end
            invariant
                start <= k <= end <= n,
                n == self.original@.len(),
                self.buffer@ == before + self.original@.subrange(start as int, k as int),
                self.original@ == old(self).original@,
                self.last_old_char_index == old(self).last_old_char_index,
            decreases end - k,
        {
            let c = self.original[k];
            self.buffer.push(c);
            assert(self.original@.subrange(start as int, k + 1) =~= self.original@.subrange(
                start as int,
                k as int,
            ).push(c));
            k = k + 1;
        }
        self.last_old_char_index = self.last_old_char_index.wrapping_add(jump);
    }

    /// Finish building the string after copying the remaining original string
    /// since the last insertion or deletion.
    pub fn build(self) -> (s: String)
        ensures
            s@ == self.result(),
    {
        let mut buffer = self.buffer;
        let n = self.original.len();
        let start = if self.last_old_char_index <= n {
            self.last_old_char_index
        } else {
            n
        };
        let mut k = start;
        let ghost before = buffer@;
        while k < n
            invariant
                start <= k <= n,
                n == self.original@.len(),
                buffer@ == before + self.original@.subrange(start as int, k as int),
            decreases n - k,
        {
            buffer.push(self.original[k]);
            assert(self.original@.subrange(start as int, k + 1) =~= self.original@.subrange(
                start as int,
                k as int,
            ).push(self.original@[k as int]));
            k = k + 1;
        }
        string_from_all_chars(&buffer)
    }

    /// The characters at positions `range` of the string that `build` would
    /// give now (as many of them as there are).
    pub fn get_slice(&self, range: Range<usize>) -> (s: String)
        requires
            range.start <= range.end,
        ensures
            s@ == self.result().subrange(
                min_int(range.start as int, self.result().len() as int),
                min_int(range.end as int, self.result().len() as int),
            ),
    {
        let mut all: Vec<char> = Vec::new();
        let mut k: usize = 0;
        while k < self.buffer.len()
            invariant
                0 <= k <= self.buffer@.len(),
                all@ == self.buffer@.take(k as int),
            decreases self.buffer.len() - k,
        {
            all.push(self.buffer[k]);
            assert(self.buffer@.take(k + 1) =~= self.buffer@.take(k as int).push(self.buffer@[k as int]));
            k = k + 1;
        }
        let n = self.original.len();
        let start = if self.last_old_char_index <= n {
            self.last_old_char_index
        } else {
            n
        };
        let mut k = start;
        let ghost before = all@;
        while k < n
            invariant
                start <= k <= n,
                n == self.original@.len(),
                all@ == before + self.original@.subrange(start as int, k as int),
            decreases n - k,
        {
            all.push(self.original[k]);
            assert(self.original@.subrange(start as int, k + 1) =~= self.original@.subrange(
                start as int,
                k as int,
            ).push(self.original@[k as int]));
            k = k + 1;
        }
        assert(self.buffer@.take(self.buffer@.len() as int) =~= self.buffer@);
        assert(all@ =~= self.result());
        let total = all.len();
        let a = if range.start <= total {
            range.start
        } else {
            total
        };
        let b = if range.end <= total {
            range.end
        } else {
            total
        };
        let mut piece: Vec<char> = Vec::new();
        let mut k = a;
        while k < b
            invariant
                a <= k <= b <= total,
                total == all@.len(),
                piece@ == all@.subrange(a as int, k as int),
            decreases b - k,
        {
            piece.push(all[k]);
            assert(all@.subrange(a as int, k + 1) =~= all@.subrange(a as int, k as int).push(all@[k as int]));
            k = k + 1;
        }
        string_from_all_chars(&piece)
    }
}

} // verus!
