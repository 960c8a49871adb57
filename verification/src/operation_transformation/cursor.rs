//! Identifiable cursor positions in a text.
use vstd::prelude::*;

verus! {

/// CursorPosition represents the position of an identifiable cursor in a text
/// document based on its (UTF-8) character index.
#[derive(Debug, Clone, Copy, PartialEq, Eq, Structural)]
pub struct CursorPosition {
    pub id: usize,
    pub char_index: usize,
}

impl Default for CursorPosition {
    fn default() -> (c: Self)
        ensures
            c.id == 0,
            c.char_index == 0,
    {
        CursorPosition { id: 0, char_index: 0 }
    }
}

impl CursorPosition {
    /// The same cursor at another index.
    pub fn with_index(self, index: usize) -> (c: Self)
        ensures
            c.id == self.id,
            c.char_index == index,
    {
        CursorPosition { id: self.id, char_index: index }
    }
}

/// A text together with the cursors in it.
#[derive(Debug, Clone, PartialEq, Default)]
pub struct TextWithCursors {
    pub text: String,
    pub cursors: Vec<CursorPosition>,
}

impl TextWithCursors {
    /// A text with cursors, the text copied from `text`.
    pub fn new(text: &str, cursors: Vec<CursorPosition>) -> (r: Self)
        ensures
            r.text@ == text@,
            r.cursors@ == cursors@,
    {
        TextWithCursors { text: text.to_string(), cursors }
    }

    /// A text with cursors that takes ownership of `text`.
    pub fn new_owned(text: String, cursors: Vec<CursorPosition>) -> (r: Self)
        ensures
            r.text@ == text@,
            r.cursors@ == cursors@,
    {
        TextWithCursors { text, cursors }
    }
}

/// A text without cursors.
impl<'a> From<&'a str> for TextWithCursors {
    fn from(text: &'a str) -> (r: Self)
        ensures
            r.text@ == text@,
            r.cursors@.len() == 0,
    {
        TextWithCursors { text: text.to_string(), cursors: Vec::new() }
    }
}

impl<'a> vstd::std_specs::convert::FromSpecImpl<&'a str> for TextWithCursors {
    open spec fn obeys_from_spec() -> bool {
        false
    }

    open spec fn from_spec(text: &'a str) -> Self {
        arbitrary()
    }
}

} // verus!
