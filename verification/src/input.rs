//! A text input: a text and a cursor between its characters.
use crate::text::{copy_range, string_of};
use vstd::prelude::*;

verus! {

/// The number of display cells ratatui gives a line of text (`Line::width`,
/// the Unicode width of its characters).
pub uninterp spec fn line_width(s: Seq<char>) -> usize;

/// The width of a line of text as ratatui's `Line::from(..).width()`
/// measures it; what it is, is not stated here.
#[verifier::external_body]
fn width(s: &str) -> (w: usize)
    ensures
        w == line_width(s@),
{
    ratatui::text::Line::from(s).width()
}

/// A text being edited, with the cursor before the character at position
/// `cursor` (after the last at the end).
#[derive(Debug)]
pub struct Input {
    text: String,
    chars: Vec<char>,
    cursor: usize,
}

impl View for Input {
    type V = (Seq<char>, nat);

    /// The text and the cursor position, in characters.
    closed spec fn view(&self) -> (Seq<char>, nat) {
        (self.chars@, self.cursor as nat)
    }
}

/// The number of line feeds in a text.
pub open spec fn count_lf(s: Seq<char>) -> nat
    decreases s.len(),
{
    if s.len() == 0 {
        0
    } else if s.last() == '\n' {
        count_lf(s.drop_last()) + 1
    } else {
        count_lf(s.drop_last())
    }
}

/// The last line of a text: what follows its last line feed.
pub open spec fn last_line(s: Seq<char>) -> Seq<char>
    decreases s.len(),
{
    if s.len() == 0 {
        s
    } else if s.last() == '\n' {
        Seq::empty()
    } else {
        last_line(s.drop_last()).push(s.last())
    }
}

/// A text and cursor after typing `c`.
pub open spec fn typed(v: (Seq<char>, nat), c: char) -> (Seq<char>, nat) {
    (v.0.insert(v.1 as int, c), v.1 + 1)
}

/// A text and cursor after a backspace.
pub open spec fn backspaced(v: (Seq<char>, nat)) -> (Seq<char>, nat) {
    if v.1 > 0 {
        (v.0.remove(v.1 - 1), (v.1 - 1) as nat)
    } else {
        v
    }
}

/// A text and cursor after a delete.
pub open spec fn deleted(v: (Seq<char>, nat)) -> (Seq<char>, nat) {
    if v.1 < v.0.len() {
        (v.0.remove(v.1 as int), v.1)
    } else {
        v
    }
}

/// A text and cursor after moving left.
pub open spec fn moved_left(v: (Seq<char>, nat)) -> (Seq<char>, nat) {
    (v.0, if v.1 > 0 { (v.1 - 1) as nat } else { 0 })
}

/// A text and cursor after moving right.
pub open spec fn moved_right(v: (Seq<char>, nat)) -> (Seq<char>, nat) {
    (v.0, if v.1 < v.0.len() { v.1 + 1 } else { v.1 })
}

/// Typing a character and then Backspace give back the text and the
/// cursor.
pub proof fn lemma_backspace_undoes_typing(v: (Seq<char>, nat), c: char)
    requires
        v.1 <= v.0.len(),
    ensures
        backspaced(typed(v, c)) == v,
{
    let t = typed(v, c);
    v.0.insert_ensures(v.1 as int, c);
    t.0.remove_ensures(v.1 as int);
    assert(t.0.remove(v.1 as int) =~= v.0);
}

/// Typing a character, moving left over it and Delete give back the text
/// and the cursor.
pub proof fn lemma_delete_undoes_typing_after_left(v: (Seq<char>, nat), c: char)
    requires
        v.1 <= v.0.len(),
    ensures
        deleted(moved_left(typed(v, c))) == v,
{
    let t = typed(v, c);
    v.0.insert_ensures(v.1 as int, c);
    t.0.remove_ensures(v.1 as int);
    assert(t.0.remove(v.1 as int) =~= v.0);
}

impl Input {
    #[verifier::type_invariant]
    spec fn inv(self) -> bool {
        &&& self.text@ == self.chars@
        &&& self.cursor <= self.chars@.len()
    }

    fn from_chars(chars: Vec<char>, cursor: usize) -> (r: Self)
        requires
            cursor <= chars@.len(),
        ensures
            r@ == (chars@, cursor as nat),
    {
        let text = string_of(&chars);
        Input { text, chars, cursor }
    }

    /// An input holding `text`, with the cursor at its end.
    pub fn new(text: String) -> (r: Self)
        ensures
            r@ == (text@, text@.len()),
    {
        let chars = crate::text::chars_of(text.as_str());
        let n = chars.len();
        Input { text, chars, cursor: n }
    }

    /// The text.
    pub fn text(&self) -> (r: &str)
        ensures
            r@ == self@.0,
    {
        proof {
            use_type_invariant(self);
        }
        self.text.as_str()
    }

    /// Replaces the text, with the cursor at its end.
    pub fn replace(&mut self, text: String)
        ensures
            final(self)@ == (text@, text@.len()),
    {
        *self = Self::new(text);
    }

    /// Types a character at the cursor; the cursor moves past it.
    pub fn insert(&mut self, c: char)
        ensures
            final(self)@ == typed(old(self)@, c),
    {
        proof {
            use_type_invariant(&*self);
        }
        let k = self.cursor;
        let mut chars = copy_range(&self.chars, 0, self.chars.len());
        assert(chars@ =~= self.chars@);
        chars.insert(k, c);
        let n = chars.len();
        assert(k < n);
        *self = Self::from_chars(chars, k + 1);
    }

    /// Deletes the character before the cursor, if there is one.
    pub fn backspace(&mut self)
        ensures
            final(self)@ == backspaced(old(self)@),
    {
        proof {
            use_type_invariant(&*self);
        }
        if self.cursor > 0 {
            let k = self.cursor - 1;
            let mut chars = copy_range(&self.chars, 0, self.chars.len());
            assert(chars@ =~= self.chars@);
            chars.remove(k);
            *self = Self::from_chars(chars, k);
        }
    }

    /// Deletes the character at the cursor, if there is one.
    pub fn delete(&mut self)
        ensures
            final(self)@ == deleted(old(self)@),
    {
        proof {
            use_type_invariant(&*self);
        }
        if self.cursor < self.chars.len() {
            let k = self.cursor;
            let mut chars = copy_range(&self.chars, 0, self.chars.len());
            assert(chars@ =~= self.chars@);
            chars.remove(k);
            *self = Self::from_chars(chars, k);
        }
    }

    /// Moves the cursor one character left, if it can.
    pub fn left(&mut self)
        ensures
            final(self)@ == moved_left(old(self)@),
    {
        proof {
            use_type_invariant(&*self);
        }
        if self.cursor > 0 {
            let chars = copy_range(&self.chars, 0, self.chars.len());
            assert(chars@ =~= self.chars@);
            *self = Self::from_chars(chars, self.cursor - 1);
        }
    }

    /// Moves the cursor one character right, if it can.
    pub fn right(&mut self)
        ensures
            final(self)@ == moved_right(old(self)@),
    {
        proof {
            use_type_invariant(&*self);
        }
        if self.cursor < self.chars.len() {
            let chars = copy_range(&self.chars, 0, self.chars.len());
            assert(chars@ =~= self.chars@);
            *self = Self::from_chars(chars, self.cursor + 1);
        }
    }

    /// Where the cursor shows: its row, the number of line breaks before it,
    /// and its column, the display width of the text between the last of
    /// them and the cursor.
    pub fn cursor(&self) -> (r: (u16, u16))
        ensures
            r.0 == count_lf(self@.0.take(self@.1 as int)) as u16,
            r.1 == line_width(last_line(self@.0.take(self@.1 as int))) as u16,
    {
        proof {
            use_type_invariant(self);
        }
        let ghost before = self.chars@.take(self.cursor as int);
        let mut row: usize = 0;
        let mut line: Vec<char> = Vec::new();
        let mut i: usize = 0;
        while i < self.cursor
            invariant
                self.cursor <= self.chars@.len(),
                before == self.chars@.take(self.cursor as int),
                i <= self.cursor,
                row == count_lf(before.take(i as int)),
                row <= i,
                line@ == last_line(before.take(i as int)),
            decreases self.cursor - i,
        {
            assert(before.take(i + 1).drop_last() =~= before.take(i as int));
            if self.chars[i] == '\n' {
                row = row + 1;
                line = Vec::new();
            } else {
                line.push(self.chars[i]);
            }
            i += 1;
        }
        assert(before.take(i as int) =~= before);
        let s = string_of(&line);
        let w = width(s.as_str());
        (row as u16, w as u16)
    }
}

} // verus!
