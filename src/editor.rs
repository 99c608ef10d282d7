//! The line being edited: its characters and a cursor between them.
use vstd::prelude::*;

use crate::text::{chars_of, string_of};

verus! {

/// What a [`LineBuffer`] holds: the characters and the cursor offset.
pub struct LineView {
    pub text: Seq<char>,
    pub cursor: nat,
}

impl LineView {
    /// The cursor stands within the text (at most just past its end).
    pub open spec fn well_formed(&self) -> bool {
        self.cursor <= self.text.len()
    }
}

/// The empty line.
pub open spec fn empty_line() -> LineView {
    LineView { text: Seq::empty(), cursor: 0 }
}

/// `t` as the whole line, with the cursor at its end.
pub open spec fn line_of(t: Seq<char>) -> LineView {
    LineView { text: t, cursor: t.len() }
}

/// `c` typed at the cursor; the cursor moves past it.
pub open spec fn inserted(b: LineView, c: char) -> LineView {
    LineView { text: b.text.insert(b.cursor as int, c), cursor: b.cursor + 1 }
}

/// The character before the cursor removed, if there is one.
pub open spec fn backspaced(b: LineView) -> LineView {
    if b.cursor > 0 {
        LineView { text: b.text.remove(b.cursor - 1), cursor: (b.cursor - 1) as nat }
    } else {
        b
    }
}

/// The cursor one character to the left, if it can go.
pub open spec fn moved_left(b: LineView) -> LineView {
    LineView { text: b.text, cursor: if b.cursor > 0 { (b.cursor - 1) as nat } else { 0 } }
}

/// The cursor one character to the right, if it can go.
pub open spec fn moved_right(b: LineView) -> LineView {
    LineView {
        text: b.text,
        cursor: if b.cursor < b.text.len() { b.cursor + 1 } else { b.cursor },
    }
}

/// The text before the cursor replaced by `t`; the cursor moves to the end of `t`.
pub open spec fn replaced_before_cursor(b: LineView, t: Seq<char>) -> LineView {
    LineView { text: t + b.text.subrange(b.cursor as int, b.text.len() as int), cursor: t.len() }
}

/// The line being edited.
pub struct LineBuffer {
    chars: Vec<char>,
    cursor: usize,
}

impl View for LineBuffer {
    type V = LineView;

    closed spec fn view(&self) -> LineView {
        LineView { text: self.chars@, cursor: self.cursor as nat }
    }
}

impl LineBuffer {
    pub open spec fn wf(&self) -> bool {
        self@.well_formed()
    }

    /// An empty line.
    pub fn new() -> (r: LineBuffer)
        ensures
            r.wf(),
            r@ == empty_line(),
    {
        let r = LineBuffer { chars: Vec::new(), cursor: 0 };
        assert(r@.text =~= Seq::<char>::empty());
        r
    }

    /// The text of the line.
    pub fn text(&self) -> (r: String)
        ensures
            r@ == self@.text,
    {
        string_of(&self.chars)
    }

    /// The text before the cursor.
    pub fn text_before_cursor(&self) -> (r: String)
        requires
            self.wf(),
        ensures
            r@ == self@.text.subrange(0, self@.cursor as int),
    {
        let mut v: Vec<char> = Vec::new();
        let mut i: usize = 0;
        while i < self.cursor
            invariant
                self.wf(),
                i <= self.cursor,
                v@ == self@.text.subrange(0, i as int),
            decreases self.cursor - i,
        {
            v.push(self.chars[i]);
            i += 1;
            assert(v@ =~= self@.text.subrange(0, i as int));
        }
        string_of(&v)
    }

    /// The cursor offset.
    pub fn cursor(&self) -> (r: usize)
        ensures
            r == self@.cursor,
    {
        self.cursor
    }

    /// The number of characters.
    pub fn len(&self) -> (r: usize)
        ensures
            r == self@.text.len(),
    {
        self.chars.len()
    }

    /// Types `c` at the cursor.
    pub fn insert(&mut self, c: char)
        requires
            old(self).wf(),
            old(self)@.text.len() < usize::MAX,
        ensures
            final(self).wf(),
            final(self)@ == inserted(old(self)@, c),
    {
        self.chars.insert(self.cursor, c);
        self.cursor = self.cursor + 1;
    }

    /// Removes the character before the cursor; false when the cursor is at the start.
    pub fn backspace(&mut self) -> (r: bool)
        requires
            old(self).wf(),
        ensures
            final(self).wf(),
            final(self)@ == backspaced(old(self)@),
            r == (old(self)@.cursor > 0),
    {
        if self.cursor == 0 {
            return false;
        }
        self.chars.remove(self.cursor - 1);
        self.cursor = self.cursor - 1;
        true
    }

    /// Moves the cursor one character left; false when it is at the start.
    pub fn left(&mut self) -> (r: bool)
        requires
            old(self).wf(),
        ensures
            final(self).wf(),
            final(self)@ == moved_left(old(self)@),
            r == (old(self)@.cursor > 0),
    {
        if self.cursor == 0 {
            return false;
        }
        self.cursor = self.cursor - 1;
        true
    }

    /// Moves the cursor one character right; false when it is at the end.
    pub fn right(&mut self) -> (r: bool)
        requires
            old(self).wf(),
        ensures
            final(self).wf(),
            final(self)@ == moved_right(old(self)@),
            r == (old(self)@.cursor < old(self)@.text.len()),
    {
        if self.cursor >= self.chars.len() {
            return false;
        }
        self.cursor = self.cursor + 1;
        true
    }

    /// Moves the cursor to the start of the line.
    pub fn home(&mut self)
        requires
            old(self).wf(),
        ensures
            final(self).wf(),
            final(self)@ == (LineView { text: old(self)@.text, cursor: 0 }),
    {
        self.cursor = 0;
    }

    /// Moves the cursor to the end of the line.
    pub fn end(&mut self)
        requires
            old(self).wf(),
        ensures
            final(self).wf(),
            final(self)@ == line_of(old(self)@.text),
    {
        self.cursor = self.chars.len();
    }

    /// Empties the line.
    pub fn clear(&mut self)
        ensures
            final(self).wf(),
            final(self)@ == empty_line(),
    {
        self.chars = Vec::new();
        self.cursor = 0;
        assert(self@.text =~= Seq::<char>::empty());
    }

    /// Makes `t` the whole line, with the cursor at its end.
    pub fn set(&mut self, t: &str)
        ensures
            final(self).wf(),
            final(self)@ == line_of(t@),
    {
        self.chars = chars_of(t);
        self.cursor = self.chars.len();
    }

    /// Replaces the text before the cursor by `t` and puts the cursor after it.
    pub fn replace_before_cursor(&mut self, t: &str)
        requires
            old(self).wf(),
        ensures
            final(self).wf(),
            final(self)@ == replaced_before_cursor(old(self)@, t@),
    {
        let ghost b = self@;
        let mut v = chars_of(t);
        let n = v.len();
        let mut i: usize = self.cursor;
        while i < self.chars.len()
            invariant
                b == self@,
                self.wf(),
                self.cursor <= i <= self.chars@.len(),
                n == t@.len(),
                v@ == t@ + b.text.subrange(b.cursor as int, i as int),
            decreases self.chars.len() - i,
        {
            v.push(self.chars[i]);
            i += 1;
            assert(v@ =~= t@ + b.text.subrange(b.cursor as int, i as int));
        }
        self.chars = v;
        self.cursor = n;
    }
}

} // verus!
