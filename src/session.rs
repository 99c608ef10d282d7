//! The interactive session: what each key does to the line and the history, and
//! what the terminal side must do next.
//!
//! The terminal side reads a key, hands it to [`Session::handle_key`], and carries
//! out the [`Action`] that comes back: it repaints, runs a submitted line, gathers
//! what completion needs, or quits.
use vstd::prelude::*;

use crate::completion::{Completion, Outcome};
use crate::editor::{
    backspaced, empty_line, inserted, line_of, moved_left, moved_right, replaced_before_cursor,
    LineBuffer, LineView,
};
use crate::history::{
    added, index_down, index_up, lemma_added_well_formed, text_at, History, HistoryView,
};

verus! {

/// A key the user pressed.
#[derive(Clone, Copy, PartialEq, Eq, Structural)]
pub enum Key {
    /// A character to type.
    Char(char),
    Enter,
    Tab,
    Left,
    Right,
    Backspace,
    /// Cursor to the start of the line.
    Home,
    /// Cursor to the end of the line.
    End,
    /// Recall an older line.
    Up,
    /// Recall a newer line.
    Down,
    /// Discard the line (Ctrl-C).
    Interrupt,
    /// End of input (Ctrl-D or Escape).
    Quit,
    /// Clear the screen (Ctrl-L).
    ClearScreen,
    /// Any other key.
    Other,
}

/// What the terminal side must do after a key.
pub enum Action {
    /// Nothing to show.
    Nothing,
    /// Only the cursor moved.
    MoveCursor,
    /// The line changed: repaint it.
    Redraw,
    /// Run this line, then show a fresh prompt.
    Submit(String),
    /// Complete this text (the line before the cursor), then call
    /// [`Session::apply_completion`].
    Complete(String),
    /// Start over on a new line with a fresh prompt.
    NewPrompt,
    /// Save the history and leave.
    Quit,
    /// Clear the screen and repaint the prompt and the line.
    ClearScreen,
}

/// What an [`Action`] holds.
pub enum ActionView {
    Nothing,
    MoveCursor,
    Redraw,
    Submit(Seq<char>),
    Complete(Seq<char>),
    NewPrompt,
    Quit,
    ClearScreen,
}

impl View for Action {
    type V = ActionView;

    open spec fn view(&self) -> ActionView {
        match self {
            Action::Nothing => ActionView::Nothing,
            Action::MoveCursor => ActionView::MoveCursor,
            Action::Redraw => ActionView::Redraw,
            Action::Submit(s) => ActionView::Submit(s@),
            Action::Complete(s) => ActionView::Complete(s@),
            Action::NewPrompt => ActionView::NewPrompt,
            Action::Quit => ActionView::Quit,
            Action::ClearScreen => ActionView::ClearScreen,
        }
    }
}

/// What a [`Session`] holds.
pub struct SessionView {
    pub line: LineView,
    pub history: HistoryView,
}

impl SessionView {
    pub open spec fn well_formed(&self) -> bool {
        self.line.well_formed() && self.history.well_formed()
    }
}

/// The history with navigation ended.
pub open spec fn not_navigating(h: HistoryView) -> HistoryView {
    HistoryView { entries: h.entries, index: Option::None }
}

/// The session with `line` in place of its line.
pub open spec fn with_line(s: SessionView, line: LineView) -> SessionView {
    SessionView { line, history: s.history }
}

/// What a key does: the next session and the action for the terminal side.
pub open spec fn step(s: SessionView, key: Key) -> (SessionView, ActionView) {
    let b = s.line;
    let h = s.history;
    match key {
        Key::Char(c) => (with_line(s, inserted(b, c)), ActionView::Redraw),
        Key::Enter => if b.text.len() == 0 {
            (s, ActionView::NewPrompt)
        } else {
            (
                SessionView {
                    line: empty_line(),
                    history: HistoryView { entries: added(h.entries, b.text), index: Option::None },
                },
                ActionView::Submit(b.text),
            )
        },
        Key::Tab => (s, ActionView::Complete(b.text.subrange(0, b.cursor as int))),
        Key::Left => if b.cursor > 0 {
            (with_line(s, moved_left(b)), ActionView::MoveCursor)
        } else {
            (s, ActionView::Nothing)
        },
        Key::Right => if b.cursor < b.text.len() {
            (with_line(s, moved_right(b)), ActionView::MoveCursor)
        } else {
            (s, ActionView::Nothing)
        },
        Key::Backspace => if b.cursor > 0 {
            (with_line(s, backspaced(b)), ActionView::Redraw)
        } else {
            (s, ActionView::Nothing)
        },
        Key::Home => (with_line(s, LineView { text: b.text, cursor: 0 }), ActionView::MoveCursor),
        Key::End => (with_line(s, line_of(b.text)), ActionView::MoveCursor),
        Key::Up => {
            let index = index_up(h.entries.len(), h.index);
            let h2 = HistoryView { entries: h.entries, index };
            match text_at(h.entries, index) {
                Option::Some(t) => (SessionView { line: line_of(t), history: h2 }, ActionView::Redraw),
                Option::None => (SessionView { line: b, history: h2 }, ActionView::Nothing),
            }
        },
        Key::Down => match h.index {
            Option::None => (s, ActionView::Nothing),
            Option::Some(_) => {
                let index = index_down(h.index);
                let h2 = HistoryView { entries: h.entries, index };
                match text_at(h.entries, index) {
                    Option::Some(t) => (
                        SessionView { line: line_of(t), history: h2 },
                        ActionView::Redraw,
                    ),
                    Option::None => (SessionView { line: empty_line(), history: h2 }, ActionView::Redraw),
                }
            },
        },
        Key::Interrupt => (
            SessionView { line: empty_line(), history: not_navigating(h) },
            ActionView::NewPrompt,
        ),
        Key::Quit => (s, ActionView::Quit),
        Key::ClearScreen => (s, ActionView::ClearScreen),
        Key::Other => (s, ActionView::Nothing),
    }
}

/// The session after each of `keys` in turn.
pub open spec fn steps(s: SessionView, keys: Seq<Key>) -> SessionView
    decreases keys.len(),
{
    if keys.len() == 0 {
        s
    } else {
        step(steps(s, keys.drop_last()), keys.last()).0
    }
}

/// Every key keeps the session well formed.
pub proof fn lemma_step_well_formed(s: SessionView, key: Key)
    requires
        s.well_formed(),
    ensures
        step(s, key).0.well_formed(),
{
    if key is Enter && s.line.text.len() > 0 {
        lemma_added_well_formed(s.history, s.line.text);
    }
}

/// Whatever keys are pressed (typing, deleting, moving the cursor, recalling
/// history, submitting), the cursor stays between the start and the end of the line.
pub proof fn lemma_cursor_in_bounds(s: SessionView, keys: Seq<Key>)
    requires
        s.well_formed(),
    ensures
        steps(s, keys).well_formed(),
        steps(s, keys).line.cursor <= steps(s, keys).line.text.len(),
    decreases keys.len(),
{
    if keys.len() > 0 {
        lemma_cursor_in_bounds(s, keys.drop_last());
        lemma_step_well_formed(steps(s, keys.drop_last()), keys.last());
    }
}

/// The line after a completion result: a single value replaces the text before the
/// cursor; several values extend it to their common prefix when that is longer.
pub open spec fn completed_line(b: LineView, o: Outcome) -> LineView {
    match o {
        Outcome::NoMatch => b,
        Outcome::Complete(t) => replaced_before_cursor(b, t),
        Outcome::Partial(p, _) => if p.len() > b.cursor {
            replaced_before_cursor(b, p)
        } else {
            b
        },
    }
}

/// Whether result `o` replaces the text before the cursor of `b`.
pub open spec fn replaces(b: LineView, o: Outcome) -> bool {
    match o {
        Outcome::NoMatch => false,
        Outcome::Complete(_) => true,
        Outcome::Partial(p, _) => p.len() > b.cursor,
    }
}

/// The line being edited and the history.
pub struct Session {
    line: LineBuffer,
    history: History,
}

impl View for Session {
    type V = SessionView;

    closed spec fn view(&self) -> SessionView {
        SessionView { line: self.line@, history: self.history@ }
    }
}

impl Session {
    pub open spec fn wf(&self) -> bool {
        self@.well_formed()
    }

    /// A session over `history`, with an empty line, not navigating.
    pub fn new(history: History) -> (r: Session)
        requires
            history.wf(),
        ensures
            r.wf(),
            r@.line == empty_line(),
            r@.history == not_navigating(history@),
    {
        let mut history = history;
        history.reset_index();
        Session { line: LineBuffer::new(), history }
    }

    /// The line being edited.
    pub fn line(&self) -> (r: &LineBuffer)
        ensures
            r@ == self@.line,
    {
        &self.line
    }

    /// The history.
    pub fn history(&self) -> (r: &History)
        ensures
            r@ == self@.history,
    {
        &self.history
    }

    /// Handles one key: see [`step`].
    pub fn handle_key(&mut self, key: Key) -> (r: Action)
        requires
            old(self).wf(),
            old(self)@.line.text.len() < usize::MAX,
        ensures
            final(self).wf(),
            final(self)@ == step(old(self)@, key).0,
            r@ == step(old(self)@, key).1,
    {
        match key {
            Key::Char(c) => {
                self.line.insert(c);
                Action::Redraw
            },
            Key::Enter => {
                if self.line.len() == 0 {
                    return Action::NewPrompt;
                }
                let text = self.line.text();
                self.history.add(text.as_str());
                self.history.reset_index();
                self.line.clear();
                Action::Submit(text)
            },
            Key::Tab => Action::Complete(self.line.text_before_cursor()),
            Key::Left => if self.line.left() {
                Action::MoveCursor
            } else {
                Action::Nothing
            },
            Key::Right => if self.line.right() {
                Action::MoveCursor
            } else {
                Action::Nothing
            },
            Key::Backspace => if self.line.backspace() {
                Action::Redraw
            } else {
                Action::Nothing
            },
            Key::Home => {
                self.line.home();
                Action::MoveCursor
            },
            Key::End => {
                self.line.end();
                Action::MoveCursor
            },
            Key::Up => match self.history.navigate_up() {
                Some(t) => {
                    self.line.set(t.as_str());
                    Action::Redraw
                },
                None => Action::Nothing,
            },
            Key::Down => {
                if self.history.index().is_none() {
                    return Action::Nothing;
                }
                match self.history.navigate_down() {
                    Some(t) => self.line.set(t.as_str()),
                    None => self.line.clear(),
                }
                Action::Redraw
            },
            Key::Interrupt => {
                self.line.clear();
                self.history.reset_index();
                Action::NewPrompt
            },
            Key::Quit => Action::Quit,
            Key::ClearScreen => Action::ClearScreen,
            Key::Other => Action::Nothing,
        }
    }

    /// Applies the result of completing the text before the cursor; true when that
    /// text was replaced.
    pub fn apply_completion(&mut self, c: &Completion) -> (r: bool)
        requires
            old(self).wf(),
        ensures
            final(self).wf(),
            final(self)@.history == old(self)@.history,
            final(self)@.line == completed_line(old(self)@.line, c@),
            r == replaces(old(self)@.line, c@),
    {
        let changed = match c {
            Completion::NoMatch => false,
            Completion::Complete(t) => {
                self.line.replace_before_cursor(t.as_str());
                true
            },
            Completion::Partial(p, _) => {
                if crate::text::chars_of(p.as_str()).len() > self.line.cursor() {
                    self.line.replace_before_cursor(p.as_str());
                    true
                } else {
                    false
                }
            },
        };
        changed
    }
}

} // verus!
