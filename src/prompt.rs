//! The prompt shown before each line, in several styles.
//!
//! Colours and text styles are terminal escape sequences rendered by termion.
use vstd::prelude::*;

use crate::text::{digit_char, push_char};

use vstd::string::StringExecFns;

verus! {

/// The escape character that opens a control sequence.
pub open spec fn esc() -> char {
    '\u{1b}'
}

/// The foreground colour with palette number `n` (a single digit).
pub open spec fn fg(n: nat) -> Seq<char> {
    seq![esc(), '[', '3', '8', ';', '5', ';', digit_char(n), 'm']
}

/// The default foreground colour.
pub open spec fn fg_default() -> Seq<char> {
    seq![esc(), '[', '3', '9', 'm']
}

/// Inverted colours.
pub open spec fn invert() -> Seq<char> {
    seq![esc(), '[', '7', 'm']
}

/// All text attributes back to normal.
pub open spec fn plain() -> Seq<char> {
    seq![esc(), '[', 'm']
}

/// Palette numbers of the colours the prompts use.
pub open spec fn red() -> nat {
    1
}

pub open spec fn green() -> nat {
    2
}

pub open spec fn yellow() -> nat {
    3
}

pub open spec fn blue() -> nat {
    4
}

pub open spec fn magenta() -> nat {
    5
}

pub open spec fn cyan() -> nat {
    6
}

/// Relies on termion's `AnsiValue::fg_string`: `ESC [ 38;5;<n> m`, with the digit of `n`.
#[verifier::external_body]
fn color(n: u8) -> (r: String)
    requires
        n < 10,
    ensures
        r@ == fg(n as nat),
{
    termion::color::AnsiValue(n).fg_string()
}

/// Relies on termion's `color::Reset::fg_str`: `ESC [ 39m`.
#[verifier::external_body]
fn color_reset() -> (r: String)
    ensures
        r@ == fg_default(),
{
    String::from(termion::color::Reset.fg_str())
}

/// Relies on termion's `style::Invert` as a `str`: `ESC [ 7m`.
#[verifier::external_body]
fn style_invert() -> (r: String)
    ensures
        r@ == invert(),
{
    String::from(<termion::style::Invert as AsRef<str>>::as_ref(&termion::style::Invert))
}

/// Relies on termion's `style::Reset` as a `str`: `ESC [ m`.
#[verifier::external_body]
fn style_reset() -> (r: String)
    ensures
        r@ == plain(),
{
    String::from(<termion::style::Reset as AsRef<str>>::as_ref(&termion::style::Reset))
}

/// The plain prompt, `$ `.
pub open spec fn default_text() -> Seq<char> {
    seq!['$', ' ']
}

/// The POSIX shell style, `sh-4.4$ `.
pub open spec fn sh_text() -> Seq<char> {
    seq!['s', 'h', '-', '4', '.', '4', '$', ' ']
}

/// `user@host:cwd $ `, with user in red, host in blue and cwd in green.
pub open spec fn nixpulvis_text(user: Seq<char>, host: Seq<char>, cwd: Seq<char>) -> Seq<char> {
    fg(red()) + user + fg_default() + seq!['@'] + fg(blue()) + host + fg_default() + seq![':'] + fg(
        green(),
    ) + cwd + fg_default() + seq![' ', '$', ' ']
}

/// The host in green on an inverted bar, then a `$` and a row of colours.
pub open spec fn long_text(host: Seq<char>) -> Seq<char> {
    invert() + fg(green()) + seq![' '] + host + seq![' ', '$', ' '] + fg(yellow()) + seq![' '] + fg(
        red(),
    ) + seq![' '] + fg(magenta()) + seq![' '] + fg(cyan()) + seq![' '] + fg_default() + plain()
        + seq![' ']
}

/// `our$h` in red on an inverted bar.
pub open spec fn short_text() -> Seq<char> {
    fg(red()) + invert() + seq!['o', 'u', 'r', '$', 'h'] + fg_default() + plain() + seq![' ']
}

/// A status prompt displayed before each line in interactive sessions.
pub struct Prompt(String);

impl View for Prompt {
    type V = Seq<char>;

    closed spec fn view(&self) -> Seq<char> {
        self.0@
    }
}

impl Prompt {
    /// The most basic prompt.
    pub const DEFAULT_FORMAT: &'static str = "$ ";

    /// The plain prompt, `$ `.
    pub fn new() -> (r: Prompt)
        ensures
            r@ == default_text(),
    {
        let mut s = String::new();
        push_char(&mut s, '$');
        push_char(&mut s, ' ');
        assert(s@ =~= default_text());
        Prompt(s)
    }

    /// The POSIX shell style, `sh-4.4$ `.
    pub fn sh_style(self) -> (r: Prompt)
        ensures
            r@ == sh_text(),
    {
        let mut s = String::new();
        push_char(&mut s, 's');
        push_char(&mut s, 'h');
        push_char(&mut s, '-');
        push_char(&mut s, '4');
        push_char(&mut s, '.');
        push_char(&mut s, '4');
        push_char(&mut s, '$');
        push_char(&mut s, ' ');
        assert(s@ =~= sh_text());
        Prompt(s)
    }

    /// `user@host:cwd $ ` in colour; the caller looks up the user name, the host
    /// name and the working directory.
    pub fn nixpulvis_style(self, user: &str, host: &str, cwd: &str) -> (r: Prompt)
        ensures
            r@ == nixpulvis_text(user@, host@, cwd@),
    {
        let mut s = color(1);
        s.append(user);
        s.append(color_reset().as_str());
        push_char(&mut s, '@');
        s.append(color(4).as_str());
        s.append(host);
        s.append(color_reset().as_str());
        push_char(&mut s, ':');
        s.append(color(2).as_str());
        s.append(cwd);
        s.append(color_reset().as_str());
        push_char(&mut s, ' ');
        push_char(&mut s, '$');
        push_char(&mut s, ' ');
        assert(s@ =~= nixpulvis_text(user@, host@, cwd@));
        Prompt(s)
    }

    /// The host name on an inverted bar, then `$` and a row of colours; the caller
    /// looks up the host name.
    pub fn long_style(self, host: &str) -> (r: Prompt)
        ensures
            r@ == long_text(host@),
    {
        let mut s = style_invert();
        s.append(color(2).as_str());
        push_char(&mut s, ' ');
        s.append(host);
        push_char(&mut s, ' ');
        push_char(&mut s, '$');
        push_char(&mut s, ' ');
        s.append(color(3).as_str());
        push_char(&mut s, ' ');
        s.append(color(1).as_str());
        push_char(&mut s, ' ');
        s.append(color(5).as_str());
        push_char(&mut s, ' ');
        s.append(color(6).as_str());
        push_char(&mut s, ' ');
        s.append(color_reset().as_str());
        s.append(style_reset().as_str());
        push_char(&mut s, ' ');
        assert(s@ =~= long_text(host@));
        Prompt(s)
    }

    /// `our$h` on an inverted red bar.
    pub fn short_style(self) -> (r: Prompt)
        ensures
            r@ == short_text(),
    {
        let mut s = color(1);
        s.append(style_invert().as_str());
        push_char(&mut s, 'o');
        push_char(&mut s, 'u');
        push_char(&mut s, 'r');
        push_char(&mut s, '$');
        push_char(&mut s, 'h');
        s.append(color_reset().as_str());
        s.append(style_reset().as_str());
        push_char(&mut s, ' ');
        assert(s@ =~= short_text());
        Prompt(s)
    }

    /// The text to write before each line.
    pub fn display(&self) -> (r: &str)
        ensures
            r@ == self@,
    {
        self.0.as_str()
    }
}

} // verus!
