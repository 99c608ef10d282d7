//! Commands that the shell runs itself, without starting a process.
//!
//! These take precedence over executables of the same name on the search path.
//! Each builtin decides from its arguments what is to happen; the caller carries
//! that out (leaves, changes directory) and reports usage errors on standard error.
use vstd::prelude::*;

verus! {

/// What a builtin asks for.
pub enum Effect {
    /// End the shell with this exit status.
    Terminate(i32),
    /// Change the working directory to this path.
    ChangeDirectory(String),
    /// Change the working directory to `$HOME` (an error when it is unset).
    ChangeToHome,
    /// Done, with this status.
    Status(i32),
    /// Too many arguments: reported on standard error, with status 1.
    TooManyArguments,
}

/// What an [`Effect`] holds.
pub enum EffectView {
    Terminate(i32),
    ChangeDirectory(Seq<char>),
    ChangeToHome,
    Status(i32),
    TooManyArguments,
}

impl View for Effect {
    type V = EffectView;

    open spec fn view(&self) -> EffectView {
        match self {
            Effect::Terminate(c) => EffectView::Terminate(*c),
            Effect::ChangeDirectory(p) => EffectView::ChangeDirectory(p@),
            Effect::ChangeToHome => EffectView::ChangeToHome,
            Effect::Status(c) => EffectView::Status(*c),
            Effect::TooManyArguments => EffectView::TooManyArguments,
        }
    }
}

/// Whether `c` is an ASCII decimal digit.
pub open spec fn is_digit(c: char) -> bool {
    48 <= (c as u32) <= 57
}

/// One or more digits and nothing else.
pub open spec fn all_digits(s: Seq<char>) -> bool {
    s.len() > 0 && forall|i: int| 0 <= i < s.len() ==> is_digit(#[trigger] s[i])
}

/// The value of a run of digits.
pub open spec fn digits_value(s: Seq<char>) -> int
    decreases s.len(),
{
    if s.len() == 0 {
        0
    } else {
        digits_value(s.drop_last()) * 10 + ((s.last() as u32) - 48)
    }
}

/// `s` as an `i32` in the syntax `str::parse` accepts: an optional `+` or `-`,
/// then one or more ASCII digits, with a value that fits.
pub open spec fn parsed_i32(s: Seq<char>) -> Option<i32> {
    let signed = s.len() > 0 && (s[0] == '-' || s[0] == '+');
    let body = if signed {
        s.drop_first()
    } else {
        s
    };
    let v = if s.len() > 0 && s[0] == '-' {
        -digits_value(body)
    } else {
        digits_value(body)
    };
    if all_digits(body) && i32::MIN <= v <= i32::MAX {
        Option::Some(v as i32)
    } else {
        Option::None
    }
}

proof fn lemma_digits_value_grows(s: Seq<char>, k: int)
    requires
        0 <= k <= s.len(),
        forall|i: int| 0 <= i < s.len() ==> is_digit(#[trigger] s[i]),
    ensures
        digits_value(s) >= digits_value(s.subrange(0, k)) >= 0,
    decreases s.len(),
{
    if s.len() > 0 {
        let init = s.drop_last();
        assert forall|i: int| 0 <= i < init.len() implies is_digit(#[trigger] init[i]) by {
            assert(init[i] == s[i]);
        }
        assert(is_digit(s[s.len() - 1]));
        if k == s.len() {
            assert(s.subrange(0, k) =~= s);
            lemma_digits_value_grows(init, init.len() as int);
        } else {
            lemma_digits_value_grows(init, k);
            assert(init.subrange(0, k) =~= s.subrange(0, k));
        }
    } else {
        assert(s.subrange(0, k) =~= s);
    }
}

/// Parses an exit code (see [`parsed_i32`]).
pub fn parse_code(s: &str) -> (r: Option<i32>)
    ensures
        r == parsed_i32(s@),
{
    let n = s.unicode_len();
    if n == 0 {
        return None;
    }
    let first = s.get_char(0);
    let negative = first == '-';
    let start: usize = if first == '-' || first == '+' {
        1
    } else {
        0
    };
    let ghost body = s@.subrange(start as int, n as int);
    proof {
        if start == 1 {
            assert(body =~= s@.drop_first());
        } else {
            assert(body =~= s@);
        }
    }
    if start == n {
        return None;
    }
    let mut v: u64 = 0;
    let mut i: usize = start;
    while i < n
        invariant
            n == s@.len(),
            start <= i <= n,
            body == s@.subrange(start as int, n as int),
            n > 0,
            negative == (s@[0] == '-'),
            (s@[0] == '-' || s@[0] == '+') ==> body == s@.drop_first(),
            !(s@[0] == '-' || s@[0] == '+') ==> body == s@,
            forall|k: int| start <= k < i ==> is_digit(#[trigger] s@[k]),
            v == digits_value(body.subrange(0, i - start)),
            v <= 2147483648,
        decreases n - i,
    {
        let c = s.get_char(i);
        let d = c as u32;
        if d < 48 || d > 57 {
            proof {
                assert(body[i - start] == c);
                assert(!is_digit(body[i - start]));
                assert(!all_digits(body));
            }
            return None;
        }
        let next = v * 10 + (d - 48) as u64;
        proof {
            let pre = body.subrange(0, i - start);
            let cur = body.subrange(0, i + 1 - start);
            assert(cur.drop_last() =~= pre);
            assert(cur.last() == c);
        }
        if next > 2147483648 {
            proof {
                let cur = body.subrange(0, i + 1 - start);
                assert(digits_value(cur) == v * 10 + (d - 48));
                if all_digits(body) {
                    lemma_digits_value_grows(body, i + 1 - start);
                    assert(digits_value(body) > 2147483648);
                }
            }
            return None;
        }
        v = next;
        i += 1;
    }
    proof {
        assert(body.subrange(0, n - start) =~= body);
        assert forall|k: int| 0 <= k < body.len() implies is_digit(#[trigger] body[k]) by {
            assert(body[k] == s@[k + start]);
        }
    }
    if negative {
        Some((0i64 - v as i64) as i32)
    } else if v <= 2147483647 {
        Some(v as i32)
    } else {
        None
    }
}

/// A builtin: `argv[0]` is the name it was invoked by.
pub trait Builtin {
    /// What running the builtin with `argv` asks for.
    fn run(argv: &Vec<String>) -> (r: Effect)
        requires
            argv@.len() >= 1,
    ;
}

/// `exit [code]`: ends the shell.
pub struct Exit;

/// `cd [path]`: changes the working directory.
pub struct Cd;

/// `:`: does nothing and succeeds.
pub struct Null;

/// What `exit` asks for: status 0 with no argument; the code when it parses as an
/// `i32`, 2 when it does not; a usage error with more than one argument.
pub open spec fn exit_effect(argv: Seq<Seq<char>>) -> EffectView {
    if argv.len() == 1 {
        EffectView::Terminate(0)
    } else if argv.len() == 2 {
        match parsed_i32(argv[1]) {
            Option::Some(n) => EffectView::Terminate(n),
            Option::None => EffectView::Terminate(2),
        }
    } else {
        EffectView::TooManyArguments
    }
}

/// What `cd` asks for: `$HOME` with no argument, the path given with one, a usage
/// error with more.
pub open spec fn cd_effect(argv: Seq<Seq<char>>) -> EffectView {
    if argv.len() == 1 {
        EffectView::ChangeToHome
    } else if argv.len() == 2 {
        EffectView::ChangeDirectory(argv[1])
    } else {
        EffectView::TooManyArguments
    }
}

impl Builtin for Exit {
    fn run(argv: &Vec<String>) -> (r: Effect)
        ensures
            r@ == exit_effect(argv@.map_values(|a: String| a@)),
    {
        let ghost args = argv@.map_values(|a: String| a@);
        if argv.len() == 1 {
            Effect::Terminate(0)
        } else if argv.len() == 2 {
            assert(args[1] == argv@[1]@);
            match parse_code(argv[1].as_str()) {
                Some(n) => Effect::Terminate(n),
                None => Effect::Terminate(2),
            }
        } else {
            Effect::TooManyArguments
        }
    }
}

impl Builtin for Cd {
    fn run(argv: &Vec<String>) -> (r: Effect)
        ensures
            r@ == cd_effect(argv@.map_values(|a: String| a@)),
    {
        let ghost args = argv@.map_values(|a: String| a@);
        if argv.len() == 1 {
            Effect::ChangeToHome
        } else if argv.len() == 2 {
            assert(args[1] == argv@[1]@);
            Effect::ChangeDirectory(argv[1].clone())
        } else {
            Effect::TooManyArguments
        }
    }
}

impl Builtin for Null {
    fn run(argv: &Vec<String>) -> (r: Effect)
        ensures
            r@ == EffectView::Status(0),
    {
        Effect::Status(0)
    }
}

} // verus!
