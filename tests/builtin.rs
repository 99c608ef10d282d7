use oursh::builtin::{parse_code, Builtin, Cd, Effect, Exit, Null};

fn argv(words: &[&str]) -> Vec<String> {
    words.iter().map(|w| w.to_string()).collect()
}

fn terminates_with(e: Effect) -> Option<i32> {
    match e {
        Effect::Terminate(c) => Some(c),
        _ => None,
    }
}

#[test]
fn builtins() {
    assert!(matches!(Null::run(&argv(&[":"])), Effect::Status(0)));
    match Cd::run(&argv(&["cd", "/"])) {
        Effect::ChangeDirectory(p) => assert_eq!("/", p),
        _ => panic!("cd did not change directory"),
    }
    assert_eq!(Some(0), terminates_with(Exit::run(&argv(&["exit"]))));
    let code = terminates_with(Exit::run(&argv(&["exit", "1"])));
    assert_eq!(Some(1), code);
    assert_ne!(Some(0), code);
}

#[test]
fn exit_with_bad_code_uses_two() {
    assert_eq!(Some(2), terminates_with(Exit::run(&argv(&["exit", "abc"]))));
    assert_eq!(Some(2), terminates_with(Exit::run(&argv(&["exit", ""]))));
    assert_eq!(Some(2), terminates_with(Exit::run(&argv(&["exit", "2147483648"]))));
}

#[test]
fn exit_with_too_many_arguments() {
    assert!(matches!(Exit::run(&argv(&["exit", "1", "2"])), Effect::TooManyArguments));
}

#[test]
fn cd_without_argument_goes_home() {
    assert!(matches!(Cd::run(&argv(&["cd"])), Effect::ChangeToHome));
    assert!(matches!(Cd::run(&argv(&["cd", "a", "b"])), Effect::TooManyArguments));
}

#[test]
fn codes_parse_like_i32() {
    for s in ["0", "7", "+7", "-7", "0042", "2147483647", "-2147483648", "2147483648", "-", "+", "", "1a", " 1", "99999999999"] {
        assert_eq!(s.parse::<i32>().ok(), parse_code(s), "{}", s);
    }
}
