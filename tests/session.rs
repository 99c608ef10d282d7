use oursh::completion::{complete, FileEntry};
use oursh::history::History;
use oursh::session::{Action, Key, Session};

fn fresh() -> Session {
    Session::new(History::new())
}

fn type_text(s: &mut Session, text: &str) {
    for c in text.chars() {
        assert!(matches!(s.handle_key(Key::Char(c)), Action::Redraw));
    }
}

/// Types `text`, presses Enter and returns the line handed over to run.
fn submit(s: &mut Session, text: &str) -> String {
    type_text(s, text);
    match s.handle_key(Key::Enter) {
        Action::Submit(t) => t,
        _ => panic!("Enter did not submit the line"),
    }
}

/// Each line is handed over exactly as typed, and the session is ready for the next.
fn assert_submits(s: &mut Session, text: &str) {
    assert_eq!(text, submit(s, text));
    assert_eq!("", s.line().text());
    assert_eq!(0, s.line().cursor());
    assert_eq!(None, s.history().index());
    assert_eq!(text, s.history().texts()[0]);
}

#[test]
fn it_has_a_test() {}

#[test]
fn hello_world() {
    let mut s = fresh();
    assert_submits(&mut s, "echo hello world");
    assert_eq!(1, s.history().count("echo hello world"));
}

#[test]
fn simple_command() {
    let mut s = fresh();
    assert_submits(&mut s, "head README.md -n 1");
}

#[test]
fn chained_command() {
    let mut s = fresh();
    assert_submits(&mut s, "false; true; echo 1");
}

#[test]
fn single_compound_command() {
    let mut s = fresh();
    assert_submits(&mut s, "{ echo pi; }");
}

#[test]
fn multiple_compound_command() {
    let mut s = fresh();
    assert_submits(&mut s, "{ echo pi; echo e; }");
}

#[test]
fn not_command() {
    let mut s = fresh();
    assert_submits(&mut s, "! true && echo 1");
}

#[test]
fn and_command() {
    let mut s = fresh();
    assert_submits(&mut s, "true && echo 1");
    assert_submits(&mut s, "false && echo 1");
    assert_eq!(vec!["false && echo 1", "true && echo 1"], s.history().texts());
}

#[test]
fn or_command() {
    let mut s = fresh();
    assert_submits(&mut s, "true || echo 1");
    assert_submits(&mut s, "false || echo 1");
    assert_eq!(vec!["false || echo 1", "true || echo 1"], s.history().texts());
}

#[test]
fn cond_command() {
    let mut s = fresh();
    assert_submits(&mut s, "if true; then echo 1; else echo 2; fi");
    assert_submits(&mut s, "if false; then echo 1; else echo 2; fi");
    assert_submits(&mut s, "if false; then echo 1; elif false; then echo 2; else echo 3; fi");
    assert_submits(&mut s, "if false; then echo 1; elif true; then echo 2; else echo 3; fi");
    assert_eq!(4, s.history().len());
}

#[test]
fn subshell_command() {
    let mut s = fresh();
    assert_submits(&mut s, "( true )");
    assert_submits(&mut s, "(echo 1)");
    assert_submits(&mut s, "(false; echo 1)");
}

#[test]
fn single_pipeline_command() {
    let mut s = fresh();
    assert_submits(&mut s, "echo pi | wc -c");
}

#[test]
fn repeated_line_is_counted() {
    let mut s = fresh();
    assert_submits(&mut s, "ls");
    assert_submits(&mut s, "pwd");
    assert_submits(&mut s, "ls");
    assert_eq!(2, s.history().count("ls"));
    assert_eq!(vec!["ls", "pwd"], s.history().texts());
}

#[test]
fn enter_on_empty_line_runs_nothing() {
    let mut s = fresh();
    assert!(matches!(s.handle_key(Key::Enter), Action::NewPrompt));
    assert_eq!(0, s.history().len());
}

#[test]
fn backspace_removes_character_before_cursor() {
    let mut s = fresh();
    type_text(&mut s, "cd");
    assert_eq!(2, s.line().cursor());
    assert!(matches!(s.handle_key(Key::Backspace), Action::Redraw));
    assert_eq!("c", s.line().text());
    assert_eq!(1, s.line().cursor());
}

#[test]
fn backspace_in_the_middle() {
    let mut s = fresh();
    type_text(&mut s, "abc");
    s.handle_key(Key::Left);
    s.handle_key(Key::Backspace);
    assert_eq!("ac", s.line().text());
    assert_eq!(1, s.line().cursor());
}

#[test]
fn backspace_at_start_does_nothing() {
    let mut s = fresh();
    type_text(&mut s, "ab");
    s.handle_key(Key::Home);
    assert!(matches!(s.handle_key(Key::Backspace), Action::Nothing));
    assert_eq!("ab", s.line().text());
    assert_eq!(0, s.line().cursor());
}

#[test]
fn typing_inserts_at_cursor() {
    let mut s = fresh();
    type_text(&mut s, "ech");
    s.handle_key(Key::Left);
    s.handle_key(Key::Left);
    type_text(&mut s, "X");
    assert_eq!("eXch", s.line().text());
    assert_eq!(2, s.line().cursor());
    s.handle_key(Key::End);
    assert_eq!(4, s.line().cursor());
}

#[test]
fn cursor_moves_are_clamped() {
    let mut s = fresh();
    type_text(&mut s, "ab");
    assert!(matches!(s.handle_key(Key::Right), Action::Nothing));
    assert_eq!(2, s.line().cursor());
    assert!(matches!(s.handle_key(Key::Left), Action::MoveCursor));
    assert!(matches!(s.handle_key(Key::Left), Action::MoveCursor));
    assert!(matches!(s.handle_key(Key::Left), Action::Nothing));
    assert_eq!(0, s.line().cursor());
}

#[test]
fn cursor_stays_in_bounds() {
    let mut s = fresh();
    let keys = [
        Key::Char('a'),
        Key::Left,
        Key::Left,
        Key::Backspace,
        Key::Char('b'),
        Key::Right,
        Key::Right,
        Key::Right,
        Key::Backspace,
        Key::Backspace,
        Key::Backspace,
        Key::Home,
        Key::Char('c'),
        Key::End,
        Key::Up,
        Key::Down,
        Key::Other,
    ];
    for k in keys {
        s.handle_key(k);
        assert!(s.line().cursor() <= s.line().len());
    }
    assert_eq!("c", s.line().text());
}

#[test]
fn up_on_empty_history_changes_nothing() {
    let mut s = fresh();
    type_text(&mut s, "ec");
    assert!(matches!(s.handle_key(Key::Up), Action::Nothing));
    assert_eq!("ec", s.line().text());
    assert_eq!(2, s.line().cursor());
}

#[test]
fn up_and_down_recall_lines() {
    let mut s = Session::new(History::from_text("ls -l\ncd\n"));
    assert!(matches!(s.handle_key(Key::Up), Action::Redraw));
    assert_eq!("ls -l", s.line().text());
    assert_eq!(5, s.line().cursor());
    s.handle_key(Key::Up);
    assert_eq!("cd", s.line().text());
    s.handle_key(Key::Up);
    assert_eq!("cd", s.line().text());
    s.handle_key(Key::Down);
    assert_eq!("ls -l", s.line().text());
    assert!(matches!(s.handle_key(Key::Down), Action::Redraw));
    assert_eq!("", s.line().text());
    assert!(matches!(s.handle_key(Key::Down), Action::Nothing));
}

#[test]
fn interrupt_discards_the_line() {
    let mut s = fresh();
    type_text(&mut s, "rm -rf");
    assert!(matches!(s.handle_key(Key::Interrupt), Action::NewPrompt));
    assert_eq!("", s.line().text());
    assert_eq!(0, s.history().len());
}

#[test]
fn quit_and_clear_are_passed_on() {
    let mut s = fresh();
    type_text(&mut s, "x");
    assert!(matches!(s.handle_key(Key::Quit), Action::Quit));
    assert!(matches!(s.handle_key(Key::ClearScreen), Action::ClearScreen));
    assert_eq!("x", s.line().text());
}

#[test]
fn tab_completes_text_before_cursor() {
    let mut s = fresh();
    type_text(&mut s, "car foo");
    for _ in 0..4 {
        s.handle_key(Key::Left);
    }
    let token = match s.handle_key(Key::Tab) {
        Action::Complete(t) => t,
        _ => panic!("Tab did not ask for completion"),
    };
    assert_eq!("car", token);
    let exes = vec![
        FileEntry { name: "cargo".to_string(), executable: true, directory: false },
        FileEntry { name: "cat".to_string(), executable: true, directory: false },
    ];
    let c = complete(&token, &exes, &vec![]);
    assert!(s.apply_completion(&c));
    assert_eq!("cargo foo", s.line().text());
    assert_eq!(5, s.line().cursor());
}

#[test]
fn common_prefix_extends_the_line() {
    let mut s = fresh();
    type_text(&mut s, "ca");
    let exes = vec![
        FileEntry { name: "cargo".to_string(), executable: true, directory: false },
        FileEntry { name: "cargo-fmt".to_string(), executable: true, directory: false },
    ];
    let c = complete("ca", &exes, &vec![]);
    assert!(s.apply_completion(&c));
    assert_eq!("cargo", s.line().text());
    let again = complete("cargo", &exes, &vec![]);
    assert!(!s.apply_completion(&again));
    assert_eq!("cargo", s.line().text());
}
