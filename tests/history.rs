use oursh::history::History;

fn texts(h: &History) -> Vec<String> {
    h.texts()
}

#[test]
fn adding_counts_and_moves_to_front() {
    let mut h = History::new();
    h.add("ls");
    h.add("pwd");
    h.add("ls");
    h.add("");
    h.add("cd /");
    h.add("ls");
    assert_eq!(vec!["ls", "cd /", "pwd"], texts(&h));
    assert_eq!(3, h.count("ls"));
    assert_eq!(1, h.count("pwd"));
    assert_eq!(1, h.count("cd /"));
    assert_eq!(0, h.count("echo"));
    assert_eq!(3, h.len());
}

#[test]
fn empty_text_is_not_added() {
    let mut h = History::new();
    h.add("");
    assert_eq!(0, h.len());
}

#[test]
fn navigation_walks_back_and_forth() {
    let mut h = History::from_text("c\nb\na\n");
    assert_eq!(None, h.index());
    assert_eq!(Some("c".to_string()), h.navigate_up());
    assert_eq!(Some(0), h.index());
    assert_eq!(Some("b".to_string()), h.navigate_up());
    assert_eq!(Some(1), h.index());
    assert_eq!(Some("a".to_string()), h.navigate_up());
    assert_eq!(Some(2), h.index());
    assert_eq!(Some("a".to_string()), h.navigate_up());
    assert_eq!(Some(2), h.index());
    assert_eq!(Some("b".to_string()), h.navigate_down());
    assert_eq!(Some("c".to_string()), h.navigate_down());
    assert_eq!(None, h.navigate_down());
    assert_eq!(None, h.index());
    assert_eq!(None, h.navigate_down());
}

#[test]
fn navigation_on_empty_history() {
    let mut h = History::new();
    assert_eq!(None, h.navigate_up());
    assert_eq!(None, h.index());
    assert_eq!(None, h.navigate_down());
}

#[test]
fn reset_ends_navigation() {
    let mut h = History::from_text("x\ny\n");
    h.navigate_up();
    h.navigate_up();
    h.reset_index();
    assert_eq!(None, h.index());
    assert_eq!(Some("x".to_string()), h.navigate_up());
}

#[test]
fn save_then_load_keeps_order() {
    let mut h = History::new();
    h.add("make");
    h.add("git status");
    h.add("make");
    h.add("echo hi");
    let saved = h.to_text();
    assert_eq!("echo hi\nmake\ngit status\n", saved);
    let loaded = History::from_text(&saved);
    assert_eq!(texts(&h), texts(&loaded));
    assert_eq!(1, loaded.count("make"));
}

#[test]
fn loading_skips_blank_and_repeated_lines() {
    let h = History::from_text("a\n\nb\na\nc");
    assert_eq!(vec!["a", "b", "c"], texts(&h));
    assert_eq!(None, h.index());
}

#[test]
fn loading_nothing_gives_empty_history() {
    let h = History::from_text("");
    assert_eq!(0, h.len());
    assert_eq!("", h.to_text());
}
