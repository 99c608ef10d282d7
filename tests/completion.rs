use oursh::completion::{complete, complete_executable, complete_path, path_directory, Completion, FileEntry};

fn exe(name: &str) -> FileEntry {
    FileEntry { name: name.to_string(), executable: true, directory: false }
}

fn file(name: &str) -> FileEntry {
    FileEntry { name: name.to_string(), executable: false, directory: false }
}

fn dir(name: &str) -> FileEntry {
    FileEntry { name: name.to_string(), executable: false, directory: true }
}

fn search_path() -> Vec<FileEntry> {
    vec![
        exe("cat"),
        exe("cargo-fmt"),
        exe("cargo"),
        exe("cargo-clippy"),
        exe("ls"),
        exe("ln"),
        exe("pwd"),
        file("carrot"),
        exe("cargo"),
    ]
}

fn root() -> Vec<FileEntry> {
    vec![dir("usr"), dir("home"), dir("bin"), file("hosts"), dir("etc")]
}

fn usr() -> Vec<FileEntry> {
    vec![dir("lib"), dir("bin"), dir("share"), dir("include")]
}

#[test]
fn lexicographical_order() {
    assert_eq!("cargo", complete("car", &search_path(), &vec![]).first());
}

#[test]
fn paths() {
    assert_eq!("/home/", complete("/hom", &search_path(), &root()).first());
    assert_eq!("/usr/bin/", complete("/usr/b", &search_path(), &usr()).first());
    assert_eq!("ls /home/", complete("ls /hom", &search_path(), &root()).first());
}

#[test]
fn single_executable_is_complete() {
    let c = complete("pw", &search_path(), &vec![]);
    assert!(c.is_complete());
    assert_eq!("pwd", c.first());
    assert_eq!(vec!["pwd".to_string()], c.possibilities());
}

#[test]
fn two_candidates_share_their_prefix() {
    let c = complete_executable("l", &vec![exe("ls"), exe("ln")]);
    assert!(!c.is_complete());
    match &c {
        Completion::Partial(prefix, all) => {
            assert_eq!("l", prefix);
            assert_eq!(&vec!["ln".to_string(), "ls".to_string()], all);
        }
        _ => panic!("expected several candidates"),
    }
    assert_eq!("ln", c.first());
}

#[test]
fn candidates_are_sorted_and_distinct() {
    let c = complete("car", &search_path(), &vec![]);
    assert_eq!(
        vec!["cargo".to_string(), "cargo-clippy".to_string(), "cargo-fmt".to_string()],
        c.possibilities()
    );
    match &c {
        Completion::Partial(prefix, _) => assert_eq!("cargo", prefix),
        _ => panic!("expected several candidates"),
    }
}

#[test]
fn files_that_cannot_run_are_not_executables() {
    let c = complete_executable("carr", &search_path());
    assert!(matches!(c, Completion::NoMatch));
    assert_eq!("", c.first());
    assert!(c.possibilities().is_empty());
}

#[test]
fn same_snapshot_same_result() {
    let a = complete("ca", &search_path(), &vec![]);
    let b = complete("ca", &search_path(), &vec![]);
    assert_eq!(a.possibilities(), b.possibilities());
    assert_eq!(a.first(), b.first());
    let mut reversed = search_path();
    reversed.reverse();
    let c = complete("ca", &reversed, &vec![]);
    assert_eq!(a.possibilities(), c.possibilities());
}

#[test]
fn executables_come_before_paths() {
    let c = complete("l", &search_path(), &vec![dir("lib")]);
    assert_eq!(vec!["ln".to_string(), "ls".to_string()], c.possibilities());
}

#[test]
fn path_candidates_keep_the_text_before_them() {
    let c = complete_path("cd /usr/", &usr());
    assert_eq!(
        vec![
            "cd /usr/bin/".to_string(),
            "cd /usr/include/".to_string(),
            "cd /usr/lib/".to_string(),
            "cd /usr/share/".to_string()
        ],
        c.possibilities()
    );
    match &c {
        Completion::Partial(prefix, _) => assert_eq!("cd /usr/", prefix),
        _ => panic!("expected several candidates"),
    }
    let h = complete_path("cat ho", &root());
    assert_eq!(vec!["cat home/".to_string(), "cat hosts".to_string()], h.possibilities());
    match &h {
        Completion::Partial(prefix, _) => assert_eq!("cat ho", prefix),
        _ => panic!("expected several candidates"),
    }
}

#[test]
fn no_path_matches() {
    assert!(matches!(complete("/xyz", &search_path(), &root()), Completion::NoMatch));
}

#[test]
fn directory_to_list() {
    assert_eq!("/usr/", path_directory("ls /usr/b"));
    assert_eq!("/", path_directory("/hom"));
    assert_eq!("", path_directory("ls fo"));
    assert_eq!("src/", path_directory("vi src/li"));
    assert_eq!("", path_directory(""));
}
