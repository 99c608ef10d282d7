//! Completion of the text before the cursor: executables first, then paths.
//!
//! The engine works on a snapshot of the file system that the caller reads:
//! the entries of every directory on the search path, and the entries of the
//! directory that a trailing path names (see [`path_directory`]). A result
//! depends on the set of matching names only, never on the order in which the
//! directories were walked; several candidates come in code point order.
use vstd::prelude::*;

use crate::sorted::{insert_sorted, lemma_sorted_unique, strictly_sorted, views};
use crate::text::{
    common_prefix, common_prefix_of, is_prefix, lemma_common_prefix, lemma_common_prefix_longest,
    starts_with,
};

use vstd::string::StrSliceExecFns;
use vstd::string::StringExecFns;

verus! {

/// One entry of a directory listing.
pub struct FileEntry {
    pub name: String,
    /// A regular file that someone may execute.
    pub executable: bool,
    pub directory: bool,
}

impl FileEntry {
    pub open spec fn name_view(&self) -> Seq<char> {
        self.name@
    }
}

/// The result of a query for text completion.
pub enum Completion {
    /// Nothing completes the text.
    NoMatch,
    /// Several values complete the text: their longest common prefix, and all of them.
    Partial(String, Vec<String>),
    /// A single value completes the text.
    Complete(String),
}

/// What a [`Completion`] holds, as character sequences.
pub enum Outcome {
    NoMatch,
    Partial(Seq<char>, Seq<Seq<char>>),
    Complete(Seq<char>),
}

impl View for Completion {
    type V = Outcome;

    open spec fn view(&self) -> Outcome {
        match self {
            Completion::NoMatch => Outcome::NoMatch,
            Completion::Partial(p, c) => Outcome::Partial(p@, views(c@)),
            Completion::Complete(s) => Outcome::Complete(s@),
        }
    }
}

/// The longest prefix that all of `cs` share (empty when `cs` is).
pub open spec fn prefix_of_all(cs: Seq<Seq<char>>) -> Seq<char>
    decreases cs.len(),
{
    if cs.len() == 0 {
        Seq::empty()
    } else if cs.len() == 1 {
        cs[0]
    } else {
        common_prefix(prefix_of_all(cs.drop_last()), cs.last())
    }
}

/// `o` is the completion for the set `s` of matching values.
pub open spec fn result_for(o: Outcome, s: Set<Seq<char>>) -> bool {
    match o {
        Outcome::NoMatch => s == Set::<Seq<char>>::empty(),
        Outcome::Complete(x) => s == set![x],
        Outcome::Partial(p, cs) => cs.len() >= 2 && strictly_sorted(cs) && cs.to_set() == s && p
            == prefix_of_all(cs),
    }
}

/// Executables on the search path whose name starts with `token`.
pub open spec fn executable_matches(token: Seq<char>, entries: Seq<FileEntry>) -> Set<Seq<char>> {
    Set::new(
        |n: Seq<char>|
            exists|i: int|
                0 <= i < entries.len() && entries[i].executable && #[trigger] entries[i].name_view()
                    == n && is_prefix(token, n),
    )
}

/// Index just past the last `/` or space of `t` (0 when there is none): where the
/// partial file name at the end of `t` starts.
pub open spec fn tail_start(t: Seq<char>) -> nat
    decreases t.len(),
{
    if t.len() == 0 {
        0
    } else if t.last() == '/' || t.last() == ' ' {
        t.len()
    } else {
        tail_start(t.drop_last())
    }
}

/// Index just past the last space of `t` (0 when there is none).
pub open spec fn word_start(t: Seq<char>) -> nat
    decreases t.len(),
{
    if t.len() == 0 {
        0
    } else if t.last() == ' ' {
        t.len()
    } else {
        word_start(t.drop_last())
    }
}

/// The text before the partial file name.
pub open spec fn path_head(t: Seq<char>) -> Seq<char> {
    t.subrange(0, tail_start(t) as int)
}

/// The partial file name at the end of `t`.
pub open spec fn path_tail(t: Seq<char>) -> Seq<char> {
    t.subrange(tail_start(t) as int, t.len() as int)
}

/// The directory whose entries complete the partial file name at the end of `t`:
/// the part of the last word before its last `/` (empty for the current directory).
pub open spec fn path_dir(t: Seq<char>) -> Seq<char> {
    path_head(t).subrange(word_start(path_head(t)) as int, path_head(t).len() as int)
}

/// The text `t` completed by entry `e`: directories get a trailing `/`.
pub open spec fn completed_path(t: Seq<char>, e: FileEntry) -> Seq<char> {
    path_head(t) + e.name_view() + if e.directory {
        seq!['/']
    } else {
        Seq::empty()
    }
}

/// Completions of the partial file name at the end of `t` by the entries of its directory.
pub open spec fn path_matches(t: Seq<char>, listing: Seq<FileEntry>) -> Set<Seq<char>> {
    Set::new(
        |c: Seq<char>|
            exists|i: int|
                0 <= i < listing.len() && is_prefix(path_tail(t), #[trigger] listing[i].name_view())
                    && c == completed_path(t, listing[i]),
    )
}

/// What completing `t` gives: executables when some match, paths otherwise.
pub open spec fn completion_result(
    t: Seq<char>,
    executables: Seq<FileEntry>,
    listing: Seq<FileEntry>,
    o: Outcome,
) -> bool {
    if executable_matches(t, executables) == Set::<Seq<char>>::empty() {
        result_for(o, path_matches(t, listing))
    } else {
        result_for(o, executable_matches(t, executables))
    }
}

/// The shared prefix of several candidates starts each of them, and every prefix
/// that they all start with starts it too: it is the longest common prefix.
pub proof fn lemma_prefix_of_all(cs: Seq<Seq<char>>, p: Seq<char>)
    requires
        cs.len() > 0,
    ensures
        forall|i: int| 0 <= i < cs.len() ==> is_prefix(prefix_of_all(cs), #[trigger] cs[i]),
        (forall|i: int| 0 <= i < cs.len() ==> is_prefix(p, #[trigger] cs[i])) ==> is_prefix(
            p,
            prefix_of_all(cs),
        ),
    decreases cs.len(),
{
    if cs.len() > 1 {
        let init = cs.drop_last();
        lemma_prefix_of_all(init, p);
        let q = prefix_of_all(init);
        lemma_common_prefix(q, cs.last());
        let r = prefix_of_all(cs);
        assert forall|i: int| 0 <= i < cs.len() implies is_prefix(r, #[trigger] cs[i]) by {
            if i < cs.len() - 1 {
                assert(init[i] == cs[i]);
                assert(is_prefix(q, cs[i]));
                assert(q.subrange(0, r.len() as int) == r);
                assert(cs[i].subrange(0, r.len() as int) =~= q.subrange(0, r.len() as int));
            }
        }
        if forall|i: int| 0 <= i < cs.len() ==> is_prefix(p, #[trigger] cs[i]) {
            assert forall|i: int| 0 <= i < init.len() implies is_prefix(p, #[trigger] init[i]) by {
                assert(init[i] == cs[i]);
            }
            assert(is_prefix(p, cs[cs.len() - 1]));
            lemma_common_prefix_longest(p, q, cs.last());
        }
    } else {
        assert(cs[0].subrange(0, cs[0].len() as int) =~= cs[0]);
    }
}

/// Completing the same text against two snapshots that hold the same entries, in
/// whatever order and however often, gives the same result.
pub proof fn lemma_completion_deterministic(
    t: Seq<char>,
    executables1: Seq<FileEntry>,
    listing1: Seq<FileEntry>,
    executables2: Seq<FileEntry>,
    listing2: Seq<FileEntry>,
    o1: Outcome,
    o2: Outcome,
)
    requires
        executables1.to_set() == executables2.to_set(),
        listing1.to_set() == listing2.to_set(),
        completion_result(t, executables1, listing1, o1),
        completion_result(t, executables2, listing2, o2),
    ensures
        o1 == o2,
{
    lemma_same_entries(t, executables1, executables2);
    lemma_same_entries(t, executables2, executables1);
    lemma_same_listing(t, listing1, listing2);
    lemma_same_listing(t, listing2, listing1);
    assert(executable_matches(t, executables1) =~= executable_matches(t, executables2));
    assert(path_matches(t, listing1) =~= path_matches(t, listing2));
    if executable_matches(t, executables1) == Set::<Seq<char>>::empty() {
        lemma_result_unique(o1, o2, path_matches(t, listing1));
    } else {
        lemma_result_unique(o1, o2, executable_matches(t, executables1));
    }
}

proof fn lemma_same_entries(t: Seq<char>, a: Seq<FileEntry>, b: Seq<FileEntry>)
    requires
        a.to_set() == b.to_set(),
    ensures
        forall|n: Seq<char>| #[trigger]
            executable_matches(t, a).contains(n) ==> executable_matches(t, b).contains(n),
{
    assert forall|n: Seq<char>| #[trigger] executable_matches(t, a).contains(n) implies executable_matches(
        t,
        b,
    ).contains(n) by {
        let i = choose|i: int|
            0 <= i < a.len() && a[i].executable && #[trigger] a[i].name_view() == n && is_prefix(t, n);
        assert(a.to_set().contains(a[i]));
        let k = choose|k: int| 0 <= k < b.len() && b[k] == a[i];
        assert(b[k].name_view() == n);
    }
}

proof fn lemma_same_listing(t: Seq<char>, a: Seq<FileEntry>, b: Seq<FileEntry>)
    requires
        a.to_set() == b.to_set(),
    ensures
        forall|c: Seq<char>| #[trigger] path_matches(t, a).contains(c) ==> path_matches(t, b).contains(c),
{
    assert forall|c: Seq<char>| #[trigger] path_matches(t, a).contains(c) implies path_matches(
        t,
        b,
    ).contains(c) by {
        let i = choose|i: int|
            0 <= i < a.len() && is_prefix(path_tail(t), #[trigger] a[i].name_view()) && c
                == completed_path(t, a[i]);
        assert(a.to_set().contains(a[i]));
        let k = choose|k: int| 0 <= k < b.len() && b[k] == a[i];
        assert(b[k].name_view() == a[i].name_view());
    }
}

/// One set of matches has one completion, whatever order its members were found in.
pub proof fn lemma_result_unique(o1: Outcome, o2: Outcome, s: Set<Seq<char>>)
    requires
        result_for(o1, s),
        result_for(o2, s),
    ensures
        o1 == o2,
{
    match (o1, o2) {
        (Outcome::NoMatch, Outcome::Complete(x)) => {
            assert(set![x].contains(x));
        },
        (Outcome::Complete(x), Outcome::NoMatch) => {
            assert(set![x].contains(x));
        },
        (Outcome::Complete(x), Outcome::Complete(y)) => {
            assert(set![x].contains(y));
        },
        (Outcome::NoMatch, Outcome::Partial(_, cs)) => {
            assert(cs.to_set().contains(cs[0]));
        },
        (Outcome::Partial(_, cs), Outcome::NoMatch) => {
            assert(cs.to_set().contains(cs[0]));
        },
        (Outcome::Complete(x), Outcome::Partial(_, cs)) => {
            partial_has_two(cs);
        },
        (Outcome::Partial(_, cs), Outcome::Complete(x)) => {
            partial_has_two(cs);
        },
        (Outcome::Partial(_, a), Outcome::Partial(_, b)) => {
            lemma_sorted_unique(a, b);
        },
        _ => {},
    }
}

/// A strictly sorted sequence of two or more holds two different members.
proof fn partial_has_two(cs: Seq<Seq<char>>)
    requires
        cs.len() >= 2,
        strictly_sorted(cs),
    ensures
        forall|x: Seq<char>| cs.to_set() != set![x],
{
    assert forall|x: Seq<char>| cs.to_set() != set![x] by {
        if cs.to_set() == set![x] {
            assert(cs.to_set().contains(cs[0]) && cs.to_set().contains(cs[1]));
            assert(crate::text::lex_lt(cs[0], cs[1]));
            crate::text::lemma_lex_lt_irreflexive(x);
        }
    }
}

impl Completion {
    /// Returns true if this completion is a single option.
    pub fn is_complete(&self) -> (r: bool)
        ensures
            r == (self@ is Complete),
    {
        match self {
            Completion::NoMatch | Completion::Partial(_, _) => false,
            Completion::Complete(_) => true,
        }
    }

    /// The single option, or the first of several (in code point order); empty when
    /// there is none.
    pub fn first(&self) -> (r: String)
        ensures
            r@ == match self@ {
                Outcome::NoMatch => Seq::empty(),
                Outcome::Partial(_, cs) => if cs.len() > 0 {
                    cs[0]
                } else {
                    Seq::empty()
                },
                Outcome::Complete(s) => s,
            },
    {
        match self {
            Completion::NoMatch => String::new(),
            Completion::Partial(_, p) => {
                if p.len() > 0 {
                    p[0].clone()
                } else {
                    String::new()
                }
            },
            Completion::Complete(s) => s.clone(),
        }
    }

    /// All the values that complete the text.
    pub fn possibilities(&self) -> (r: Vec<String>)
        ensures
            views(r@) == match self@ {
                Outcome::NoMatch => Seq::empty(),
                Outcome::Partial(_, cs) => cs,
                Outcome::Complete(s) => seq![s],
            },
    {
        match self {
            Completion::NoMatch => Vec::new(),
            Completion::Partial(_, p) => {
                let mut r: Vec<String> = Vec::new();
                let mut i: usize = 0;
                while i < p.len()
                    invariant
                        i <= p@.len(),
                        r@.len() == i,
                        views(r@) == views(p@).subrange(0, i as int),
                    decreases p.len() - i,
                {
                    let c = p[i].clone();
                    r.push(c);
                    i += 1;
                    assert(views(r@) =~= views(p@).subrange(0, i as int));
                }
                assert(views(p@).subrange(0, i as int) =~= views(p@));
                r
            },
            Completion::Complete(s) => {
                let r = vec![s.clone()];
                assert(views(r@) =~= seq![s@]);
                r
            },
        }
    }
}

/// The completion for the strictly sorted values `cs`.
fn result_of(cs: Vec<String>) -> (r: Completion)
    requires
        strictly_sorted(views(cs@)),
    ensures
        result_for(r@, views(cs@).to_set()),
{
    let ghost s = views(cs@);
    if cs.len() == 0 {
        assert(s.to_set() =~= Set::<Seq<char>>::empty());
        Completion::NoMatch
    } else if cs.len() == 1 {
        assert(s.to_set() =~= set![s[0]]);
        Completion::Complete(cs[0].clone())
    } else {
        let mut acc = cs[0].clone();
        let mut i: usize = 1;
        while i < cs.len()
            invariant
                s == views(cs@),
                1 <= i <= cs@.len(),
                acc@ == prefix_of_all(s.subrange(0, i as int)),
            decreases cs.len() - i,
        {
            let ghost before = s.subrange(0, i as int);
            acc = common_prefix_of(acc.as_str(), cs[i].as_str());
            i += 1;
            assert(s.subrange(0, i as int).drop_last() =~= before);
        }
        assert(s.subrange(0, i as int) =~= s);
        Completion::Partial(acc, cs)
    }
}

/// Completes `text` by executables: the names of the executable `entries` (every file
/// of every directory on the search path) that start with `text`.
pub fn complete_executable(text: &str, entries: &Vec<FileEntry>) -> (r: Completion)
    ensures
        result_for(r@, executable_matches(text@, entries@)),
{
    let mut found: Vec<String> = Vec::new();
    let mut i: usize = 0;
    while i < entries.len()
        invariant
            i <= entries@.len(),
            strictly_sorted(views(found@)),
            views(found@).to_set() == executable_matches(text@, entries@.subrange(0, i as int)),
        decreases entries.len() - i,
    {
        let e = &entries[i];
        let ghost before = views(found@).to_set();
        if e.executable && starts_with(e.name.as_str(), text) {
            insert_sorted(&mut found, e.name.clone());
        }
        i += 1;
        proof {
            let sub = entries@.subrange(0, i as int);
            let prev = entries@.subrange(0, i - 1);
            let now = views(found@).to_set();
            let hit = entries@[i - 1].executable && is_prefix(text@, entries@[i - 1].name@);
            assert(sub[i - 1] == entries@[i - 1]);
            assert(hit ==> now == before.insert(entries@[i - 1].name@));
            assert(!hit ==> now == before);
            assert forall|n: Seq<char>| executable_matches(text@, sub).contains(n) implies now.contains(
                n,
            ) by {
                let k = choose|k: int|
                    0 <= k < sub.len() && sub[k].executable && #[trigger] sub[k].name_view() == n
                        && is_prefix(text@, n);
                if k < i - 1 {
                    assert(prev[k] == sub[k]);
                    assert(executable_matches(text@, prev).contains(n));
                }
            }
            assert forall|n: Seq<char>| now.contains(n) implies executable_matches(
                text@,
                sub,
            ).contains(n) by {
                if before.contains(n) {
                    let k = choose|k: int|
                        0 <= k < prev.len() && prev[k].executable && #[trigger] prev[k].name_view()
                            == n && is_prefix(text@, n);
                    assert(sub[k] == prev[k]);
                    assert(sub[k].name_view() == n);
                } else {
                    assert(sub[i - 1].name_view() == n);
                }
            }
            assert(executable_matches(text@, sub) =~= now);
        }
    }
    assert(entries@.subrange(0, i as int) =~= entries@);
    result_of(found)
}

/// Where the partial file name at the end of `text` starts.
fn tail_start_of(text: &str) -> (r: usize)
    ensures
        r == tail_start(text@),
        r <= text@.len(),
{
    let n = text.unicode_len();
    let mut r: usize = 0;
    let mut i: usize = 0;
    while i < n
        invariant
            n == text@.len(),
            i <= n,
            r <= i,
            r == tail_start(text@.subrange(0, i as int)),
        decreases n - i,
    {
        let c = text.get_char(i);
        assert(text@.subrange(0, i + 1).drop_last() =~= text@.subrange(0, i as int));
        i += 1;
        if c == '/' || c == ' ' {
            r = i;
        }
    }
    assert(text@.subrange(0, n as int) =~= text@);
    r
}

/// Where the last word of `text` starts.
fn word_start_of(text: &str) -> (r: usize)
    ensures
        r == word_start(text@),
        r <= text@.len(),
{
    let n = text.unicode_len();
    let mut r: usize = 0;
    let mut i: usize = 0;
    while i < n
        invariant
            n == text@.len(),
            i <= n,
            r <= i,
            r == word_start(text@.subrange(0, i as int)),
        decreases n - i,
    {
        let c = text.get_char(i);
        assert(text@.subrange(0, i + 1).drop_last() =~= text@.subrange(0, i as int));
        i += 1;
        if c == ' ' {
            r = i;
        }
    }
    assert(text@.subrange(0, n as int) =~= text@);
    r
}

/// The directory whose entries complete the file name at the end of `text`; empty
/// for the current directory. `"ls /usr/b"` gives `"/usr/"`.
pub fn path_directory(text: &str) -> (r: String)
    ensures
        r@ == path_dir(text@),
{
    let ts = tail_start_of(text);
    let head = text.substring_char(0, ts);
    let ws = word_start_of(head);
    String::from_str(head.substring_char(ws, ts))
}

/// Completes the file name at the end of `text` by the entries of its directory
/// (`listing`, the entries of [`path_directory`]); the rest of `text` is kept.
pub fn complete_path(text: &str, listing: &Vec<FileEntry>) -> (r: Completion)
    ensures
        result_for(r@, path_matches(text@, listing@)),
{
    let n = text.unicode_len();
    let ts = tail_start_of(text);
    let head = text.substring_char(0, ts);
    let tail = text.substring_char(ts, n);
    let slash = "/";
    proof {
        reveal_strlit("/");
    }
    let mut found: Vec<String> = Vec::new();
    let mut i: usize = 0;
    while i < listing.len()
        invariant
            i <= listing@.len(),
            head@ == path_head(text@),
            tail@ == path_tail(text@),
            slash@ == seq!['/'],
            strictly_sorted(views(found@)),
            views(found@).to_set() == path_matches(text@, listing@.subrange(0, i as int)),
        decreases listing.len() - i,
    {
        let e = &listing[i];
        let ghost before = views(found@).to_set();
        let ghost full = completed_path(text@, *e);
        if starts_with(e.name.as_str(), tail) {
            let mut c = String::from_str(head);
            c.append(e.name.as_str());
            if e.directory {
                c.append(slash);
            }
            assert(c@ =~= full);
            insert_sorted(&mut found, c);
        }
        i += 1;
        proof {
            let sub = listing@.subrange(0, i as int);
            let prev = listing@.subrange(0, i - 1);
            let now = views(found@).to_set();
            let hit = is_prefix(path_tail(text@), listing@[i - 1].name@);
            assert(sub[i - 1] == listing@[i - 1]);
            assert(hit ==> now == before.insert(full));
            assert(!hit ==> now == before);
            assert forall|x: Seq<char>| path_matches(text@, sub).contains(x) implies now.contains(
                x,
            ) by {
                let k = choose|k: int|
                    0 <= k < sub.len() && is_prefix(path_tail(text@), #[trigger] sub[k].name_view())
                        && x == completed_path(text@, sub[k]);
                if k < i - 1 {
                    assert(prev[k] == sub[k]);
                    assert(prev[k].name_view() == sub[k].name_view());
                    assert(path_matches(text@, prev).contains(x));
                }
            }
            assert forall|x: Seq<char>| now.contains(x) implies path_matches(text@, sub).contains(
                x,
            ) by {
                if before.contains(x) {
                    let k = choose|k: int|
                        0 <= k < prev.len() && is_prefix(
                            path_tail(text@),
                            #[trigger] prev[k].name_view(),
                        ) && x == completed_path(text@, prev[k]);
                    assert(sub[k] == prev[k]);
                    assert(sub[k].name_view() == prev[k].name_view());
                } else {
                    assert(sub[i - 1].name_view() == listing@[i - 1].name@);
                }
            }
            assert(path_matches(text@, sub) =~= now);
        }
    }
    assert(listing@.subrange(0, i as int) =~= listing@);
    result_of(found)
}

/// Completes `text`: by the executables of the search path (`executables`: every
/// entry of every directory on it) when some start with `text`, otherwise by the
/// entries of the directory that the trailing path names (`listing`).
pub fn complete(text: &str, executables: &Vec<FileEntry>, listing: &Vec<FileEntry>) -> (r:
    Completion)
    ensures
        completion_result(text@, executables@, listing@, r@),
{
    let c = complete_executable(text, executables);
    let ghost found = executable_matches(text@, executables@);
    match c {
        Completion::NoMatch => complete_path(text, listing),
        _ => {
            proof {
                match c@ {
                    Outcome::Complete(x) => assert(found.contains(x)),
                    Outcome::Partial(_, cs) => assert(found.contains(cs[0])),
                    _ => {},
                }
            }
            c
        },
    }
}

} // verus!
