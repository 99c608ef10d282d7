//! The history of submitted lines, most recent first, with recall navigation.
//!
//! Each line is held once, with the number of times it was entered. Navigation
//! walks from the most recent line into the past and back. The history is saved
//! as text, one line per entry, most recent first; loading reads that order back.
use vstd::prelude::*;

use crate::text::same_text;

use vstd::string::StrSliceExecFns;
use vstd::string::StringExecFns;

verus! {

/// A submitted line and how many times it was entered.
pub struct HistoryEntry {
    pub text: String,
    pub count: usize,
}

/// The history store.
pub struct History {
    entries: Vec<HistoryEntry>,
    index: Option<usize>,
}

/// What a [`History`] holds: its entries, most recent first, and how far back
/// navigation has gone (`None` when at the line being edited).
pub struct HistoryView {
    pub entries: Seq<(Seq<char>, nat)>,
    pub index: Option<nat>,
}

/// The text of each entry, in order.
pub open spec fn texts(entries: Seq<(Seq<char>, nat)>) -> Seq<Seq<char>> {
    entries.map_values(|e: (Seq<char>, nat)| e.0)
}

/// A count after one more entry of its line; it stays at the largest `usize`.
pub open spec fn bump(c: nat) -> nat {
    if c < usize::MAX {
        c + 1
    } else {
        c
    }
}

/// Whether some entry holds `t`.
pub open spec fn has_text(entries: Seq<(Seq<char>, nat)>, t: Seq<char>) -> bool {
    exists|i: int| 0 <= i < entries.len() && (#[trigger] entries[i]).0 == t
}

/// Where the entry of `t` stands (meaningful when [`has_text`] holds).
pub open spec fn position_of(entries: Seq<(Seq<char>, nat)>, t: Seq<char>) -> int {
    choose|i: int| 0 <= i < entries.len() && (#[trigger] entries[i]).0 == t
}

/// How many times `t` was entered: 0 when no entry holds it.
pub open spec fn count_of(entries: Seq<(Seq<char>, nat)>, t: Seq<char>) -> nat {
    if has_text(entries, t) {
        entries[position_of(entries, t)].1
    } else {
        0
    }
}

/// Entries after `t` is entered once more: an empty `t` changes nothing; otherwise its
/// entry, counted once more (or new, with count 1), moves to the front.
pub open spec fn added(entries: Seq<(Seq<char>, nat)>, t: Seq<char>) -> Seq<(Seq<char>, nat)> {
    if t.len() == 0 {
        entries
    } else if has_text(entries, t) {
        let i = position_of(entries, t);
        seq![(t, bump(entries[i].1))] + entries.remove(i)
    } else {
        seq![(t, 1nat)] + entries
    }
}

/// Navigation one step into the past: the new index, if any.
pub open spec fn index_up(len: nat, index: Option<nat>) -> Option<nat> {
    if len == 0 {
        index
    } else {
        match index {
            Option::None => Option::Some(0nat),
            Option::Some(i) => Option::Some(
                if i + 1 < len {
                    (i + 1) as nat
                } else {
                    (len - 1) as nat
                },
            ),
        }
    }
}

/// Navigation one step toward the present.
pub open spec fn index_down(index: Option<nat>) -> Option<nat> {
    match index {
        Option::None => Option::None,
        Option::Some(i) => if i == 0 {
            Option::None
        } else {
            Option::Some((i - 1) as nat)
        },
    }
}

/// The text at navigation index `index`, if any.
pub open spec fn text_at(entries: Seq<(Seq<char>, nat)>, index: Option<nat>) -> Option<Seq<char>> {
    match index {
        Option::None => Option::None,
        Option::Some(i) => Option::Some(entries[i as int].0),
    }
}

/// Entries hold distinct, non-empty lines, with counts that fit a `usize`.
pub open spec fn entries_ok(entries: Seq<(Seq<char>, nat)>) -> bool {
    &&& forall|i: int, j: int|
        0 <= i < j < entries.len() ==> (#[trigger] entries[i]).0 != (#[trigger] entries[j]).0
    &&& forall|i: int| 0 <= i < entries.len() ==> (#[trigger] entries[i]).0.len() > 0
    &&& forall|i: int| 0 <= i < entries.len() ==> (#[trigger] entries[i]).1 <= usize::MAX
}

impl HistoryView {
    /// Entries are well formed and the index points at one of them.
    pub open spec fn well_formed(&self) -> bool {
        &&& entries_ok(self.entries)
        &&& match self.index {
            Option::None => true,
            Option::Some(i) => i < self.entries.len(),
        }
    }
}

impl View for History {
    type V = HistoryView;

    closed spec fn view(&self) -> HistoryView {
        HistoryView {
            entries: self.entries@.map_values(|e: HistoryEntry| (e.text@, e.count as nat)),
            index: match self.index {
                Option::None => Option::None,
                Option::Some(i) => Option::Some(i as nat),
            },
        }
    }
}

/// With distinct texts, the entry found for `t` is the one at `i`.
proof fn lemma_position(entries: Seq<(Seq<char>, nat)>, t: Seq<char>, i: int)
    requires
        entries_ok(entries),
        0 <= i < entries.len(),
        entries[i].0 == t,
    ensures
        has_text(entries, t),
        position_of(entries, t) == i,
{
    assert(has_text(entries, t));
    let j = position_of(entries, t);
    if j != i {
        if j < i {
            assert(entries[j].0 != entries[i].0);
        } else {
            assert(entries[i].0 != entries[j].0);
        }
    }
}

/// Adding keeps the entries well formed.
pub proof fn lemma_added_well_formed(h: HistoryView, t: Seq<char>)
    requires
        h.well_formed(),
    ensures
        entries_ok(added(h.entries, t)),
        added(h.entries, t).len() >= h.entries.len(),
{
    let es = h.entries;
    let r = added(es, t);
    if t.len() > 0 {
        if has_text(es, t) {
            let i = position_of(es, t);
            let rest = es.remove(i);
            assert forall|a: int, b: int| 0 <= a < b < r.len() implies (#[trigger] r[a]).0 != (
            #[trigger] r[b]).0 by {
                if a == 0 {
                    let k = if b - 1 < i {
                        b - 1
                    } else {
                        b
                    };
                    assert(r[b] == es[k]);
                    if k < i {
                        assert(es[k].0 != es[i].0);
                    } else {
                        assert(es[i].0 != es[k].0);
                    }
                } else {
                    let ka = if a - 1 < i {
                        a - 1
                    } else {
                        a
                    };
                    let kb = if b - 1 < i {
                        b - 1
                    } else {
                        b
                    };
                    assert(r[a] == es[ka] && r[b] == es[kb]);
                    assert(es[ka].0 != es[kb].0);
                }
            }
            assert forall|a: int| 0 <= a < r.len() implies (#[trigger] r[a]).0.len() > 0 && r[a].1
                <= usize::MAX by {
                if a > 0 {
                    if a - 1 < i {
                        assert(r[a] == es[a - 1]);
                    } else {
                        assert(r[a] == es[a]);
                    }
                }
            }
        } else {
            assert forall|a: int, b: int| 0 <= a < b < r.len() implies (#[trigger] r[a]).0 != (
            #[trigger] r[b]).0 by {
                assert(r[b] == es[b - 1]);
                if a == 0 {
                    if es[b - 1].0 == t {
                        assert(has_text(es, t));
                    }
                } else {
                    assert(r[a] == es[a - 1]);
                }
            }
            assert forall|a: int| 0 <= a < r.len() implies (#[trigger] r[a]).0.len() > 0 && r[a].1
                <= usize::MAX by {
                if a > 0 {
                    assert(r[a] == es[a - 1]);
                }
            }
        }
    }
}

/// The entries after each of `ts` is entered in turn.
pub open spec fn added_all(entries: Seq<(Seq<char>, nat)>, ts: Seq<Seq<char>>) -> Seq<(Seq<char>, nat)>
    decreases ts.len(),
{
    if ts.len() == 0 {
        entries
    } else {
        added(added_all(entries, ts.drop_last()), ts.last())
    }
}

/// How many of `ts` are `t`.
pub open spec fn occurrences(ts: Seq<Seq<char>>, t: Seq<char>) -> nat
    decreases ts.len(),
{
    if ts.len() == 0 {
        0
    } else {
        occurrences(ts.drop_last(), t) + if ts.last() == t {
            1nat
        } else {
            0nat
        }
    }
}

/// Entering `x` counts `t` once more when `x` is `t`, and leaves its count otherwise.
proof fn lemma_count_after_add(es: Seq<(Seq<char>, nat)>, x: Seq<char>, t: Seq<char>)
    requires
        entries_ok(es),
    ensures
        count_of(added(es, x), t) == if x.len() > 0 && x == t {
            bump(count_of(es, t))
        } else {
            count_of(es, t)
        },
{
    let h = HistoryView { entries: es, index: Option::None };
    lemma_added_well_formed(h, x);
    let r = added(es, x);
    if x.len() == 0 {
    } else if x == t {
        lemma_position(r, t, 0);
        if has_text(es, t) {
            lemma_position(es, t, position_of(es, t));
        }
    } else if has_text(es, t) {
        let j = position_of(es, t);
        lemma_position(es, t, j);
        if has_text(es, x) {
            let i = position_of(es, x);
            let j2 = if j < i {
                j + 1
            } else {
                j
            };
            assert(i != j);
            assert(r[j2] == es[j]);
            lemma_position(r, t, j2);
        } else {
            assert(r[j + 1] == es[j]);
            lemma_position(r, t, j + 1);
        }
    } else {
        if has_text(r, t) {
            let k = position_of(r, t);
            if has_text(es, x) {
                let i = position_of(es, x);
                let k2 = if k - 1 < i {
                    k - 1
                } else {
                    k
                };
                assert(r[k] == es[k2]);
            } else {
                assert(r[k] == es[k - 1]);
            }
        }
    }
}

/// Starting from an empty history and entering each of `ts` in turn, a non-empty line
/// is counted as many times as it was entered (`ts` is shorter than the largest
/// `usize`, so no count saturates), and the last line entered, if not empty, is the
/// most recent entry.
pub proof fn lemma_add_counts(ts: Seq<Seq<char>>, t: Seq<char>)
    requires
        t.len() > 0,
        ts.len() < usize::MAX,
    ensures
        entries_ok(added_all(Seq::empty(), ts)),
        count_of(added_all(Seq::empty(), ts), t) == occurrences(ts, t),
        ts.len() > 0 && ts.last().len() > 0 ==> added_all(Seq::empty(), ts)[0].0 == ts.last(),
    decreases ts.len(),
{
    if ts.len() == 0 {
        assert(!has_text(Seq::<(Seq<char>, nat)>::empty(), t));
    } else {
        let init = ts.drop_last();
        lemma_add_counts(init, t);
        lemma_occurrences_bound(init, t);
        let es = added_all(Seq::empty(), init);
        lemma_added_well_formed(HistoryView { entries: es, index: Option::None }, ts.last());
        lemma_count_after_add(es, ts.last(), t);
    }
}

proof fn lemma_occurrences_bound(ts: Seq<Seq<char>>, t: Seq<char>)
    ensures
        occurrences(ts, t) <= ts.len(),
    decreases ts.len(),
{
    if ts.len() > 0 {
        lemma_occurrences_bound(ts.drop_last(), t);
    }
}

/// The navigation index after `k` steps into the past from the line being edited.
pub open spec fn index_after_ups(len: nat, k: nat) -> Option<nat>
    decreases k,
{
    if k == 0 {
        Option::None
    } else {
        index_up(len, index_after_ups(len, (k - 1) as nat))
    }
}

/// With `len > 0` entries, steps into the past visit indices 0, 1, ... up to the oldest,
/// `len - 1`, and stay there; one step toward the present from index 0 ends navigation.
pub proof fn lemma_navigation(len: nat, k: nat)
    requires
        len > 0,
        k > 0,
    ensures
        index_after_ups(len, k) == Option::Some(if k <= len {
            (k - 1) as nat
        } else {
            (len - 1) as nat
        }),
        index_down(Option::Some(0nat)) == Option::<nat>::None,
    decreases k,
{
    if k > 1 {
        lemma_navigation(len, (k - 1) as nat);
    } else {
        assert(index_after_ups(len, 0) == Option::<nat>::None);
    }
}

/// The saved form of `ts`: each line followed by a line break.
pub open spec fn rendered(ts: Seq<Seq<char>>) -> Seq<char>
    decreases ts.len(),
{
    if ts.len() == 0 {
        Seq::empty()
    } else {
        rendered(ts.drop_last()) + ts.last() + seq!['\n']
    }
}

/// The finished lines of `s`, and the unfinished text after the last line break.
pub open spec fn split_lines(s: Seq<char>) -> (Seq<Seq<char>>, Seq<char>)
    decreases s.len(),
{
    if s.len() == 0 {
        (Seq::empty(), Seq::empty())
    } else {
        let (ls, cur) = split_lines(s.drop_last());
        if s.last() == '\n' {
            (ls.push(cur), Seq::empty())
        } else {
            (ls, cur.push(s.last()))
        }
    }
}

/// The lines of `s`: text after the last line break counts as a line too.
pub open spec fn lines_of(s: Seq<char>) -> Seq<Seq<char>> {
    let (ls, cur) = split_lines(s);
    if cur.len() > 0 {
        ls.push(cur)
    } else {
        ls
    }
}

/// The non-empty lines of `ls`, each at its first occurrence.
pub open spec fn distinct_lines(ls: Seq<Seq<char>>) -> Seq<Seq<char>>
    decreases ls.len(),
{
    if ls.len() == 0 {
        Seq::empty()
    } else {
        let acc = distinct_lines(ls.drop_last());
        if ls.last().len() == 0 || acc.contains(ls.last()) {
            acc
        } else {
            acc.push(ls.last())
        }
    }
}

/// The entries loaded from saved text `s`: one per distinct non-empty line, in file
/// order, each counted once.
pub open spec fn loaded(s: Seq<char>) -> Seq<(Seq<char>, nat)> {
    distinct_lines(lines_of(s)).map_values(|t: Seq<char>| (t, 1nat))
}

/// Lines that are already distinct and non-empty are all kept.
proof fn lemma_distinct_lines_keep(ls: Seq<Seq<char>>)
    requires
        forall|i: int, j: int| 0 <= i < j < ls.len() ==> #[trigger] ls[i] != #[trigger] ls[j],
        forall|i: int| 0 <= i < ls.len() ==> (#[trigger] ls[i]).len() > 0,
    ensures
        distinct_lines(ls) == ls,
    decreases ls.len(),
{
    if ls.len() > 0 {
        let init = ls.drop_last();
        lemma_distinct_lines_keep(init);
        assert(ls.last().len() > 0);
        if init.contains(ls.last()) {
            let k = choose|k: int| 0 <= k < init.len() && init[k] == ls.last();
            assert(ls[k] != ls[ls.len() - 1]);
        }
        assert(init.push(ls.last()) =~= ls);
    }
}

/// Lines counted once, and their texts.
proof fn lemma_ones(ls: Seq<Seq<char>>, x: Seq<char>)
    ensures
        texts(ls.map_values(|t: Seq<char>| (t, 1nat))) == ls,
        ls.push(x).map_values(|t: Seq<char>| (t, 1nat)) == ls.map_values(|t: Seq<char>| (t, 1nat)).push(
            (x, 1nat),
        ),
{
    assert(texts(ls.map_values(|t: Seq<char>| (t, 1nat))) =~= ls);
    assert(ls.push(x).map_values(|t: Seq<char>| (t, 1nat)) =~= ls.map_values(
        |t: Seq<char>| (t, 1nat),
    ).push((x, 1nat)));
}

/// Appending text without a line break extends the unfinished line.
proof fn lemma_split_append(a: Seq<char>, b: Seq<char>)
    requires
        !b.contains('\n'),
    ensures
        split_lines(a + b) == (split_lines(a).0, split_lines(a).1 + b),
    decreases b.len(),
{
    if b.len() == 0 {
        assert(a + b =~= a);
        assert(split_lines(a).1 + b =~= split_lines(a).1);
    } else {
        let b1 = b.drop_last();
        assert(!b1.contains('\n')) by {
            if b1.contains('\n') {
                let k = choose|k: int| 0 <= k < b1.len() && b1[k] == '\n';
                assert(b[k] == '\n');
            }
        }
        lemma_split_append(a, b1);
        assert((a + b).drop_last() =~= a + b1);
        assert((a + b).last() == b.last());
        assert(b.last() != '\n') by {
            assert(b[b.len() - 1] == b.last());
        }
        assert(split_lines(a).1 + b1 + seq![b.last()] =~= split_lines(a).1 + b);
        assert((split_lines(a).1 + b1).push(b.last()) =~= split_lines(a).1 + b);
    }
}

/// Reading back the saved form of lines without line breaks gives those lines.
proof fn lemma_split_rendered(ts: Seq<Seq<char>>)
    requires
        forall|i: int| 0 <= i < ts.len() ==> !(#[trigger] ts[i]).contains('\n'),
    ensures
        split_lines(rendered(ts)) == (ts, Seq::<char>::empty()),
    decreases ts.len(),
{
    if ts.len() > 0 {
        let init = ts.drop_last();
        assert forall|i: int| 0 <= i < init.len() implies !(#[trigger] init[i]).contains('\n') by {
            assert(init[i] == ts[i]);
        }
        lemma_split_rendered(init);
        assert(!ts.last().contains('\n')) by {
            assert(ts[ts.len() - 1] == ts.last());
        }
        lemma_split_append(rendered(init), ts.last());
        let whole = rendered(ts);
        assert(whole.drop_last() =~= rendered(init) + ts.last());
        assert(whole.last() == '\n');
        assert(Seq::<char>::empty() + ts.last() =~= ts.last());
        assert(init.push(ts.last()) =~= ts);
    } else {
        assert(split_lines(Seq::<char>::empty()) == (Seq::<Seq<char>>::empty(), Seq::<char>::empty()));
    }
}

/// Saving the history and loading what was saved gives back the same lines in the
/// same order, as long as no line holds a line break (counts start again at 1).
pub proof fn lemma_save_load(h: HistoryView)
    requires
        h.well_formed(),
        forall|i: int| 0 <= i < h.entries.len() ==> !(#[trigger] h.entries[i]).0.contains('\n'),
    ensures
        texts(loaded(rendered(texts(h.entries)))) == texts(h.entries),
{
    let ts = texts(h.entries);
    assert forall|i: int| 0 <= i < ts.len() implies !(#[trigger] ts[i]).contains('\n') by {
        assert(ts[i] == h.entries[i].0);
    }
    lemma_split_rendered(ts);
    assert(lines_of(rendered(ts)) == ts);
    assert forall|i: int, j: int| 0 <= i < j < ts.len() implies #[trigger] ts[i] != #[trigger] ts[j] by {
        assert(ts[i] == h.entries[i].0 && ts[j] == h.entries[j].0);
    }
    assert forall|i: int| 0 <= i < ts.len() implies (#[trigger] ts[i]).len() > 0 by {
        assert(ts[i] == h.entries[i].0);
    }
    lemma_distinct_lines_keep(ts);
    assert(texts(loaded(rendered(ts))) =~= ts);
}

impl History {
    /// The history's invariant.
    pub open spec fn wf(&self) -> bool {
        self@.well_formed()
    }

    /// An empty history, not navigating.
    pub fn new() -> (r: History)
        ensures
            r.wf(),
            r@.entries == Seq::<(Seq<char>, nat)>::empty(),
            r@.index == Option::<nat>::None,
    {
        let r = History { entries: Vec::new(), index: None };
        assert(r@.entries =~= Seq::<(Seq<char>, nat)>::empty());
        r
    }

    /// The number of entries.
    pub fn len(&self) -> (r: usize)
        ensures
            r == self@.entries.len(),
    {
        self.entries.len()
    }

    /// How far back navigation has gone.
    pub fn index(&self) -> (r: Option<usize>)
        ensures
            match r {
                Option::None => self@.index == Option::<nat>::None,
                Option::Some(i) => self@.index == Option::Some(i as nat),
            },
    {
        self.index
    }

    /// The text of each entry, most recent first.
    pub fn texts(&self) -> (r: Vec<String>)
        ensures
            r@.map_values(|s: String| s@) == texts(self@.entries),
    {
        let mut r: Vec<String> = Vec::new();
        let mut i: usize = 0;
        while i < self.entries.len()
            invariant
                i <= self.entries@.len(),
                r@.len() == i,
                r@.map_values(|s: String| s@) == texts(self@.entries).subrange(0, i as int),
            decreases self.entries.len() - i,
        {
            r.push(self.entries[i].text.clone());
            i += 1;
            assert(r@.map_values(|s: String| s@) =~= texts(self@.entries).subrange(0, i as int));
        }
        assert(texts(self@.entries).subrange(0, i as int) =~= texts(self@.entries));
        r
    }

    /// Where the entry of `text` stands, if there is one.
    fn find(&self, text: &str) -> (r: Option<usize>)
        requires
            self.wf(),
        ensures
            match r {
                Option::None => !has_text(self@.entries, text@),
                Option::Some(i) => i < self@.entries.len() && has_text(self@.entries, text@)
                    && position_of(self@.entries, text@) == i,
            },
    {
        let mut i: usize = 0;
        while i < self.entries.len()
            invariant
                self.wf(),
                i <= self.entries@.len(),
                forall|k: int| 0 <= k < i ==> (#[trigger] self@.entries[k]).0 != text@,
            decreases self.entries.len() - i,
        {
            if same_text(self.entries[i].text.as_str(), text) {
                proof {
                    lemma_position(self@.entries, text@, i as int);
                }
                return Some(i);
            }
            i += 1;
        }
        proof {
            if has_text(self@.entries, text@) {
                let k = position_of(self@.entries, text@);
                assert(self@.entries[k].0 == text@);
            }
        }
        None
    }

    /// How many times `text` was entered (0 when it never was).
    pub fn count(&self, text: &str) -> (r: usize)
        requires
            self.wf(),
        ensures
            r == count_of(self@.entries, text@),
    {
        match self.find(text) {
            Some(i) => self.entries[i].count,
            None => 0,
        }
    }

    /// Enters `text` once more: nothing happens for an empty `text`; otherwise its
    /// entry, counted once more (a new one with count 1), moves to the front.
    /// Navigation is left as it is.
    pub fn add(&mut self, text: &str)
        requires
            old(self).wf(),
        ensures
            final(self).wf(),
            final(self)@.entries == added(old(self)@.entries, text@),
            final(self)@.index == old(self)@.index,
    {
        proof {
            lemma_added_well_formed(self@, text@);
        }
        if text.unicode_len() == 0 {
            return;
        }
        let ghost es = self@.entries;
        match self.find(text) {
            Some(i) => {
                let e = self.entries.remove(i);
                let count = if e.count < usize::MAX {
                    e.count + 1
                } else {
                    e.count
                };
                self.entries.insert(0, HistoryEntry { text: e.text, count });
                assert(self@.entries =~= added(es, text@));
            },
            None => {
                self.entries.insert(0, HistoryEntry { text: String::from_str(text), count: 1 });
                assert(self@.entries =~= added(es, text@));
            },
        }
    }

    /// Goes one line further into the past (from the line being edited to the most
    /// recent entry; never past the oldest) and returns its text; `None`, with
    /// nothing changed, when the history is empty.
    pub fn navigate_up(&mut self) -> (r: Option<String>)
        requires
            old(self).wf(),
        ensures
            final(self).wf(),
            final(self)@.entries == old(self)@.entries,
            final(self)@.index == index_up(old(self)@.entries.len(), old(self)@.index),
            match r {
                Option::None => text_at(final(self)@.entries, final(self)@.index)
                    == Option::<Seq<char>>::None,
                Option::Some(s) => text_at(final(self)@.entries, final(self)@.index) == Option::Some(
                    s@,
                ),
            },
    {
        let n = self.entries.len();
        if n == 0 {
            return None;
        }
        let i = match self.index {
            None => 0,
            Some(i) => if i + 1 < n {
                i + 1
            } else {
                n - 1
            },
        };
        self.index = Some(i);
        Some(self.entries[i].text.clone())
    }

    /// Goes one line back toward the present and returns its text; `None` once back
    /// at the line being edited.
    pub fn navigate_down(&mut self) -> (r: Option<String>)
        requires
            old(self).wf(),
        ensures
            final(self).wf(),
            final(self)@.entries == old(self)@.entries,
            final(self)@.index == index_down(old(self)@.index),
            match r {
                Option::None => text_at(final(self)@.entries, final(self)@.index)
                    == Option::<Seq<char>>::None,
                Option::Some(s) => text_at(final(self)@.entries, final(self)@.index) == Option::Some(
                    s@,
                ),
            },
    {
        match self.index {
            None => None,
            Some(i) => {
                if i == 0 {
                    self.index = None;
                    None
                } else {
                    self.index = Some(i - 1);
                    Some(self.entries[i - 1].text.clone())
                }
            },
        }
    }

    /// Stops navigating: back at the line being edited.
    pub fn reset_index(&mut self)
        requires
            old(self).wf(),
        ensures
            final(self).wf(),
            final(self)@.entries == old(self)@.entries,
            final(self)@.index == Option::<nat>::None,
    {
        self.index = None;
    }
}

impl History {
    /// The saved form: each entry's line followed by a line break, most recent first.
    pub fn to_text(&self) -> (r: String)
        ensures
            r@ == rendered(texts(self@.entries)),
    {
        let nl = "\n";
        proof {
            reveal_strlit("\n");
        }
        let ghost ts = texts(self@.entries);
        let mut r = String::new();
        let mut i: usize = 0;
        while i < self.entries.len()
            invariant
                ts == texts(self@.entries),
                nl@ == seq!['\n'],
                i <= self.entries@.len(),
                r@ == rendered(ts.subrange(0, i as int)),
            decreases self.entries.len() - i,
        {
            r.append(self.entries[i].text.as_str());
            r.append(nl);
            i += 1;
            assert(ts.subrange(0, i as int).drop_last() =~= ts.subrange(0, i - 1));
        }
        assert(ts.subrange(0, i as int) =~= ts);
        r
    }

    /// Loads saved text: one entry per distinct non-empty line, in file order (the
    /// first line is the most recent), each counted once; not navigating.
    pub fn from_text(s: &str) -> (r: History)
        ensures
            r.wf(),
            r@.entries == loaded(s@),
            r@.index == Option::<nat>::None,
    {
        let n = s.unicode_len();
        let mut h = History::new();
        let mut start: usize = 0;
        let mut i: usize = 0;
        while i < n
            invariant
                n == s@.len(),
                start <= i <= n,
                h.wf(),
                h@.index == Option::<nat>::None,
                split_lines(s@.subrange(0, i as int)).1 == s@.subrange(start as int, i as int),
                h@.entries == distinct_lines(split_lines(s@.subrange(0, i as int)).0).map_values(
                    |t: Seq<char>| (t, 1nat),
                ),
            decreases n - i,
        {
            let c = s.get_char(i);
            let ghost pre = s@.subrange(0, i as int);
            assert(s@.subrange(0, i + 1).drop_last() =~= pre);
            if c == '\n' {
                let line = s.substring_char(start, i);
                proof {
                    lemma_ones(distinct_lines(split_lines(pre).0), line@);
                    assert(split_lines(pre).0.push(line@).drop_last() =~= split_lines(pre).0);
                }
                h.keep_line(line);
                start = i + 1;
                assert(s@.subrange(start as int, i + 1) =~= Seq::<char>::empty());
            } else {
                assert(s@.subrange(start as int, i as int).push(c) =~= s@.subrange(start as int, i + 1));
            }
            i += 1;
            assert(split_lines(pre).0.push(split_lines(pre).1).drop_last() =~= split_lines(pre).0);
        }
        assert(s@.subrange(0, n as int) =~= s@);
        let last = s.substring_char(start, n);
        let ghost (ls, cur) = split_lines(s@);
        proof {
            lemma_ones(distinct_lines(ls), cur);
        }
        h.keep_line(last);
        proof {
            lemma_ones(distinct_lines(ls), cur);
            assert(ls.push(cur).drop_last() =~= ls);
            if cur.len() == 0 {
                assert(distinct_lines(ls.push(cur)) == distinct_lines(ls));
            }
        }
        h
    }

    /// Appends `line` as an oldest entry counted once, unless it is empty or already held.
    fn keep_line(&mut self, line: &str)
        requires
            old(self).wf(),
            old(self)@.index == Option::<nat>::None,
            forall|k: int| 0 <= k < old(self)@.entries.len() ==> (#[trigger] old(self)@.entries[k]).1 == 1,
        ensures
            final(self).wf(),
            final(self)@.index == Option::<nat>::None,
            final(self)@.entries == if line@.len() == 0 || texts(old(self)@.entries).contains(line@) {
                old(self)@.entries
            } else {
                old(self)@.entries.push((line@, 1nat))
            },
    {
        if line.unicode_len() == 0 {
            return;
        }
        let ghost es = self@.entries;
        match self.find(line) {
            Some(i) => {
                assert(texts(es)[i as int] == line@);
            },
            None => {
                proof {
                    if texts(es).contains(line@) {
                        let k = choose|k: int| 0 <= k < texts(es).len() && texts(es)[k] == line@;
                        assert(es[k].0 == line@);
                    }
                }
                self.entries.push(HistoryEntry { text: String::from_str(line), count: 1 });
                assert(self@.entries =~= es.push((line@, 1nat)));
                proof {
                    let r = self@.entries;
                    assert forall|a: int, b: int| 0 <= a < b < r.len() implies (#[trigger] r[a]).0 != (
                    #[trigger] r[b]).0 by {
                        if b == es.len() {
                            assert(r[a] == es[a]);
                            if es[a].0 == line@ {
                                assert(has_text(es, line@));
                            }
                        }
                    }
                }
            },
        }
    }
}

} // verus!
