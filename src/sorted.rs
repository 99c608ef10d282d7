//! Finite sets of names held as strictly increasing vectors of strings.
use vstd::prelude::*;

use crate::text::{lemma_lex_lt_asymmetric, lemma_lex_lt_irreflexive, lemma_lex_lt_total, lemma_lex_lt_transitive, lex_less, lex_lt};

verus! {

/// The character sequences of a sequence of strings.
pub open spec fn views(v: Seq<String>) -> Seq<Seq<char>> {
    v.map_values(|s: String| s@)
}

/// Every element comes strictly before the ones after it.
pub open spec fn strictly_sorted(s: Seq<Seq<char>>) -> bool {
    forall|i: int, j: int| 0 <= i < j < s.len() ==> lex_lt(#[trigger] s[i], #[trigger] s[j])
}

/// A set has exactly one strictly sorted enumeration.
pub proof fn lemma_sorted_unique(a: Seq<Seq<char>>, b: Seq<Seq<char>>)
    requires
        strictly_sorted(a),
        strictly_sorted(b),
        a.to_set() == b.to_set(),
    ensures
        a == b,
    decreases a.len(),
{
    if a.len() == 0 {
        if b.len() > 0 {
            assert(b.to_set().contains(b[0]));
        }
        assert(a =~= b);
    } else if b.len() == 0 {
        assert(a.to_set().contains(a[0]));
    } else {
        assert(b.to_set().contains(a[0]));
        assert(a.to_set().contains(b[0]));
        let i = choose|i: int| 0 <= i < b.len() && b[i] == a[0];
        let j = choose|j: int| 0 <= j < a.len() && a[j] == b[0];
        if a[0] != b[0] {
            assert(i > 0 && j > 0);
            assert(lex_lt(b[0], b[i]));
            assert(lex_lt(a[0], a[j]));
            lemma_lex_lt_asymmetric(b[0], a[0]);
        }
        let (a1, b1) = (a.drop_first(), b.drop_first());
        assert forall|x: Seq<char>| a1.to_set().contains(x) implies b1.to_set().contains(x) by {
            let k = choose|k: int| 0 <= k < a1.len() && a1[k] == x;
            assert(a.to_set().contains(x) && a[k + 1] == x);
            let m = choose|m: int| 0 <= m < b.len() && b[m] == x;
            if m == 0 {
                assert(lex_lt(a[0], a[k + 1]));
                lemma_lex_lt_irreflexive(a[0]);
            }
            assert(b1[m - 1] == x);
        }
        assert forall|x: Seq<char>| b1.to_set().contains(x) implies a1.to_set().contains(x) by {
            let k = choose|k: int| 0 <= k < b1.len() && b1[k] == x;
            assert(b.to_set().contains(x) && b[k + 1] == x);
            let m = choose|m: int| 0 <= m < a.len() && a[m] == x;
            if m == 0 {
                assert(lex_lt(b[0], b[k + 1]));
                lemma_lex_lt_irreflexive(b[0]);
            }
            assert(a1[m - 1] == x);
        }
        assert(a1.to_set() =~= b1.to_set());
        lemma_sorted_unique(a1, b1);
        assert(a =~= b) by {
            assert forall|k: int| 0 <= k < a.len() implies a[k] == b[k] by {
                if k > 0 {
                    assert(a1[k - 1] == b1[k - 1]);
                }
            }
        }
    }
}

/// Adds `x` to the set held by `v`, keeping `v` strictly sorted.
pub fn insert_sorted(v: &mut Vec<String>, x: String)
    requires
        strictly_sorted(views(old(v)@)),
    ensures
        strictly_sorted(views(final(v)@)),
        views(final(v)@).to_set() == views(old(v)@).to_set().insert(x@),
        final(v)@.len() <= old(v)@.len() + 1,
{
    let ghost s = views(v@);
    let mut i: usize = 0;
    while i < v.len() && lex_less(v[i].as_str(), x.as_str())
        invariant
            s == views(v@),
            strictly_sorted(s),
            i <= v@.len(),
            forall|k: int| 0 <= k < i ==> lex_lt(#[trigger] s[k], x@),
        decreases v.len() - i,
    {
        i += 1;
    }
    if i < v.len() && v[i] == x {
        assert(views(v@).to_set() =~= s.to_set().insert(x@)) by {
            assert(s[i as int] == x@);
        }
        return;
    }
    proof {
        if i < v@.len() {
            assert(s[i as int] != x@);
            lemma_lex_lt_total(s[i as int], x@);
        }
    }
    v.insert(i, x);
    proof {
        let t = views(v@);
        assert(t =~= s.subrange(0, i as int).push(x@) + s.subrange(i as int, s.len() as int));
        assert forall|p: int, q: int| 0 <= p < q < t.len() implies lex_lt(#[trigger] t[p], #[trigger] t[q]) by {
            if q < i {
            } else if q == i {
            } else if p < i {
                assert(t[q] == s[q - 1]);
                if q - 1 == i {
                    lemma_lex_lt_transitive(t[p], x@, s[q - 1]);
                } else {
                    lemma_lex_lt_transitive(x@, s[i as int], s[q - 1]);
                    lemma_lex_lt_transitive(t[p], x@, s[q - 1]);
                }
            } else if p == i {
                if q - 1 > i {
                    lemma_lex_lt_transitive(x@, s[i as int], s[q - 1]);
                }
            } else {
                assert(t[p] == s[p - 1] && t[q] == s[q - 1]);
            }
        }
        assert forall|y: Seq<char>| #[trigger] t.to_set().contains(y) <==> s.to_set().insert(x@).contains(y) by {
            if s.to_set().contains(y) && y != x@ {
                let k = choose|k: int| 0 <= k < s.len() && s[k] == y;
                if k < i {
                    assert(t[k] == y);
                } else {
                    assert(t[k + 1] == y);
                }
            }
            if t.to_set().contains(y) {
                let k = choose|k: int| 0 <= k < t.len() && t[k] == y;
                if k < i {
                    assert(s[k] == y);
                } else if k > i {
                    assert(s[k - 1] == y);
                }
            }
            assert(t[i as int] == x@);
        }
        assert(t.to_set() =~= s.to_set().insert(x@));
    }
}

} // verus!
