//! The order in which a list writes its records: by record text, then by url.

use vstd::prelude::*;
use crate::text::{compare_texts, lemma_text_lt_order, text_lt};

verus! {

/// A record's text and its url.
pub type SortKey = (Seq<char>, Seq<char>);

pub open spec fn key_lt(a: SortKey, b: SortKey) -> bool {
    text_lt(a.0, b.0) || (a.0 == b.0 && text_lt(a.1, b.1))
}

pub proof fn lemma_key_lt_order(a: SortKey, b: SortKey, c: SortKey)
    ensures
        !key_lt(a, a),
        key_lt(a, b) ==> !key_lt(b, a),
        a != b ==> key_lt(a, b) || key_lt(b, a),
        key_lt(a, b) && key_lt(b, c) ==> key_lt(a, c),
{
    lemma_text_lt_order(a.0, b.0, c.0);
    lemma_text_lt_order(a.1, b.1, c.1);
    lemma_text_lt_order(b.0, a.0, c.0);
    lemma_text_lt_order(b.1, a.1, c.1);
}

/// Whether each key of `s` comes before every later one.
pub open spec fn ascending(s: Seq<SortKey>) -> bool {
    forall|i: int, j: int| 0 <= i < j < s.len() ==> key_lt(s[i], s[j])
}

/// The key of `s` that comes before all its others.
pub open spec fn least(s: Set<SortKey>) -> SortKey {
    choose|x: SortKey| s.contains(x) && forall|y: SortKey| s.contains(y) && y != x ==> key_lt(x, y)
}

/// The keys of a finite set, in ascending order.
#[verifier::opaque]
pub open spec fn in_order(s: Set<SortKey>) -> Seq<SortKey>
    decreases s.len(),
{
    if s.finite() && s.len() > 0 && s.contains(least(s)) {
        seq![least(s)] + in_order(s.remove(least(s)))
    } else {
        Seq::empty()
    }
}

/// An ascending sequence is the set it holds, in order.
pub proof fn lemma_in_order(ks: Seq<SortKey>)
    requires
        ascending(ks),
    ensures
        in_order(ks.to_set()) == ks,
    decreases ks.len(),
{
    reveal(in_order);
    let s = ks.to_set();
    if ks.len() == 0 {
        assert(s =~= Set::<SortKey>::empty());
    } else {
        let x = ks[0];
        let rest = ks.drop_first();
        assert(s.contains(x));
        assert forall|y: SortKey| s.contains(y) && y != x implies key_lt(x, y) by {
            let j = choose|j: int| 0 <= j < ks.len() && ks[j] == y;
            assert(j != 0);
        }
        let m = least(s);
        if m != x {
            lemma_key_lt_order(m, x, m);
        }
        assert(m == x);
        assert(rest.to_set() =~= s.remove(x)) by {
            assert forall|y: SortKey| rest.to_set().contains(y) implies y != x by {
                let j = choose|j: int| 0 <= j < rest.len() && rest[j] == y;
                assert(key_lt(ks[0], ks[j + 1]));
                lemma_key_lt_order(x, x, x);
            }
            assert forall|y: SortKey| s.remove(x).contains(y) implies rest.to_set().contains(y) by {
                let j = choose|j: int| 0 <= j < ks.len() && ks[j] == y;
                assert(rest[j - 1] == y);
            }
        }
        assert(ascending(rest)) by {
            assert forall|i: int, j: int| 0 <= i < j < rest.len() implies key_lt(rest[i], rest[j]) by {
                assert(key_lt(ks[i + 1], ks[j + 1]));
            }
        }
        lemma_in_order(rest);
        assert(s.finite() && s.len() > 0);
        assert(ks =~= seq![x] + rest);
    }
}

pub open spec fn key_view(k: (Vec<char>, Vec<char>)) -> SortKey {
    (k.0@, k.1@)
}

pub open spec fn key_views(ks: Seq<(Vec<char>, Vec<char>)>) -> Seq<SortKey> {
    ks.map_values(|k: (Vec<char>, Vec<char>)| key_view(k))
}

fn key_less(a: &(Vec<char>, Vec<char>), b: &(Vec<char>, Vec<char>)) -> (r: bool)
    ensures
        r == key_lt(key_view(*a), key_view(*b)),
{
    let c = compare_texts(&a.0, &b.0);
    if c < 0 {
        true
    } else if c > 0 {
        proof {
            lemma_text_lt_order(a.0@, b.0@, a.0@);
        }
        false
    } else {
        compare_texts(&a.1, &b.1) < 0
    }
}

/// Puts `k` into the ascending `ks` at its place.
pub(crate) fn insert_in_order(ks: &mut Vec<(Vec<char>, Vec<char>)>, k: (Vec<char>, Vec<char>))
    requires
        ascending(key_views(old(ks)@)),
        !key_views(old(ks)@).contains(key_view(k)),
    ensures
        ascending(key_views(final(ks)@)),
        key_views(final(ks)@).to_set() == key_views(old(ks)@).to_set().insert(key_view(k)),
{
    let ghost before = key_views(ks@);
    let ghost x = key_view(k);
    let mut p: usize = 0;
    while p < ks.len()
        invariant
            p <= ks.len(),
            before == key_views(ks@),
            forall|q: int| 0 <= q < p ==> key_lt(before[q], x),
            !before.contains(x),
            x == key_view(k),
        ensures
            p <= ks.len(),
            p < ks.len() ==> key_lt(x, before[p as int]),
        decreases ks.len() - p,
    {
        if key_less(&k, &ks[p]) {
            assert(before[p as int] == key_view(ks@[p as int]));
            break;
        }
        proof {
            assert(before[p as int] == key_view(ks@[p as int]));
            assert(before[p as int] != x);
            lemma_key_lt_order(x, before[p as int], x);
        }
        p = p + 1;
    }
    ks.insert(p, k);
    proof {
        let after = key_views(ks@);
        assert(after =~= before.insert(p as int, x));
        assert forall|i: int, j: int| 0 <= i < j < after.len() implies key_lt(after[i], after[j]) by {
            if j < p {
            } else if i < p && j == p {
            } else if i < p {
                assert(after[j] == before[j - 1]);
                if p < before.len() {
                    lemma_key_lt_order(before[i], x, before[j - 1]);
                    lemma_key_lt_order(x, before[p as int], before[j - 1]);
                    if j - 1 > p {
                        assert(key_lt(before[p as int], before[j - 1]));
                    }
                }
            } else if i == p {
                assert(after[j] == before[j - 1]);
                if j - 1 > p {
                    lemma_key_lt_order(x, before[p as int], before[j - 1]);
                }
            } else {
                assert(after[i] == before[i - 1] && after[j] == before[j - 1]);
            }
        }
        assert(after.to_set() =~= before.to_set().insert(x)) by {
            assert forall|y: SortKey|
                after.to_set().contains(y) implies before.to_set().insert(x).contains(y) by {
                let j = choose|j: int| 0 <= j < after.len() && after[j] == y;
                if j < p {
                    assert(before[j] == y);
                } else if j > p {
                    assert(before[j - 1] == y);
                }
            }
            assert forall|y: SortKey|
                before.to_set().insert(x).contains(y) implies after.to_set().contains(y) by {
                if y == x {
                    assert(after[p as int] == y);
                } else {
                    let j = choose|j: int| 0 <= j < before.len() && before[j] == y;
                    if j < p {
                        assert(after[j] == y);
                    } else {
                        assert(after[j + 1] == y);
                    }
                }
            }
        }
    }
}

} // verus!
