//! Facts about sorted sequences shared by the insertion sorts of the
//! library: inserting into a sorted sequence, and the uniqueness of a
//! sorted arrangement of a set.

use vstd::prelude::*;
use vstd::relations::{total_ordering, sorted_by};

verus! {

/// Inserting `x` at position `p` of a sequence sorted by a total order
/// keeps it sorted, when everything before `p` is at most `x` and what
/// stands at `p` is at least `x`.
pub proof fn lemma_sorted_insert<T>(s: Seq<T>, p: int, x: T, leq: spec_fn(T, T) -> bool)
    requires
        total_ordering(leq),
        sorted_by(s, leq),
        0 <= p <= s.len(),
        forall|j: int| 0 <= j < p ==> #[trigger] leq(s[j], x),
        p < s.len() ==> leq(x, s[p]),
    ensures
        sorted_by(s.insert(p, x), leq),
{
    let t = s.insert(p, x);
    assert forall|a: int, b: int| 0 <= a < b < t.len() implies #[trigger] leq(t[a], t[b]) by {
        if b < p {
            assert(leq(s[a], s[b]));
        } else if b == p {
            assert(leq(s[a], x));
        } else if a == p {
            if b - 1 > p {
                assert(leq(s[p], s[b - 1]));
            }
        } else if a < p {
            assert(leq(s[a], x));
            if b - 1 > p {
                assert(leq(s[p], s[b - 1]));
                assert(leq(x, s[b - 1]));
            }
            assert(leq(x, s[b - 1]));
        } else {
            assert(leq(s[a - 1], s[b - 1]));
        }
    }
}

/// Inserting `x` anywhere adds exactly `x` to the elements; inserting an
/// element not yet present keeps a sequence free of duplicates.
pub proof fn lemma_insert_elements<T>(s: Seq<T>, p: int, x: T)
    requires
        0 <= p <= s.len(),
    ensures
        s.insert(p, x).to_set() == s.to_set().insert(x),
        s.no_duplicates() && !s.contains(x) ==> s.insert(p, x).no_duplicates(),
{
    let t = s.insert(p, x);
    assert forall|y: T| t.to_set().contains(y) implies s.to_set().insert(x).contains(y) by {
        let j = choose|j: int| 0 <= j < t.len() && t[j] == y;
        if j < p {
            assert(s[j] == y);
        } else if j > p {
            assert(s[j - 1] == y);
        }
    }
    assert forall|y: T| s.to_set().insert(x).contains(y) implies t.to_set().contains(y) by {
        if y == x {
            assert(t[p] == x);
        } else {
            let j = choose|j: int| 0 <= j < s.len() && s[j] == y;
            if j < p {
                assert(t[j] == y);
            } else {
                assert(t[j + 1] == y);
            }
        }
    }
    assert(t.to_set() =~= s.to_set().insert(x));
    if s.no_duplicates() && !s.contains(x) {
        assert forall|a: int, b: int| 0 <= a < t.len() && 0 <= b < t.len() && a != b implies t[a] != t[b] by {
            if a == p {
                if b < p {
                    assert(s[b] == t[b]);
                } else {
                    assert(s[b - 1] == t[b]);
                }
            } else if b == p {
                if a < p {
                    assert(s[a] == t[a]);
                } else {
                    assert(s[a - 1] == t[a]);
                }
            } else {
                let a0 = if a < p { a } else { a - 1 };
                let b0 = if b < p { b } else { b - 1 };
                assert(s[a0] == t[a]);
                assert(s[b0] == t[b]);
            }
        }
    }
}

/// Two duplicate-free sequences with the same elements, both sorted by the
/// same total order, are the same sequence.
pub proof fn lemma_sorted_set_unique<T>(s1: Seq<T>, s2: Seq<T>, leq: spec_fn(T, T) -> bool)
    requires
        total_ordering(leq),
        sorted_by(s1, leq),
        sorted_by(s2, leq),
        s1.no_duplicates(),
        s2.no_duplicates(),
        s1.to_set() == s2.to_set(),
    ensures
        s1 == s2,
    decreases s1.len(),
{
    if s1.len() == 0 {
        if s2.len() > 0 {
            assert(s2.to_set().contains(s2[0]));
        }
        assert(s1 =~= s2);
    } else {
        assert(s1.to_set().contains(s1[0]));
        let j = choose|j: int| 0 <= j < s2.len() && s2[j] == s1[0];
        assert(s2.to_set().contains(s2[0]));
        let k = choose|k: int| 0 <= k < s1.len() && s1[k] == s2[0];
        assert(leq(s1[0], s1[k])) by {
            if k > 0 {
                assert(leq(s1[0], s1[k]));
            }
        }
        assert(leq(s2[0], s2[j])) by {
            if j > 0 {
                assert(leq(s2[0], s2[j]));
            }
        }
        assert(s1[0] == s2[0]);
        let t1 = s1.drop_first();
        let t2 = s2.drop_first();
        assert(t1.to_set() == t2.to_set()) by {
            assert forall|y: T| t1.to_set().contains(y) implies t2.to_set().contains(y) by {
                let a = choose|a: int| 0 <= a < t1.len() && t1[a] == y;
                assert(s1[a + 1] == y);
                assert(s1.to_set().contains(y));
                let b = choose|b: int| 0 <= b < s2.len() && s2[b] == y;
                assert(b != 0);
                assert(t2[b - 1] == y);
            }
            assert forall|y: T| t2.to_set().contains(y) implies t1.to_set().contains(y) by {
                let a = choose|a: int| 0 <= a < t2.len() && t2[a] == y;
                assert(s2[a + 1] == y);
                assert(s2.to_set().contains(y));
                let b = choose|b: int| 0 <= b < s1.len() && s1[b] == y;
                assert(b != 0);
                assert(t1[b - 1] == y);
            }
            assert(t1.to_set() =~= t2.to_set());
        }
        assert(sorted_by(t1, leq)) by {
            assert forall|a: int, b: int| 0 <= a < b < t1.len() implies #[trigger] leq(t1[a], t1[b]) by {
                assert(leq(s1[a + 1], s1[b + 1]));
            }
        }
        assert(sorted_by(t2, leq)) by {
            assert forall|a: int, b: int| 0 <= a < b < t2.len() implies #[trigger] leq(t2[a], t2[b]) by {
                assert(leq(s2[a + 1], s2[b + 1]));
            }
        }
        lemma_sorted_set_unique(t1, t2, leq);
        assert(s1 =~= s2) by {
            assert forall|i: int| 0 <= i < s1.len() implies s1[i] == s2[i] by {
                if i > 0 {
                    assert(t1[i - 1] == t2[i - 1]);
                }
            }
        }
    }
}

} // verus!
