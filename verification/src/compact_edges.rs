//! A frozen, sorted set of node ids for read-only edge storage.

use vstd::prelude::*;
use std::collections::HashSet;
use crate::node::NodeId;
use crate::sorting::lemma_insert_elements;

verus! {

broadcast use {vstd::std_specs::hash::group_hash_axioms, vstd::seq_lib::group_seq_properties};

/// Strictly increasing.
pub open spec fn strictly_sorted(s: Seq<NodeId>) -> bool {
    forall|i: int, j: int| 0 <= i < j < s.len() ==> s[i] < s[j]
}

/// A frozen, sorted set of `NodeId`s for read-only edge storage.
///
/// After postprocessing, edges are never mutated — only iterated, counted,
/// and membership-tested. `CompactEdgeSet` stores targets as a sorted
/// `Vec<NodeId>`, giving sequential memory layout (cache-friendly iteration)
/// and `O(log n)` binary-search `contains`.
#[derive(Debug)]
pub struct CompactEdgeSet {
    ids: Vec<NodeId>,
}

impl View for CompactEdgeSet {
    type V = Seq<NodeId>;

    /// The ids, in increasing order.
    closed spec fn view(&self) -> Seq<NodeId> {
        self.ids@
    }
}

impl CompactEdgeSet {
    /// The ids are stored in strictly increasing order.
    pub closed spec fn wf(&self) -> bool {
        strictly_sorted(self.ids@)
    }

    /// A well-formed set is strictly sorted.
    pub proof fn lemma_wf_sorted(&self)
        requires
            self.wf(),
        ensures
            strictly_sorted(self@),
    {
    }

    /// Whether `id` is in the set, found by binary search.
    pub fn contains(&self, id: &NodeId) -> (r: bool)
        requires
            self.wf(),
        ensures
            r == self@.contains(*id),
    {
        let mut lo: usize = 0;
        let mut hi: usize = self.ids.len();
        while lo < hi
            invariant
                lo <= hi <= self.ids@.len(),
                strictly_sorted(self.ids@),
                forall|j: int| 0 <= j < lo ==> self.ids@[j] < *id,
                forall|j: int| hi <= j < self.ids@.len() ==> self.ids@[j] > *id,
            decreases hi - lo,
        {
            let mid = lo + (hi - lo) / 2;
            let v = self.ids[mid];
            if v == *id {
                return true;
            } else if v < *id {
                lo = mid + 1;
            } else {
                hi = mid;
            }
        }
        false
    }

    pub fn is_empty(&self) -> (r: bool)
        ensures
            r == (self@.len() == 0),
    {
        self.ids.is_empty()
    }

    pub fn len(&self) -> (r: usize)
        ensures
            r == self@.len(),
    {
        self.ids.len()
    }

    /// The ids in increasing order.
    pub fn iter(&self) -> (r: std::slice::Iter<'_, NodeId>)
        ensures
            vstd::std_specs::iter::IteratorSpec::remaining(&r).unref() == self@,
    {
        self.ids.iter()
    }

    /// The set holding exactly the ids of `set`.
    pub fn from_set(set: HashSet<NodeId>) -> (r: Self)
        ensures
            r.wf(),
            r@.to_set() == set@,
            r@.len() == set@.len(),
    {
        let mut ids: Vec<NodeId> = Vec::new();
        for x in it: set.iter()
            invariant
                strictly_sorted(ids@),
                ids@.to_set() == it.seq().take(it.index() as int).unref().to_set(),
                it.seq().unref().no_duplicates(),
                it.seq().unref().to_set() == set@,
                it.index() == it.seq().len() ==> ids@.to_set() == set@,
        {
            assert(*x == it.seq()[it.index() as int]);
            let x = *x;
            let mut p: usize = 0;
            while p < ids.len() && ids[p] < x
                invariant
                    p <= ids@.len(),
                    strictly_sorted(ids@),
                    forall|j: int| 0 <= j < p ==> ids@[j] < x,
                decreases ids@.len() - p,
            {
                p = p + 1;
            }
            let ghost before = ids@;
            proof {
                let u = it.seq().unref();
                let idx = it.index() as int;
                assert(u[idx] == x);
                assert(!before.contains(x)) by {
                    if before.contains(x) {
                        assert(before.to_set().contains(x));
                        assert(it.seq().take(idx).unref().to_set().contains(x));
                        let j = choose|j: int| 0 <= j < idx && it.seq().take(idx).unref()[j] == x;
                        assert(u[j] == x);
                    }
                }
                if p < before.len() {
                    assert(before[p as int] != x);
                }
            }
            ids.insert(p, x);
            proof {
                let idx = it.index() as int;
                assert(ids@ =~= before.insert(p as int, x));
                assert(it.seq().take(idx + 1).unref() =~= it.seq().take(idx).unref().push(x));
                lemma_insert_elements(before, p as int, x);
                assert(strictly_sorted(ids@)) by {
                    assert forall|a: int, b: int| 0 <= a < b < ids@.len() implies ids@[a] < ids@[b] by {
                        if b < p {
                        } else if b == p {
                        } else if a == p {
                            if b - 1 > p {
                                assert(before[p as int] < before[b - 1]);
                            }
                        } else if a < p {
                            if b - 1 > p {
                                assert(before[p as int] < before[b - 1]);
                            }
                        } else {
                            assert(before[a - 1] < before[b - 1]);
                        }
                    }
                }
                assert(it.seq().take(it.seq().len() as int) =~= it.seq());
                assert(it.seq().take(idx).unref().push(x).to_set() =~= it.seq().take(idx).unref().to_set().insert(x));
                assert(ids@.to_set() == it.seq().take(idx + 1).unref().to_set());
                assert(idx + 1 == it.seq().len() ==> it.seq().take(idx + 1) == it.seq());
            }
        }
        proof {
            assert(ids@.no_duplicates()) by {
                assert forall|a: int, b: int| 0 <= a < ids@.len() && 0 <= b < ids@.len() && a != b implies ids@[a]
                    != ids@[b] by {
                    if a < b {
                        assert(ids@[a] < ids@[b]);
                    } else {
                        assert(ids@[b] < ids@[a]);
                    }
                }
            }
            ids@.unique_seq_to_set();
        }
        CompactEdgeSet { ids }
    }
}

/// A set built from a hash set holds exactly the ids of that set, in
/// increasing order, each once.
pub proof fn law_from_set_membership(s: Seq<NodeId>, set: Set<NodeId>, id: NodeId)
    requires
        strictly_sorted(s),
        s.to_set() == set,
    ensures
        s.contains(id) <==> set.contains(id),
        s.no_duplicates(),
        forall|i: int, j: int| 0 <= i < j < s.len() ==> s[i] < s[j],
{
    assert(s.contains(id) ==> s.to_set().contains(id));
    assert forall|a: int, b: int| 0 <= a < s.len() && 0 <= b < s.len() && a != b implies s[a] != s[b] by {
        if a < b {
            assert(s[a] < s[b]);
        } else {
            assert(s[b] < s[a]);
        }
    }
}

impl Clone for CompactEdgeSet {
    fn clone(&self) -> (r: Self)
        ensures
            r@ == self@,
            self.wf() ==> r.wf(),
    {
        let ids = self.ids.clone();
        assert(ids@ =~= self.ids@);
        CompactEdgeSet { ids }
    }
}

impl From<HashSet<NodeId>> for CompactEdgeSet {
    /// The set holding exactly the ids of `set`, in increasing order.
    fn from(set: HashSet<NodeId>) -> (r: Self)
        ensures
            r.wf(),
            r@.to_set() == set@,
            r@.len() == set@.len(),
    {
        Self::from_set(set)
    }
}

/// `from` is specified by its own `ensures`: the ids of the hash set, in
/// increasing order. Two sets with the same ids are not claimed equal as
/// values (their vectors may differ in capacity), so `from` is not tied to
/// one spec value.
impl vstd::std_specs::convert::FromSpecImpl<HashSet<NodeId>> for CompactEdgeSet {
    open spec fn obeys_from_spec() -> bool {
        false
    }

    open spec fn from_spec(v: HashSet<NodeId>) -> Self {
        choose|r: CompactEdgeSet| r.wf() && r@.to_set() == v@
    }
}

impl<'a> IntoIterator for &'a CompactEdgeSet {
    type Item = &'a NodeId;
    type IntoIter = std::slice::Iter<'a, NodeId>;

    /// The ids in increasing order.
    fn into_iter(self) -> (r: std::slice::Iter<'a, NodeId>)
        ensures
            vstd::std_specs::iter::IteratorSpec::remaining(&r).unref() == self@,
    {
        self.ids.iter()
    }
}

impl Default for CompactEdgeSet {
    fn default() -> (r: Self)
        ensures
            r.wf(),
            r@ == Seq::<NodeId>::empty(),
    {
        CompactEdgeSet { ids: Vec::new() }
    }
}

} // verus!
