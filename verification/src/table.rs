//! Small keyed collections used by the scope tables: a set of node ids, a
//! set of names, and a name-keyed table that can be walked in order.

use vstd::prelude::*;

verus! {

broadcast use vstd::seq_lib::group_seq_properties;

/// The character sequences of a list of strings.
pub open spec fn string_views(v: Seq<String>) -> Seq<Seq<char>> {
    v.map_values(|s: String| s@)
}

/// A set of node ids.
pub struct IdSet {
    ids: Vec<usize>,
}

impl View for IdSet {
    type V = Set<usize>;

    closed spec fn view(&self) -> Set<usize> {
        self.ids@.to_set()
    }
}

impl IdSet {
    /// No id is stored twice.
    pub closed spec fn wf(&self) -> bool {
        self.ids@.no_duplicates()
    }

    pub fn new() -> (r: Self)
        ensures
            r.wf(),
            r@ == Set::<usize>::empty(),
    {
        let r = IdSet { ids: Vec::new() };
        assert(r@ =~= Set::<usize>::empty());
        r
    }

    pub fn contains(&self, id: usize) -> (r: bool)
        ensures
            r == self@.contains(id),
    {
        let mut i: usize = 0;
        while i < self.ids.len()
            invariant
                i <= self.ids@.len(),
                forall|j: int| 0 <= j < i ==> self.ids@[j] != id,
            decreases self.ids@.len() - i,
        {
            if self.ids[i] == id {
                assert(self.ids@.contains(id));
                return true;
            }
            i = i + 1;
        }
        false
    }

    pub fn insert(&mut self, id: usize)
        requires
            old(self).wf(),
        ensures
            final(self).wf(),
            final(self)@ == old(self)@.insert(id),
    {
        if !self.contains(id) {
            self.ids.push(id);
        }
        assert(self@ =~= old(self)@.insert(id));
    }

    /// The number of ids.
    pub fn len(&self) -> (r: usize)
        requires
            self.wf(),
        ensures
            r == self@.len(),
    {
        proof {
            self.ids@.unique_seq_to_set();
        }
        self.ids.len()
    }

    /// Add every id of `other`.
    pub fn union_with(&mut self, other: &IdSet)
        requires
            old(self).wf(),
        ensures
            final(self).wf(),
            final(self)@ == old(self)@.union(other@),
    {
        let mut i: usize = 0;
        while i < other.ids.len()
            invariant
                i <= other.ids@.len(),
                self.wf(),
                self@ == old(self)@.union(other.ids@.take(i as int).to_set()),
            decreases other.ids@.len() - i,
        {
            self.insert(other.ids[i]);
            assert(other.ids@.take(i + 1) =~= other.ids@.take(i as int).push(other.ids@[i as int]));
            assert(self@ =~= old(self)@.union(other.ids@.take(i + 1).to_set()));
            i = i + 1;
        }
        assert(other.ids@.take(i as int) =~= other.ids@);
    }
}

impl Clone for IdSet {
    fn clone(&self) -> (r: Self)
        ensures
            r@ == self@,
            self.wf() ==> r.wf(),
    {
        IdSet { ids: self.ids.clone() }
    }
}

/// A set of names.
pub struct NameSet {
    names: Vec<String>,
}

impl View for NameSet {
    type V = Set<Seq<char>>;

    closed spec fn view(&self) -> Set<Seq<char>> {
        string_views(self.names@).to_set()
    }
}

impl NameSet {
    /// No name is stored twice.
    pub closed spec fn wf(&self) -> bool {
        string_views(self.names@).no_duplicates()
    }

    pub fn new() -> (r: Self)
        ensures
            r.wf(),
            r@ == Set::<Seq<char>>::empty(),
    {
        let r = NameSet { names: Vec::new() };
        assert(r@ =~= Set::<Seq<char>>::empty());
        r
    }

    pub fn contains(&self, name: &String) -> (r: bool)
        ensures
            r == self@.contains(name@),
    {
        let mut i: usize = 0;
        while i < self.names.len()
            invariant
                i <= self.names@.len(),
                forall|j: int| 0 <= j < i ==> string_views(self.names@)[j] != name@,
            decreases self.names@.len() - i,
        {
            if self.names[i] == *name {
                assert(string_views(self.names@)[i as int] == name@);
                return true;
            }
            i = i + 1;
        }
        false
    }

    pub fn insert(&mut self, name: String)
        requires
            old(self).wf(),
        ensures
            final(self).wf(),
            final(self)@ == old(self)@.insert(name@),
    {
        if !self.contains(&name) {
            let ghost n = name@;
            self.names.push(name);
            assert(string_views(self.names@) =~= string_views(old(self).names@).push(n));
        }
        assert(self@ =~= old(self)@.insert(name@));
    }

    /// The number of names.
    pub fn len(&self) -> (r: usize)
        requires
            self.wf(),
        ensures
            r == self@.len(),
    {
        proof {
            string_views(self.names@).unique_seq_to_set();
        }
        self.names.len()
    }
}

impl Clone for NameSet {
    fn clone(&self) -> (r: Self)
        ensures
            r@ == self@,
            self.wf() ==> r.wf(),
    {
        let names = self.names.clone();
        assert(string_views(names@) =~= string_views(self.names@));
        NameSet { names }
    }
}

/// A table keyed by name that keeps its entries in insertion order.
pub struct NameTable<V> {
    keys: Vec<String>,
    values: Vec<V>,
}

impl<V> View for NameTable<V> {
    type V = Map<Seq<char>, V>;

    closed spec fn view(&self) -> Map<Seq<char>, V> {
        Map::new(
            |k: Seq<char>| self.key_seq().contains(k),
            |k: Seq<char>| self.values@[self.key_seq().index_of(k)],
        )
    }
}

impl<V> NameTable<V> {
    /// The keys, in the order the entries were first inserted.
    pub closed spec fn key_seq(&self) -> Seq<Seq<char>> {
        string_views(self.keys@)
    }

    /// The values, in the order of `key_seq`.
    pub closed spec fn value_seq(&self) -> Seq<V> {
        self.values@
    }

    /// Keys are distinct and each has exactly one value.
    pub closed spec fn wf(&self) -> bool {
        &&& self.keys@.len() == self.values@.len()
        &&& self.key_seq().no_duplicates()
    }

    /// The entries, walked in order, are exactly the table.
    pub proof fn lemma_entries(&self)
        requires
            self.wf(),
        ensures
            self.key_seq().len() == self.value_seq().len(),
            self.key_seq().no_duplicates(),
            forall|i: int| 0 <= i < self.key_seq().len() ==> {
                &&& #[trigger] self@.contains_key(self.key_seq()[i])
                &&& self@[self.key_seq()[i]] == self.value_seq()[i]
            },
            forall|k: Seq<char>| #[trigger] self@.contains_key(k) <==> self.key_seq().contains(k),
            self@.dom() == self.key_seq().to_set(),
            self@.dom().finite(),
            self@.len() == self.key_seq().len(),
    {
        assert forall|i: int| 0 <= i < self.key_seq().len() implies {
            &&& #[trigger] self@.contains_key(self.key_seq()[i])
            &&& self@[self.key_seq()[i]] == self.value_seq()[i]
        } by {
            let k = self.key_seq()[i];
            assert(self.key_seq().contains(k));
            let j = self.key_seq().index_of(k);
            assert(self.key_seq()[j] == k);
        }
        assert(self@.dom() =~= self.key_seq().to_set());
        self.key_seq().unique_seq_to_set();
    }

    pub fn new() -> (r: Self)
        ensures
            r.wf(),
            r@ == Map::<Seq<char>, V>::empty(),
            r.key_seq() == Seq::<Seq<char>>::empty(),
            r.value_seq() == Seq::<V>::empty(),
    {
        let r = NameTable { keys: Vec::new(), values: Vec::new() };
        assert(r.key_seq() =~= Seq::<Seq<char>>::empty());
        assert(r@ =~= Map::<Seq<char>, V>::empty());
        r
    }

    pub fn len(&self) -> (r: usize)
        requires
            self.wf(),
        ensures
            r == self.key_seq().len(),
            r == self@.len(),
    {
        proof {
            self.lemma_entries();
        }
        self.keys.len()
    }

    /// The position of `key`, if the table holds it.
    pub fn find(&self, key: &String) -> (r: Option<usize>)
        requires
            self.wf(),
        ensures
            match r {
                Some(i) => i < self.key_seq().len() && self.key_seq()[i as int] == key@,
                None => !self@.contains_key(key@),
            },
    {
        let mut i: usize = 0;
        while i < self.keys.len()
            invariant
                i <= self.keys@.len(),
                forall|j: int| 0 <= j < i ==> self.key_seq()[j] != key@,
            decreases self.keys@.len() - i,
        {
            if self.keys[i] == *key {
                return Some(i);
            }
            i = i + 1;
        }
        proof {
            if self.key_seq().contains(key@) {
                let j = self.key_seq().index_of(key@);
                assert(self.key_seq()[j] == key@);
            }
        }
        None
    }

    pub fn key(&self, i: usize) -> (r: &String)
        requires
            i < self.key_seq().len(),
        ensures
            r@ == self.key_seq()[i as int],
    {
        &self.keys[i]
    }

    pub fn value(&self, i: usize) -> (r: &V)
        requires
            self.wf(),
            i < self.key_seq().len(),
        ensures
            *r == self.value_seq()[i as int],
            *r == self@[self.key_seq()[i as int]],
    {
        proof {
            self.lemma_entries();
        }
        &self.values[i]
    }

    /// The value stored under `key`, if any.
    pub fn get(&self, key: &String) -> (r: Option<&V>)
        requires
            self.wf(),
        ensures
            match r {
                Some(v) => self@.contains_key(key@) && *v == self@[key@],
                None => !self@.contains_key(key@),
            },
    {
        proof {
            self.lemma_entries();
        }
        match self.find(key) {
            Some(i) => Some(&self.values[i]),
            None => None,
        }
    }

    /// Mutable access to the value at position `i`; the keys stay as they are.
    pub fn value_mut(&mut self, i: usize) -> (r: &mut V)
        requires
            old(self).wf(),
            i < old(self).key_seq().len(),
        ensures
            *r == old(self).value_seq()[i as int],
            final(self).wf(),
            final(self).key_seq() == old(self).key_seq(),
            final(self).value_seq() == old(self).value_seq().update(i as int, *final(r)),
    {
        &mut self.values[i]
    }

    /// Two tables with the same keys, whose values differ at one position
    /// only, differ as maps at that key only.
    pub proof fn lemma_update_at(old_t: &Self, new_t: &Self, i: int, v: V)
        requires
            old_t.wf(),
            new_t.wf(),
            0 <= i < old_t.key_seq().len(),
            new_t.key_seq() == old_t.key_seq(),
            new_t.value_seq() == old_t.value_seq().update(i, v),
        ensures
            new_t@ == old_t@.insert(old_t.key_seq()[i], v),
    {
        old_t.lemma_entries();
        new_t.lemma_entries();
        let k0 = old_t.key_seq()[i];
        assert forall|k: Seq<char>| #[trigger] new_t@.contains_key(k) implies new_t@[k]
            == old_t@.insert(k0, v)[k] by {
            let j = new_t.key_seq().index_of(k);
            assert(new_t.key_seq()[j] == k);
            if k != k0 {
                assert(j != i);
            }
        }
        assert(new_t@ =~= old_t@.insert(k0, v));
    }

    /// Store `value` under `key`, replacing what was there.
    pub fn insert(&mut self, key: String, value: V)
        requires
            old(self).wf(),
        ensures
            final(self).wf(),
            final(self)@ == old(self)@.insert(key@, value),
            old(self)@.contains_key(key@) ==> final(self).key_seq() == old(self).key_seq(),
            !old(self)@.contains_key(key@) ==> final(self).key_seq() == old(self).key_seq().push(
                key@,
            ),
            old(self)@.contains_key(key@) ==> final(self).value_seq() == old(self).value_seq().update(
                old(self).key_seq().index_of(key@),
                value,
            ),
            !old(self)@.contains_key(key@) ==> final(self).value_seq() == old(self).value_seq().push(
                value,
            ),
    {
        proof {
            self.lemma_entries();
        }
        match self.find(&key) {
            Some(i) => {
                self.values.set(i, value);
                proof {
                    assert(old(self).key_seq().contains(key@));
                    let j = old(self).key_seq().index_of(key@);
                    assert(old(self).key_seq()[j] == key@);
                    assert(j == i);
                    assert(self.key_seq() == old(self).key_seq());
                    assert(self@ =~= old(self)@.insert(key@, value)) by {
                        assert forall|k: Seq<char>| #[trigger] self@.contains_key(k) implies self@[k]
                            == old(self)@.insert(key@, value)[k] by {
                            let j = self.key_seq().index_of(k);
                            assert(self.key_seq()[j] == k);
                            if k != key@ {
                                assert(j != i);
                                assert(old(self)@.contains_key(k));
                                let j0 = old(self).key_seq().index_of(k);
                                assert(old(self).key_seq()[j0] == k);
                            } else {
                                assert(self.key_seq()[i as int] == k);
                            }
                        }
                    }
                }
            },
            None => {
                let ghost kv = key@;
                self.keys.push(key);
                self.values.push(value);
                proof {
                    assert(self.key_seq() =~= old(self).key_seq().push(kv));
                    assert(self@ =~= old(self)@.insert(kv, value)) by {
                        assert forall|k: Seq<char>| #[trigger] self@.contains_key(k) implies self@[k]
                            == old(self)@.insert(kv, value)[k] by {
                            let j = self.key_seq().index_of(k);
                            assert(self.key_seq()[j] == k);
                            if k != kv {
                                assert(old(self).key_seq().contains(k));
                                let j0 = old(self).key_seq().index_of(k);
                                assert(old(self).key_seq()[j0] == k);
                                assert(self.key_seq()[j0] == k);
                            } else {
                                let n = old(self).key_seq().len() as int;
                                assert(self.key_seq()[n] == k);
                            }
                        }
                        assert forall|k: Seq<char>| old(self)@.insert(kv, value).contains_key(k)
                            implies #[trigger] self@.contains_key(k) by {
                            if k != kv {
                                let j0 = old(self).key_seq().index_of(k);
                                assert(self.key_seq()[j0] == k);
                            } else {
                                let n = old(self).key_seq().len() as int;
                                assert(self.key_seq()[n] == k);
                            }
                        }
                    }
                }
            },
        }
    }
}

} // verus!
