//! String interning: each distinct string gets a small, copyable handle.

use vstd::prelude::*;
use vstd::hash_map::StringHashMap;
use vstd::string::StringExecFns;

verus! {

broadcast use vstd::hash_map::group_hash_map_axioms;

/// An interned symbol identifier: a cheap, copyable handle to a string.
#[derive(Clone, Copy, PartialEq, Eq, Structural, PartialOrd, Ord, Hash, Debug)]
pub struct SymId(u32);

impl SymId {
    /// The position of the symbol in its interner's table.
    pub closed spec fn index(self) -> nat {
        self.0 as nat
    }

    /// An id is determined by its position: ids with the same index are
    /// the same id.
    pub proof fn lemma_index_injective(self, other: SymId)
        requires
            self.index() == other.index(),
        ensures
            self == other,
    {
    }
}

/// The largest number of strings an interner can hold: one per `u32` value.
pub open spec fn id_capacity() -> nat {
    0x1_0000_0000
}

/// The qualified name `"{a}.{b}"`.
pub open spec fn dotted(a: Seq<char>, b: Seq<char>) -> Seq<char> {
    a + seq!['.'] + b
}

/// Interning `s` into a table `t` of distinct strings: the table afterwards
/// and the position of `s` in it.
pub open spec fn intern_result(t: Seq<Seq<char>>, s: Seq<char>) -> (Seq<Seq<char>>, nat) {
    if t.contains(s) {
        (t, t.index_of(s) as nat)
    } else {
        (t.push(s), t.len())
    }
}

/// Interning a string gives an id that resolves back to that string, and
/// every id handed out before keeps resolving to the same string.
pub proof fn law_intern_resolves(t: Seq<Seq<char>>, s: Seq<char>)
    requires
        t.no_duplicates(),
    ensures
        intern_result(t, s).1 < intern_result(t, s).0.len(),
        intern_result(t, s).0[intern_result(t, s).1 as int] == s,
        intern_result(t, s).0.len() >= t.len(),
        forall|j: int| 0 <= j < t.len() ==> #[trigger] intern_result(t, s).0[j] == t[j],
        intern_result(t, s).0.no_duplicates(),
{
    if t.contains(s) {
        let i = t.index_of(s);
    }
}

/// Interning the same string twice gives the same id, and the second call
/// leaves the table as the first left it.
pub proof fn law_intern_idempotent(t: Seq<Seq<char>>, s: Seq<char>)
    requires
        t.no_duplicates(),
    ensures
        intern_result(intern_result(t, s).0, s) == intern_result(t, s),
{
    let (t1, i) = intern_result(t, s);
    law_intern_resolves(t, s);
    assert(t1.contains(s)) by {
        assert(t1[i as int] == s);
    }
    let j = t1.index_of(s);
    assert(t1[j] == s);
}

/// Two strings interned one after the other get the same id exactly when
/// they are the same string.
pub proof fn law_intern_ids_distinguish(t: Seq<Seq<char>>, s1: Seq<char>, s2: Seq<char>)
    requires
        t.no_duplicates(),
    ensures
        ({
            let (t1, i1) = intern_result(t, s1);
            let (t2, i2) = intern_result(t1, s2);
            i1 == i2 <==> s1 == s2
        }),
{
    let (t1, i1) = intern_result(t, s1);
    law_intern_resolves(t, s1);
    law_intern_resolves(t1, s2);
    if s1 == s2 {
        law_intern_idempotent(t, s1);
    }
}

/// A string interned into a table is found there afterwards.
pub proof fn law_intern_then_contains(t: Seq<Seq<char>>, s: Seq<char>)
    requires
        t.no_duplicates(),
    ensures
        intern_result(t, s).0.contains(s),
{
    law_intern_resolves(t, s);
    let (t1, i) = intern_result(t, s);
    assert(t1[i as int] == s);
}

/// A string interner: deduplicates strings and hands out `SymId` handles.
pub struct Interner {
    map: StringHashMap<SymId>,
    vec: Vec<String>,
}

impl View for Interner {
    type V = Seq<Seq<char>>;

    /// The interned strings, in the order of their ids.
    closed spec fn view(&self) -> Seq<Seq<char>> {
        self.vec@.map_values(|s: String| s@)
    }
}

impl Interner {
    /// The table holds distinct strings, no more than there are ids, and the
    /// hash index maps each of them, and nothing else, to its position.
    pub closed spec fn wf(&self) -> bool {
        &&& self@.no_duplicates()
        &&& self@.len() <= id_capacity()
        &&& forall|i: int| 0 <= i < self@.len()
            ==> #[trigger] self.map@.contains_key(self@[i]) && self.map@[self@[i]].index() == i
        &&& forall|k: Seq<char>| #[trigger] self.map@.contains_key(k)
            ==> self.map@[k].index() < self@.len() && self@[self.map@[k].index() as int] == k
    }

    /// The strings of a well-formed interner are distinct, so the laws on
    /// `intern_result` apply to its table.
    pub proof fn lemma_wf_distinct(&self)
        requires
            self.wf(),
        ensures
            self@.no_duplicates(),
    {
    }

    /// Whether `s` can be interned: it is already there, or an id is free.
    pub open spec fn can_intern(&self, s: Seq<char>) -> bool {
        self@.contains(s) || self@.len() < id_capacity()
    }

    pub fn new() -> (r: Self)
        ensures
            r.wf(),
            r@ == Seq::<Seq<char>>::empty(),
    {
        let r = Interner { map: StringHashMap::new(), vec: Vec::new() };
        assert(r@ =~= Seq::<Seq<char>>::empty());
        r
    }

    proof fn lemma_index_of(&self, i: int)
        requires
            self.wf(),
            0 <= i < self@.len(),
        ensures
            self@.index_of(self@[i]) == i,
    {
        let j = self@.index_of(self@[i]);
        assert(self@.contains(self@[i]));
    }

    /// Intern a string, returning its unique `SymId`. Creates a new entry if
    /// the string has not been seen before.
    pub fn intern(&mut self, s: &str) -> (id: SymId)
        requires
            old(self).wf(),
            old(self).can_intern(s@),
        ensures
            final(self).wf(),
            (final(self)@, id.index()) == intern_result(old(self)@, s@),
    {
        if let Some(found) = self.map.get(s) {
            let id = *found;
            proof {
                self.lemma_index_of(id.index() as int);
            }
            return id;
        }
        proof {
            if self@.contains(s@) {
                let i = self@.index_of(s@);
                assert(self.map@.contains_key(self@[i]));
            }
        }
        let id = SymId(self.vec.len() as u32);
        let owned = s.to_owned();
        self.map.insert(owned.clone(), id);
        self.vec.push(owned);
        proof {
            let old_t = old(self)@;
            assert(self@ =~= old_t.push(s@));
            assert forall|k: Seq<char>| #[trigger] self.map@.contains_key(k) implies
                self.map@[k].index() < self@.len() && self@[self.map@[k].index() as int] == k by {
                if k != s@ {
                    assert(old(self).map@.contains_key(k));
                }
            }
            assert forall|i: int| 0 <= i < self@.len() implies
                #[trigger] self.map@.contains_key(self@[i]) && self.map@[self@[i]].index() == i by {
                if i < old_t.len() {
                    assert(old_t[i] != s@);
                    assert(old(self).map@.contains_key(old_t[i]));
                }
            }
        }
        id
    }

    /// Intern the qualified name `"{a}.{b}"` built from two interned strings.
    pub fn intern_join(&mut self, a: SymId, b: SymId) -> (id: SymId)
        requires
            old(self).wf(),
            a.index() < old(self)@.len(),
            b.index() < old(self)@.len(),
            old(self).can_intern(dotted(old(self)@[a.index() as int], old(self)@[b.index() as int])),
        ensures
            final(self).wf(),
            (final(self)@, id.index()) == intern_result(
                old(self)@,
                dotted(old(self)@[a.index() as int], old(self)@[b.index() as int]),
            ),
    {
        let mut joined = self.vec[a.0 as usize].clone();
        proof {
            reveal_strlit(".");
        }
        joined.append(".");
        joined.append(self.vec[b.0 as usize].as_str());
        assert(joined@ =~= dotted(self@[a.index() as int], self@[b.index() as int]));
        self.intern(joined.as_str())
    }

    /// Look up a string without creating a new entry. Returns `None` if the
    /// string has never been interned.
    pub fn lookup(&self, s: &str) -> (r: Option<SymId>)
        requires
            self.wf(),
        ensures
            match r {
                Some(id) => id.index() < self@.len() && self@[id.index() as int] == s@,
                None => !self@.contains(s@),
            },
    {
        match self.map.get(s) {
            Some(id) => Some(*id),
            None => {
                proof {
                    if self@.contains(s@) {
                        let i = self@.index_of(s@);
                        assert(self.map@.contains_key(self@[i]));
                    }
                }
                None
            },
        }
    }

    /// Resolve a `SymId` back to its string.
    pub fn resolve(&self, id: SymId) -> (r: &str)
        requires
            self.wf(),
            id.index() < self@.len(),
        ensures
            r@ == self@[id.index() as int],
    {
        self.vec[id.0 as usize].as_str()
    }
}

impl Default for Interner {
    fn default() -> (r: Self)
        ensures
            r.wf(),
            r@ == Seq::<Seq<char>>::empty(),
    {
        Self::new()
    }
}

} // verus!
