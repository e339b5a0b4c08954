//! Lexical scopes and the scope stack used for name resolution.

use vstd::prelude::*;
use vstd::hash_map::StringHashMap;
use vstd::hash_set::StringHashSet;
use vstd::string::StringExecFns;

verus! {

/// The characters of an optional string.
pub open spec fn opt_string_view(o: Option<String>) -> Option<Seq<char>> {
    match o {
        Some(s) => Some(s@),
        None => None,
    }
}

/// What a scope holds, as plain values.
#[verifier::ext_equal]
pub struct ScopeView {
    pub name: Seq<char>,
    pub defs: Map<Seq<char>, Option<Seq<char>>>,
    pub locals: Set<Seq<char>>,
}

/// Tracks name bindings within a lexical scope.
pub struct Scope {
    /// The fully qualified name of this scope (e.g., "module.Class.method").
    pub name: String,
    /// Names defined (bound) in this scope, each with its fully qualified
    /// target where one is known.
    pub defs: StringHashMap<Option<String>>,
    /// Names that are local-only (assigned in this scope).
    pub locals: StringHashSet,
}

impl View for Scope {
    type V = ScopeView;

    open spec fn view(&self) -> ScopeView {
        ScopeView {
            name: self.name@,
            defs: self.defs@.map_values(|o: Option<String>| opt_string_view(o)),
            locals: self.locals@,
        }
    }
}

/// A copy of an optional string.
fn copy_opt_string(o: &Option<String>) -> (r: Option<String>)
    ensures
        opt_string_view(r) == opt_string_view(*o),
{
    match o {
        Some(s) => Some(s.clone()),
        None => None,
    }
}

impl Scope {
    pub fn new(name: &str) -> (r: Self)
        ensures
            r@ == (ScopeView { name: name@, defs: Map::empty(), locals: Set::empty() }),
    {
        let r = Scope { name: name.to_owned(), defs: StringHashMap::new(), locals: StringHashSet::new() };
        assert(r@.defs =~= Map::empty());
        r
    }

    /// Bind a name in this scope, optionally to a fully qualified target.
    pub fn bind(&mut self, name: &str, target: Option<&str>)
        ensures
            final(self)@ == bound(
                old(self)@,
                name@,
                match target {
                    Some(t) => Some(t@),
                    None => None,
                },
            ),
    {
        let owned_target = match target {
            Some(t) => Some(t.to_owned()),
            None => None,
        };
        let ghost tv = opt_string_view(owned_target);
        self.defs.insert(name.to_owned(), owned_target);
        self.locals.insert(name.to_owned());
        assert(self@.defs =~= old(self)@.defs.insert(name@, tv));
    }

    /// Look up a name in this scope.
    pub fn get(&self, name: &str) -> (r: Option<&Option<String>>)
        ensures
            match r {
                Some(t) => self@.defs.contains_key(name@) && opt_string_view(*t) == self@.defs[name@],
                None => !self@.defs.contains_key(name@),
            },
    {
        self.defs.get(name)
    }

    /// Check if a name is defined in this scope.
    pub fn has(&self, name: &str) -> (r: bool)
        ensures
            r == self@.defs.contains_key(name@),
    {
        self.defs.contains_key(name)
    }
}

/// The target that `name` resolves to in a stack of scopes: the binding
/// of the innermost scope that binds it (which may bind it to no target),
/// or none where no scope binds it.
pub open spec fn resolve_in(scopes: Seq<ScopeView>, name: Seq<char>) -> Option<Seq<char>>
    decreases scopes.len(),
{
    if scopes.len() == 0 {
        None
    } else if scopes.last().defs.contains_key(name) {
        scopes.last().defs[name]
    } else {
        resolve_in(scopes.drop_last(), name)
    }
}

/// Whether some scope of the stack binds `name`.
pub open spec fn defined_in(scopes: Seq<ScopeView>, name: Seq<char>) -> bool {
    exists|i: int| 0 <= i < scopes.len() && (#[trigger] scopes[i]).defs.contains_key(name)
}

/// Names joined with `.` between each two.
pub open spec fn join_dotted(names: Seq<Seq<char>>) -> Seq<char>
    decreases names.len(),
{
    if names.len() == 0 {
        Seq::empty()
    } else if names.len() == 1 {
        names[0]
    } else {
        join_dotted(names.drop_last()) + seq!['.'] + names.last()
    }
}

/// A stack of scopes for lexical name resolution.
pub struct ScopeStack {
    scopes: Vec<Scope>,
}

impl View for ScopeStack {
    type V = Seq<ScopeView>;

    /// The scopes, outermost first.
    closed spec fn view(&self) -> Seq<ScopeView> {
        self.scopes@.map_values(|s: Scope| s@)
    }
}

impl Default for ScopeStack {
    fn default() -> (r: Self)
        ensures
            r@ == Seq::<ScopeView>::empty(),
    {
        Self::new()
    }
}

impl ScopeStack {
    pub fn new() -> (r: Self)
        ensures
            r@ == Seq::<ScopeView>::empty(),
    {
        let r = Self { scopes: Vec::new() };
        assert(r@ =~= Seq::<ScopeView>::empty());
        r
    }

    pub fn push(&mut self, scope: Scope)
        ensures
            final(self)@ == old(self)@.push(scope@),
    {
        self.scopes.push(scope);
        assert(self@ =~= old(self)@.push(scope@));
    }

    pub fn pop(&mut self) -> (r: Option<Scope>)
        ensures
            old(self)@.len() == 0 ==> r is None && final(self)@ == old(self)@,
            old(self)@.len() > 0 ==> r is Some && r->0@ == old(self)@.last() && final(self)@
                == old(self)@.drop_last(),
    {
        let r = self.scopes.pop();
        assert(self@ =~= if old(self)@.len() == 0 {
            old(self)@
        } else {
            old(self)@.drop_last()
        });
        r
    }

    pub fn current(&self) -> (r: Option<&Scope>)
        ensures
            self@.len() == 0 ==> r is None,
            self@.len() > 0 ==> r is Some && r->0@ == self@.last(),
    {
        self.scopes.last()
    }

    pub fn current_mut(&mut self) -> (r: Option<&mut Scope>)
        ensures
            old(self)@.len() == 0 ==> r is None && final(self)@ == old(self)@,
            old(self)@.len() > 0 ==> r is Some && (*r->0)@ == old(self)@.last() && final(self)@
                == old(self)@.update(old(self)@.len() - 1, (*final(r->0))@),
    {
        let n = self.scopes.len();
        if n == 0 {
            None
        } else {
            Some(&mut self.scopes[n - 1])
        }
    }

    /// Look up a name by walking scopes from innermost to outermost.
    /// Returns the fully qualified target if bound, or None.
    pub fn resolve(&self, name: &str) -> (r: Option<String>)
        ensures
            opt_string_view(r) == resolve_in(self@, name@),
    {
        let mut i = self.scopes.len();
        assert(self@.take(i as int) =~= self@);
        while i > 0
            invariant
                i <= self@.len(),
                resolve_in(self@, name@) == resolve_in(self@.take(i as int), name@),
            decreases i,
        {
            let scope = &self.scopes[i - 1];
            assert(self@.take(i as int).drop_last() =~= self@.take(i - 1));
            if let Some(target) = scope.defs.get(name) {
                return copy_opt_string(target);
            }
            i = i - 1;
        }
        None
    }

    /// Check if a name is defined in any scope.
    pub fn is_defined(&self, name: &str) -> (r: bool)
        ensures
            r == defined_in(self@, name@),
    {
        let mut i = self.scopes.len();
        while i > 0
            invariant
                i <= self@.len(),
                forall|j: int| i <= j < self@.len() ==> !(#[trigger] self@[j]).defs.contains_key(name@),
            decreases i,
        {
            if self.scopes[i - 1].defs.contains_key(name) {
                assert(self@[i - 1].defs.contains_key(name@));
                return true;
            }
            i = i - 1;
        }
        false
    }

    /// Get the current namespace (fully qualified scope name).
    pub fn current_namespace(&self) -> (r: String)
        ensures
            r@ == join_dotted(self@.map_values(|s: ScopeView| s.name)),
    {
        let ghost names = self@.map_values(|s: ScopeView| s.name);
        let mut out = String::new();
        proof {
            reveal_strlit(".");
        }
        let mut i: usize = 0;
        while i < self.scopes.len()
            invariant
                i <= self@.len(),
                names == self@.map_values(|s: ScopeView| s.name),
                out@ == join_dotted(names.take(i as int)),
            decreases self@.len() - i,
        {
            assert(names.take(i + 1).drop_last() =~= names.take(i as int));
            proof {
                reveal_strlit(".");
            }
            if i > 0 {
                out.append(".");
            }
            out.append(self.scopes[i].name.as_str());
            proof {
                if i == 0 {
                    assert(out@ =~= names.take(1)[0]);
                } else {
                    assert(names.take(i + 1).last() == self.scopes@[i as int].name@);
                    assert(out@ =~= join_dotted(names.take(i as int)) + seq!['.'] + names.take(
                        i + 1,
                    ).last());
                }
            }
            i = i + 1;
        }
        assert(names.take(i as int) =~= names);
        out
    }

    pub fn depth(&self) -> (r: usize)
        ensures
            r == self@.len(),
    {
        self.scopes.len()
    }
}

/// The scope after `bind(name, target)`.
pub open spec fn bound(v: ScopeView, name: Seq<char>, target: Option<Seq<char>>) -> ScopeView {
    ScopeView { name: v.name, defs: v.defs.insert(name, target), locals: v.locals.insert(name) }
}

/// After binding a name, the scope has it, looking it up gives the target
/// it was bound to, and it counts as local; other names keep their bindings.
pub proof fn law_bind_then_get(v: ScopeView, name: Seq<char>, target: Option<Seq<char>>, other: Seq<char>)
    ensures
        bound(v, name, target).defs.contains_key(name),
        bound(v, name, target).defs[name] == target,
        bound(v, name, target).locals.contains(name),
        other != name ==> (bound(v, name, target).defs.contains_key(other) == v.defs.contains_key(other)
            && bound(v, name, target).defs[other] == v.defs[other]),
{
}

/// A pushed scope shadows the outer ones: a name it binds resolves to its
/// binding, and any other name resolves as before the push.
pub proof fn law_push_shadows(scopes: Seq<ScopeView>, top: ScopeView, name: Seq<char>)
    ensures
        resolve_in(scopes.push(top), name) == if top.defs.contains_key(name) {
            top.defs[name]
        } else {
            resolve_in(scopes, name)
        },
        defined_in(scopes.push(top), name) == (top.defs.contains_key(name) || defined_in(scopes, name)),
{
    assert(scopes.push(top).drop_last() =~= scopes);
    if defined_in(scopes, name) {
        let i = choose|i: int| 0 <= i < scopes.len() && (#[trigger] scopes[i]).defs.contains_key(name);
        assert(scopes.push(top)[i] == scopes[i]);
    }
    if defined_in(scopes.push(top), name) {
        let i = choose|i: int| 0 <= i < scopes.len() + 1 && (#[trigger] scopes.push(top)[i]).defs.contains_key(name);
        if i < scopes.len() {
            assert(scopes[i] == scopes.push(top)[i]);
        }
    }
}

/// Popping a pushed scope gives back the stack as it was.
pub proof fn law_push_then_pop(scopes: Seq<ScopeView>, top: ScopeView)
    ensures
        scopes.push(top).drop_last() == scopes,
        scopes.push(top).last() == top,
        scopes.push(top).len() == scopes.len() + 1,
{
    assert(scopes.push(top).drop_last() =~= scopes);
}

/// A name resolves to a target only where some scope binds it.
pub proof fn law_resolved_is_defined(scopes: Seq<ScopeView>, name: Seq<char>)
    ensures
        resolve_in(scopes, name) is Some ==> defined_in(scopes, name),
    decreases scopes.len(),
{
    if scopes.len() > 0 {
        if scopes.last().defs.contains_key(name) {
            assert(scopes[scopes.len() - 1].defs.contains_key(name));
        } else {
            law_resolved_is_defined(scopes.drop_last(), name);
            if defined_in(scopes.drop_last(), name) {
                let i = choose|i: int| 0 <= i < scopes.len() - 1 && (#[trigger] scopes.drop_last()[i]).defs.contains_key(name);
                assert(scopes[i] == scopes.drop_last()[i]);
            }
        }
    }
}


/// Pushing a scope extends the current namespace by that scope's name:
/// after `.` where there was a namespace, alone where the stack was empty.
pub proof fn law_namespace_push(scopes: Seq<ScopeView>, top: ScopeView)
    ensures
        join_dotted(scopes.push(top).map_values(|s: ScopeView| s.name)) == if scopes.len() == 0 {
            top.name
        } else {
            join_dotted(scopes.map_values(|s: ScopeView| s.name)) + seq!['.'] + top.name
        },
{
    let names = scopes.map_values(|s: ScopeView| s.name);
    let names1 = scopes.push(top).map_values(|s: ScopeView| s.name);
    assert(names1 =~= names.push(top.name));
    assert(names1.drop_last() =~= names);
}

/// A dotted name splits at any inner boundary into the dotted name of the
/// outer part, `.`, and the dotted name of the inner part: every name
/// occurs, outermost first, each separated from the next by one `.`.
pub proof fn law_namespace_split(names: Seq<Seq<char>>, k: int)
    requires
        0 < k < names.len(),
    ensures
        join_dotted(names) == join_dotted(names.take(k)) + seq!['.'] + join_dotted(names.skip(k)),
    decreases names.len(),
{
    let n = names.len();
    if k == n - 1 {
        assert(names.take(k) =~= names.drop_last());
        assert(names.skip(k) =~= seq![names.last()]);
    } else {
        let d = names.drop_last();
        law_namespace_split(d, k);
        assert(d.take(k) =~= names.take(k));
        let r = names.skip(k);
        assert(r.len() >= 2);
        assert(r.drop_last() =~= d.skip(k));
        assert(r.last() == names.last());
        assert(join_dotted(r) == join_dotted(d.skip(k)) + seq!['.'] + names.last());
        assert(join_dotted(names) =~= join_dotted(names.take(k)) + seq!['.'] + join_dotted(names.skip(k)));
    }
}

/// The length of a dotted name: the lengths of all names, plus one `.`
/// between each two.
pub proof fn law_namespace_length(names: Seq<Seq<char>>)
    requires
        names.len() > 0,
    ensures
        join_dotted(names).len() == total_length(names) + names.len() - 1,
    decreases names.len(),
{
    if names.len() > 1 {
        law_namespace_length(names.drop_last());
    } else {
        assert(total_length(names.drop_last()) == 0);
        assert(names.last() == names[0]);
    }
}

/// The sum of the lengths of the names.
pub open spec fn total_length(names: Seq<Seq<char>>) -> int
    decreases names.len(),
{
    if names.len() == 0 {
        0
    } else {
        total_length(names.drop_last()) + names.last().len()
    }
}

} // verus!
