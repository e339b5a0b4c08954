//! The scope pre-pass: which names each module, class and function scope
//! binds, collected from the syntax tree before the main analysis, and the
//! merge of the scope tables of several passes.

use vstd::prelude::*;
use vstd::string::StringExecFns;
use crate::intern::dotted;
use crate::syntax::{Alias, ElifElseClause, ExceptHandler, Expr, ModModule, Parameters, Stmt, WithItem};
use crate::table::{IdSet, NameSet, NameTable};

verus! {

broadcast use vstd::seq_lib::group_seq_properties;

// ---------------------------------------------------------------------------
// What a statement binds
// ---------------------------------------------------------------------------

/// The names that an assignment target binds.
pub open spec fn target_names(e: Expr) -> Set<Seq<char>>
    decreases e,
{
    match e {
        Expr::Name(n) => Set::empty().insert(n@),
        Expr::Tuple(es) => targets_names(es@),
        Expr::List(es) => targets_names(es@),
        Expr::Starred(b) => target_names(*b),
        _ => Set::empty(),
    }
}

/// The names that a list of assignment targets binds.
pub open spec fn targets_names(es: Seq<Expr>) -> Set<Seq<char>>
    decreases es,
{
    if es.len() == 0 {
        Set::empty()
    } else {
        targets_names(es.drop_last()).union(target_names(es.last()))
    }
}

/// The name an import alias binds: its `as` name, or else its own name.
pub open spec fn alias_bound_name(a: Alias) -> Seq<char> {
    match a.asname {
        Some(n) => n@,
        None => a.name@,
    }
}

/// The name `*`.
pub open spec fn star_name() -> Seq<char> {
    seq!['*']
}

/// The name `__all__`.
pub open spec fn all_name() -> Seq<char> {
    seq!['_', '_', 'a', 'l', 'l', '_', '_']
}

/// The names an import binds; a `from` import binds nothing for `*`.
pub open spec fn import_names(al: Seq<Alias>, from: bool) -> Set<Seq<char>>
    decreases al.len(),
{
    if al.len() == 0 {
        Set::empty()
    } else if from && al.last().name@ == star_name() {
        import_names(al.drop_last(), from)
    } else {
        import_names(al.drop_last(), from).insert(alias_bound_name(al.last()))
    }
}

/// The names bound by the `as` targets of `with` items.
pub open spec fn with_items_names(items: Seq<WithItem>) -> Set<Seq<char>>
    decreases items.len(),
{
    if items.len() == 0 {
        Set::empty()
    } else {
        let rest = with_items_names(items.drop_last());
        match items.last().optional_vars {
            Some(e) => rest.union(target_names(e)),
            None => rest,
        }
    }
}

/// The names bound by `except ... as name` clauses.
pub open spec fn handler_names(hs: Seq<ExceptHandler>) -> Set<Seq<char>>
    decreases hs.len(),
{
    if hs.len() == 0 {
        Set::empty()
    } else {
        match hs.last().name {
            Some(n) => handler_names(hs.drop_last()).insert(n@),
            None => handler_names(hs.drop_last()),
        }
    }
}

/// The names a statement binds in the scope it stands in: definitions,
/// assignment targets, loop and `with` targets, exception names, and, where
/// `with_imports` holds, imported names. The bodies of nested function and
/// class definitions are their own scopes and are not looked into.
pub open spec fn stmt_names(s: Stmt, with_imports: bool) -> Set<Seq<char>>
    decreases s,
{
    match s {
        Stmt::FunctionDef { name, .. } => Set::empty().insert(name@),
        Stmt::ClassDef { name, .. } => Set::empty().insert(name@),
        Stmt::Import { names } => if with_imports {
            import_names(names@, false)
        } else {
            Set::empty()
        },
        Stmt::ImportFrom { names } => if with_imports {
            import_names(names@, true)
        } else {
            Set::empty()
        },
        Stmt::Assign { targets, .. } => targets_names(targets@),
        Stmt::AugAssign { target } => target_names(target),
        Stmt::AnnAssign { target } => target_names(target),
        Stmt::For { target, body, orelse } => target_names(target).union(
            stmts_names(body@, with_imports),
        ).union(stmts_names(orelse@, with_imports)),
        Stmt::With { items, body } => with_items_names(items@).union(
            stmts_names(body@, with_imports),
        ),
        Stmt::Try { body, handlers, orelse, finalbody } => handler_names(handlers@).union(
            stmts_names(body@, with_imports),
        ).union(handlers_body_names(handlers@, with_imports)).union(
            stmts_names(orelse@, with_imports),
        ).union(stmts_names(finalbody@, with_imports)),
        Stmt::If { body, elif_else_clauses } => stmts_names(body@, with_imports).union(
            clauses_names(elif_else_clauses@, with_imports),
        ),
        Stmt::While { body, orelse } => stmts_names(body@, with_imports).union(
            stmts_names(orelse@, with_imports),
        ),
        Stmt::Other => Set::empty(),
    }
}

/// The names a list of statements binds.
pub open spec fn stmts_names(ss: Seq<Stmt>, with_imports: bool) -> Set<Seq<char>>
    decreases ss,
{
    if ss.len() == 0 {
        Set::empty()
    } else {
        stmts_names(ss.drop_last(), with_imports).union(stmt_names(ss.last(), with_imports))
    }
}

/// The names bound in the bodies of `except` clauses.
pub open spec fn handlers_body_names(hs: Seq<ExceptHandler>, with_imports: bool) -> Set<Seq<char>>
    decreases hs,
{
    if hs.len() == 0 {
        Set::empty()
    } else {
        handlers_body_names(hs.drop_last(), with_imports).union(
            stmts_names(hs.last().body@, with_imports),
        )
    }
}

/// The names bound in the bodies of `elif` and `else` clauses.
pub open spec fn clauses_names(cs: Seq<ElifElseClause>, with_imports: bool) -> Set<Seq<char>>
    decreases cs,
{
    if cs.len() == 0 {
        Set::empty()
    } else {
        clauses_names(cs.drop_last(), with_imports).union(
            stmts_names(cs.last().body@, with_imports),
        )
    }
}

// ---------------------------------------------------------------------------
// `__all__`
// ---------------------------------------------------------------------------

/// The strings of a list of expressions that are all string literals.
pub open spec fn string_literals(es: Seq<Expr>) -> Option<Seq<Seq<char>>>
    decreases es.len(),
{
    if es.len() == 0 {
        Some(Seq::empty())
    } else {
        match (string_literals(es.drop_last()), es.last()) {
            (Some(v), Expr::StringLiteral(s)) => Some(v.push(s@)),
            _ => None,
        }
    }
}

/// The export list that an `__all__ = ...` assignment states: a list or
/// tuple display made of string literals only.
pub open spec fn all_exports_of(e: Expr) -> Option<Seq<Seq<char>>> {
    match e {
        Expr::List(es) => string_literals(es@),
        Expr::Tuple(es) => string_literals(es@),
        _ => None,
    }
}

/// The export list after an assignment to `targets`: the assigned value's,
/// where a target is `__all__` and the value states one, else `cur`.
pub open spec fn assign_exports(targets: Seq<Expr>, value: Expr, cur: Option<Seq<Seq<char>>>) -> Option<
    Seq<Seq<char>>,
>
    decreases targets.len(),
{
    if targets.len() == 0 {
        cur
    } else {
        let before = assign_exports(targets.drop_last(), value, cur);
        match targets.last() {
            Expr::Name(n) => if n@ == all_name() && all_exports_of(value) is Some {
                all_exports_of(value)
            } else {
                before
            },
            _ => before,
        }
    }
}

/// The export list after a statement, the one before being `cur`.
pub open spec fn stmt_exports(s: Stmt, cur: Option<Seq<Seq<char>>>) -> Option<Seq<Seq<char>>>
    decreases s,
{
    match s {
        Stmt::Assign { targets, value } => assign_exports(targets@, value, cur),
        Stmt::For { body, orelse, .. } => stmts_exports(orelse@, stmts_exports(body@, cur)),
        Stmt::With { body, .. } => stmts_exports(body@, cur),
        Stmt::Try { body, handlers, orelse, finalbody } => stmts_exports(
            finalbody@,
            stmts_exports(orelse@, handlers_exports(handlers@, stmts_exports(body@, cur))),
        ),
        Stmt::If { body, elif_else_clauses } => clauses_exports(
            elif_else_clauses@,
            stmts_exports(body@, cur),
        ),
        Stmt::While { body, orelse } => stmts_exports(orelse@, stmts_exports(body@, cur)),
        _ => cur,
    }
}

/// The export list after a list of statements, in order.
pub open spec fn stmts_exports(ss: Seq<Stmt>, cur: Option<Seq<Seq<char>>>) -> Option<Seq<Seq<char>>>
    decreases ss,
{
    if ss.len() == 0 {
        cur
    } else {
        stmt_exports(ss.last(), stmts_exports(ss.drop_last(), cur))
    }
}

/// The export list after the bodies of `except` clauses, in order.
pub open spec fn handlers_exports(hs: Seq<ExceptHandler>, cur: Option<Seq<Seq<char>>>) -> Option<
    Seq<Seq<char>>,
>
    decreases hs,
{
    if hs.len() == 0 {
        cur
    } else {
        stmts_exports(hs.last().body@, handlers_exports(hs.drop_last(), cur))
    }
}

/// The export list after the bodies of `elif`/`else` clauses, in order.
pub open spec fn clauses_exports(cs: Seq<ElifElseClause>, cur: Option<Seq<Seq<char>>>) -> Option<
    Seq<Seq<char>>,
>
    decreases cs,
{
    if cs.len() == 0 {
        cur
    } else {
        stmts_exports(cs.last().body@, clauses_exports(cs.drop_last(), cur))
    }
}

// ---------------------------------------------------------------------------
// Scope information
// ---------------------------------------------------------------------------

/// What is known of one scope, as plain sets and maps.
#[verifier::ext_equal]
pub struct ScopeInfoView {
    pub name: Seq<char>,
    pub defs: Map<Seq<char>, Set<usize>>,
    pub locals: Set<Seq<char>>,
    pub containers: Map<Seq<char>, Set<usize>>,
    pub all_exports: Option<Seq<Seq<char>>>,
}

/// The bindings of one scope: each bound name with the set of nodes it may
/// stand for, the names assigned locally, what is known of container
/// contents, and the module's `__all__` list, if it states one.
pub struct ScopeInfo {
    pub name: String,
    pub defs: NameTable<IdSet>,
    pub locals: NameSet,
    pub containers: NameTable<IdSet>,
    pub all_exports: Option<Vec<String>>,
}

/// The sets of a name-keyed table of id sets.
pub open spec fn id_table_view(t: NameTable<IdSet>) -> Map<Seq<char>, Set<usize>> {
    t@.map_values(|v: IdSet| v@)
}

/// The table is well formed and so is each of its sets.
pub open spec fn id_table_wf(t: NameTable<IdSet>) -> bool {
    &&& t.wf()
    &&& forall|i: int| 0 <= i < t.value_seq().len() ==> (#[trigger] t.value_seq()[i]).wf()
}

/// The strings of an optional list.
pub open spec fn opt_strings_view(o: Option<Vec<String>>) -> Option<Seq<Seq<char>>> {
    match o {
        Some(v) => Some(v@.map_values(|s: String| s@)),
        None => None,
    }
}

impl View for ScopeInfo {
    type V = ScopeInfoView;

    open spec fn view(&self) -> ScopeInfoView {
        ScopeInfoView {
            name: self.name@,
            defs: id_table_view(self.defs),
            locals: self.locals@,
            containers: id_table_view(self.containers),
            all_exports: opt_strings_view(self.all_exports),
        }
    }
}

/// A fresh scope: its name and nothing bound.
pub open spec fn empty_scope(name: Seq<char>) -> ScopeInfoView {
    ScopeInfoView {
        name,
        defs: Map::empty(),
        locals: Set::empty(),
        containers: Map::empty(),
        all_exports: None,
    }
}

/// `m` with each of `names` bound, to no node yet where it was not bound.
pub open spec fn with_defs(m: Map<Seq<char>, Set<usize>>, names: Set<Seq<char>>) -> Map<
    Seq<char>,
    Set<usize>,
> {
    Map::new(
        |k: Seq<char>| m.contains_key(k) || names.contains(k),
        |k: Seq<char>|
            if m.contains_key(k) {
                m[k]
            } else {
                Set::empty()
            },
    )
}

/// Binding two sets of names one after the other binds their union.
pub proof fn lemma_with_defs_twice(
    m: Map<Seq<char>, Set<usize>>,
    a: Set<Seq<char>>,
    b: Set<Seq<char>>,
)
    ensures
        with_defs(with_defs(m, a), b) == with_defs(m, a.union(b)),
{
    assert(with_defs(with_defs(m, a), b) =~= with_defs(m, a.union(b)));
}

/// The scope after binding `defs` (each to no node where it was unbound)
/// and adding `locals` to its local names.
pub open spec fn scope_with(v: ScopeInfoView, defs: Set<Seq<char>>, locals: Set<Seq<char>>) -> ScopeInfoView {
    ScopeInfoView {
        name: v.name,
        defs: with_defs(v.defs, defs),
        locals: v.locals.union(locals),
        containers: v.containers,
        all_exports: v.all_exports,
    }
}

/// The scope after collecting what the statements `ss` bind.
pub open spec fn after_stmts(v: ScopeInfoView, ss: Seq<Stmt>) -> ScopeInfoView {
    ScopeInfoView {
        name: v.name,
        defs: with_defs(v.defs, stmts_names(ss, true)),
        locals: v.locals.union(stmts_names(ss, false)),
        containers: v.containers,
        all_exports: stmts_exports(ss, v.all_exports),
    }
}

/// The scope after collecting what the statement `s` binds.
pub open spec fn after_stmt(v: ScopeInfoView, s: Stmt) -> ScopeInfoView {
    ScopeInfoView {
        name: v.name,
        defs: with_defs(v.defs, stmt_names(s, true)),
        locals: v.locals.union(stmt_names(s, false)),
        containers: v.containers,
        all_exports: stmt_exports(s, v.all_exports),
    }
}

impl ScopeInfo {
    /// The tables and sets are well formed.
    pub open spec fn wf(&self) -> bool {
        &&& id_table_wf(self.defs)
        &&& id_table_wf(self.containers)
        &&& self.locals.wf()
    }

    pub fn new(name: &str) -> (r: Self)
        ensures
            r.wf(),
            r@ == empty_scope(name@),
    {
        let r = ScopeInfo {
            name: name.to_owned(),
            defs: NameTable::new(),
            locals: NameSet::new(),
            containers: NameTable::new(),
            all_exports: None,
        };
        assert(id_table_view(r.defs) =~= Map::empty());
        assert(id_table_view(r.containers) =~= Map::empty());
        r
    }

    /// Bind `name` (to no node, where it is not bound yet) and, where
    /// `local` holds, record it as assigned in this scope.
    fn define(&mut self, name: String, local: bool)
        requires
            old(self).wf(),
        ensures
            final(self).wf(),
            final(self)@ == scope_with(
                old(self)@,
                Set::empty().insert(name@),
                if local {
                    Set::empty().insert(name@)
                } else {
                    Set::empty()
                },
            ),
    {
        let ghost n = name@;
        proof {
            self.defs.lemma_entries();
        }
        if self.defs.find(&name).is_none() {
            let set = IdSet::new();
            let ghost gs = set;
            self.defs.insert(name.clone(), set);
            proof {
                self.defs.lemma_entries();
                assert(self.defs.value_seq() == old(self).defs.value_seq().push(gs));
                assert(id_table_view(self.defs) =~= with_defs(
                    id_table_view(old(self).defs),
                    Set::empty().insert(n),
                ));
            }
        } else {
            assert(id_table_view(self.defs) =~= with_defs(
                id_table_view(old(self).defs),
                Set::empty().insert(n),
            ));
        }
        if local {
            self.locals.insert(name);
        }
        assert(self@ =~= scope_with(
            old(self)@,
            Set::empty().insert(n),
            if local {
                Set::empty().insert(n)
            } else {
                Set::empty()
            },
        ));
    }
}

/// Collecting two sets of names one after the other collects their unions.
pub proof fn lemma_scope_with_twice(
    v: ScopeInfoView,
    d1: Set<Seq<char>>,
    l1: Set<Seq<char>>,
    d2: Set<Seq<char>>,
    l2: Set<Seq<char>>,
)
    ensures
        scope_with(scope_with(v, d1, l1), d2, l2) == scope_with(v, d1.union(d2), l1.union(l2)),
{
    lemma_with_defs_twice(v.defs, d1, d2);
    assert(scope_with(scope_with(v, d1, l1), d2, l2) =~= scope_with(
        v,
        d1.union(d2),
        l1.union(l2),
    ));
}

/// Record the names that an assignment target binds: each is bound in the
/// scope and counts as local to it.
pub fn collect_assign_target_names(target: &Expr, scope: &mut ScopeInfo)
    requires
        old(scope).wf(),
    ensures
        final(scope).wf(),
        final(scope)@ == scope_with(old(scope)@, target_names(*target), target_names(*target)),
    decreases target,
{
    match target {
        Expr::Name(n) => {
            scope.define(n.clone(), true);
        },
        Expr::Tuple(elts) => {
            collect_targets_names(elts, scope);
        },
        Expr::List(elts) => {
            collect_targets_names(elts, scope);
        },
        Expr::Starred(value) => {
            collect_assign_target_names(value, scope);
        },
        _ => {
            assert(scope@ =~= scope_with(old(scope)@, Set::empty(), Set::empty()));
        },
    }
}

/// Record the names that each of the targets binds.
fn collect_targets_names(elts: &Vec<Expr>, scope: &mut ScopeInfo)
    requires
        old(scope).wf(),
    ensures
        final(scope).wf(),
        final(scope)@ == scope_with(old(scope)@, targets_names(elts@), targets_names(elts@)),
    decreases elts@,
{
    let mut i: usize = 0;
    assert(scope@ =~= scope_with(old(scope)@, Set::empty(), Set::empty()));
    while i < elts.len()
        invariant
            i <= elts@.len(),
            scope.wf(),
            scope@ == scope_with(
                old(scope)@,
                targets_names(elts@.take(i as int)),
                targets_names(elts@.take(i as int)),
            ),
        decreases elts@.len() - i,
    {
        let ghost before = scope@;
        collect_assign_target_names(&elts[i], scope);
        proof {
            let t = targets_names(elts@.take(i as int));
            let e = target_names(elts@[i as int]);
            lemma_scope_with_twice(old(scope)@, t, t, e, e);
            assert(elts@.take(i + 1).drop_last() =~= elts@.take(i as int));
        }
        i = i + 1;
    }
    assert(elts@.take(i as int) =~= elts@);
}

/// The export list that an `__all__` assignment of `value` states, if any.
pub fn extract_all_exports(value: &Expr) -> (r: Option<Vec<String>>)
    ensures
        opt_strings_view(r) == all_exports_of(*value),
{
    match value {
        Expr::List(elts) => string_literal_list(elts),
        Expr::Tuple(elts) => string_literal_list(elts),
        _ => None,
    }
}

/// The strings of `elts`, where every element is a string literal.
fn string_literal_list(elts: &Vec<Expr>) -> (r: Option<Vec<String>>)
    ensures
        opt_strings_view(r) == string_literals(elts@),
{
    let mut out: Vec<String> = Vec::new();
    let mut i: usize = 0;
    while i < elts.len()
        invariant
            i <= elts@.len(),
            string_literals(elts@.take(i as int)) == Some(out@.map_values(|s: String| s@)),
        decreases elts@.len() - i,
    {
        assert(elts@.take(i + 1).drop_last() =~= elts@.take(i as int));
        match &elts[i] {
            Expr::StringLiteral(lit) => {
                let ghost before = out@;
                out.push(lit.clone());
                assert(out@.map_values(|s: String| s@) =~= before.map_values(|s: String| s@).push(
                    lit@,
                ));
            },
            _ => {
                proof {
                    lemma_string_literals_stuck(elts@, i as int);
                }
                return None;
            },
        }
        i = i + 1;
    }
    assert(elts@.take(i as int) =~= elts@);
    Some(out)
}

/// Once an element is not a string literal, no longer prefix is a list of
/// string literals.
proof fn lemma_string_literals_stuck(es: Seq<Expr>, i: int)
    requires
        0 <= i < es.len(),
        !(es[i] is StringLiteral),
    ensures
        string_literals(es) is None,
    decreases es.len(),
{
    if i < es.len() - 1 {
        lemma_string_literals_stuck(es.drop_last(), i);
    }
}

/// The scope with its export list replaced by `ex`.
pub open spec fn with_exports(v: ScopeInfoView, ex: Option<Seq<Seq<char>>>) -> ScopeInfoView {
    ScopeInfoView { all_exports: ex, ..v }
}

/// The scope after collecting what the bodies of `except` clauses bind.
pub open spec fn after_handlers(v: ScopeInfoView, hs: Seq<ExceptHandler>) -> ScopeInfoView {
    ScopeInfoView {
        name: v.name,
        defs: with_defs(v.defs, handlers_body_names(hs, true)),
        locals: v.locals.union(handlers_body_names(hs, false)),
        containers: v.containers,
        all_exports: handlers_exports(hs, v.all_exports),
    }
}

/// The scope after collecting what the bodies of `elif`/`else` clauses bind.
pub open spec fn after_clauses(v: ScopeInfoView, cs: Seq<ElifElseClause>) -> ScopeInfoView {
    ScopeInfoView {
        name: v.name,
        defs: with_defs(v.defs, clauses_names(cs, true)),
        locals: v.locals.union(clauses_names(cs, false)),
        containers: v.containers,
        all_exports: clauses_exports(cs, v.all_exports),
    }
}

/// Record the names an import binds; they are bound but not local.
fn collect_import_names(names: &Vec<Alias>, from: bool, scope: &mut ScopeInfo)
    requires
        old(scope).wf(),
    ensures
        final(scope).wf(),
        final(scope)@ == scope_with(old(scope)@, import_names(names@, from), Set::empty()),
{
    proof {
        reveal_strlit("*");
    }
    let star = "*".to_owned();
    let mut i: usize = 0;
    assert(scope@ =~= scope_with(old(scope)@, Set::empty(), Set::empty()));
    while i < names.len()
        invariant
            i <= names@.len(),
            star@ == star_name(),
            scope.wf(),
            scope@ == scope_with(old(scope)@, import_names(names@.take(i as int), from), Set::empty()),
        decreases names@.len() - i,
    {
        let alias = &names[i];
        assert(names@.take(i + 1).drop_last() =~= names@.take(i as int));
        if from && alias.name == star {
        } else {
            let name = match &alias.asname {
                Some(a) => a.clone(),
                None => alias.name.clone(),
            };
            proof {
                lemma_scope_with_twice(
                    old(scope)@,
                    import_names(names@.take(i as int), from),
                    Set::empty(),
                    Set::empty().insert(name@),
                    Set::empty(),
                );
            }
            scope.define(name, false);
            assert(import_names(names@.take(i as int), from).union(Set::empty().insert(name@))
                =~= import_names(names@.take(i + 1), from));
            assert(Set::<Seq<char>>::empty().union(Set::empty()) =~= Set::<Seq<char>>::empty());
        }
        i = i + 1;
    }
    assert(names@.take(i as int) =~= names@);
}

/// Record the names bound by an assignment, and the export list where the
/// assignment is to `__all__`.
fn collect_assign(targets: &Vec<Expr>, value: &Expr, scope: &mut ScopeInfo)
    requires
        old(scope).wf(),
    ensures
        final(scope).wf(),
        final(scope)@ == with_exports(
            scope_with(old(scope)@, targets_names(targets@), targets_names(targets@)),
            assign_exports(targets@, *value, old(scope)@.all_exports),
        ),
{
    proof {
        reveal_strlit("__all__");
    }
    let all = "__all__".to_owned();
    let mut i: usize = 0;
    assert(scope@ =~= with_exports(
        scope_with(old(scope)@, Set::empty(), Set::empty()),
        old(scope)@.all_exports,
    ));
    while i < targets.len()
        invariant
            i <= targets@.len(),
            all@ == all_name(),
            scope.wf(),
            scope@ == with_exports(
                scope_with(
                    old(scope)@,
                    targets_names(targets@.take(i as int)),
                    targets_names(targets@.take(i as int)),
                ),
                assign_exports(targets@.take(i as int), *value, old(scope)@.all_exports),
            ),
        decreases targets@.len() - i,
    {
        let target = &targets[i];
        assert(targets@.take(i + 1).drop_last() =~= targets@.take(i as int));
        if let Expr::Name(n) = target {
            if *n == all {
                if let Some(exports) = extract_all_exports(value) {
                    scope.all_exports = Some(exports);
                }
            }
        }
        let ghost mid = scope@;
        collect_assign_target_names(target, scope);
        proof {
            let t = targets_names(targets@.take(i as int));
            let e = target_names(targets@[i as int]);
            lemma_scope_with_twice(old(scope)@, t, t, e, e);
            assert(scope@ =~= with_exports(
                scope_with(
                    old(scope)@,
                    targets_names(targets@.take(i + 1)),
                    targets_names(targets@.take(i + 1)),
                ),
                assign_exports(targets@.take(i + 1), *value, old(scope)@.all_exports),
            ));
        }
        i = i + 1;
    }
    assert(targets@.take(i as int) =~= targets@);
}

/// Record the names bound by `except ... as name`; they are local.
fn collect_handler_names(handlers: &Vec<ExceptHandler>, scope: &mut ScopeInfo)
    requires
        old(scope).wf(),
    ensures
        final(scope).wf(),
        final(scope)@ == scope_with(old(scope)@, handler_names(handlers@), handler_names(handlers@)),
{
    let mut i: usize = 0;
    assert(scope@ =~= scope_with(old(scope)@, Set::empty(), Set::empty()));
    while i < handlers.len()
        invariant
            i <= handlers@.len(),
            scope.wf(),
            scope@ == scope_with(
                old(scope)@,
                handler_names(handlers@.take(i as int)),
                handler_names(handlers@.take(i as int)),
            ),
        decreases handlers@.len() - i,
    {
        assert(handlers@.take(i + 1).drop_last() =~= handlers@.take(i as int));
        if let Some(name) = &handlers[i].name {
            let ghost h = handler_names(handlers@.take(i as int));
            proof {
                lemma_scope_with_twice(
                    old(scope)@,
                    h,
                    h,
                    Set::empty().insert(name@),
                    Set::empty().insert(name@),
                );
            }
            scope.define(name.clone(), true);
            assert(h.union(Set::empty().insert(name@)) =~= h.insert(name@));
        }
        i = i + 1;
    }
    assert(handlers@.take(i as int) =~= handlers@);
}

/// Record the names bound by the `as` targets of `with` items.
fn collect_with_items(items: &Vec<WithItem>, scope: &mut ScopeInfo)
    requires
        old(scope).wf(),
    ensures
        final(scope).wf(),
        final(scope)@ == scope_with(old(scope)@, with_items_names(items@), with_items_names(items@)),
{
    let mut i: usize = 0;
    assert(scope@ =~= scope_with(old(scope)@, Set::empty(), Set::empty()));
    while i < items.len()
        invariant
            i <= items@.len(),
            scope.wf(),
            scope@ == scope_with(
                old(scope)@,
                with_items_names(items@.take(i as int)),
                with_items_names(items@.take(i as int)),
            ),
        decreases items@.len() - i,
    {
        assert(items@.take(i + 1).drop_last() =~= items@.take(i as int));
        if let Some(vars) = &items[i].optional_vars {
            let ghost w = with_items_names(items@.take(i as int));
            proof {
                lemma_scope_with_twice(old(scope)@, w, w, target_names(*vars), target_names(*vars));
            }
            collect_assign_target_names(vars, scope);
        }
        i = i + 1;
    }
    assert(items@.take(i as int) =~= items@);
}

/// Gather what the statements `stmts` bind in the scope they stand in: the
/// names they define, assign, import or catch, and the module's `__all__`
/// list. Nested function and class bodies are not looked into.
pub fn collect_scope_defs(stmts: &[Stmt], scope: &mut ScopeInfo)
    requires
        old(scope).wf(),
    ensures
        final(scope).wf(),
        final(scope)@ == after_stmts(old(scope)@, stmts@),
    decreases stmts@,
{
    let mut i: usize = 0;
    assert(scope@ =~= after_stmts(old(scope)@, stmts@.take(0)));
    while i < stmts.len()
        invariant
            i <= stmts@.len(),
            scope.wf(),
            scope@ == after_stmts(old(scope)@, stmts@.take(i as int)),
        decreases stmts@.len() - i,
    {
        let ghost before = scope@;
        collect_stmt_defs(&stmts[i], scope);
        proof {
            let pre = stmts@.take(i as int);
            let s = stmts@[i as int];
            assert(stmts@.take(i + 1).drop_last() =~= pre);
            lemma_with_defs_twice(old(scope)@.defs, stmts_names(pre, true), stmt_names(s, true));
            assert(scope@ =~= after_stmts(old(scope)@, stmts@.take(i + 1)));
        }
        i = i + 1;
    }
    assert(stmts@.take(i as int) =~= stmts@);
}

/// Gather what the bodies of `except` clauses bind.
fn collect_handlers_bodies(handlers: &Vec<ExceptHandler>, scope: &mut ScopeInfo)
    requires
        old(scope).wf(),
    ensures
        final(scope).wf(),
        final(scope)@ == after_handlers(old(scope)@, handlers@),
    decreases handlers@,
{
    let mut i: usize = 0;
    assert(scope@ =~= after_handlers(old(scope)@, handlers@.take(0)));
    while i < handlers.len()
        invariant
            i <= handlers@.len(),
            scope.wf(),
            scope@ == after_handlers(old(scope)@, handlers@.take(i as int)),
        decreases handlers@.len() - i,
    {
        collect_scope_defs(&handlers[i].body, scope);
        proof {
            let pre = handlers@.take(i as int);
            let b = handlers@[i as int].body@;
            assert(handlers@.take(i + 1).drop_last() =~= pre);
            lemma_with_defs_twice(old(scope)@.defs, handlers_body_names(pre, true), stmts_names(b, true));
            assert(scope@ =~= after_handlers(old(scope)@, handlers@.take(i + 1)));
        }
        i = i + 1;
    }
    assert(handlers@.take(i as int) =~= handlers@);
}

/// Gather what the bodies of `elif`/`else` clauses bind.
fn collect_clauses_bodies(clauses: &Vec<ElifElseClause>, scope: &mut ScopeInfo)
    requires
        old(scope).wf(),
    ensures
        final(scope).wf(),
        final(scope)@ == after_clauses(old(scope)@, clauses@),
    decreases clauses@,
{
    let mut i: usize = 0;
    assert(scope@ =~= after_clauses(old(scope)@, clauses@.take(0)));
    while i < clauses.len()
        invariant
            i <= clauses@.len(),
            scope.wf(),
            scope@ == after_clauses(old(scope)@, clauses@.take(i as int)),
        decreases clauses@.len() - i,
    {
        collect_scope_defs(&clauses[i].body, scope);
        proof {
            let pre = clauses@.take(i as int);
            let b = clauses@[i as int].body@;
            assert(clauses@.take(i + 1).drop_last() =~= pre);
            lemma_with_defs_twice(old(scope)@.defs, clauses_names(pre, true), stmts_names(b, true));
            assert(scope@ =~= after_clauses(old(scope)@, clauses@.take(i + 1)));
        }
        i = i + 1;
    }
    assert(clauses@.take(i as int) =~= clauses@);
}

/// Gather what one statement binds in the scope it stands in.
fn collect_stmt_defs(stmt: &Stmt, scope: &mut ScopeInfo)
    requires
        old(scope).wf(),
    ensures
        final(scope).wf(),
        final(scope)@ == after_stmt(old(scope)@, *stmt),
    decreases stmt,
{
    let ghost v = scope@;
    match stmt {
        Stmt::FunctionDef { name, .. } => {
            scope.define(name.clone(), true);
        },
        Stmt::ClassDef { name, .. } => {
            scope.define(name.clone(), true);
        },
        Stmt::Import { names } => {
            collect_import_names(names, false, scope);
        },
        Stmt::ImportFrom { names } => {
            collect_import_names(names, true, scope);
        },
        Stmt::Assign { targets, value } => {
            collect_assign(targets, value, scope);
        },
        Stmt::AugAssign { target } => {
            collect_assign_target_names(target, scope);
        },
        Stmt::AnnAssign { target } => {
            collect_assign_target_names(target, scope);
        },
        Stmt::For { target, body, orelse } => {
            collect_assign_target_names(target, scope);
            let ghost v1 = scope@;
            collect_scope_defs(body, scope);
            let ghost v2 = scope@;
            collect_scope_defs(orelse, scope);
            proof {
                let t = target_names(*target);
                lemma_with_defs_twice(v.defs, t, stmts_names(body@, true));
                lemma_with_defs_twice(
                    v.defs,
                    t.union(stmts_names(body@, true)),
                    stmts_names(orelse@, true),
                );
            }
        },
        Stmt::With { items, body } => {
            collect_with_items(items, scope);
            collect_scope_defs(body, scope);
            proof {
                lemma_with_defs_twice(v.defs, with_items_names(items@), stmts_names(body@, true));
            }
        },
        Stmt::Try { body, handlers, orelse, finalbody } => {
            collect_handler_names(handlers, scope);
            collect_scope_defs(body, scope);
            collect_handlers_bodies(handlers, scope);
            collect_scope_defs(orelse, scope);
            collect_scope_defs(finalbody, scope);
            proof {
                let h = handler_names(handlers@);
                let b = stmts_names(body@, true);
                let hb = handlers_body_names(handlers@, true);
                let o = stmts_names(orelse@, true);
                let f = stmts_names(finalbody@, true);
                lemma_with_defs_twice(v.defs, h, b);
                lemma_with_defs_twice(v.defs, h.union(b), hb);
                lemma_with_defs_twice(v.defs, h.union(b).union(hb), o);
                lemma_with_defs_twice(v.defs, h.union(b).union(hb).union(o), f);
            }
        },
        Stmt::If { body, elif_else_clauses } => {
            collect_scope_defs(body, scope);
            collect_clauses_bodies(elif_else_clauses, scope);
            proof {
                lemma_with_defs_twice(
                    v.defs,
                    stmts_names(body@, true),
                    clauses_names(elif_else_clauses@, true),
                );
            }
        },
        Stmt::While { body, orelse } => {
            collect_scope_defs(body, scope);
            collect_scope_defs(orelse, scope);
            proof {
                lemma_with_defs_twice(v.defs, stmts_names(body@, true), stmts_names(orelse@, true));
            }
        },
        Stmt::Other => {},
    }
    assert(scope@ =~= after_stmt(v, *stmt));
}

// ---------------------------------------------------------------------------
// Nested scopes
// ---------------------------------------------------------------------------

/// The names of a list of strings, as a set.
pub open spec fn names_set(v: Seq<String>) -> Set<Seq<char>> {
    v.map_values(|s: String| s@).to_set()
}

/// The name held by an optional string, as a set of at most one.
pub open spec fn opt_name_set(o: Option<String>) -> Set<Seq<char>> {
    match o {
        Some(n) => Set::empty().insert(n@),
        None => Set::empty(),
    }
}

/// The names of all parameters of a function.
pub open spec fn param_names(p: Parameters) -> Set<Seq<char>> {
    names_set(p.posonlyargs@).union(names_set(p.args@)).union(names_set(p.kwonlyargs@)).union(
        opt_name_set(p.vararg),
    ).union(opt_name_set(p.kwarg))
}

/// The scope of a function definition: its parameters, and what its body
/// binds.
pub open spec fn function_scope(name: Seq<char>, p: Parameters, body: Seq<Stmt>) -> ScopeInfoView {
    after_stmts(scope_with(empty_scope(name), param_names(p), param_names(p)), body)
}

/// The scope of a class definition: what its body binds.
pub open spec fn class_scope(name: Seq<char>, body: Seq<Stmt>) -> ScopeInfoView {
    after_stmts(empty_scope(name), body)
}

/// The table `t` after recording the scopes of the functions and classes
/// that the statements `ss` define, at any depth, under `parent`; each
/// scope is keyed by its dotted name, and a later definition of the same
/// name replaces an earlier one.
pub open spec fn nested_after(ss: Seq<Stmt>, parent: Seq<char>, t: Map<Seq<char>, ScopeInfoView>) -> Map<
    Seq<char>,
    ScopeInfoView,
>
    decreases ss,
{
    if ss.len() == 0 {
        t
    } else {
        stmt_nested(ss.last(), parent, nested_after(ss.drop_last(), parent, t))
    }
}

/// The table `t` after recording the scopes that statement `s` defines.
pub open spec fn stmt_nested(s: Stmt, parent: Seq<char>, t: Map<Seq<char>, ScopeInfoView>) -> Map<
    Seq<char>,
    ScopeInfoView,
>
    decreases s,
{
    match s {
        Stmt::FunctionDef { name, parameters, body } => {
            let ns = dotted(parent, name@);
            nested_after(body@, ns, t.insert(ns, function_scope(name@, parameters, body@)))
        },
        Stmt::ClassDef { name, body } => {
            let ns = dotted(parent, name@);
            nested_after(body@, ns, t.insert(ns, class_scope(name@, body@)))
        },
        Stmt::If { body, elif_else_clauses } => clauses_nested(
            elif_else_clauses@,
            parent,
            nested_after(body@, parent, t),
        ),
        Stmt::While { body, orelse } => nested_after(orelse@, parent, nested_after(body@, parent, t)),
        Stmt::For { body, orelse, .. } => nested_after(orelse@, parent, nested_after(body@, parent, t)),
        Stmt::With { body, .. } => nested_after(body@, parent, t),
        Stmt::Try { body, handlers, orelse, finalbody } => nested_after(
            finalbody@,
            parent,
            nested_after(orelse@, parent, handlers_nested(handlers@, parent, nested_after(body@, parent, t))),
        ),
        _ => t,
    }
}

/// The table `t` after recording the scopes defined in `except` bodies.
pub open spec fn handlers_nested(hs: Seq<ExceptHandler>, parent: Seq<char>, t: Map<Seq<char>, ScopeInfoView>) -> Map<
    Seq<char>,
    ScopeInfoView,
>
    decreases hs,
{
    if hs.len() == 0 {
        t
    } else {
        nested_after(hs.last().body@, parent, handlers_nested(hs.drop_last(), parent, t))
    }
}

/// The table `t` after recording the scopes defined in `elif`/`else` bodies.
pub open spec fn clauses_nested(cs: Seq<ElifElseClause>, parent: Seq<char>, t: Map<Seq<char>, ScopeInfoView>) -> Map<
    Seq<char>,
    ScopeInfoView,
>
    decreases cs,
{
    if cs.len() == 0 {
        t
    } else {
        nested_after(cs.last().body@, parent, clauses_nested(cs.drop_last(), parent, t))
    }
}

/// The scopes of a table, as a map from dotted name to scope.
pub open spec fn scope_table_view(t: NameTable<ScopeInfo>) -> Map<Seq<char>, ScopeInfoView> {
    t@.map_values(|s: ScopeInfo| s@)
}

/// The table is well formed and so is each of its scopes.
pub open spec fn scope_table_wf(t: NameTable<ScopeInfo>) -> bool {
    &&& t.wf()
    &&& forall|i: int| 0 <= i < t.value_seq().len() ==> (#[trigger] t.value_seq()[i]).wf()
}

/// Store a scope under its dotted name.
fn insert_scope(scopes: &mut NameTable<ScopeInfo>, ns: String, scope: ScopeInfo)
    requires
        scope_table_wf(*old(scopes)),
        scope.wf(),
    ensures
        scope_table_wf(*final(scopes)),
        scope_table_view(*final(scopes)) == scope_table_view(*old(scopes)).insert(ns@, scope@),
{
    let ghost k = ns@;
    let ghost v = scope@;
    proof {
        old(scopes).lemma_entries();
        if old(scopes)@.contains_key(k) {
            let j = old(scopes).key_seq().index_of(k);
            assert(old(scopes).key_seq()[j] == k);
        }
    }
    scopes.insert(ns, scope);
    assert(scope_table_view(*scopes) =~= scope_table_view(*old(scopes)).insert(k, v));
}

/// Bind each of `names` in the scope, as local names.
fn define_all(names: &Vec<String>, scope: &mut ScopeInfo)
    requires
        old(scope).wf(),
    ensures
        final(scope).wf(),
        final(scope)@ == scope_with(old(scope)@, names_set(names@), names_set(names@)),
{
    let mut i: usize = 0;
    assert(scope@ =~= scope_with(old(scope)@, Set::empty(), Set::empty()));
    while i < names.len()
        invariant
            i <= names@.len(),
            scope.wf(),
            scope@ == scope_with(
                old(scope)@,
                names_set(names@.take(i as int)),
                names_set(names@.take(i as int)),
            ),
        decreases names@.len() - i,
    {
        let n = names[i].clone();
        let ghost pre = names_set(names@.take(i as int));
        proof {
            lemma_scope_with_twice(old(scope)@, pre, pre, Set::empty().insert(n@), Set::empty().insert(n@));
        }
        scope.define(n, true);
        assert(names@.take(i + 1).map_values(|s: String| s@) =~= names@.take(i as int).map_values(
            |s: String| s@,
        ).push(n@));
        assert(pre.union(Set::empty().insert(n@)) =~= names_set(names@.take(i + 1)));
        i = i + 1;
    }
    assert(names@.take(i as int) =~= names@);
}

/// Bind an optional name in the scope, as a local name.
fn define_opt(name: &Option<String>, scope: &mut ScopeInfo)
    requires
        old(scope).wf(),
    ensures
        final(scope).wf(),
        final(scope)@ == scope_with(old(scope)@, opt_name_set(*name), opt_name_set(*name)),
{
    match name {
        Some(n) => {
            scope.define(n.clone(), true);
        },
        None => {
            assert(scope@ =~= scope_with(old(scope)@, Set::empty(), Set::empty()));
        },
    }
}

/// The scope of a function definition.
fn function_scope_of(name: &String, parameters: &Parameters, body: &Vec<Stmt>) -> (r: ScopeInfo)
    ensures
        r.wf(),
        r@ == function_scope(name@, *parameters, body@),
{
    let mut scope = ScopeInfo::new(name.as_str());
    let ghost e = scope@;
    define_all(&parameters.posonlyargs, &mut scope);
    define_all(&parameters.args, &mut scope);
    define_all(&parameters.kwonlyargs, &mut scope);
    define_opt(&parameters.vararg, &mut scope);
    define_opt(&parameters.kwarg, &mut scope);
    proof {
        let a = names_set(parameters.posonlyargs@);
        let b = names_set(parameters.args@);
        let c = names_set(parameters.kwonlyargs@);
        let d = opt_name_set(parameters.vararg);
        let f = opt_name_set(parameters.kwarg);
        lemma_scope_with_twice(e, a, a, b, b);
        lemma_scope_with_twice(e, a.union(b), a.union(b), c, c);
        lemma_scope_with_twice(e, a.union(b).union(c), a.union(b).union(c), d, d);
        lemma_scope_with_twice(
            e,
            a.union(b).union(c).union(d),
            a.union(b).union(c).union(d),
            f,
            f,
        );
    }
    collect_scope_defs(body, &mut scope);
    scope
}

/// Record, under `parent_ns`, a scope for each function and class that the
/// statements `stmts` define, at any depth, keyed by its dotted name.
pub fn collect_nested_scopes(stmts: &[Stmt], parent_ns: &str, scopes: &mut NameTable<ScopeInfo>)
    requires
        scope_table_wf(*old(scopes)),
    ensures
        scope_table_wf(*final(scopes)),
        scope_table_view(*final(scopes)) == nested_after(
            stmts@,
            parent_ns@,
            scope_table_view(*old(scopes)),
        ),
    decreases stmts@,
{
    let mut i: usize = 0;
    while i < stmts.len()
        invariant
            i <= stmts@.len(),
            scope_table_wf(*scopes),
            scope_table_view(*scopes) == nested_after(
                stmts@.take(i as int),
                parent_ns@,
                scope_table_view(*old(scopes)),
            ),
        decreases stmts@.len() - i,
    {
        collect_stmt_nested(&stmts[i], parent_ns, scopes);
        assert(stmts@.take(i + 1).drop_last() =~= stmts@.take(i as int));
        i = i + 1;
    }
    assert(stmts@.take(i as int) =~= stmts@);
}

/// Record the scopes that one statement defines.
fn collect_stmt_nested(stmt: &Stmt, parent_ns: &str, scopes: &mut NameTable<ScopeInfo>)
    requires
        scope_table_wf(*old(scopes)),
    ensures
        scope_table_wf(*final(scopes)),
        scope_table_view(*final(scopes)) == stmt_nested(
            *stmt,
            parent_ns@,
            scope_table_view(*old(scopes)),
        ),
    decreases stmt,
{
    proof {
        reveal_strlit(".");
    }
    match stmt {
        Stmt::FunctionDef { name, parameters, body } => {
            let mut ns = parent_ns.to_owned();
            ns.append(".");
            ns.append(name.as_str());
            assert(ns@ =~= dotted(parent_ns@, name@));
            let scope = function_scope_of(name, parameters, body);
            insert_scope(scopes, ns.clone(), scope);
            collect_nested_scopes(body, ns.as_str(), scopes);
        },
        Stmt::ClassDef { name, body } => {
            let mut ns = parent_ns.to_owned();
            ns.append(".");
            ns.append(name.as_str());
            assert(ns@ =~= dotted(parent_ns@, name@));
            let mut scope = ScopeInfo::new(name.as_str());
            collect_scope_defs(body, &mut scope);
            insert_scope(scopes, ns.clone(), scope);
            collect_nested_scopes(body, ns.as_str(), scopes);
        },
        Stmt::If { body, elif_else_clauses } => {
            collect_nested_scopes(body, parent_ns, scopes);
            collect_clauses_nested(elif_else_clauses, parent_ns, scopes);
        },
        Stmt::While { body, orelse } => {
            collect_nested_scopes(body, parent_ns, scopes);
            collect_nested_scopes(orelse, parent_ns, scopes);
        },
        Stmt::For { body, orelse, .. } => {
            collect_nested_scopes(body, parent_ns, scopes);
            collect_nested_scopes(orelse, parent_ns, scopes);
        },
        Stmt::With { body, .. } => {
            collect_nested_scopes(body, parent_ns, scopes);
        },
        Stmt::Try { body, handlers, orelse, finalbody } => {
            collect_nested_scopes(body, parent_ns, scopes);
            collect_handlers_nested(handlers, parent_ns, scopes);
            collect_nested_scopes(orelse, parent_ns, scopes);
            collect_nested_scopes(finalbody, parent_ns, scopes);
        },
        _ => {},
    }
}

/// Record the scopes defined in `except` bodies.
fn collect_handlers_nested(handlers: &Vec<ExceptHandler>, parent_ns: &str, scopes: &mut NameTable<ScopeInfo>)
    requires
        scope_table_wf(*old(scopes)),
    ensures
        scope_table_wf(*final(scopes)),
        scope_table_view(*final(scopes)) == handlers_nested(
            handlers@,
            parent_ns@,
            scope_table_view(*old(scopes)),
        ),
    decreases handlers@,
{
    let mut i: usize = 0;
    while i < handlers.len()
        invariant
            i <= handlers@.len(),
            scope_table_wf(*scopes),
            scope_table_view(*scopes) == handlers_nested(
                handlers@.take(i as int),
                parent_ns@,
                scope_table_view(*old(scopes)),
            ),
        decreases handlers@.len() - i,
    {
        collect_nested_scopes(&handlers[i].body, parent_ns, scopes);
        assert(handlers@.take(i + 1).drop_last() =~= handlers@.take(i as int));
        i = i + 1;
    }
    assert(handlers@.take(i as int) =~= handlers@);
}

/// Record the scopes defined in `elif`/`else` bodies.
fn collect_clauses_nested(clauses: &Vec<ElifElseClause>, parent_ns: &str, scopes: &mut NameTable<ScopeInfo>)
    requires
        scope_table_wf(*old(scopes)),
    ensures
        scope_table_wf(*final(scopes)),
        scope_table_view(*final(scopes)) == clauses_nested(
            clauses@,
            parent_ns@,
            scope_table_view(*old(scopes)),
        ),
    decreases clauses@,
{
    let mut i: usize = 0;
    while i < clauses.len()
        invariant
            i <= clauses@.len(),
            scope_table_wf(*scopes),
            scope_table_view(*scopes) == clauses_nested(
                clauses@.take(i as int),
                parent_ns@,
                scope_table_view(*old(scopes)),
            ),
        decreases clauses@.len() - i,
    {
        collect_nested_scopes(&clauses[i].body, parent_ns, scopes);
        assert(clauses@.take(i + 1).drop_last() =~= clauses@.take(i as int));
        i = i + 1;
    }
    assert(clauses@.take(i as int) =~= clauses@);
}

/// The scope table of one module: the module's own scope under
/// `module_ns`, and the scope of every function and class it defines.
pub open spec fn module_scopes(body: Seq<Stmt>, module_ns: Seq<char>) -> Map<Seq<char>, ScopeInfoView> {
    nested_after(
        body,
        module_ns,
        Map::empty().insert(module_ns, after_stmts(empty_scope(Seq::empty()), body)),
    )
}

/// Gather scope information by walking a module's syntax tree.
pub fn build_scopes(module: &ModModule, module_ns: &str) -> (r: NameTable<ScopeInfo>)
    ensures
        scope_table_wf(r),
        scope_table_view(r) == module_scopes(module.body@, module_ns@),
{
    let mut scopes: NameTable<ScopeInfo> = NameTable::new();
    proof {
        reveal_strlit("");
    }
    let empty = "";
    assert(empty@ =~= Seq::<char>::empty());
    let mut module_scope = ScopeInfo::new(empty);
    collect_scope_defs(&module.body, &mut module_scope);
    assert(scope_table_view(scopes) =~= Map::empty());
    insert_scope(&mut scopes, module_ns.to_owned(), module_scope);
    assert(scope_table_view(scopes) =~= Map::empty().insert(
        module_ns@,
        after_stmts(empty_scope(Seq::empty()), module.body@),
    ));
    collect_nested_scopes(&module.body, module_ns, &mut scopes);
    scopes
}

// ---------------------------------------------------------------------------
// Merging scope tables
// ---------------------------------------------------------------------------

/// The set stored under `k`, or the empty set.
pub open spec fn set_or_empty(m: Map<Seq<char>, Set<usize>>, k: Seq<char>) -> Set<usize> {
    if m.contains_key(k) {
        m[k]
    } else {
        Set::empty()
    }
}

/// The key-wise union of two name-keyed maps of sets.
pub open spec fn union_values(m1: Map<Seq<char>, Set<usize>>, m2: Map<Seq<char>, Set<usize>>) -> Map<
    Seq<char>,
    Set<usize>,
> {
    Map::new(
        |k: Seq<char>| m1.contains_key(k) || m2.contains_key(k),
        |k: Seq<char>| set_or_empty(m1, k).union(set_or_empty(m2, k)),
    )
}

/// Scope `e` with what scope `s` knows added: the sets of both bindings
/// and of both container facts are joined, and `e`'s export list is kept
/// unless only `s` has one. The name and the local names stay `e`'s.
pub open spec fn merge_scope(e: ScopeInfoView, s: ScopeInfoView) -> ScopeInfoView {
    ScopeInfoView {
        name: e.name,
        defs: union_values(e.defs, s.defs),
        locals: e.locals,
        containers: union_values(e.containers, s.containers),
        all_exports: if e.all_exports is None && s.all_exports is Some {
            s.all_exports
        } else {
            e.all_exports
        },
    }
}

/// Table `a` with table `b` merged in: a scope known to one of them is
/// taken as it is, and a scope known to both is `merge_scope` of the two.
pub open spec fn merged_tables(a: Map<Seq<char>, ScopeInfoView>, b: Map<Seq<char>, ScopeInfoView>) -> Map<
    Seq<char>,
    ScopeInfoView,
> {
    Map::new(
        |k: Seq<char>| a.contains_key(k) || b.contains_key(k),
        |k: Seq<char>|
            if a.contains_key(k) {
                if b.contains_key(k) {
                    merge_scope(a[k], b[k])
                } else {
                    a[k]
                }
            } else {
                b[k]
            },
    )
}

/// Join into each set of `dst` the set that `src` holds under the same name.
fn union_into(dst: &mut NameTable<IdSet>, src: &NameTable<IdSet>)
    requires
        id_table_wf(*old(dst)),
        id_table_wf(*src),
    ensures
        id_table_wf(*final(dst)),
        id_table_view(*final(dst)) == union_values(id_table_view(*old(dst)), id_table_view(*src)),
{
    let ghost m0 = id_table_view(*old(dst));
    let ghost ms = id_table_view(*src);
    proof {
        src.lemma_entries();
    }
    let mut i: usize = 0;
    assert(id_table_view(*dst) =~= union_values(m0, ms.restrict(src.key_seq().take(0).to_set()))) by {
        assert forall|kk: Seq<char>| #[trigger] m0.contains_key(kk) implies m0[kk] == set_or_empty(m0, kk).union(
            set_or_empty(ms.restrict(src.key_seq().take(0).to_set()), kk),
        ) by {
            assert(m0[kk] =~= m0[kk].union(Set::empty()));
        }
    }
    while i < src.len()
        invariant
            i <= src.key_seq().len(),
            id_table_wf(*dst),
            id_table_wf(*src),
            ms == id_table_view(*src),
            src.key_seq().len() == src.value_seq().len(),
            src.key_seq().no_duplicates(),
            forall|j: int| 0 <= j < src.key_seq().len() ==> {
                &&& #[trigger] src@.contains_key(src.key_seq()[j])
                &&& src@[src.key_seq()[j]] == src.value_seq()[j]
            },
            id_table_view(*dst) == union_values(m0, ms.restrict(src.key_seq().take(i as int).to_set())),
        decreases src.key_seq().len() - i,
    {
        let name = src.key(i);
        let vs = src.value(i);
        let ghost k = name@;
        let ghost before = id_table_view(*dst);
        proof {
            dst.lemma_entries();
        }
        match dst.find(name) {
            Some(j) => {
                let ghost old_dst = *dst;
                let e = dst.value_mut(j);
                e.union_with(vs);
                proof {
                    let ghost new_e = dst.value_seq()[j as int];
                    old_dst.lemma_entries();
                    assert(old_dst.key_seq()[j as int] == k);
                    assert(old_dst@.contains_key(old_dst.key_seq()[j as int]));
                    assert(old_dst@[k] == old_dst.value_seq()[j as int]);
                    NameTable::lemma_update_at(&old_dst, dst, j as int, new_e);
                    assert forall|t: int| 0 <= t < dst.value_seq().len() implies (
                    #[trigger] dst.value_seq()[t]).wf() by {
                        if t != j {
                            assert(dst.value_seq()[t] == old_dst.value_seq()[t]);
                        }
                    }
                    assert(id_table_view(*dst) =~= before.insert(k, before[k].union(vs@)));
                }
            },
            None => {
                let mut e = IdSet::new();
                e.union_with(vs);
                let ghost ge = e;
                let ghost old_dst = *dst;
                dst.insert(name.clone(), e);
                proof {
                    assert forall|t: int| 0 <= t < dst.value_seq().len() implies (
                    #[trigger] dst.value_seq()[t]).wf() by {
                        if t < old_dst.value_seq().len() {
                            assert(dst.value_seq()[t] == old_dst.value_seq()[t]);
                        }
                    }
                    assert(id_table_view(*dst) =~= before.insert(k, Set::<usize>::empty().union(vs@)));
                }
            },
        }
        proof {
            let pre = src.key_seq().take(i as int);
            assert(src.key_seq().take(i + 1) =~= pre.push(k));
            assert(!pre.contains(k)) by {
                if pre.contains(k) {
                    let t = pre.index_of(k);
                    assert(src.key_seq()[t] == src.key_seq()[i as int]);
                }
            }
            assert(ms[k] == vs@);
            let r0 = ms.restrict(pre.to_set());
            let r1 = ms.restrict(src.key_seq().take(i + 1).to_set());
            assert(!r0.contains_key(k));
            assert(set_or_empty(before, k) == set_or_empty(m0, k));
            assert(id_table_view(*dst) =~= union_values(m0, r1)) by {
                assert forall|kk: Seq<char>| #[trigger] union_values(m0, r1).contains_key(kk) implies
                    id_table_view(*dst).contains_key(kk) && id_table_view(*dst)[kk] == union_values(m0, r1)[kk] by {
                    if kk != k {
                        assert(union_values(m0, r0).contains_key(kk));
                        assert(set_or_empty(r1, kk) == set_or_empty(r0, kk));
                    }
                }
            }
        }
        i = i + 1;
    }
    assert(src.key_seq().take(i as int) =~= src.key_seq());
    assert(ms.restrict(src.key_seq().to_set()) =~= ms) by {
        assert forall|kk: Seq<char>| ms.contains_key(kk) implies #[trigger] src.key_seq().to_set().contains(kk) by {
            assert(src@.contains_key(kk));
            src.lemma_entries();
        }
    }
}

/// Joining into an empty table gives the joined table itself.
proof fn lemma_union_values_empty(m: Map<Seq<char>, Set<usize>>)
    ensures
        union_values(Map::empty(), m) == m,
{
    assert forall|k: Seq<char>| #[trigger] m.contains_key(k) implies union_values(Map::empty(), m)[k]
        == m[k] by {
        assert(Set::<usize>::empty().union(m[k]) =~= m[k]);
    }
    assert(union_values(Map::empty(), m) =~= m);
}

/// A copy of a list of strings.
fn copy_strings(v: &Vec<String>) -> (r: Vec<String>)
    ensures
        r@.map_values(|s: String| s@) == v@.map_values(|s: String| s@),
{
    let r = v.clone();
    assert(r@.map_values(|s: String| s@) =~= v@.map_values(|s: String| s@));
    r
}

/// A copy of a scope.
pub fn clone_scope(sc: &ScopeInfo) -> (r: ScopeInfo)
    requires
        sc.wf(),
    ensures
        r.wf(),
        r@ == sc@,
{
    let mut defs = NameTable::new();
    assert(id_table_view(defs) =~= Map::empty());
    union_into(&mut defs, &sc.defs);
    let mut containers = NameTable::new();
    assert(id_table_view(containers) =~= Map::empty());
    union_into(&mut containers, &sc.containers);
    proof {
        lemma_union_values_empty(id_table_view(sc.defs));
        lemma_union_values_empty(id_table_view(sc.containers));
    }
    let all_exports = match &sc.all_exports {
        Some(v) => Some(copy_strings(v)),
        None => None,
    };
    ScopeInfo { name: sc.name.clone(), defs, locals: sc.locals.clone(), containers, all_exports }
}

/// Add what scope `sc` knows to scope `existing`.
fn merge_scope_into(existing: &mut ScopeInfo, sc: &ScopeInfo)
    requires
        old(existing).wf(),
        sc.wf(),
    ensures
        final(existing).wf(),
        final(existing)@ == merge_scope(old(existing)@, sc@),
{
    union_into(&mut existing.defs, &sc.defs);
    union_into(&mut existing.containers, &sc.containers);
    if existing.all_exports.is_none() && sc.all_exports.is_some() {
        existing.all_exports = match &sc.all_exports {
            Some(v) => Some(copy_strings(v)),
            None => None,
        };
    }
    assert(existing@ =~= merge_scope(old(existing)@, sc@));
}

/// Merge the scope table `scopes` of one pass into `target`: scopes new to
/// `target` are copied in, and scopes it already has gain what the other
/// pass found (see `merge_scope`).
pub fn merge_scopes(target: &mut NameTable<ScopeInfo>, scopes: &NameTable<ScopeInfo>)
    requires
        scope_table_wf(*old(target)),
        scope_table_wf(*scopes),
    ensures
        scope_table_wf(*final(target)),
        scope_table_view(*final(target)) == merged_tables(
            scope_table_view(*old(target)),
            scope_table_view(*scopes),
        ),
{
    let ghost m0 = scope_table_view(*old(target));
    let ghost ms = scope_table_view(*scopes);
    proof {
        scopes.lemma_entries();
    }
    let mut i: usize = 0;
    assert(scope_table_view(*target) =~= merged_tables(
        m0,
        ms.restrict(scopes.key_seq().take(0).to_set()),
    ));
    while i < scopes.len()
        invariant
            i <= scopes.key_seq().len(),
            scope_table_wf(*target),
            scope_table_wf(*scopes),
            ms == scope_table_view(*scopes),
            scopes.key_seq().len() == scopes.value_seq().len(),
            scopes.key_seq().no_duplicates(),
            forall|j: int| 0 <= j < scopes.key_seq().len() ==> {
                &&& #[trigger] scopes@.contains_key(scopes.key_seq()[j])
                &&& scopes@[scopes.key_seq()[j]] == scopes.value_seq()[j]
            },
            scope_table_view(*target) == merged_tables(
                m0,
                ms.restrict(scopes.key_seq().take(i as int).to_set()),
            ),
        decreases scopes.key_seq().len() - i,
    {
        let ns = scopes.key(i);
        let sc = scopes.value(i);
        let ghost k = ns@;
        let ghost before = scope_table_view(*target);
        proof {
            target.lemma_entries();
        }
        match target.find(ns) {
            Some(j) => {
                let ghost old_t = *target;
                let existing = target.value_mut(j);
                merge_scope_into(existing, sc);
                proof {
                    let ghost new_e = target.value_seq()[j as int];
                    old_t.lemma_entries();
                    assert(old_t.key_seq()[j as int] == k);
                    assert(old_t@.contains_key(old_t.key_seq()[j as int]));
                    NameTable::lemma_update_at(&old_t, target, j as int, new_e);
                    assert forall|t: int| 0 <= t < target.value_seq().len() implies (
                    #[trigger] target.value_seq()[t]).wf() by {
                        if t != j {
                            assert(target.value_seq()[t] == old_t.value_seq()[t]);
                        }
                    }
                    assert(scope_table_view(*target) =~= before.insert(k, merge_scope(before[k], sc@)));
                }
            },
            None => {
                let copy = clone_scope(sc);
                insert_scope(target, ns.clone(), copy);
            },
        }
        proof {
            let pre = scopes.key_seq().take(i as int);
            assert(scopes.key_seq().take(i + 1) =~= pre.push(k));
            assert(!pre.contains(k)) by {
                if pre.contains(k) {
                    let t = pre.index_of(k);
                    assert(scopes.key_seq()[t] == scopes.key_seq()[i as int]);
                }
            }
            assert(ms[k] == sc@);
            let r0 = ms.restrict(pre.to_set());
            let r1 = ms.restrict(scopes.key_seq().take(i + 1).to_set());
            assert(!r0.contains_key(k));
            assert(before.contains_key(k) == m0.contains_key(k));
            assert(before.contains_key(k) ==> before[k] == m0[k]);
            assert(scope_table_view(*target) =~= merged_tables(m0, r1)) by {
                assert forall|kk: Seq<char>| #[trigger] merged_tables(m0, r1).contains_key(kk) implies
                    scope_table_view(*target).contains_key(kk) && scope_table_view(*target)[kk]
                        == merged_tables(m0, r1)[kk] by {
                    if kk != k {
                        assert(merged_tables(m0, r0).contains_key(kk));
                        assert(r1.contains_key(kk) == r0.contains_key(kk));
                    }
                }
            }
        }
        i = i + 1;
    }
    assert(scopes.key_seq().take(i as int) =~= scopes.key_seq());
    assert(ms.restrict(scopes.key_seq().to_set()) =~= ms) by {
        assert forall|kk: Seq<char>| ms.contains_key(kk) implies #[trigger] scopes.key_seq().to_set().contains(kk) by {
            assert(scopes@.contains_key(kk));
            scopes.lemma_entries();
        }
    }
}

// ---------------------------------------------------------------------------
// Laws
// ---------------------------------------------------------------------------

/// Merging a table with nothing in it changes nothing.
pub proof fn law_merge_nothing(a: Map<Seq<char>, ScopeInfoView>)
    ensures
        merged_tables(a, Map::empty()) == a,
{
    assert(merged_tables(a, Map::empty()) =~= a);
}

/// Merging into an empty table gives the merged table itself.
pub proof fn law_merge_into_empty(b: Map<Seq<char>, ScopeInfoView>)
    ensures
        merged_tables(Map::empty(), b) == b,
{
    assert(merged_tables(Map::empty(), b) =~= b);
}

/// Merging a table into itself changes nothing.
pub proof fn law_merge_idempotent(a: Map<Seq<char>, ScopeInfoView>)
    ensures
        merged_tables(a, a) == a,
{
    assert forall|k: Seq<char>| #[trigger] a.contains_key(k) implies merged_tables(a, a)[k] == a[k] by {
        let e = a[k];
        assert(union_values(e.defs, e.defs) =~= e.defs) by {
            assert forall|n: Seq<char>| #[trigger] e.defs.contains_key(n) implies union_values(e.defs, e.defs)[n]
                == e.defs[n] by {
                assert(e.defs[n].union(e.defs[n]) =~= e.defs[n]);
            }
        }
        assert(union_values(e.containers, e.containers) =~= e.containers) by {
            assert forall|n: Seq<char>| #[trigger] e.containers.contains_key(n) implies union_values(
                e.containers,
                e.containers,
            )[n] == e.containers[n] by {
                assert(e.containers[n].union(e.containers[n]) =~= e.containers[n]);
            }
        }
        assert(merge_scope(e, e) =~= e);
    }
    assert(merged_tables(a, a) =~= a);
}

/// Merging loses nothing: every scope of either table is in the result,
/// with every binding it had, each to at least the nodes it had.
pub proof fn law_merge_keeps_bindings(
    a: Map<Seq<char>, ScopeInfoView>,
    b: Map<Seq<char>, ScopeInfoView>,
    ns: Seq<char>,
    name: Seq<char>,
)
    ensures
        a.contains_key(ns) ==> merged_tables(a, b).contains_key(ns) && (a[ns].defs.contains_key(name)
            ==> merged_tables(a, b)[ns].defs.contains_key(name) && a[ns].defs[name].subset_of(
            merged_tables(a, b)[ns].defs[name],
        )),
        b.contains_key(ns) ==> merged_tables(a, b).contains_key(ns) && (b[ns].defs.contains_key(name)
            ==> merged_tables(a, b)[ns].defs.contains_key(name) && b[ns].defs[name].subset_of(
            merged_tables(a, b)[ns].defs[name],
        )),
{
}

/// Recording nested scopes under `parent` only adds keys longer than
/// `parent`: entries with shorter or equal keys stay as they were.
pub proof fn lemma_nested_keeps_short_keys(
    ss: Seq<Stmt>,
    parent: Seq<char>,
    t: Map<Seq<char>, ScopeInfoView>,
    k: Seq<char>,
)
    requires
        k.len() <= parent.len(),
    ensures
        nested_after(ss, parent, t).contains_key(k) == t.contains_key(k),
        t.contains_key(k) ==> nested_after(ss, parent, t)[k] == t[k],
    decreases ss,
{
    if ss.len() > 0 {
        let t0 = nested_after(ss.drop_last(), parent, t);
        lemma_nested_keeps_short_keys(ss.drop_last(), parent, t, k);
        lemma_stmt_nested_keeps_short_keys(ss.last(), parent, t0, k);
    }
}

proof fn lemma_stmt_nested_keeps_short_keys(
    s: Stmt,
    parent: Seq<char>,
    t: Map<Seq<char>, ScopeInfoView>,
    k: Seq<char>,
)
    requires
        k.len() <= parent.len(),
    ensures
        stmt_nested(s, parent, t).contains_key(k) == t.contains_key(k),
        t.contains_key(k) ==> stmt_nested(s, parent, t)[k] == t[k],
    decreases s,
{
    match s {
        Stmt::FunctionDef { name, parameters, body } => {
            let ns = dotted(parent, name@);
            let t1 = t.insert(ns, function_scope(name@, parameters, body@));
            assert(ns.len() > parent.len());
            lemma_nested_keeps_short_keys(body@, ns, t1, k);
        },
        Stmt::ClassDef { name, body } => {
            let ns = dotted(parent, name@);
            let t1 = t.insert(ns, class_scope(name@, body@));
            assert(ns.len() > parent.len());
            lemma_nested_keeps_short_keys(body@, ns, t1, k);
        },
        Stmt::If { body, elif_else_clauses } => {
            lemma_nested_keeps_short_keys(body@, parent, t, k);
            lemma_clauses_nested_keeps_short_keys(
                elif_else_clauses@,
                parent,
                nested_after(body@, parent, t),
                k,
            );
        },
        Stmt::While { body, orelse } => {
            lemma_nested_keeps_short_keys(body@, parent, t, k);
            lemma_nested_keeps_short_keys(orelse@, parent, nested_after(body@, parent, t), k);
        },
        Stmt::For { body, orelse, .. } => {
            lemma_nested_keeps_short_keys(body@, parent, t, k);
            lemma_nested_keeps_short_keys(orelse@, parent, nested_after(body@, parent, t), k);
        },
        Stmt::With { body, .. } => {
            lemma_nested_keeps_short_keys(body@, parent, t, k);
        },
        Stmt::Try { body, handlers, orelse, finalbody } => {
            let t1 = nested_after(body@, parent, t);
            let t2 = handlers_nested(handlers@, parent, t1);
            let t3 = nested_after(orelse@, parent, t2);
            lemma_nested_keeps_short_keys(body@, parent, t, k);
            lemma_handlers_nested_keeps_short_keys(handlers@, parent, t1, k);
            lemma_nested_keeps_short_keys(orelse@, parent, t2, k);
            lemma_nested_keeps_short_keys(finalbody@, parent, t3, k);
        },
        _ => {},
    }
}

proof fn lemma_handlers_nested_keeps_short_keys(
    hs: Seq<ExceptHandler>,
    parent: Seq<char>,
    t: Map<Seq<char>, ScopeInfoView>,
    k: Seq<char>,
)
    requires
        k.len() <= parent.len(),
    ensures
        handlers_nested(hs, parent, t).contains_key(k) == t.contains_key(k),
        t.contains_key(k) ==> handlers_nested(hs, parent, t)[k] == t[k],
    decreases hs,
{
    if hs.len() > 0 {
        let t0 = handlers_nested(hs.drop_last(), parent, t);
        lemma_handlers_nested_keeps_short_keys(hs.drop_last(), parent, t, k);
        lemma_nested_keeps_short_keys(hs.last().body@, parent, t0, k);
    }
}

proof fn lemma_clauses_nested_keeps_short_keys(
    cs: Seq<ElifElseClause>,
    parent: Seq<char>,
    t: Map<Seq<char>, ScopeInfoView>,
    k: Seq<char>,
)
    requires
        k.len() <= parent.len(),
    ensures
        clauses_nested(cs, parent, t).contains_key(k) == t.contains_key(k),
        t.contains_key(k) ==> clauses_nested(cs, parent, t)[k] == t[k],
    decreases cs,
{
    if cs.len() > 0 {
        let t0 = clauses_nested(cs.drop_last(), parent, t);
        lemma_clauses_nested_keeps_short_keys(cs.drop_last(), parent, t, k);
        lemma_nested_keeps_short_keys(cs.last().body@, parent, t0, k);
    }
}

/// The scope table of a module always holds the module's own scope, under
/// the module's name, with what the module body binds.
pub proof fn law_module_scope_kept(body: Seq<Stmt>, module_ns: Seq<char>)
    ensures
        module_scopes(body, module_ns).contains_key(module_ns),
        module_scopes(body, module_ns)[module_ns] == after_stmts(empty_scope(Seq::empty()), body),
{
    let t = Map::empty().insert(module_ns, after_stmts(empty_scope(Seq::empty()), body));
    lemma_nested_keeps_short_keys(body, module_ns, t, module_ns);
}


/// The names of the functions and classes that statements define, directly
/// or inside the bodies of compound statements (`if`/`elif`/`else`,
/// `while`, `for`, `with`, `try` with its `except`, `else` and `finally`
/// bodies), but not inside other definitions.
pub open spec fn defs_reached(ss: Seq<Stmt>) -> Set<Seq<char>>
    decreases ss,
{
    if ss.len() == 0 {
        Set::empty()
    } else {
        defs_reached(ss.drop_last()).union(stmt_defs_reached(ss.last()))
    }
}

/// The definitions a statement holds, as `defs_reached` counts them.
pub open spec fn stmt_defs_reached(s: Stmt) -> Set<Seq<char>>
    decreases s,
{
    match s {
        Stmt::FunctionDef { name, .. } => Set::empty().insert(name@),
        Stmt::ClassDef { name, .. } => Set::empty().insert(name@),
        Stmt::If { body, elif_else_clauses } => defs_reached(body@).union(clauses_defs_reached(elif_else_clauses@)),
        Stmt::While { body, orelse } => defs_reached(body@).union(defs_reached(orelse@)),
        Stmt::For { body, orelse, .. } => defs_reached(body@).union(defs_reached(orelse@)),
        Stmt::With { body, .. } => defs_reached(body@),
        Stmt::Try { body, handlers, orelse, finalbody } => defs_reached(body@).union(
            handlers_defs_reached(handlers@),
        ).union(defs_reached(orelse@)).union(defs_reached(finalbody@)),
        _ => Set::empty(),
    }
}

/// The definitions in the bodies of `except` clauses.
pub open spec fn handlers_defs_reached(hs: Seq<ExceptHandler>) -> Set<Seq<char>>
    decreases hs,
{
    if hs.len() == 0 {
        Set::empty()
    } else {
        handlers_defs_reached(hs.drop_last()).union(defs_reached(hs.last().body@))
    }
}

/// The definitions in the bodies of `elif`/`else` clauses.
pub open spec fn clauses_defs_reached(cs: Seq<ElifElseClause>) -> Set<Seq<char>>
    decreases cs,
{
    if cs.len() == 0 {
        Set::empty()
    } else {
        clauses_defs_reached(cs.drop_last()).union(defs_reached(cs.last().body@))
    }
}

/// Recording nested scopes never drops a key.
pub proof fn lemma_nested_keys_grow(ss: Seq<Stmt>, parent: Seq<char>, t: Map<Seq<char>, ScopeInfoView>, k: Seq<char>)
    requires
        t.contains_key(k),
    ensures
        nested_after(ss, parent, t).contains_key(k),
    decreases ss,
{
    if ss.len() > 0 {
        lemma_nested_keys_grow(ss.drop_last(), parent, t, k);
        lemma_stmt_nested_keys_grow(ss.last(), parent, nested_after(ss.drop_last(), parent, t), k);
    }
}

proof fn lemma_stmt_nested_keys_grow(s: Stmt, parent: Seq<char>, t: Map<Seq<char>, ScopeInfoView>, k: Seq<char>)
    requires
        t.contains_key(k),
    ensures
        stmt_nested(s, parent, t).contains_key(k),
    decreases s,
{
    match s {
        Stmt::FunctionDef { name, parameters, body } => {
            let ns = dotted(parent, name@);
            lemma_nested_keys_grow(body@, ns, t.insert(ns, function_scope(name@, parameters, body@)), k);
        },
        Stmt::ClassDef { name, body } => {
            let ns = dotted(parent, name@);
            lemma_nested_keys_grow(body@, ns, t.insert(ns, class_scope(name@, body@)), k);
        },
        Stmt::If { body, elif_else_clauses } => {
            lemma_nested_keys_grow(body@, parent, t, k);
            lemma_clauses_nested_keys_grow(elif_else_clauses@, parent, nested_after(body@, parent, t), k);
        },
        Stmt::While { body, orelse } => {
            lemma_nested_keys_grow(body@, parent, t, k);
            lemma_nested_keys_grow(orelse@, parent, nested_after(body@, parent, t), k);
        },
        Stmt::For { body, orelse, .. } => {
            lemma_nested_keys_grow(body@, parent, t, k);
            lemma_nested_keys_grow(orelse@, parent, nested_after(body@, parent, t), k);
        },
        Stmt::With { body, .. } => {
            lemma_nested_keys_grow(body@, parent, t, k);
        },
        Stmt::Try { body, handlers, orelse, finalbody } => {
            let t1 = nested_after(body@, parent, t);
            let t2 = handlers_nested(handlers@, parent, t1);
            let t3 = nested_after(orelse@, parent, t2);
            lemma_nested_keys_grow(body@, parent, t, k);
            lemma_handlers_nested_keys_grow(handlers@, parent, t1, k);
            lemma_nested_keys_grow(orelse@, parent, t2, k);
            lemma_nested_keys_grow(finalbody@, parent, t3, k);
        },
        _ => {},
    }
}

proof fn lemma_handlers_nested_keys_grow(
    hs: Seq<ExceptHandler>,
    parent: Seq<char>,
    t: Map<Seq<char>, ScopeInfoView>,
    k: Seq<char>,
)
    requires
        t.contains_key(k),
    ensures
        handlers_nested(hs, parent, t).contains_key(k),
    decreases hs,
{
    if hs.len() > 0 {
        lemma_handlers_nested_keys_grow(hs.drop_last(), parent, t, k);
        lemma_nested_keys_grow(hs.last().body@, parent, handlers_nested(hs.drop_last(), parent, t), k);
    }
}

proof fn lemma_clauses_nested_keys_grow(
    cs: Seq<ElifElseClause>,
    parent: Seq<char>,
    t: Map<Seq<char>, ScopeInfoView>,
    k: Seq<char>,
)
    requires
        t.contains_key(k),
    ensures
        clauses_nested(cs, parent, t).contains_key(k),
    decreases cs,
{
    if cs.len() > 0 {
        lemma_clauses_nested_keys_grow(cs.drop_last(), parent, t, k);
        lemma_nested_keys_grow(cs.last().body@, parent, clauses_nested(cs.drop_last(), parent, t), k);
    }
}

/// Every function or class defined by the statements, directly or inside
/// compound statements (the bodies of `except` clauses among them), gets a
/// scope under `parent`, keyed `parent.name`.
pub proof fn law_nested_defs_get_scopes(
    ss: Seq<Stmt>,
    parent: Seq<char>,
    t: Map<Seq<char>, ScopeInfoView>,
    f: Seq<char>,
)
    requires
        defs_reached(ss).contains(f),
    ensures
        nested_after(ss, parent, t).contains_key(parent + seq!['.'] + f),
    decreases ss,
{
    let t0 = nested_after(ss.drop_last(), parent, t);
    if defs_reached(ss.drop_last()).contains(f) {
        law_nested_defs_get_scopes(ss.drop_last(), parent, t, f);
        lemma_stmt_nested_keys_grow(ss.last(), parent, t0, parent + seq!['.'] + f);
    } else {
        lemma_stmt_defs_get_scopes(ss.last(), parent, t0, f);
    }
}

proof fn lemma_stmt_defs_get_scopes(s: Stmt, parent: Seq<char>, t: Map<Seq<char>, ScopeInfoView>, f: Seq<char>)
    requires
        stmt_defs_reached(s).contains(f),
    ensures
        stmt_nested(s, parent, t).contains_key(parent + seq!['.'] + f),
    decreases s,
{
    let k = parent + seq!['.'] + f;
    match s {
        Stmt::FunctionDef { name, parameters, body } => {
            let ns = dotted(parent, name@);
            assert(ns == k);
            lemma_nested_keys_grow(body@, ns, t.insert(ns, function_scope(name@, parameters, body@)), k);
        },
        Stmt::ClassDef { name, body } => {
            let ns = dotted(parent, name@);
            assert(ns == k);
            lemma_nested_keys_grow(body@, ns, t.insert(ns, class_scope(name@, body@)), k);
        },
        Stmt::If { body, elif_else_clauses } => {
            let t1 = nested_after(body@, parent, t);
            if defs_reached(body@).contains(f) {
                law_nested_defs_get_scopes(body@, parent, t, f);
                lemma_clauses_nested_keys_grow(elif_else_clauses@, parent, t1, k);
            } else {
                lemma_clauses_defs_get_scopes(elif_else_clauses@, parent, t1, f);
            }
        },
        Stmt::While { body, orelse } => {
            let t1 = nested_after(body@, parent, t);
            if defs_reached(body@).contains(f) {
                law_nested_defs_get_scopes(body@, parent, t, f);
                lemma_nested_keys_grow(orelse@, parent, t1, k);
            } else {
                law_nested_defs_get_scopes(orelse@, parent, t1, f);
            }
        },
        Stmt::For { body, orelse, .. } => {
            let t1 = nested_after(body@, parent, t);
            if defs_reached(body@).contains(f) {
                law_nested_defs_get_scopes(body@, parent, t, f);
                lemma_nested_keys_grow(orelse@, parent, t1, k);
            } else {
                law_nested_defs_get_scopes(orelse@, parent, t1, f);
            }
        },
        Stmt::With { body, .. } => {
            law_nested_defs_get_scopes(body@, parent, t, f);
        },
        Stmt::Try { body, handlers, orelse, finalbody } => {
            let t1 = nested_after(body@, parent, t);
            let t2 = handlers_nested(handlers@, parent, t1);
            let t3 = nested_after(orelse@, parent, t2);
            if defs_reached(finalbody@).contains(f) {
                law_nested_defs_get_scopes(finalbody@, parent, t3, f);
            } else {
                if defs_reached(orelse@).contains(f) {
                    law_nested_defs_get_scopes(orelse@, parent, t2, f);
                } else {
                    if handlers_defs_reached(handlers@).contains(f) {
                        lemma_handlers_defs_get_scopes(handlers@, parent, t1, f);
                    } else {
                        law_nested_defs_get_scopes(body@, parent, t, f);
                        lemma_handlers_nested_keys_grow(handlers@, parent, t1, k);
                    }
                    lemma_nested_keys_grow(orelse@, parent, t2, k);
                }
                lemma_nested_keys_grow(finalbody@, parent, t3, k);
            }
        },
        _ => {},
    }
}

proof fn lemma_handlers_defs_get_scopes(
    hs: Seq<ExceptHandler>,
    parent: Seq<char>,
    t: Map<Seq<char>, ScopeInfoView>,
    f: Seq<char>,
)
    requires
        handlers_defs_reached(hs).contains(f),
    ensures
        handlers_nested(hs, parent, t).contains_key(parent + seq!['.'] + f),
    decreases hs,
{
    let t0 = handlers_nested(hs.drop_last(), parent, t);
    if handlers_defs_reached(hs.drop_last()).contains(f) {
        lemma_handlers_defs_get_scopes(hs.drop_last(), parent, t, f);
        lemma_nested_keys_grow(hs.last().body@, parent, t0, parent + seq!['.'] + f);
    } else {
        law_nested_defs_get_scopes(hs.last().body@, parent, t0, f);
    }
}

proof fn lemma_clauses_defs_get_scopes(
    cs: Seq<ElifElseClause>,
    parent: Seq<char>,
    t: Map<Seq<char>, ScopeInfoView>,
    f: Seq<char>,
)
    requires
        clauses_defs_reached(cs).contains(f),
    ensures
        clauses_nested(cs, parent, t).contains_key(parent + seq!['.'] + f),
    decreases cs,
{
    let t0 = clauses_nested(cs.drop_last(), parent, t);
    if clauses_defs_reached(cs.drop_last()).contains(f) {
        lemma_clauses_defs_get_scopes(cs.drop_last(), parent, t, f);
        lemma_nested_keys_grow(cs.last().body@, parent, t0, parent + seq!['.'] + f);
    } else {
        law_nested_defs_get_scopes(cs.last().body@, parent, t0, f);
    }
}

/// Every function or class a module defines, at its top level or inside
/// compound statements, gets a scope in the module's table, keyed
/// `module.name`.
pub proof fn law_module_defs_get_scopes(body: Seq<Stmt>, module_ns: Seq<char>, f: Seq<char>)
    requires
        defs_reached(body).contains(f),
    ensures
        module_scopes(body, module_ns).contains_key(module_ns + seq!['.'] + f),
{
    let t = Map::empty().insert(module_ns, after_stmts(empty_scope(Seq::empty()), body));
    law_nested_defs_get_scopes(body, module_ns, t, f);
}

/// An import binds, for each of its aliases, the alias's `as` name where it
/// has one and its own name otherwise; `from` imports do so too, except
/// for `*`.
pub proof fn law_import_binds_alias_names(al: Seq<Alias>, from: bool, k: int)
    requires
        0 <= k < al.len(),
        !(from && al[k].name@ == seq!['*']),
    ensures
        import_names(al, from).contains(
            match al[k].asname {
                Some(n) => n@,
                None => al[k].name@,
            },
        ),
    decreases al.len(),
{
    if k < al.len() - 1 {
        law_import_binds_alias_names(al.drop_last(), from, k);
        assert(al.drop_last()[k] == al[k]);
    }
}

/// An import binds nothing but the names of its aliases: each name it
/// binds is the `as` name, or else the own name, of one of them.
pub proof fn law_import_binds_only_alias_names(al: Seq<Alias>, from: bool, x: Seq<char>)
    requires
        import_names(al, from).contains(x),
    ensures
        exists|k: int|
            0 <= k < al.len() && x == match #[trigger] al[k].asname {
                Some(n) => n@,
                None => al[k].name@,
            },
    decreases al.len(),
{
    if import_names(al.drop_last(), from).contains(x) {
        law_import_binds_only_alias_names(al.drop_last(), from, x);
        let k = choose|k: int|
            0 <= k < al.drop_last().len() && x == match #[trigger] al.drop_last()[k].asname {
                Some(n) => n@,
                None => al.drop_last()[k].name@,
            };
        assert(al[k] == al.drop_last()[k]);
    } else {
        let k = al.len() - 1;
        assert(al[k] == al.last());
    }
}

} // verus!
