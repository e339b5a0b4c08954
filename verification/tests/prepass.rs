use pycallgraph_rs::prepass::{build_scopes, collect_scope_defs, merge_scopes, ScopeInfo};
use pycallgraph_rs::syntax::{Alias, ElifElseClause, ExceptHandler, Expr, ModModule, Parameters, Stmt, WithItem};
use pycallgraph_rs::table::{IdSet, NameTable};

fn s(x: &str) -> String {
    x.to_string()
}

fn name(x: &str) -> Expr {
    Expr::Name(s(x))
}

fn no_params() -> Parameters {
    Parameters { posonlyargs: vec![], args: vec![], kwonlyargs: vec![], vararg: None, kwarg: None }
}

fn alias(n: &str, asname: Option<&str>) -> Alias {
    Alias { name: s(n), asname: asname.map(s) }
}

fn has_def(scope: &ScopeInfo, n: &str) -> bool {
    scope.defs.get(&s(n)).is_some()
}

fn is_local(scope: &ScopeInfo, n: &str) -> bool {
    scope.locals.contains(&s(n))
}

/// ```python
/// import os as o, sys
/// from pkg import *, helper
/// __all__ = ["f", "C"]
/// a, [b, *rest] = 1, 2, 3
/// def f(p, /, q, *args, k, **kw):
///     x = 1
///     def inner(): pass
/// class C:
///     attr: int = 0
///     def m(self):
///         for i in range(3):
///             total += i
///         else:
///             done = True
/// if cond:
///     def g(): pass
/// elif other:
///     class D: pass
/// else:
///     import json
/// try:
///     t = 1
/// except ValueError as err:
///     handled = 1
/// finally:
///     cleanup = 1
/// with open(p) as (fh, extra), lock:
///     inside = 1
/// while True:
///     looped = 1
/// ```
fn sample_module() -> ModModule {
    ModModule {
        body: vec![
            Stmt::Import { names: vec![alias("os", Some("o")), alias("sys", None)] },
            Stmt::ImportFrom { names: vec![alias("*", None), alias("helper", None)] },
            Stmt::Assign {
                targets: vec![name("__all__")],
                value: Expr::List(vec![Expr::StringLiteral(s("f")), Expr::StringLiteral(s("C"))]),
            },
            Stmt::Assign {
                targets: vec![Expr::Tuple(vec![
                    name("a"),
                    Expr::List(vec![name("b"), Expr::Starred(Box::new(name("rest")))]),
                ])],
                value: Expr::Other,
            },
            Stmt::FunctionDef {
                name: s("f"),
                parameters: Parameters {
                    posonlyargs: vec![s("p")],
                    args: vec![s("q")],
                    kwonlyargs: vec![s("k")],
                    vararg: Some(s("args")),
                    kwarg: Some(s("kw")),
                },
                body: vec![
                    Stmt::Assign { targets: vec![name("x")], value: Expr::Other },
                    Stmt::FunctionDef { name: s("inner"), parameters: no_params(), body: vec![Stmt::Other] },
                ],
            },
            Stmt::ClassDef {
                name: s("C"),
                body: vec![
                    Stmt::AnnAssign { target: name("attr") },
                    Stmt::FunctionDef {
                        name: s("m"),
                        parameters: Parameters {
                            posonlyargs: vec![],
                            args: vec![s("self")],
                            kwonlyargs: vec![],
                            vararg: None,
                            kwarg: None,
                        },
                        body: vec![Stmt::For {
                            target: name("i"),
                            body: vec![Stmt::AugAssign { target: name("total") }],
                            orelse: vec![Stmt::Assign { targets: vec![name("done")], value: Expr::Other }],
                        }],
                    },
                ],
            },
            Stmt::If {
                body: vec![Stmt::FunctionDef { name: s("g"), parameters: no_params(), body: vec![] }],
                elif_else_clauses: vec![
                    ElifElseClause { body: vec![Stmt::ClassDef { name: s("D"), body: vec![] }] },
                    ElifElseClause { body: vec![Stmt::Import { names: vec![alias("json", None)] }] },
                ],
            },
            Stmt::Try {
                body: vec![Stmt::Assign { targets: vec![name("t")], value: Expr::Other }],
                handlers: vec![ExceptHandler {
                    name: Some(s("err")),
                    body: vec![Stmt::Assign { targets: vec![name("handled")], value: Expr::Other }],
                }],
                orelse: vec![],
                finalbody: vec![Stmt::Assign { targets: vec![name("cleanup")], value: Expr::Other }],
            },
            Stmt::With {
                items: vec![
                    WithItem { optional_vars: Some(Expr::Tuple(vec![name("fh"), name("extra")])) },
                    WithItem { optional_vars: None },
                ],
                body: vec![Stmt::Assign { targets: vec![name("inside")], value: Expr::Other }],
            },
            Stmt::While {
                body: vec![Stmt::Assign { targets: vec![name("looped")], value: Expr::Other }],
                orelse: vec![],
            },
        ],
    }
}

#[test]
fn module_scope_collects_bindings() {
    let module = sample_module();
    let scopes = build_scopes(&module, "pkg.mod");
    let m = scopes.get(&s("pkg.mod")).expect("module scope");
    assert_eq!(m.name, "");
    for n in [
        "o", "sys", "helper", "__all__", "a", "b", "rest", "f", "C", "g", "D", "json", "t", "err", "handled",
        "cleanup", "fh", "extra", "inside", "looped",
    ] {
        assert!(has_def(m, n), "{n} should be bound in the module scope");
    }
    for n in ["os", "*", "x", "inner", "attr", "m", "i", "p"] {
        assert!(!has_def(m, n), "{n} should not be bound in the module scope");
    }
    // Imports are bound but not local; assignments and definitions are local.
    for n in ["o", "sys", "helper", "json"] {
        assert!(!is_local(m, n), "{n} is imported, not local");
    }
    for n in ["a", "b", "rest", "f", "C", "g", "D", "t", "err", "handled", "cleanup", "fh", "extra", "inside", "looped"] {
        assert!(is_local(m, n), "{n} should be local");
    }
    let exports = m.all_exports.as_ref().expect("__all__ is a list of strings");
    assert_eq!(exports, &vec![s("f"), s("C")]);
    assert_eq!(m.defs.get(&s("f")).unwrap().len(), 0);
}

#[test]
fn nested_scopes_are_keyed_by_dotted_name() {
    let module = sample_module();
    let scopes = build_scopes(&module, "pkg.mod");
    let keys: Vec<String> = (0..scopes.len()).map(|i| scopes.key(i).clone()).collect();
    assert_eq!(
        keys,
        vec![
            s("pkg.mod"),
            s("pkg.mod.f"),
            s("pkg.mod.f.inner"),
            s("pkg.mod.C"),
            s("pkg.mod.C.m"),
            s("pkg.mod.g"),
            s("pkg.mod.D"),
        ]
    );
    let f = scopes.get(&s("pkg.mod.f")).unwrap();
    assert_eq!(f.name, "f");
    for n in ["p", "q", "k", "args", "kw", "x", "inner"] {
        assert!(has_def(f, n) && is_local(f, n), "{n} should be local to f");
    }
    assert!(f.all_exports.is_none());
    let c = scopes.get(&s("pkg.mod.C")).unwrap();
    assert!(has_def(c, "attr") && has_def(c, "m"));
    assert!(!has_def(c, "self"));
    let meth = scopes.get(&s("pkg.mod.C.m")).unwrap();
    for n in ["self", "i", "total", "done"] {
        assert!(has_def(meth, n) && is_local(meth, n), "{n} should be local to m");
    }
}

#[test]
fn all_exports_need_string_literals() {
    let mut scope = ScopeInfo::new("m");
    let stmts = vec![
        Stmt::Assign {
            targets: vec![name("__all__")],
            value: Expr::Tuple(vec![Expr::StringLiteral(s("a"))]),
        },
        Stmt::Assign {
            targets: vec![name("__all__")],
            value: Expr::List(vec![Expr::StringLiteral(s("b")), name("c")]),
        },
    ];
    collect_scope_defs(&stmts, &mut scope);
    // The second list holds a name, so it states no export list; the first stays.
    assert_eq!(scope.all_exports, Some(vec![s("a")]));
    assert!(has_def(&scope, "__all__"));
}

fn ids(v: &[usize]) -> IdSet {
    let mut set = IdSet::new();
    for &x in v {
        set.insert(x);
    }
    set
}

fn scope_with_def(scope_name: &str, def: &str, targets: &[usize], exports: Option<Vec<String>>) -> ScopeInfo {
    let mut scope = ScopeInfo::new(scope_name);
    scope.defs.insert(s(def), ids(targets));
    scope.all_exports = exports;
    scope
}

#[test]
fn merge_joins_bindings_and_keeps_first_exports() {
    let mut target: NameTable<ScopeInfo> = NameTable::new();
    target.insert(s("m"), scope_with_def("", "x", &[1], None));
    target.insert(s("m.f"), scope_with_def("f", "y", &[2], Some(vec![s("first")])));

    let mut other: NameTable<ScopeInfo> = NameTable::new();
    other.insert(s("m"), scope_with_def("", "x", &[3], Some(vec![s("exported")])));
    other.insert(s("m.f"), scope_with_def("f", "z", &[4], Some(vec![s("second")])));
    other.insert(s("m.g"), scope_with_def("g", "w", &[5], None));

    merge_scopes(&mut target, &other);
    assert_eq!(target.len(), 3);

    let m = target.get(&s("m")).unwrap();
    let x = m.defs.get(&s("x")).unwrap();
    assert!(x.contains(1) && x.contains(3));
    assert_eq!(x.len(), 2);
    assert_eq!(m.all_exports, Some(vec![s("exported")]));

    let f = target.get(&s("m.f")).unwrap();
    assert!(f.defs.get(&s("y")).unwrap().contains(2));
    assert!(f.defs.get(&s("z")).unwrap().contains(4));
    assert_eq!(f.all_exports, Some(vec![s("first")]));

    let g = target.get(&s("m.g")).unwrap();
    assert_eq!(g.name, "g");
    assert!(g.defs.get(&s("w")).unwrap().contains(5));
}

#[test]
fn merge_into_empty_copies() {
    let module = sample_module();
    let scopes = build_scopes(&module, "mod");
    let mut target: NameTable<ScopeInfo> = NameTable::new();
    merge_scopes(&mut target, &scopes);
    assert_eq!(target.len(), scopes.len());
    let m = target.get(&s("mod")).unwrap();
    assert!(has_def(m, "f") && is_local(m, "f"));
    assert_eq!(m.all_exports, Some(vec![s("f"), s("C")]));
}
