use pycallgraph_rs::scope::{Scope, ScopeStack};

#[test]
fn scope_bind_get_has() {
    let mut s = Scope::new("mod");
    assert_eq!(s.name, "mod");
    assert!(!s.has("x"));
    assert_eq!(s.get("x"), None);
    s.bind("x", Some("mod.x"));
    s.bind("y", None);
    assert!(s.has("x"));
    assert!(s.has("y"));
    assert_eq!(s.get("x"), Some(&Some("mod.x".to_string())));
    assert_eq!(s.get("y"), Some(&None));
    assert!(s.locals.contains("x"));
    assert!(s.locals.contains("y"));
    s.bind("x", Some("other.x"));
    assert_eq!(s.get("x"), Some(&Some("other.x".to_string())));
}

#[test]
fn stack_resolves_innermost_first() {
    let mut st = ScopeStack::new();
    assert_eq!(st.depth(), 0);
    assert_eq!(st.resolve("a"), None);
    let mut outer = Scope::new("mod");
    outer.bind("a", Some("mod.a"));
    outer.bind("b", Some("mod.b"));
    st.push(outer);
    let mut inner = Scope::new("f");
    inner.bind("a", Some("mod.f.a"));
    inner.bind("c", None);
    st.push(inner);
    assert_eq!(st.depth(), 2);
    assert_eq!(st.resolve("a"), Some("mod.f.a".to_string()));
    assert_eq!(st.resolve("b"), Some("mod.b".to_string()));
    // Bound without a target in the inner scope: resolution stops there.
    assert_eq!(st.resolve("c"), None);
    assert!(st.is_defined("c"));
    assert!(st.is_defined("b"));
    assert!(!st.is_defined("d"));
    assert_eq!(st.current_namespace(), "mod.f");
    let popped = st.pop().unwrap();
    assert_eq!(popped.name, "f");
    assert_eq!(st.resolve("a"), Some("mod.a".to_string()));
    assert_eq!(st.current_namespace(), "mod");
    assert_eq!(st.current().unwrap().name, "mod");
    st.pop();
    assert!(st.pop().is_none());
    assert!(st.current().is_none());
    assert_eq!(st.current_namespace(), "");
}

#[test]
fn current_mut_changes_top_scope() {
    let mut st = ScopeStack::default();
    assert!(st.current_mut().is_none());
    st.push(Scope::new("m"));
    st.push(Scope::new("C"));
    st.current_mut().unwrap().bind("attr", Some("m.C.attr"));
    assert_eq!(st.resolve("attr"), Some("m.C.attr".to_string()));
    assert_eq!(st.current_namespace(), "m.C");
}
