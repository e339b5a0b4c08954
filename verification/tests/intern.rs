use pycallgraph_rs::intern::Interner;

#[test]
fn intern_same_string_same_id() {
    let mut i = Interner::new();
    let a = i.intern("foo");
    let b = i.intern("bar");
    let c = i.intern("foo");
    assert_eq!(a, c);
    assert_ne!(a, b);
    assert_eq!(i.resolve(a), "foo");
    assert_eq!(i.resolve(b), "bar");
}

#[test]
fn intern_ids_follow_first_appearance() {
    let mut i = Interner::default();
    let a = i.intern("x");
    let b = i.intern("y");
    assert_eq!(format!("{a:?}"), "SymId(0)");
    assert_eq!(format!("{b:?}"), "SymId(1)");
    assert!(a < b);
}

#[test]
fn lookup_does_not_create() {
    let mut i = Interner::new();
    assert_eq!(i.lookup("pkg"), None);
    let id = i.intern("pkg");
    assert_eq!(i.lookup("pkg"), Some(id));
    assert_eq!(i.lookup("other"), None);
}

#[test]
fn intern_join_builds_dotted_name() {
    let mut i = Interner::new();
    let a = i.intern("pkg");
    let b = i.intern("mod");
    let j = i.intern_join(a, b);
    assert_eq!(i.resolve(j), "pkg.mod");
    assert_eq!(i.lookup("pkg.mod"), Some(j));
    let again = i.intern("pkg.mod");
    assert_eq!(again, j);
    let j2 = i.intern_join(a, b);
    assert_eq!(j2, j);
    let self_join = i.intern_join(a, a);
    assert_eq!(i.resolve(self_join), "pkg.pkg");
}

#[test]
fn intern_empty_string() {
    let mut i = Interner::new();
    let e = i.intern("");
    assert_eq!(i.resolve(e), "");
    let d = i.intern_join(e, e);
    assert_eq!(i.resolve(d), ".");
}
