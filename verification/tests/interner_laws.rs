use aris::interner::Interner;

#[test]
fn ids_follow_first_appearance() {
    let mut i = Interner::new();
    assert_eq!(i.intern("a"), 0);
    assert_eq!(i.intern("b"), 1);
    assert_eq!(i.intern("a"), 0);
    assert_eq!(i.intern("c"), 2);
    assert_eq!(i.resolve(1), Some("b"));
    assert_eq!(i.resolve(3), None);
}

#[test]
fn resolve_on_empty_interner() {
    let i = Interner::new();
    assert_eq!(i.resolve(0), None);
}

#[test]
fn intern_then_resolve_unicode() {
    let mut i = Interner::new();
    let id = i.intern("naïve::λ");
    assert_eq!(i.resolve(id), Some("naïve::λ"));
}
