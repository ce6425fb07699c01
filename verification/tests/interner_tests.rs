use aris::interner::Interner;

#[test]
fn test_intern_same_string() {
    let mut i = Interner::new();
    let a = i.intern("hello");
    let b = i.intern("hello");
    assert_eq!(a, b);
}

#[test]
fn test_intern_different_strings() {
    let mut i = Interner::new();
    let a = i.intern("hello");
    let b = i.intern("world");
    assert_ne!(a, b);
}

#[test]
fn test_resolve() {
    let mut i = Interner::new();
    let id = i.intern("test");
    let s = i.resolve(id).unwrap();
    assert_eq!(s, "test");
}
