use snow_automata::string_interning::{intern, intern_get_str, Interner};

#[test]
fn intern_test() {
    let mut interner = Interner::new();

    let str1 = intern(&mut interner, "test1");
    let str2 = intern(&mut interner, "test12");
    let str1_copy = intern(&mut interner, "test1");

    assert_eq!(str1, str1_copy);
    assert_ne!(str1, str2);
    assert_ne!(str2, str1_copy);

    assert_eq!(intern_get_str(&interner, str1).unwrap(), "test1")
}

#[test]
fn intern_resolves_original_text() {
    let mut interner = Interner::new();
    let a = intern(&mut interner, "alpha");
    let b = intern(&mut interner, "beta");
    assert_eq!(intern_get_str(&interner, a).unwrap(), "alpha");
    assert_eq!(intern_get_str(&interner, b).unwrap(), "beta");
}

#[test]
fn intern_method_and_get() {
    let mut interner = Interner::new();
    let a = interner.intern("x");
    let again = interner.intern("x");
    assert_eq!(a, again);
    assert_eq!(interner.get(a).unwrap(), "x");
}
