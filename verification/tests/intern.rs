use td_util::string::{InternString, Interner};

#[test]
fn test_intern_string() {
    let mut interner = Interner::new();
    assert_eq!(
        InternString::new(&mut interner, "abcdef"),
        InternString::new3(&mut interner, "ab", "cde", "f")
    );
    assert_ne!(
        InternString::new(&mut interner, "abcdefgh"),
        InternString::new3(&mut interner, "ab", "", "defg!")
    );
}

#[test]
fn test_intern_idempotent_same_shape() {
    let mut interner = Interner::new();
    let a = InternString::new(&mut interner, "some//package:name");
    let b = InternString::new(&mut interner, "some//package:name");
    assert_eq!(a, b);
    let c = InternString::from_string(&mut interner, String::from("some//package:name"));
    assert_eq!(a, c);
}

#[test]
fn test_intern_triple_splits() {
    let mut interner = Interner::new();
    let a = InternString::new3(&mut interner, "pkg//", ":", "tgt");
    let b = InternString::new(&mut interner, "pkg//:tgt");
    assert_eq!(a, b);
    assert_eq!(a.as_str(&interner), "pkg//:tgt");
    // Same total length, different split points, different content.
    let c = InternString::new3(&mut interner, "pkg//:", ":", "tg");
    assert_ne!(a, c);
}

#[test]
fn test_intern_distinct_contents() {
    let mut interner = Interner::new();
    let a = InternString::new(&mut interner, "alpha");
    let b = InternString::new(&mut interner, "beta");
    let c = InternString::new(&mut interner, "alph");
    assert_ne!(a, b);
    assert_ne!(a, c);
    assert_ne!(b, c);
    assert_eq!(a.as_str(&interner), "alpha");
    assert_eq!(b.as_str(&interner), "beta");
    assert_eq!(c.as_str(&interner), "alph");
}

#[test]
fn test_intern_default_is_empty() {
    let mut interner = Interner::new();
    let empty = InternString::new(&mut interner, "");
    assert_eq!(empty, InternString::default());
    assert_eq!(InternString::default().as_str(&interner), "");
    // The empty content can also be assembled from three empty parts.
    let empty3 = InternString::new3(&mut interner, "", "", "");
    assert_eq!(empty, empty3);
}

#[test]
fn test_intern_non_ascii_content() {
    let mut interner = Interner::new();
    let a = InternString::new3(&mut interner, "caf\u{e9}", "/", "\u{2603}");
    let b = InternString::new(&mut interner, "caf\u{e9}/\u{2603}");
    assert_eq!(a, b);
    assert_eq!(b.as_str(&interner), "caf\u{e9}/\u{2603}");
}

#[test]
fn test_symbol_validity_across_tables() {
    let mut big = Interner::new();
    let a = InternString::new(&mut big, "one");
    let b = InternString::new(&mut big, "two");
    assert!(a.is_valid(&big));
    assert!(b.is_valid(&big));
    // A fresh table holds only the empty entry: a later handle from the
    // bigger table points past its end.
    let fresh = Interner::new();
    assert!(!b.is_valid(&fresh));
    assert!(InternString::default().is_valid(&fresh));
}
