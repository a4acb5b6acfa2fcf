use atlier::system::Value;
use std::collections::hash_map::DefaultHasher;
use std::collections::BTreeSet;
use std::hash::{Hash, Hasher};

fn std_hash<T: Hash + ?Sized>(parts: &[&T]) -> u64 {
    let mut state = DefaultHasher::new();
    for p in parts {
        p.hash(&mut state);
    }
    state.finish()
}

#[test]
fn value_accessors_pick_their_variant() {
    assert_eq!(Value::Empty.empty(), Some(()));
    assert_eq!(Value::Bool(true).empty(), None);
    assert_eq!(Value::Bool(true).bool(), Some(true));
    assert_eq!(Value::Int(3).bool(), None);
    assert_eq!(Value::TextBuffer("abc".to_string()).text(), Some("abc".to_string()));
    assert_eq!(Value::Symbol("abc".to_string()).text(), None);
    assert_eq!(Value::Int(-7).int_value(), Some(-7));
    assert_eq!(Value::IntPair(1, 2).int_value(), None);
    assert_eq!(Value::IntPair(1, 2).int_pair(), Some((1, 2)));
    assert_eq!(Value::IntRange(1, 2, 3).int_range(), Some((1, 2, 3)));
    assert_eq!(Value::IntPair(1, 2).int_range(), None);
    assert_eq!(Value::Symbol("sym".to_string()).symbol(), Some("sym".to_string()));
    assert_eq!(Value::BinaryVector(vec![1, 2, 3]).binary(), Some(vec![1, 2, 3]));
    assert_eq!(Value::Empty.binary(), None);
    let mut set = BTreeSet::new();
    set.insert("a".to_string());
    assert_eq!(Value::Complex(set.clone()).complex(), Some(set));
    assert_eq!(Value::Empty.complex(), None);
}

#[test]
fn value_conversions() {
    assert!(matches!(Value::from(true), Value::Bool(true)));
    assert!(matches!(Value::from("name"), Value::Symbol(s) if s == "name"));
    assert!(matches!(Value::from(42usize), Value::Int(42)));
    let set: BTreeSet<String> = BTreeSet::new();
    assert!(matches!(Value::from(set), Value::Complex(s) if s.is_empty()));
    assert!(matches!(Value::default(), Value::Empty));
}

#[test]
fn value_clone_keeps_contents() {
    let v = Value::BinaryVector(vec![9, 8, 7]);
    assert!(matches!(v.clone(), Value::BinaryVector(b) if b == vec![9, 8, 7]));
    let t = Value::TextBuffer("text".to_string());
    assert!(matches!(t.clone(), Value::TextBuffer(s) if s == "text"));
}

#[test]
fn reference_stays_a_reference() {
    assert!(matches!(Value::Reference(0x1234).to_ref(), Value::Reference(0x1234)));
}

#[test]
fn to_ref_hashes_as_the_fields_hash() {
    assert!(matches!(Value::Int(5).to_ref(), Value::Reference(r) if r == std_hash(&[&5i32])));
    assert!(matches!(Value::Bool(true).to_ref(), Value::Reference(r) if r == std_hash(&[&true])));
    assert!(matches!(Value::IntPair(1, -2).to_ref(), Value::Reference(r) if r == std_hash(&[&1i32, &-2i32])));
    assert!(
        matches!(Value::IntRange(1, 2, 3).to_ref(), Value::Reference(r) if r == std_hash(&[&1i32, &2i32, &3i32]))
    );
    let bits = 1.5f32.to_bits();
    assert!(matches!(Value::Float(bits).to_ref(), Value::Reference(r) if r == std_hash(&[&bits])));
    assert!(
        matches!(Value::TextBuffer("hello".to_string()).to_ref(), Value::Reference(r) if r == std_hash(&["hello"]))
    );
    assert!(
        matches!(Value::Symbol("hello".to_string()).to_ref(), Value::Reference(r) if r == std_hash(&["hello"]))
    );
    let bytes: Vec<u8> = vec![1, 2, 3];
    assert!(matches!(Value::BinaryVector(bytes.clone()).to_ref(), Value::Reference(r) if r == std_hash(&[&bytes])));
    assert!(matches!(Value::Empty.to_ref(), Value::Reference(r) if r == DefaultHasher::new().finish()));
    let mut set = BTreeSet::new();
    set.insert("x".to_string());
    assert!(matches!(Value::Complex(set.clone()).to_ref(), Value::Reference(r) if r == std_hash(&[&set])));
}

#[test]
fn text_and_symbol_share_a_reference() {
    let a = Value::TextBuffer("same".to_string()).to_ref();
    let b = Value::Symbol("same".to_string()).to_ref();
    match (a, b) {
        (Value::Reference(x), Value::Reference(y)) => assert_eq!(x, y),
        _ => panic!("to_ref gives a reference"),
    }
}
