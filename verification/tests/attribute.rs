use atlier::system::{Attribute, Value};

fn text(s: &str) -> Value {
    Value::TextBuffer(s.to_string())
}

#[test]
fn new_attribute_is_stable() {
    let a = Attribute::new(7, "label", text("v"));
    assert!(a.is_stable());
    assert_eq!(a.id(), 7);
    assert_eq!(a.name(), "label");
    assert!(matches!(a.value(), Value::TextBuffer(s) if s == "v"));
    assert!(a.transient().is_none());
}

#[test]
fn edit_then_commit_takes_the_edit() {
    let mut a = Attribute::new(1, "old", Value::Int(1));
    a.edit(("new".to_string(), Value::Int(2)));
    assert!(!a.is_stable());
    assert_eq!(a.name(), "old");
    a.commit();
    assert!(a.is_stable());
    assert_eq!(a.name(), "new");
    assert!(matches!(a.value(), Value::Int(2)));
    assert_eq!(a.id(), 1);
}

#[test]
fn commit_on_stable_attribute_changes_nothing() {
    let mut a = Attribute::new(3, "n", Value::Bool(true));
    a.commit();
    assert!(a.is_stable());
    assert_eq!(a.name(), "n");
    assert!(matches!(a.value(), Value::Bool(true)));
}

#[test]
fn edit_self_copies_name_and_value() {
    let mut a = Attribute::new(2, "n", Value::Int(9));
    a.edit_self();
    match a.transient() {
        Some((name, Value::Int(9))) => assert_eq!(name, "n"),
        _ => panic!("edit_self sets the transient part"),
    }
}

#[test]
fn edit_as_keeps_pending_name() {
    let mut a = Attribute::new(2, "n", Value::Int(9));
    a.edit_as(Value::Int(10));
    match a.transient() {
        Some((name, Value::Int(10))) => assert_eq!(name, "n"),
        _ => panic!("edit_as uses the attribute's name when nothing is pending"),
    }
    a.edit(("pending".to_string(), Value::Int(11)));
    a.edit_as(Value::Int(12));
    match a.transient() {
        Some((name, Value::Int(12))) => assert_eq!(name, "pending"),
        _ => panic!("edit_as keeps the pending name"),
    }
}

#[test]
fn reset_editing_restores_pending_state() {
    let mut a = Attribute::new(4, "n", Value::Int(1));
    a.reset_editing();
    assert!(a.is_stable());
    a.edit(("m".to_string(), Value::Int(5)));
    a.reset_editing();
    match a.transient() {
        Some((name, Value::Int(1))) => assert_eq!(name, "n"),
        _ => panic!("reset sets the pending change back"),
    }
    a.commit();
    assert_eq!(a.name(), "n");
    assert!(matches!(a.value(), Value::Int(1)));
}

#[test]
fn take_transient_makes_stable() {
    let mut a = Attribute::new(4, "n", Value::Int(1));
    assert!(a.take_transient().is_none());
    a.edit(("m".to_string(), Value::Int(5)));
    let t = a.take_transient();
    assert!(matches!(t, Some((name, Value::Int(5))) if name == "m"));
    assert!(a.is_stable());
    assert_eq!(a.name(), "n");
}

#[test]
fn set_id_and_value_mut() {
    let mut a = Attribute::default();
    assert_eq!(a.id(), 0);
    assert_eq!(a.name(), "");
    assert!(matches!(a.value(), Value::Empty));
    a.set_id(99);
    assert_eq!(a.id(), 99);
    *a.value_mut() = Value::Reference(5);
    assert!(matches!(a.value(), Value::Reference(5)));
    let b = a.clone();
    assert_eq!(b.id(), 99);
    assert!(matches!(b.value(), Value::Reference(5)));
}
