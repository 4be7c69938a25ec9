use std::sync::Arc;

use icetray::{Frame, FrameError};

#[test]
fn set_then_get_text() {
    let mut x = Frame::new();
    x.set("foo", String::from("Bar"));
    let v: &mut String = x.get_mut("foo").unwrap();
    assert_eq!(*v, "Bar");
    *v = String::from("baz");

    let w: &String = x.get("foo").unwrap();
    assert_eq!(*w, "baz");
}

#[test]
fn set_then_get_byte() {
    let mut x = Frame::new();
    x.set("n", 123u8);
    let v: &u8 = x.get("n").unwrap();
    assert_eq!(*v, 123u8);
}

#[test]
fn overwrite_keeps_last_value() {
    let mut x = Frame::new();
    x.set("k", 1u8);
    x.set("k", 2u8);
    assert_eq!(*x.get::<u8>("k").unwrap(), 2u8);
}

#[test]
fn overwrite_may_change_type() {
    let mut x = Frame::new();
    x.set("k", 1u8);
    x.set("k", String::from("one"));
    assert_eq!(*x.get::<String>("k").unwrap(), "one");
    assert_eq!(x.get::<u8>("k"), Err(FrameError::TypeMismatch));
}

#[test]
fn missing_key_not_found() {
    let x = Frame::new();
    assert_eq!(x.get::<u8>("nope"), Err(FrameError::KeyNotFound));
}

#[test]
fn type_mismatch_text_as_byte() {
    let mut x = Frame::new();
    x.set("text", String::from("hello"));
    assert_eq!(x.get::<u8>("text"), Err(FrameError::TypeMismatch));
}

#[test]
fn ancestor_delegation() {
    let mut a = Frame::new();
    a.set("k", 7u8);
    let a = Arc::new(a);
    let mut c = Frame::new_with_parent(Arc::clone(&a));

    assert_eq!(*c.get::<u8>("k").unwrap(), 7u8);

    c.set("k", 9u8);
    assert_eq!(*c.get::<u8>("k").unwrap(), 9u8);
    assert_eq!(*a.get::<u8>("k").unwrap(), 7u8);
}

#[test]
fn ancestor_chain_recurses() {
    let mut g = Frame::new();
    g.set("deep", String::from("root"));
    let p = Frame::new_with_parent(Arc::new(g));
    let c = Frame::new_with_parent(Arc::new(p));
    assert_eq!(*c.get::<String>("deep").unwrap(), "root");
}

#[test]
fn get_mut_is_local_only() {
    let mut a = Frame::new();
    a.set("k", 7u8);
    let mut c = Frame::new_with_parent(Arc::new(a));

    assert_eq!(*c.get::<u8>("k").unwrap(), 7u8);
    assert_eq!(c.get_mut::<u8>("k"), Err(FrameError::KeyNotFound));
}

#[test]
fn get_mut_type_mismatch() {
    let mut x = Frame::new();
    x.set("k", 5u8);
    assert_eq!(x.get_mut::<String>("k"), Err(FrameError::TypeMismatch));
}

#[test]
fn ancestor_mismatch_reports_key_not_found() {
    let mut a = Frame::new();
    a.set("k", String::from("text"));
    let c = Frame::new_with_parent(Arc::new(a));

    assert_eq!(c.get::<u8>("k"), Err(FrameError::KeyNotFound));
}

#[test]
fn local_mismatch_wins_over_ancestor_match() {
    let mut a = Frame::new();
    a.set("k", 7u8);
    let mut c = Frame::new_with_parent(Arc::new(a));
    c.set("k", String::from("shadow"));

    assert_eq!(c.get::<u8>("k"), Err(FrameError::TypeMismatch));
}

#[test]
fn mutation_through_get_mut_sticks() {
    let mut x = Frame::new();
    x.set("n", 1u8);
    *x.get_mut::<u8>("n").unwrap() = 200u8;
    assert_eq!(*x.get::<u8>("n").unwrap(), 200u8);
}
