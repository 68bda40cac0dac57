use ruskk_keys::b_tree::BTreeModifiers;
use ruskk_keys::event::modifiers::Modifiers;
use ruskk_keys::event::KeyEvent;

type BKeyEvent<'a> = KeyEvent<&'a str, BTreeModifiers<&'a str>>;

#[test]
fn matching_eq() {
    let a = BKeyEvent::new("foo", vec!["shift"].into());
    let b = BKeyEvent::new("foo", vec!["shift"].into());
    assert_eq!(a, b);
    assert_eq!(a.contains(&b), Some(BTreeModifiers::default()));
    assert!(!a.modifiers().is_empty());
}

#[test]
fn subset_eq() {
    let a = BKeyEvent::new("foo", vec!["shift", "alt"].into());
    let b = BKeyEvent::new("foo", vec!["shift"].into());
    assert_eq!(a.contains(&b), Some(BTreeModifiers::from(vec!["alt"])));
}

#[test]
fn subset_not_eq() {
    let a = BKeyEvent::new("foo", vec!["shift"].into());
    let b = BKeyEvent::new("bar", vec!["shift"].into());
    assert_eq!(a.contains(&b), None);
}

#[test]
fn insertion_order_is_canonicalized() {
    let a: BTreeModifiers<&str> = vec!["shift", "alt", "control"].into();
    let b: BTreeModifiers<&str> = vec!["control", "shift", "alt", "shift"].into();
    assert_eq!(a, b);
}

#[test]
fn set_algebra_on_ordered_sets() {
    let a: BTreeModifiers<&str> = vec!["shift", "alt"].into();
    let b: BTreeModifiers<&str> = vec!["alt", "control"].into();
    assert_eq!(a.clone().or(a.clone()), a);
    assert_eq!(a.clone().and(a.clone()), a);
    assert!(a.clone().xor(a.clone()).is_empty());
    assert_eq!(a.clone().or(BTreeModifiers::new()), a);
    assert_eq!(a.clone().or(b.clone()), vec!["shift", "alt", "control"].into());
    assert_eq!(a.clone().and(b.clone()), vec!["alt"].into());
    assert_eq!(a.clone().xor(b.clone()), vec!["shift", "control"].into());
    assert_eq!(a.clone().or(b.clone()), b.clone().or(a.clone()));
    assert_eq!(a.clone().xor(b.clone()), b.xor(a));
}

#[test]
fn empty_set_is_empty() {
    let e: BTreeModifiers<&str> = BTreeModifiers::new();
    assert!(e.is_empty());
    assert_eq!(e, BTreeModifiers::default());
    let a: BTreeModifiers<&str> = vec!["shift"].into();
    assert!(!a.is_empty());
}

#[test]
fn contains_is_reflexive_on_ordered_sets() {
    let e = BKeyEvent::new("foo", vec!["shift", "alt"].into());
    assert_eq!(e.contains(&e), Some(BTreeModifiers::new()));
}

#[test]
fn integer_tokens_work_too() {
    let a: BTreeModifiers<u32> = vec![3u32, 1, 2, 1].into();
    let b: BTreeModifiers<u32> = vec![1u32, 2, 3].into();
    assert_eq!(a, b);
}
