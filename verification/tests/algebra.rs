use ruskk_keys::event::modifiers::Modifiers;
use ruskk_keys::event::KeyEvent;
use ruskk_keys::x11::compatible::{extract_modifiers_normal, extract_modifiers_special};
use ruskk_keys::x11::modifiers::{
    X11Modifier, CONTROL_MASK, META_MASK, MOD1_MASK, MOD5_MASK, NONE, SHIFT_MASK,
};

#[test]
fn flag_algebra_identities() {
    let a = X11Modifier::new(SHIFT_MASK | MOD1_MASK);
    let b = X11Modifier::new(MOD1_MASK | CONTROL_MASK);
    assert_eq!(a.or(a), a);
    assert_eq!(a.and(a), a);
    assert!(a.xor(a).is_empty());
    assert_eq!(a.or(X11Modifier::new(NONE)), a);
    assert_eq!(a.or(b), b.or(a));
    assert_eq!(a.and(b), b.and(a));
    // xor is the union minus the intersection
    assert_eq!(a.xor(b).bits(), (a.bits() | b.bits()) & !(a.bits() & b.bits()));
    assert_eq!(a.xor(b), X11Modifier::new(SHIFT_MASK | CONTROL_MASK));
}

#[test]
fn flags_collect_by_bit_or() {
    let m: X11Modifier = vec![SHIFT_MASK, CONTROL_MASK, SHIFT_MASK].into();
    assert_eq!(m, X11Modifier::new(SHIFT_MASK | CONTROL_MASK));
    let none: X11Modifier = Vec::new().into();
    assert_eq!(none, X11Modifier::new(NONE));
}

#[test]
fn contains_is_reflexive_on_flags() {
    let e = KeyEvent::new('k', X11Modifier::new(SHIFT_MASK | CONTROL_MASK));
    assert_eq!(e.contains(&e), Some(X11Modifier::new(NONE)));
}

#[test]
fn contains_surfaces_the_modifier_delta() {
    let e1 = KeyEvent::new('k', X11Modifier::new(SHIFT_MASK | CONTROL_MASK));
    let e2 = KeyEvent::new('k', X11Modifier::new(SHIFT_MASK));
    assert_eq!(e1.contains(&e2), Some(X11Modifier::new(CONTROL_MASK)));
    let e3 = KeyEvent::new('q', X11Modifier::new(SHIFT_MASK));
    assert_eq!(e1.contains(&e3), None);
}

#[test]
fn event_extension_unions_modifiers() {
    let e = KeyEvent::new('k', X11Modifier::new(SHIFT_MASK));
    let extended = e.or(X11Modifier::new(CONTROL_MASK));
    assert_eq!(extended, KeyEvent::new('k', X11Modifier::new(SHIFT_MASK | CONTROL_MASK)));
    let toggled = extended.xor(X11Modifier::new(SHIFT_MASK));
    assert_eq!(toggled, KeyEvent::new('k', X11Modifier::new(CONTROL_MASK)));
}

#[test]
fn normal_modifier_codes() {
    assert_eq!(
        extract_modifiers_normal(&["S", "C", "M", "A", "G"]),
        Ok(X11Modifier::new(SHIFT_MASK | CONTROL_MASK | META_MASK | MOD1_MASK | MOD5_MASK))
    );
    assert_eq!(extract_modifiers_normal(&[]), Ok(X11Modifier::new(NONE)));
    match extract_modifiers_normal(&["S", "bar", "Q"]) {
        Err(ruskk_keys::errors::KeyEventError::UnknownModifier { word }) => {
            assert_eq!(word, "bar");
        },
        other => panic!("unexpected result: {:?}", other),
    }
}

#[test]
fn special_modifier_words() {
    assert_eq!(
        extract_modifiers_special(&["shift", "control", "alt"]),
        Ok(X11Modifier::new(SHIFT_MASK | CONTROL_MASK | MOD1_MASK))
    );
    match extract_modifiers_special(&["ctrl"]) {
        Err(ruskk_keys::errors::KeyEventError::UnknownModifier { word }) => {
            assert_eq!(word, "ctrl");
        },
        other => panic!("unexpected result: {:?}", other),
    }
}
