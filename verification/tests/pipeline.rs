use ruskk_keys::errors::KeyEventError;
use ruskk_keys::x11::compatible::{extract_key_normal, extract_key_special};
use ruskk_keys::event::KeyEvent;
use ruskk_keys::x11::compatible::{CompatibleParser, InputStrType, StringExt};
use ruskk_keys::x11::modifiers::{X11Modifier, CONTROL_MASK, NONE, SHIFT_MASK};

fn chord(key: char, bits: u32) -> KeyEvent<char, X11Modifier> {
    KeyEvent::new(key, X11Modifier::new(bits))
}

#[test]
fn three_plain_chords() {
    let mut p = "a i C-S-r".as_key_events();
    let out = p.parse_all();
    assert_eq!(out.len(), 3);
    assert_eq!(out[0], Ok(chord('a', NONE)));
    assert_eq!(out[1], Ok(chord('i', NONE)));
    assert_eq!(out[2], Ok(chord('r', SHIFT_MASK | CONTROL_MASK)));
}

#[test]
fn special_token_with_inert_close_paren() {
    let mut p = "(shift)".as_key_events();
    let out = p.parse_all();
    assert_eq!(out.len(), 1);
    // "shift" alone is the key name; the table misses, so the permissive
    // dialect falls back to the null key.
    assert_eq!(out[0], Ok(chord('\0', NONE)));
}

#[test]
fn per_token_error_does_not_suppress_later_tokens() {
    let mut p = "foo bar-a b".as_key_events();
    let out = p.parse_all();
    assert_eq!(out.len(), 3);
    // "foo" is no keysym name, so the strict dialect reports it.
    assert_eq!(out[0], Err(KeyEventError::KeysymNotFound { name: "foo".to_string() }));
    assert_eq!(out[1], Err(KeyEventError::UnknownModifier { word: "bar".to_string() }));
    assert_eq!(out[2], Ok(chord('b', NONE)));
}

#[test]
fn bare_close_paren_ends_the_session() {
    let mut p = "a)b".as_key_events();
    let out = p.parse_all();
    assert_eq!(out, vec![Err(KeyEventError::BareCloseParen)]);
    assert_eq!(p.parse_next(), None);
}

#[test]
fn bare_open_paren_inside_special_ends_the_session() {
    let mut p = "(shift(a b".as_key_events();
    let out = p.parse_all();
    assert_eq!(out, vec![Err(KeyEventError::BareOpenParen)]);
}

#[test]
fn escaped_space_is_literal() {
    let mut p = "x\\ y".as_key_events();
    let out = p.parse_all();
    assert_eq!(out.len(), 1);
    assert_eq!(out[0], Err(KeyEventError::KeysymNotFound { name: "x y".to_string() }));
}

#[test]
fn tokenizer_escapes_and_boundaries() {
    let mut p = CompatibleParser::new("x\\ y  (shift)");
    let t1 = p.parse_text().unwrap().unwrap();
    assert_eq!(t1.kind(), InputStrType::Normal);
    assert_eq!(t1.as_str(), "x y");
    let t2 = p.parse_text().unwrap().unwrap();
    assert_eq!(t2.kind(), InputStrType::Special);
    assert_eq!(t2.as_str(), "shift");
    assert!(p.parse_text().is_none());
}

#[test]
fn repeated_close_parens_stay_inert() {
    let mut p = "(shift))".as_key_events();
    let out = p.parse_all();
    assert_eq!(out, vec![Ok(chord('\0', NONE))]);
}

#[test]
fn space_ends_a_special_token_too() {
    // An unescaped space is a boundary in either mode: the parenthesized
    // token ends at it, and the `)` later stands bare in a plain token.
    let mut p = "(shift a)".as_key_events();
    let out = p.parse_all();
    assert_eq!(out.len(), 2);
    assert_eq!(out[0], Ok(chord('\0', NONE)));
    assert_eq!(out[1], Err(KeyEventError::BareCloseParen));
}

#[test]
fn empty_input_yields_nothing() {
    let mut p = "".as_key_events();
    assert_eq!(p.parse_all(), vec![]);
    let mut p = "   ".as_key_events();
    assert_eq!(p.parse_all(), vec![]);
}

#[test]
fn runs_of_spaces_yield_no_empty_tokens() {
    let mut p = "  a   b  ".as_key_events();
    let out = p.parse_all();
    assert_eq!(out.len(), 2);
    assert_eq!(out[0], Ok(chord('a', NONE)));
    assert_eq!(out[1], Ok(chord('b', NONE)));
}

#[test]
fn lone_open_paren_is_an_empty_special_token() {
    let mut p = "(".as_key_events();
    let out = p.parse_all();
    assert_eq!(out, vec![Ok(chord('\0', NONE))]);
}

#[test]
fn special_words_resolve_modifiers() {
    // Tabs keep the words inside one parenthesized token; the split on
    // whitespace happens in the resolver.
    let mut p = "(shift\tcontrol\ta)".as_key_events();
    let out = p.parse_all();
    assert_eq!(out.len(), 1);
    assert_eq!(out[0], Ok(chord('a', SHIFT_MASK | CONTROL_MASK)));
}

#[test]
fn escaped_space_keeps_a_special_token_open() {
    let mut p = "(shift\\ a)".as_key_events();
    let out = p.parse_all();
    assert_eq!(out, vec![Ok(chord('a', SHIFT_MASK))]);
}

#[test]
fn unknown_special_word_is_reported() {
    let mut p = "(sideways\ta)".as_key_events();
    let out = p.parse_all();
    assert_eq!(out, vec![Err(KeyEventError::UnknownModifier { word: "sideways".to_string() })]);
}

#[test]
fn parser_from_string_value() {
    let text = String::from("C-a");
    let mut p = text.as_key_events();
    let out = p.parse_all();
    assert_eq!(out, vec![Ok(chord('a', CONTROL_MASK))]);
}

#[test]
fn keysym_names_resolve_through_the_table() {
    // "Return" maps to the carriage-return codepoint: the lookup consults
    // the table, it does not echo the name.
    assert_eq!(extract_key_normal("Return"), Ok('\r'));
    assert_eq!(extract_key_special("Escape"), Ok('\u{1b}'));
    let mut p = "C-Return".as_key_events();
    assert_eq!(p.parse_all(), vec![Ok(chord('\r', CONTROL_MASK))]);
}

#[test]
fn error_messages_carry_the_diagnostic() {
    assert_eq!(
        KeyEventError::BareCloseParen.message(),
        "Parse failed:bare ')' is not allowed in complex keyseq"
    );
    assert_eq!(
        KeyEventError::UnknownModifier { word: "bar".to_string() }.message(),
        "Parse failed:unknown modifier: bar"
    );
    assert_eq!(
        KeyEventError::KeysymNotFound { name: "foo".to_string() }.message(),
        "Parse failed:unknown key: foo"
    );
    assert_eq!(
        KeyEventError::BareOpenParen.message(),
        "Parse failed:bare '(' is not allowed in complex keyseq"
    );
}
