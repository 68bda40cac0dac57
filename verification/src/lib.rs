//! Keyboard-chord notation: chord events over generic key and modifier
//! algebras, and a verified tokenizer/resolver for the X11-style dialects.

pub mod b_tree;
pub mod errors;
pub mod event;
pub mod x11;
