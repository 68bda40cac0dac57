//! The X11-style notation: flag modifiers, keysym-resolved keys, and the
//! tokenizer/resolver for the two chord dialects.

pub mod compatible;
pub mod modifiers;

use vstd::prelude::*;

verus! {

/// A resolved key identity: the unicode codepoint of the keysym.
pub type XKeySymbol = char;

/// The key type of this notation.
pub type Key = XKeySymbol;

/// The modifier type of this notation.
pub type Modifiers = modifiers::X11Modifier;

/// The chord events this notation produces.
pub type KeyEvent = crate::event::KeyEvent<XKeySymbol, modifiers::X11Modifier>;

} // verus!
