//! Per-token parse errors for the chord notation dialects.

use vstd::prelude::*;

verus! {

/// Spec-level image of a [`KeyEventError`]: payload strings are abstracted to
/// their character sequences so that contracts can be stated over views.
pub enum KeyEventErrorModel {
    KeysymNotFound { name: Seq<char> },
    UnknownModifier { word: Seq<char> },
    BareOpenParen,
    BareCloseParen,
}

/// What can go wrong while turning one notation token into a chord event.
///
/// Nesting errors (`BareOpenParen`, `BareCloseParen`) come from the tokenizer
/// and end the tokenizing session; the other two are scoped to their token.
#[derive(Clone, Debug, PartialEq, Eq)]
pub enum KeyEventError {
    /// A key name of the dash dialect that the keysym table does not know.
    KeysymNotFound { name: String },
    /// A modifier letter or word that neither dialect table recognizes.
    UnknownModifier { word: String },
    /// `(` seen while a parenthesized token was already open.
    BareOpenParen,
    /// `)` seen outside of any parenthesized token.
    BareCloseParen,
}

impl View for KeyEventError {
    type V = KeyEventErrorModel;

    open spec fn view(&self) -> KeyEventErrorModel {
        match self {
            KeyEventError::KeysymNotFound { name } => KeyEventErrorModel::KeysymNotFound {
                name: name@,
            },
            KeyEventError::UnknownModifier { word } => KeyEventErrorModel::UnknownModifier {
                word: word@,
            },
            KeyEventError::BareOpenParen => KeyEventErrorModel::BareOpenParen,
            KeyEventError::BareCloseParen => KeyEventErrorModel::BareCloseParen,
        }
    }
}

impl KeyEventError {
    /// The uniform human-readable diagnostic for this error.
    pub fn message(&self) -> (r: String)
        ensures
            r@ == self.message_spec(),
    {
        match self {
            KeyEventError::KeysymNotFound { name } => {
                let mut m = "Parse failed:unknown key: ".to_owned();
                m.append(name.as_str());
                m
            },
            KeyEventError::UnknownModifier { word } => {
                let mut m = "Parse failed:unknown modifier: ".to_owned();
                m.append(word.as_str());
                m
            },
            KeyEventError::BareOpenParen => {
                "Parse failed:bare '(' is not allowed in complex keyseq".to_owned()
            },
            KeyEventError::BareCloseParen => {
                "Parse failed:bare ')' is not allowed in complex keyseq".to_owned()
            },
        }
    }

    /// The diagnostic text, at the spec level.
    pub open spec fn message_spec(&self) -> Seq<char> {
        match self {
            KeyEventError::KeysymNotFound { name } => "Parse failed:unknown key: "@ + name@,
            KeyEventError::UnknownModifier { word } => "Parse failed:unknown modifier: "@ + word@,
            KeyEventError::BareOpenParen => "Parse failed:bare '(' is not allowed in complex keyseq"@,
            KeyEventError::BareCloseParen => "Parse failed:bare ')' is not allowed in complex keyseq"@,
        }
    }
}

} // verus!
