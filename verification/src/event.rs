//! Chord events: one key plus one set of modifiers.

pub mod key;
pub mod modifiers;

use vstd::prelude::*;

use crate::event::key::Key;
use crate::event::modifiers::{sym_diff, Modifiers};

verus! {

/// One key input: a key identity together with the modifiers held with it.
///
/// A `KeyEvent` is immutable after construction; the extending operations
/// return new events.
#[derive(Clone, Debug, Eq, PartialEq, Ord, PartialOrd, Hash)]
pub struct KeyEvent<K, M> {
    key: K,
    modifiers: M,
}

impl<K, M> KeyEvent<K, M> {
    /// The key, at the spec level.
    pub closed spec fn key_spec(&self) -> K {
        self.key
    }

    /// The modifiers, at the spec level.
    pub closed spec fn modifiers_spec(&self) -> M {
        self.modifiers
    }

    /// Create a new event; any pairing is accepted.
    pub fn new(key: K, modifiers: M) -> (r: Self)
        ensures
            r.key_spec() == key,
            r.modifiers_spec() == modifiers,
    {
        Self { key, modifiers }
    }
}

impl<K, M> KeyEvent<K, M> where K: Key, M: Modifiers {
    /// Return a copy of the key.
    pub fn key(&self) -> (r: K)
        ensures
            r.same_key(&self.key_spec()),
            self.key_spec().same_key(&r),
    {
        self.key.dup()
    }

    /// Return a copy of the modifiers.
    pub fn modifiers(&self) -> (r: M)
        ensures
            r.mods() == self.modifiers_spec().mods(),
    {
        self.modifiers.dup()
    }

    /// Compare against another event with the same shape.
    ///
    /// `None` means the keys differ. `Some(d)` means the keys are the same
    /// and `d` is the symmetric difference of the two modifier sets, so
    /// `Some(empty)` means the chords are equal; despite the name this is a
    /// modifier delta, not a subset test.
    pub fn contains(&self, rhs: &Self) -> (r: Option<M>)
        ensures
            (r is Some) == self.key_spec().same_key(&rhs.key_spec()),
            r matches Some(d) ==> d.mods() == sym_diff(
                self.modifiers_spec().mods(),
                rhs.modifiers_spec().mods(),
            ),
            self.key_spec().same_key(&rhs.key_spec()) && self.modifiers_spec().mods()
                == rhs.modifiers_spec().mods() ==> (r matches Some(d) && d.mods() == Set::<
                M::Elem,
            >::empty()),
    {
        if self.key.eq_key(&rhs.key) {
            let d = self.modifiers.dup().xor(rhs.modifiers.dup());
            proof {
                if self.modifiers_spec().mods() == rhs.modifiers_spec().mods() {
                    assert(d.mods() =~= Set::<M::Elem>::empty());
                }
            }
            Some(d)
        } else {
            None
        }
    }

    /// A new event extended by the given modifiers (set union).
    pub fn or(self, rhs: M) -> (r: Self)
        ensures
            r.key_spec() == self.key_spec(),
            r.modifiers_spec().mods() == self.modifiers_spec().mods().union(rhs.mods()),
    {
        Self { key: self.key, modifiers: self.modifiers.or(rhs) }
    }

    /// A new event whose modifiers are the symmetric difference with the
    /// given ones.
    pub fn xor(self, rhs: M) -> (r: Self)
        ensures
            r.key_spec() == self.key_spec(),
            r.modifiers_spec().mods() == sym_diff(self.modifiers_spec().mods(), rhs.mods()),
    {
        Self { key: self.key, modifiers: self.modifiers.xor(rhs) }
    }
}

} // verus!
