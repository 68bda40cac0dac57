//! The fixed 9-flag modifier set of the X11-style dialects, packed into a
//! `u32` word.

use vstd::prelude::*;

use crate::event::modifiers::{sym_diff, Modifiers};

verus! {

/// The empty word.
pub const NONE: u32 = 0;

/// Shift.
pub const SHIFT_MASK: u32 = 1;

/// Caps lock.
pub const LOCK_MASK: u32 = 2;

/// Control.
pub const CONTROL_MASK: u32 = 4;

/// Mod1 (usually Alt).
pub const MOD1_MASK: u32 = 8;

/// Mod2.
pub const MOD2_MASK: u32 = 16;

/// Mod3.
pub const MOD3_MASK: u32 = 32;

/// Mod4.
pub const MOD4_MASK: u32 = 64;

/// Mod5.
pub const MOD5_MASK: u32 = 128;

/// Meta.
pub const META_MASK: u32 = 0x10000000;

/// A set of X11 modifier flags: one bit of the word per modifier.
#[derive(Clone, Copy, Debug, PartialEq, Eq, Hash, Default, Structural)]
pub struct X11Modifier {
    bits: u32,
}

/// The set of bit positions that are set in `w`.
pub open spec fn word_bits(w: u32) -> Set<u32> {
    Set::new(|i: u32| i < 32 && (w >> i) & 1 == 1)
}

impl X11Modifier {
    /// The packed word, at the spec level.
    pub closed spec fn spec_bits(&self) -> u32 {
        self.bits
    }

    /// Build a modifier set from a packed word of mask bits.
    pub fn new(bits: u32) -> (r: Self)
        ensures
            r.spec_bits() == bits,
    {
        Self { bits }
    }

    /// The packed word.
    pub fn bits(&self) -> (r: u32)
        ensures
            r == self.spec_bits(),
    {
        self.bits
    }
}

/// The word collecting a sequence of mask words by bit-or.
pub open spec fn or_fold(s: Seq<u32>) -> u32
    decreases s.len(),
{
    if s.len() == 0 {
        0u32
    } else {
        or_fold(s.drop_last()) | s.last()
    }
}

impl From<Vec<u32>> for X11Modifier {
    /// Collect a vector of mask words into one flag set by bit-or.
    fn from(v: Vec<u32>) -> (r: Self)
        ensures
            r.spec_bits() == or_fold(v@),
    {
        let mut bits: u32 = 0;
        let mut i: usize = 0;
        proof {
            assert(v@.take(0) =~= Seq::<u32>::empty());
        }
        while i < v.len()
            invariant
                0 <= i <= v.len(),
                bits == or_fold(v@.take(i as int)),
            decreases v.len() - i,
        {
            bits = bits | v[i];
            proof {
                assert(v@.take(i + 1).drop_last() =~= v@.take(i as int));
                assert(v@.take(i + 1).last() == v@[i as int]);
            }
            i += 1;
        }
        proof {
            assert(v@.take(v.len() as int) =~= v@);
        }
        X11Modifier { bits }
    }
}

impl vstd::std_specs::convert::FromSpecImpl<Vec<u32>> for X11Modifier {
    open spec fn obeys_from_spec() -> bool {
        true
    }

    closed spec fn from_spec(v: Vec<u32>) -> Self {
        X11Modifier { bits: or_fold(v@) }
    }
}

impl Modifiers for X11Modifier {
    type Elem = u32;

    open spec fn mods(&self) -> Set<u32> {
        word_bits(self.spec_bits())
    }

    fn or(self, rhs: Self) -> (r: Self)
        ensures
            r.spec_bits() == self.spec_bits() | rhs.spec_bits(),
    {
        proof {
            lemma_word_bits_or(self.bits, rhs.bits);
        }
        Self { bits: self.bits | rhs.bits }
    }

    fn and(self, rhs: Self) -> (r: Self)
        ensures
            r.spec_bits() == self.spec_bits() & rhs.spec_bits(),
    {
        proof {
            lemma_word_bits_and(self.bits, rhs.bits);
        }
        Self { bits: self.bits & rhs.bits }
    }

    fn xor(self, rhs: Self) -> (r: Self)
        ensures
            r.spec_bits() == self.spec_bits() ^ rhs.spec_bits(),
    {
        proof {
            lemma_word_bits_xor(self.bits, rhs.bits);
        }
        Self { bits: self.bits ^ rhs.bits }
    }

    fn is_empty(&self) -> (r: bool)
        ensures
            r == (self.spec_bits() == 0),
    {
        proof {
            lemma_word_bits_empty(self.bits);
        }
        self.bits == 0
    }

    fn dup(&self) -> (r: Self)
        ensures
            r == *self,
    {
        *self
    }
}

/// Or-ing two words unions their bit sets.
pub proof fn lemma_word_bits_or(a: u32, b: u32)
    ensures
        word_bits(a | b) == word_bits(a).union(word_bits(b)),
{
    assert forall|i: u32| i < 32 implies (((a | b) >> i) & 1 == 1) == ((a >> i) & 1 == 1 || (b >> i)
        & 1 == 1) by {
        assert((((a | b) >> i) & 1 == 1) == ((a >> i) & 1 == 1 || (b >> i) & 1 == 1))
            by (bit_vector);
    }
    assert(word_bits(a | b) =~= word_bits(a).union(word_bits(b)));
}

/// And-ing two words intersects their bit sets.
pub proof fn lemma_word_bits_and(a: u32, b: u32)
    ensures
        word_bits(a & b) == word_bits(a).intersect(word_bits(b)),
{
    assert forall|i: u32| i < 32 implies (((a & b) >> i) & 1 == 1) == ((a >> i) & 1 == 1 && (b >> i)
        & 1 == 1) by {
        assert((((a & b) >> i) & 1 == 1) == ((a >> i) & 1 == 1 && (b >> i) & 1 == 1))
            by (bit_vector);
    }
    assert(word_bits(a & b) =~= word_bits(a).intersect(word_bits(b)));
}

/// Xor-ing two words takes the symmetric difference of their bit sets.
pub proof fn lemma_word_bits_xor(a: u32, b: u32)
    ensures
        word_bits(a ^ b) == sym_diff(word_bits(a), word_bits(b)),
{
    assert forall|i: u32| i < 32 implies (((a ^ b) >> i) & 1 == 1) == (((a >> i) & 1 == 1) != ((b
        >> i) & 1 == 1)) by {
        assert((((a ^ b) >> i) & 1 == 1) == (((a >> i) & 1 == 1) != ((b >> i) & 1 == 1)))
            by (bit_vector);
    }
    assert(word_bits(a ^ b) =~= sym_diff(word_bits(a), word_bits(b)));
}

/// A word's bit set is empty exactly when the word is zero.
pub proof fn lemma_word_bits_empty(w: u32)
    ensures
        (word_bits(w) == Set::<u32>::empty()) == (w == 0),
{
    if w == 0 {
        assert forall|i: u32| i < 32 implies !((w >> i) & 1 == 1) by {
            assert(w == 0 ==> (w >> i) & 1 == 0) by (bit_vector);
        }
        assert(word_bits(w) =~= Set::<u32>::empty());
    } else {
        assert(exists|i: u32| i < 32 && (w >> i) & 1 == 1) by {
            assert((w >> 0) & 1 == 1 || (w >> 1) & 1 == 1 || (w >> 2) & 1 == 1 || (w >> 3) & 1 == 1 || (w >> 4) & 1 == 1 || (w >> 5) & 1 == 1 || (w >> 6) & 1 == 1 || (w >> 7) & 1 == 1 || (w >> 8) & 1 == 1 || (w >> 9) & 1 == 1 || (w >> 10) & 1 == 1 || (w >> 11) & 1 == 1 || (w >> 12) & 1 == 1 || (w >> 13) & 1 == 1 || (w >> 14) & 1 == 1 || (w >> 15) & 1 == 1 || (w >> 16) & 1 == 1 || (w >> 17) & 1 == 1 || (w >> 18) & 1 == 1 || (w >> 19) & 1 == 1 || (w >> 20) & 1 == 1 || (w >> 21) & 1 == 1 || (w >> 22) & 1 == 1 || (w >> 23) & 1 == 1 || (w >> 24) & 1 == 1 || (w >> 25) & 1 == 1 || (w >> 26) & 1 == 1 || (w >> 27) & 1 == 1 || (w >> 28) & 1 == 1 || (w >> 29) & 1 == 1 || (w >> 30) & 1 == 1 || (w >> 31) & 1 == 1) by (bit_vector)
                requires
                    w != 0,
            ;
        }
        let i = choose|i: u32| i < 32 && (w >> i) & 1 == 1;
        assert(word_bits(w).contains(i));
        assert(word_bits(w) != Set::<u32>::empty());
    }
}

/// The word-level set algebra of the flag representation: union and
/// intersection are idempotent, commutative and associative, zero is the
/// unit of union, xor of a word with itself is zero, and xor is the union
/// with the intersection removed.
pub proof fn lemma_x11_word_algebra(a: u32, b: u32, c: u32)
    ensures
        a | a == a,
        a & a == a,
        a ^ a == 0,
        a | 0 == a,
        a | b == b | a,
        a & b == b & a,
        (a | b) | c == a | (b | c),
        (a & b) & c == a & (b & c),
        a ^ b == (a | b) & !(a & b),
        (a ^ b) ^ (a & b) == a | b,
        (a ^ b) & (a & b) == 0,
{
    assert(a | a == a) by (bit_vector);
    assert(a & a == a) by (bit_vector);
    assert(a ^ a == 0) by (bit_vector);
    assert(a | 0 == a) by (bit_vector);
    assert(a | b == b | a) by (bit_vector);
    assert(a & b == b & a) by (bit_vector);
    assert((a | b) | c == a | (b | c)) by (bit_vector);
    assert((a & b) & c == a & (b & c)) by (bit_vector);
    assert(a ^ b == (a | b) & !(a & b)) by (bit_vector);
    assert((a ^ b) ^ (a & b) == (a | b)) by (bit_vector);
    assert((a ^ b) & (a & b) == 0) by (bit_vector);
}

/// The packed word determines the flag value: two flag sets with equal
/// words are equal values.
pub proof fn lemma_x11_bits_determine_value(a: X11Modifier, b: X11Modifier)
    requires
        a.spec_bits() == b.spec_bits(),
    ensures
        a == b,
{
}

/// Two flag values with the same bit set hold the same word: the
/// representation is canonical.
pub proof fn lemma_word_bits_injective(a: u32, b: u32)
    requires
        word_bits(a) == word_bits(b),
    ensures
        a == b,
{
    broadcast use vstd::set::group_set_axioms;

    assert forall|k: u32| k < 32 implies ((a >> k) & 1 == 1) == ((b >> k) & 1 == 1) by {
        assert(word_bits(a).contains(k) == word_bits(b).contains(k));
        assert(word_bits(a).contains(k) == (k < 32 && (a >> k) & 1 == 1));
        assert(word_bits(b).contains(k) == (k < 32 && (b >> k) & 1 == 1));
    }
    assert(((a >> 0) & 1 == 1) == ((b >> 0) & 1 == 1));
    assert(((a >> 1) & 1 == 1) == ((b >> 1) & 1 == 1));
    assert(((a >> 2) & 1 == 1) == ((b >> 2) & 1 == 1));
    assert(((a >> 3) & 1 == 1) == ((b >> 3) & 1 == 1));
    assert(((a >> 4) & 1 == 1) == ((b >> 4) & 1 == 1));
    assert(((a >> 5) & 1 == 1) == ((b >> 5) & 1 == 1));
    assert(((a >> 6) & 1 == 1) == ((b >> 6) & 1 == 1));
    assert(((a >> 7) & 1 == 1) == ((b >> 7) & 1 == 1));
    assert(((a >> 8) & 1 == 1) == ((b >> 8) & 1 == 1));
    assert(((a >> 9) & 1 == 1) == ((b >> 9) & 1 == 1));
    assert(((a >> 10) & 1 == 1) == ((b >> 10) & 1 == 1));
    assert(((a >> 11) & 1 == 1) == ((b >> 11) & 1 == 1));
    assert(((a >> 12) & 1 == 1) == ((b >> 12) & 1 == 1));
    assert(((a >> 13) & 1 == 1) == ((b >> 13) & 1 == 1));
    assert(((a >> 14) & 1 == 1) == ((b >> 14) & 1 == 1));
    assert(((a >> 15) & 1 == 1) == ((b >> 15) & 1 == 1));
    assert(((a >> 16) & 1 == 1) == ((b >> 16) & 1 == 1));
    assert(((a >> 17) & 1 == 1) == ((b >> 17) & 1 == 1));
    assert(((a >> 18) & 1 == 1) == ((b >> 18) & 1 == 1));
    assert(((a >> 19) & 1 == 1) == ((b >> 19) & 1 == 1));
    assert(((a >> 20) & 1 == 1) == ((b >> 20) & 1 == 1));
    assert(((a >> 21) & 1 == 1) == ((b >> 21) & 1 == 1));
    assert(((a >> 22) & 1 == 1) == ((b >> 22) & 1 == 1));
    assert(((a >> 23) & 1 == 1) == ((b >> 23) & 1 == 1));
    assert(((a >> 24) & 1 == 1) == ((b >> 24) & 1 == 1));
    assert(((a >> 25) & 1 == 1) == ((b >> 25) & 1 == 1));
    assert(((a >> 26) & 1 == 1) == ((b >> 26) & 1 == 1));
    assert(((a >> 27) & 1 == 1) == ((b >> 27) & 1 == 1));
    assert(((a >> 28) & 1 == 1) == ((b >> 28) & 1 == 1));
    assert(((a >> 29) & 1 == 1) == ((b >> 29) & 1 == 1));
    assert(((a >> 30) & 1 == 1) == ((b >> 30) & 1 == 1));
    assert(((a >> 31) & 1 == 1) == ((b >> 31) & 1 == 1));
    assert(a == b) by (bit_vector)
        requires
            ((a >> 0) & 1 == 1) == ((b >> 0) & 1 == 1),
            ((a >> 1) & 1 == 1) == ((b >> 1) & 1 == 1),
            ((a >> 2) & 1 == 1) == ((b >> 2) & 1 == 1),
            ((a >> 3) & 1 == 1) == ((b >> 3) & 1 == 1),
            ((a >> 4) & 1 == 1) == ((b >> 4) & 1 == 1),
            ((a >> 5) & 1 == 1) == ((b >> 5) & 1 == 1),
            ((a >> 6) & 1 == 1) == ((b >> 6) & 1 == 1),
            ((a >> 7) & 1 == 1) == ((b >> 7) & 1 == 1),
            ((a >> 8) & 1 == 1) == ((b >> 8) & 1 == 1),
            ((a >> 9) & 1 == 1) == ((b >> 9) & 1 == 1),
            ((a >> 10) & 1 == 1) == ((b >> 10) & 1 == 1),
            ((a >> 11) & 1 == 1) == ((b >> 11) & 1 == 1),
            ((a >> 12) & 1 == 1) == ((b >> 12) & 1 == 1),
            ((a >> 13) & 1 == 1) == ((b >> 13) & 1 == 1),
            ((a >> 14) & 1 == 1) == ((b >> 14) & 1 == 1),
            ((a >> 15) & 1 == 1) == ((b >> 15) & 1 == 1),
            ((a >> 16) & 1 == 1) == ((b >> 16) & 1 == 1),
            ((a >> 17) & 1 == 1) == ((b >> 17) & 1 == 1),
            ((a >> 18) & 1 == 1) == ((b >> 18) & 1 == 1),
            ((a >> 19) & 1 == 1) == ((b >> 19) & 1 == 1),
            ((a >> 20) & 1 == 1) == ((b >> 20) & 1 == 1),
            ((a >> 21) & 1 == 1) == ((b >> 21) & 1 == 1),
            ((a >> 22) & 1 == 1) == ((b >> 22) & 1 == 1),
            ((a >> 23) & 1 == 1) == ((b >> 23) & 1 == 1),
            ((a >> 24) & 1 == 1) == ((b >> 24) & 1 == 1),
            ((a >> 25) & 1 == 1) == ((b >> 25) & 1 == 1),
            ((a >> 26) & 1 == 1) == ((b >> 26) & 1 == 1),
            ((a >> 27) & 1 == 1) == ((b >> 27) & 1 == 1),
            ((a >> 28) & 1 == 1) == ((b >> 28) & 1 == 1),
            ((a >> 29) & 1 == 1) == ((b >> 29) & 1 == 1),
            ((a >> 30) & 1 == 1) == ((b >> 30) & 1 == 1),
            ((a >> 31) & 1 == 1) == ((b >> 31) & 1 == 1),
    ;
}

} // verus!
