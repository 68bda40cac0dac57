//! The `Key` capability: a discrete, equatable symbol naming "which key".

use vstd::prelude::*;

verus! {

/// A symbol domain for key identities.
///
/// `same_key` is the spec-level equality the chord operations compare keys
/// by; every implementation proves it is an equivalence and provides an
/// executable test (`eq_key`) and a value-preserving copy (`dup`).
pub trait Key: Sized {
    /// When two values name the same key.
    spec fn same_key(&self, other: &Self) -> bool;

    /// Executable test for `same_key`.
    fn eq_key(&self, other: &Self) -> (r: bool)
        ensures
            r == self.same_key(other),
    ;

    /// A copy naming the same key.
    fn dup(&self) -> (r: Self)
        ensures
            r.same_key(self),
            self.same_key(&r),
    ;

    /// `same_key` is an equivalence relation.
    proof fn lemma_same_key_equivalence(a: Self, b: Self, c: Self)
        ensures
            a.same_key(&a),
            a.same_key(&b) == b.same_key(&a),
            a.same_key(&b) && b.same_key(&c) ==> a.same_key(&c),
    ;
}

impl Key for char {
    open spec fn same_key(&self, other: &Self) -> bool {
        self == other
    }

    fn eq_key(&self, other: &Self) -> bool {
        *self == *other
    }

    fn dup(&self) -> Self {
        *self
    }

    proof fn lemma_same_key_equivalence(a: Self, b: Self, c: Self) {
    }
}

impl<'a> Key for &'a str {
    open spec fn same_key(&self, other: &Self) -> bool {
        self@ == other@
    }

    fn eq_key(&self, other: &Self) -> bool {
        str_eq_str(self, other)
    }

    fn dup(&self) -> Self {
        *self
    }

    proof fn lemma_same_key_equivalence(a: Self, b: Self, c: Self) {
    }
}

impl Key for String {
    open spec fn same_key(&self, other: &Self) -> bool {
        self@ == other@
    }

    fn eq_key(&self, other: &Self) -> bool {
        str_eq_str(self.as_str(), other.as_str())
    }

    fn dup(&self) -> Self {
        self.clone()
    }

    proof fn lemma_same_key_equivalence(a: Self, b: Self, c: Self) {
    }
}

impl Key for usize {
    open spec fn same_key(&self, other: &Self) -> bool {
        self == other
    }

    fn eq_key(&self, other: &Self) -> bool {
        *self == *other
    }

    fn dup(&self) -> Self {
        *self
    }

    proof fn lemma_same_key_equivalence(a: Self, b: Self, c: Self) {
    }
}

impl Key for u8 {
    open spec fn same_key(&self, other: &Self) -> bool {
        self == other
    }

    fn eq_key(&self, other: &Self) -> bool {
        *self == *other
    }

    fn dup(&self) -> Self {
        *self
    }

    proof fn lemma_same_key_equivalence(a: Self, b: Self, c: Self) {
    }
}

impl Key for u16 {
    open spec fn same_key(&self, other: &Self) -> bool {
        self == other
    }

    fn eq_key(&self, other: &Self) -> bool {
        *self == *other
    }

    fn dup(&self) -> Self {
        *self
    }

    proof fn lemma_same_key_equivalence(a: Self, b: Self, c: Self) {
    }
}

impl Key for u32 {
    open spec fn same_key(&self, other: &Self) -> bool {
        self == other
    }

    fn eq_key(&self, other: &Self) -> bool {
        *self == *other
    }

    fn dup(&self) -> Self {
        *self
    }

    proof fn lemma_same_key_equivalence(a: Self, b: Self, c: Self) {
    }
}

impl Key for u64 {
    open spec fn same_key(&self, other: &Self) -> bool {
        self == other
    }

    fn eq_key(&self, other: &Self) -> bool {
        *self == *other
    }

    fn dup(&self) -> Self {
        *self
    }

    proof fn lemma_same_key_equivalence(a: Self, b: Self, c: Self) {
    }
}

impl Key for isize {
    open spec fn same_key(&self, other: &Self) -> bool {
        self == other
    }

    fn eq_key(&self, other: &Self) -> bool {
        *self == *other
    }

    fn dup(&self) -> Self {
        *self
    }

    proof fn lemma_same_key_equivalence(a: Self, b: Self, c: Self) {
    }
}

impl Key for i8 {
    open spec fn same_key(&self, other: &Self) -> bool {
        self == other
    }

    fn eq_key(&self, other: &Self) -> bool {
        *self == *other
    }

    fn dup(&self) -> Self {
        *self
    }

    proof fn lemma_same_key_equivalence(a: Self, b: Self, c: Self) {
    }
}

impl Key for i16 {
    open spec fn same_key(&self, other: &Self) -> bool {
        self == other
    }

    fn eq_key(&self, other: &Self) -> bool {
        *self == *other
    }

    fn dup(&self) -> Self {
        *self
    }

    proof fn lemma_same_key_equivalence(a: Self, b: Self, c: Self) {
    }
}

impl Key for i32 {
    open spec fn same_key(&self, other: &Self) -> bool {
        self == other
    }

    fn eq_key(&self, other: &Self) -> bool {
        *self == *other
    }

    fn dup(&self) -> Self {
        *self
    }

    proof fn lemma_same_key_equivalence(a: Self, b: Self, c: Self) {
    }
}

impl Key for i64 {
    open spec fn same_key(&self, other: &Self) -> bool {
        self == other
    }

    fn eq_key(&self, other: &Self) -> bool {
        *self == *other
    }

    fn dup(&self) -> Self {
        *self
    }

    proof fn lemma_same_key_equivalence(a: Self, b: Self, c: Self) {
    }
}

/// Character-by-character string equality, so that `&str` keys can be
/// compared in verified code.
pub fn str_eq_str(a: &str, b: &str) -> (r: bool)
    ensures
        r == (a@ == b@),
{
    let n = a.unicode_len();
    if n != b.unicode_len() {
        proof {
            assert(a@ != b@);
        }
        return false;
    }
    let mut i: usize = 0;
    while i < n
        invariant
            0 <= i <= n,
            n == a@.len(),
            n == b@.len(),
            forall|j: int| 0 <= j < i ==> a@[j] == b@[j],
        decreases n - i,
    {
        if a.get_char(i) != b.get_char(i) {
            proof {
                assert(a@[i as int] != b@[i as int]);
            }
            return false;
        }
        i += 1;
    }
    proof {
        assert(a@ =~= b@);
    }
    true
}

} // verus!
