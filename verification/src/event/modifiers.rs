//! The `Modifiers` capability: a set-like algebra of modifier tokens.

use vstd::prelude::*;

verus! {

/// Symmetric difference of two modifier sets: everything in exactly one of
/// the two.
pub open spec fn sym_diff<E>(a: Set<E>, b: Set<E>) -> Set<E> {
    a.union(b).difference(a.intersect(b))
}

/// A finite set of modifier tokens, closed under union (`or`), intersection
/// (`and`) and symmetric difference (`xor`).
///
/// Each implementation names the kind of token it holds (`Elem`) and exposes
/// its abstract contents as a `Set` through `mods`; the operations are
/// specified, and verified for every implementation, against that set model.
pub trait Modifiers: Sized {
    /// The kind of token the set holds, at the spec level.
    type Elem;

    /// The abstract contents of this modifier value.
    spec fn mods(&self) -> Set<Self::Elem>;

    /// Union.
    fn or(self, rhs: Self) -> (r: Self)
        ensures
            r.mods() == self.mods().union(rhs.mods()),
    ;

    /// Intersection.
    fn and(self, rhs: Self) -> (r: Self)
        ensures
            r.mods() == self.mods().intersect(rhs.mods()),
    ;

    /// Symmetric difference.
    fn xor(self, rhs: Self) -> (r: Self)
        ensures
            r.mods() == sym_diff(self.mods(), rhs.mods()),
    ;

    /// Whether no modifier is held.
    fn is_empty(&self) -> (r: bool)
        ensures
            r == (self.mods() == Set::<Self::Elem>::empty()),
    ;

    /// A copy with the same contents.
    fn dup(&self) -> (r: Self)
        ensures
            r.mods() == self.mods(),
    ;
}

/// The set algebra every `Modifiers` implementation provides through its
/// model: union and intersection are commutative, associative and
/// idempotent, the empty set is a unit for union, and the symmetric
/// difference is the union minus the intersection.
pub proof fn lemma_modifier_set_algebra<E>(a: Set<E>, b: Set<E>, c: Set<E>)
    ensures
        a.union(b) == b.union(a),
        a.union(b).union(c) == a.union(b.union(c)),
        a.intersect(b) == b.intersect(a),
        a.intersect(b).intersect(c) == a.intersect(b.intersect(c)),
        a.union(a) == a,
        a.intersect(a) == a,
        a.union(Set::<E>::empty()) == a,
        sym_diff(a, a) == Set::<E>::empty(),
        sym_diff(a, b) == sym_diff(b, a),
        sym_diff(a, b) == a.union(b).difference(a.intersect(b)),
{
    assert(a.union(b) =~= b.union(a));
    assert(a.union(b).union(c) =~= a.union(b.union(c)));
    assert(a.intersect(b) =~= b.intersect(a));
    assert(a.intersect(b).intersect(c) =~= a.intersect(b.intersect(c)));
    assert(a.union(a) =~= a);
    assert(a.intersect(a) =~= a);
    assert(a.union(Set::<E>::empty()) =~= a);
    assert(sym_diff(a, a) =~= Set::<E>::empty());
    assert(sym_diff(a, b) =~= sym_diff(b, a));
}

/// Rejoining a symmetric difference with the intersection gives the union
/// back, and the two parts are disjoint: `xor` is exactly `or` minus `and`.
pub proof fn lemma_sym_diff_splits_union<E>(a: Set<E>, b: Set<E>)
    ensures
        sym_diff(a, b).union(a.intersect(b)) == a.union(b),
        sym_diff(a, b).intersect(a.intersect(b)) == Set::<E>::empty(),
{
    assert(sym_diff(a, b).union(a.intersect(b)) =~= a.union(b));
    assert(sym_diff(a, b).intersect(a.intersect(b)) =~= Set::<E>::empty());
}

} // verus!
