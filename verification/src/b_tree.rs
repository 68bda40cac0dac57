//! Ordered-set modifiers: a modifier set over an open vocabulary of
//! totally-ordered tokens, kept as a sorted, deduplicated sequence so that
//! equal sets are equal values regardless of insertion order.

use vstd::prelude::*;

use crate::event::modifiers::{sym_diff, Modifiers};

verus! {

/// A token type with a strict total order, fit to populate an ordered
/// modifier set.
///
/// Each implementation names a spec-level image of its values (`Repr`) and
/// an order `before` on those images, proves the order strict and total,
/// and provides the executable comparison and a value-preserving copy.
pub trait OrderedToken: Sized {
    /// The spec-level image of a token.
    type Repr;

    /// This token's image.
    spec fn model(&self) -> Self::Repr;

    /// The strict total order on token images.
    spec fn before(a: Self::Repr, b: Self::Repr) -> bool;

    /// Executable test for `before`.
    fn lt(&self, other: &Self) -> (r: bool)
        ensures
            r == Self::before(self.model(), other.model()),
    ;

    /// A copy with the same image.
    fn dup(&self) -> (r: Self)
        ensures
            r.model() == self.model(),
    ;

    /// `before` is irreflexive, transitive and total.
    proof fn lemma_strict_total_order(a: Self::Repr, b: Self::Repr, c: Self::Repr)
        ensures
            !Self::before(a, a),
            Self::before(a, b) && Self::before(b, c) ==> Self::before(a, c),
            a != b ==> Self::before(a, b) || Self::before(b, a),
    ;
}

/// Strictly increasing by the token order: sorted with no duplicates.
pub open spec fn sorted_strict<M: OrderedToken>(s: Seq<M::Repr>) -> bool {
    forall|i: int, j: int| 0 <= i < j < s.len() ==> M::before(s[i], s[j])
}

// ------------------------------------------------------------------
// Sequence-to-set bookkeeping.
// ------------------------------------------------------------------
/// Dropping `i` elements and separating the head.
pub proof fn lemma_skip_head<T>(s: Seq<T>, i: int)
    requires
        0 <= i < s.len(),
    ensures
        s.skip(i).to_set() == s.skip(i + 1).to_set().insert(s[i]),
{
    let l = s.skip(i);
    let r = s.skip(i + 1);
    assert forall|e: T| l.to_set().contains(e) implies r.to_set().insert(s[i]).contains(e) by {
        let k = choose|k: int| 0 <= k < l.len() && l[k] == e;
        if k > 0 {
            assert(r[k - 1] == e);
            assert(r.contains(e));
        }
    }
    assert forall|e: T| r.to_set().insert(s[i]).contains(e) implies l.to_set().contains(e) by {
        if r.to_set().contains(e) {
            let k = choose|k: int| 0 <= k < r.len() && r[k] == e;
            assert(l[k + 1] == e);
            assert(l.contains(e));
        } else {
            assert(l[0] == e);
            assert(l.contains(e));
        }
    }
    assert(l.to_set() =~= r.to_set().insert(s[i]));
}

/// Taking one more element adds exactly it to the set.
pub proof fn lemma_take_snoc<T>(s: Seq<T>, i: int)
    requires
        0 <= i < s.len(),
    ensures
        s.take(i + 1).to_set() == s.take(i).to_set().insert(s[i]),
{
    let l = s.take(i + 1);
    let r = s.take(i);
    assert forall|e: T| l.to_set().contains(e) implies r.to_set().insert(s[i]).contains(e) by {
        let k = choose|k: int| 0 <= k < l.len() && l[k] == e;
        if k < i {
            assert(r[k] == e);
            assert(r.contains(e));
        }
    }
    assert forall|e: T| r.to_set().insert(s[i]).contains(e) implies l.to_set().contains(e) by {
        if r.to_set().contains(e) {
            let k = choose|k: int| 0 <= k < r.len() && r[k] == e;
            assert(l[k] == e);
            assert(l.contains(e));
        } else {
            assert(l[i] == e);
            assert(l.contains(e));
        }
    }
    assert(l.to_set() =~= r.to_set().insert(s[i]));
}

/// Inserting an element anywhere adds exactly it to the set.
pub proof fn lemma_insert_to_set<T>(s: Seq<T>, k: int, x: T)
    requires
        0 <= k <= s.len(),
    ensures
        s.insert(k, x).to_set() == s.to_set().insert(x),
{
    let l = s.insert(k, x);
    assert forall|e: T| l.to_set().contains(e) implies s.to_set().insert(x).contains(e) by {
        let m = choose|m: int| 0 <= m < l.len() && l[m] == e;
        if m < k {
            assert(s[m] == e);
            assert(s.contains(e));
        } else if m > k {
            assert(s[m - 1] == e);
            assert(s.contains(e));
        }
    }
    assert forall|e: T| s.to_set().insert(x).contains(e) implies l.to_set().contains(e) by {
        if s.to_set().contains(e) {
            let m = choose|m: int| 0 <= m < s.len() && s[m] == e;
            if m < k {
                assert(l[m] == e);
            } else {
                assert(l[m + 1] == e);
            }
            assert(l.contains(e));
        } else {
            assert(l[k] == e);
            assert(l.contains(e));
        }
    }
    assert(l.to_set() =~= s.to_set().insert(x));
}

/// In a strictly sorted sequence, whatever sits in the tail from `i` on is
/// the element at `i` or comes after it.
pub proof fn lemma_sorted_skip_min<M: OrderedToken>(s: Seq<M::Repr>, i: int, e: M::Repr)
    requires
        sorted_strict::<M>(s),
        0 <= i < s.len(),
        s.skip(i).to_set().contains(e),
    ensures
        e == s[i] || M::before(s[i], e),
{
    let l = s.skip(i);
    let k = choose|k: int| 0 <= k < l.len() && l[k] == e;
    if k > 0 {
        assert(s[i + k] == e);
        assert(M::before(s[i], s[i + k]));
    }
}

/// Two strictly sorted sequences over the same set of token images are the
/// same sequence: the representation is canonical, so value equality of
/// ordered modifier sets does not depend on insertion order.
pub proof fn lemma_canonical_unique<M: OrderedToken>(s1: Seq<M::Repr>, s2: Seq<M::Repr>)
    requires
        sorted_strict::<M>(s1),
        sorted_strict::<M>(s2),
        s1.to_set() == s2.to_set(),
    ensures
        s1 == s2,
    decreases s1.len(),
{
    if s1.len() == 0 {
        if s2.len() > 0 {
            assert(s2.contains(s2[0]));
            assert(s1.to_set().contains(s2[0]));
            assert(false);
        }
        assert(s1 =~= s2);
    } else {
        assert(s1.contains(s1[0]));
        assert(s2.to_set().contains(s1[0]));
        if s2.len() == 0 {
            assert(false);
        }
        let k1 = choose|k: int| 0 <= k < s2.len() && s2[k] == s1[0];
        assert(s2.contains(s2[0]));
        assert(s1.to_set().contains(s2[0]));
        let k2 = choose|k: int| 0 <= k < s1.len() && s1[k] == s2[0];
        if s1[0] != s2[0] {
            assert(k1 > 0 && M::before(s2[0], s2[k1]));
            assert(k2 > 0 && M::before(s1[0], s1[k2]));
            M::lemma_strict_total_order(s1[0], s2[0], s1[0]);
            assert(false);
        }
        let t1 = s1.skip(1);
        let t2 = s2.skip(1);
        lemma_skip_head(s1, 0);
        lemma_skip_head(s2, 0);
        assert(s1.skip(0) =~= s1);
        assert(s2.skip(0) =~= s2);
        assert forall|e: M::Repr| t1.to_set().contains(e) implies t2.to_set().contains(e) by {
            lemma_sorted_skip_min::<M>(s1, 1, e);
            M::lemma_strict_total_order(s1[0], e, e);
            assert(e != s1[0]);
            assert(s1.to_set().contains(e)) by {
                let k = choose|k: int| 0 <= k < t1.len() && t1[k] == e;
                assert(s1[k + 1] == e);
                assert(s1.contains(e));
            }
            assert(t2.to_set().insert(s2[0]).contains(e));
        }
        assert forall|e: M::Repr| t2.to_set().contains(e) implies t1.to_set().contains(e) by {
            lemma_sorted_skip_min::<M>(s2, 1, e);
            M::lemma_strict_total_order(s2[0], e, e);
            assert(e != s2[0]);
            assert(s2.to_set().contains(e)) by {
                let k = choose|k: int| 0 <= k < t2.len() && t2[k] == e;
                assert(s2[k + 1] == e);
                assert(s2.contains(e));
            }
            assert(t1.to_set().insert(s1[0]).contains(e));
        }
        assert(t1.to_set() =~= t2.to_set());
        assert(sorted_strict::<M>(t1)) by {
            assert forall|i: int, j: int| 0 <= i < j < t1.len() implies M::before(t1[i], t1[j]) by {
                assert(t1[i] == s1[i + 1] && t1[j] == s1[j + 1]);
            }
        }
        assert(sorted_strict::<M>(t2)) by {
            assert forall|i: int, j: int| 0 <= i < j < t2.len() implies M::before(t2[i], t2[j]) by {
                assert(t2[i] == s2[i + 1] && t2[j] == s2[j + 1]);
            }
        }
        lemma_canonical_unique::<M>(t1, t2);
        assert(s1.len() == s2.len());
        assert forall|i: int| 0 <= i < s1.len() implies s1[i] == s2[i] by {
            if i > 0 {
                assert(s1[i] == t1[i - 1]);
                assert(s2[i] == t2[i - 1]);
            }
        }
        assert(s1 =~= s2);
    }
}

// ------------------------------------------------------------------
// Lexicographic order on character sequences.
// ------------------------------------------------------------------
/// Strict lexicographic order on character sequences, by codepoint: a
/// proper prefix comes first.
pub open spec fn lex_lt(a: Seq<char>, b: Seq<char>) -> bool
    decreases a.len(),
{
    if b.len() == 0 {
        false
    } else if a.len() == 0 {
        true
    } else if (a[0] as u32) < (b[0] as u32) {
        true
    } else if a[0] != b[0] {
        false
    } else {
        lex_lt(a.drop_first(), b.drop_first())
    }
}

/// The lexicographic order is irreflexive.
pub proof fn lemma_lex_lt_irreflexive(a: Seq<char>)
    ensures
        !lex_lt(a, a),
    decreases a.len(),
{
    if a.len() > 0 {
        lemma_lex_lt_irreflexive(a.drop_first());
    }
}

/// The lexicographic order is transitive.
pub proof fn lemma_lex_lt_transitive(a: Seq<char>, b: Seq<char>, c: Seq<char>)
    requires
        lex_lt(a, b),
        lex_lt(b, c),
    ensures
        lex_lt(a, c),
    decreases a.len() + b.len() + c.len(),
{
    if a.len() == 0 {
    } else {
        assert(b.len() > 0 && c.len() > 0);
        if a[0] == b[0] && b[0] == c[0] {
            lemma_lex_lt_transitive(a.drop_first(), b.drop_first(), c.drop_first());
        }
    }
}

/// The lexicographic order is total: distinct sequences are ordered.
pub proof fn lemma_lex_lt_connected(a: Seq<char>, b: Seq<char>)
    requires
        a != b,
    ensures
        lex_lt(a, b) || lex_lt(b, a),
    decreases a.len(),
{
    if b.len() == 0 {
        if a.len() == 0 {
            assert(a =~= b);
        }
        assert(lex_lt(b, a));
    } else if a.len() == 0 {
        assert(lex_lt(a, b));
    } else if (a[0] as u32) < (b[0] as u32) {
        assert(lex_lt(a, b));
    } else if a[0] != b[0] {
        vstd::utf8::char_u32_cast(a[0], a[0] as u32);
        vstd::utf8::char_u32_cast(b[0], b[0] as u32);
        assert((b[0] as u32) < (a[0] as u32));
        assert(lex_lt(b, a));
    } else {
        let ta = a.drop_first();
        let tb = b.drop_first();
        if ta == tb {
            assert(ta.len() == tb.len());
            assert(ta.len() == a.len() - 1);
            assert(tb.len() == b.len() - 1);
            assert(a.len() == b.len());
            assert forall|i: int| 0 <= i < a.len() implies a[i] == b[i] by {
                if i > 0 {
                    assert(a[i] == ta[i - 1]);
                    assert(b[i] == tb[i - 1]);
                }
            }
            assert(a =~= b);
        }
        lemma_lex_lt_connected(ta, tb);
    }
}

/// Character-by-character lexicographic comparison of two strings.
pub fn str_lex_lt(a: &str, b: &str) -> (r: bool)
    ensures
        r == lex_lt(a@, b@),
{
    let la = a.unicode_len();
    let lb = b.unicode_len();
    let mut i: usize = 0;
    proof {
        assert(a@.skip(0) =~= a@);
        assert(b@.skip(0) =~= b@);
    }
    while i < la && i < lb
        invariant
            0 <= i <= la,
            i <= lb,
            la == a@.len(),
            lb == b@.len(),
            lex_lt(a@, b@) == lex_lt(a@.skip(i as int), b@.skip(i as int)),
        decreases la - i,
    {
        let ca = a.get_char(i);
        let cb = b.get_char(i);
        proof {
            assert(a@.skip(i as int)[0] == ca);
            assert(b@.skip(i as int)[0] == cb);
            assert(a@.skip(i as int).drop_first() =~= a@.skip(i + 1));
            assert(b@.skip(i as int).drop_first() =~= b@.skip(i + 1));
        }
        if (ca as u32) < (cb as u32) {
            return true;
        }
        if ca != cb {
            return false;
        }
        i += 1;
    }
    proof {
        if i >= la {
            assert(a@.skip(i as int).len() == 0);
        } else {
            assert(b@.skip(i as int).len() == 0);
        }
    }
    la < lb
}

impl<'a> OrderedToken for &'a str {
    type Repr = Seq<char>;

    open spec fn model(&self) -> Seq<char> {
        self@
    }

    open spec fn before(a: Seq<char>, b: Seq<char>) -> bool {
        lex_lt(a, b)
    }

    fn lt(&self, other: &Self) -> bool {
        str_lex_lt(self, other)
    }

    fn dup(&self) -> Self {
        *self
    }

    proof fn lemma_strict_total_order(a: Seq<char>, b: Seq<char>, c: Seq<char>) {
        lemma_lex_lt_irreflexive(a);
        if lex_lt(a, b) && lex_lt(b, c) {
            lemma_lex_lt_transitive(a, b, c);
        }
        if a != b {
            lemma_lex_lt_connected(a, b);
        }
    }
}

impl OrderedToken for String {
    type Repr = Seq<char>;

    open spec fn model(&self) -> Seq<char> {
        self@
    }

    open spec fn before(a: Seq<char>, b: Seq<char>) -> bool {
        lex_lt(a, b)
    }

    fn lt(&self, other: &Self) -> bool {
        str_lex_lt(self.as_str(), other.as_str())
    }

    fn dup(&self) -> Self {
        self.clone()
    }

    proof fn lemma_strict_total_order(a: Seq<char>, b: Seq<char>, c: Seq<char>) {
        lemma_lex_lt_irreflexive(a);
        if lex_lt(a, b) && lex_lt(b, c) {
            lemma_lex_lt_transitive(a, b, c);
        }
        if a != b {
            lemma_lex_lt_connected(a, b);
        }
    }
}

impl OrderedToken for u32 {
    type Repr = u32;

    open spec fn model(&self) -> u32 {
        *self
    }

    open spec fn before(a: u32, b: u32) -> bool {
        a < b
    }

    fn lt(&self, other: &Self) -> bool {
        *self < *other
    }

    fn dup(&self) -> Self {
        *self
    }

    proof fn lemma_strict_total_order(a: u32, b: u32, c: u32) {
    }
}

impl OrderedToken for u64 {
    type Repr = u64;

    open spec fn model(&self) -> u64 {
        *self
    }

    open spec fn before(a: u64, b: u64) -> bool {
        a < b
    }

    fn lt(&self, other: &Self) -> bool {
        *self < *other
    }

    fn dup(&self) -> Self {
        *self
    }

    proof fn lemma_strict_total_order(a: u64, b: u64, c: u64) {
    }
}

impl OrderedToken for usize {
    type Repr = usize;

    open spec fn model(&self) -> usize {
        *self
    }

    open spec fn before(a: usize, b: usize) -> bool {
        a < b
    }

    fn lt(&self, other: &Self) -> bool {
        *self < *other
    }

    fn dup(&self) -> Self {
        *self
    }

    proof fn lemma_strict_total_order(a: usize, b: usize, c: usize) {
    }
}

// ------------------------------------------------------------------
// The ordered modifier set.
// ------------------------------------------------------------------
/// A modifier set held as a strictly increasing sequence of tokens: the
/// canonical representative of its contents.
#[derive(Debug, PartialEq, Eq, PartialOrd, Ord)]
pub struct BTreeModifiers<M: OrderedToken> {
    value: Vec<M>,
}

impl<M: OrderedToken> Clone for BTreeModifiers<M> {
    /// A copy with the same contents.
    fn clone(&self) -> (r: Self)
        ensures
            r.model() == self.model(),
    {
        proof {
            use_type_invariant(self);
        }
        let mut value: Vec<M> = Vec::new();
        let mut i: usize = 0;
        proof {
            assert(value@.map_values(|m: M| m.model()) =~= self.model().take(0));
        }
        while i < self.value.len()
            invariant
                0 <= i <= self.value.len(),
                sorted_strict::<M>(self.model()),
                value@.map_values(|m: M| m.model()) == self.model().take(i as int),
            decreases self.value.len() - i,
        {
            let ghost before = value@.map_values(|m: M| m.model());
            value.push(self.value[i].dup());
            proof {
                assert(value@.map_values(|m: M| m.model()) =~= before.push(
                    self.model()[i as int],
                ));
                assert(before.push(self.model()[i as int]) =~= self.model().take(i + 1));
            }
            i += 1;
        }
        let r = BTreeModifiers { value };
        proof {
            assert(self.model().take(self.value.len() as int) =~= self.model());
        }
        r
    }
}

impl<M: OrderedToken> Default for BTreeModifiers<M> {
    /// The empty modifier set.
    fn default() -> (r: Self)
        ensures
            r.model() == Seq::<M::Repr>::empty(),
    {
        BTreeModifiers::new()
    }
}

impl<M: OrderedToken> BTreeModifiers<M> {
    /// The images of the held tokens, in storage order.
    pub closed spec fn model(&self) -> Seq<M::Repr> {
        self.value@.map_values(|m: M| m.model())
    }

    /// The stored sequence is strictly increasing: sorted, without
    /// duplicates.
    #[verifier::type_invariant]
    pub closed spec fn inv(self) -> bool {
        sorted_strict::<M>(self.model())
    }

    /// The empty modifier set.
    pub fn new() -> (r: Self)
        ensures
            r.model() == Seq::<M::Repr>::empty(),
    {
        let value: Vec<M> = Vec::new();
        let r = BTreeModifiers { value };
        proof {
            assert(r.model() =~= Seq::<M::Repr>::empty());
        }
        r
    }

    /// Collect a sequence of tokens: duplicates (by image) are dropped and
    /// the canonical order is established.
    pub fn from_vec(v: Vec<M>) -> (r: Self)
        ensures
            r.model().to_set() == v@.map_values(|m: M| m.model()).to_set(),
    {
        let ghost vmod = v@.map_values(|m: M| m.model());
        let mut out: Vec<M> = Vec::new();
        let mut i: usize = 0;
        proof {
            assert(out@.map_values(|m: M| m.model()) =~= Seq::<M::Repr>::empty());
            assert(vmod.take(0) =~= Seq::<M::Repr>::empty());
            assert(Seq::<M::Repr>::empty().to_set() =~= Set::<M::Repr>::empty());
        }
        while i < v.len()
            invariant
                0 <= i <= v.len(),
                vmod == v@.map_values(|m: M| m.model()),
                sorted_strict::<M>(out@.map_values(|m: M| m.model())),
                out@.map_values(|m: M| m.model()).to_set() == vmod.take(i as int).to_set(),
            decreases v.len() - i,
        {
            let ghost omod = out@.map_values(|m: M| m.model());
            let x = &v[i];
            let ghost xm = x.model();
            let mut k: usize = 0;
            while k < out.len() && out[k].lt(x)
                invariant
                    0 <= k <= out.len(),
                    omod == out@.map_values(|m: M| m.model()),
                    forall|l: int| 0 <= l < k ==> M::before(omod[l], xm),
                    xm == x.model(),
                decreases out.len() - k,
            {
                k += 1;
            }
            let mut duplicate = false;
            if k < out.len() {
                if !x.lt(&out[k]) {
                    duplicate = true;
                }
            }
            if duplicate {
                proof {
                    assert(M::before(omod[k as int], xm) || xm == omod[k as int]
                        || M::before(xm, omod[k as int])) by {
                        M::lemma_strict_total_order(omod[k as int], xm, xm);
                    }
                    assert(xm == omod[k as int]);
                    assert(omod.contains(xm));
                    lemma_take_snoc(vmod, i as int);
                    assert(omod.to_set() =~= vmod.take(i + 1).to_set());
                }
            } else {
                let ghost before_ins = omod;
                out.insert(k, x.dup());
                proof {
                    let now = out@.map_values(|m: M| m.model());
                    assert(now =~= before_ins.insert(k as int, xm));
                    lemma_insert_to_set(before_ins, k as int, xm);
                    lemma_take_snoc(vmod, i as int);
                    assert(now.to_set() =~= vmod.take(i + 1).to_set());
                    assert(sorted_strict::<M>(now)) by {
                        assert forall|p: int, q: int| 0 <= p < q < now.len() implies M::before(
                            now[p],
                            now[q],
                        ) by {
                            if q < k {
                                assert(now[p] == before_ins[p] && now[q] == before_ins[q]);
                            } else if p < k && q == k {
                                assert(now[p] == before_ins[p] && now[q] == xm);
                            } else if p < k && q > k {
                                assert(now[p] == before_ins[p] && now[q] == before_ins[q - 1]);
                            } else if p == k {
                                assert(now[p] == xm && now[q] == before_ins[q - 1]);
                                assert(k < before_ins.len() ==> M::before(xm, before_ins[k as int]));
                                if q - 1 > k {
                                    M::lemma_strict_total_order(
                                        xm,
                                        before_ins[k as int],
                                        before_ins[q - 1],
                                    );
                                }
                            } else {
                                assert(now[p] == before_ins[p - 1] && now[q] == before_ins[q - 1]);
                            }
                        }
                    }
                }
            }
            i += 1;
        }
        proof {
            assert(vmod.take(v.len() as int) =~= vmod);
        }
        BTreeModifiers { value: out }
    }
}

impl<M: OrderedToken> From<Vec<M>> for BTreeModifiers<M> {
    /// Collect a plain vector of tokens, deduplicating and ordering them.
    fn from(v: Vec<M>) -> (r: Self)
        ensures
            r.mods() == v@.map_values(|m: M| m.model()).to_set(),
    {
        BTreeModifiers::from_vec(v)
    }
}

impl<M: OrderedToken> vstd::std_specs::convert::FromSpecImpl<Vec<M>> for BTreeModifiers<M> {
    open spec fn obeys_from_spec() -> bool {
        false
    }

    open spec fn from_spec(v: Vec<M>) -> Self {
        arbitrary()
    }
}

impl<M: OrderedToken> Modifiers for BTreeModifiers<M> {
    type Elem = M::Repr;

    closed spec fn mods(&self) -> Set<M::Repr> {
        self.model().to_set()
    }

    fn or(self, rhs: Self) -> (r: Self) {
        proof {
            use_type_invariant(&self);
            use_type_invariant(&rhs);
        }
        let ghost amod = self.model();
        let ghost bmod = rhs.model();
        let a = self.value;
        let b = rhs.value;
        let mut out: Vec<M> = Vec::new();
        let mut i: usize = 0;
        let mut j: usize = 0;
        proof {
            assert(amod == a@.map_values(|m: M| m.model()));
            assert(bmod == b@.map_values(|m: M| m.model()));
            assert(amod.skip(0) =~= amod);
            assert(bmod.skip(0) =~= bmod);
            assert(out@.map_values(|m: M| m.model()) =~= Seq::<M::Repr>::empty());
            assert(amod.to_set().union(bmod.to_set()) =~= Seq::<M::Repr>::empty().to_set().union(
                amod.skip(0).to_set(),
            ).union(bmod.skip(0).to_set()));
        }
        while i < a.len() || j < b.len()
            invariant
                0 <= i <= a.len(),
                0 <= j <= b.len(),
                amod == a@.map_values(|m: M| m.model()),
                bmod == b@.map_values(|m: M| m.model()),
                sorted_strict::<M>(amod),
                sorted_strict::<M>(bmod),
                sorted_strict::<M>(out@.map_values(|m: M| m.model())),
                out@.len() > 0 && i < a.len() ==> M::before(
                    out@.map_values(|m: M| m.model()).last(),
                    amod[i as int],
                ),
                out@.len() > 0 && j < b.len() ==> M::before(
                    out@.map_values(|m: M| m.model()).last(),
                    bmod[j as int],
                ),
                amod.to_set().union(bmod.to_set()) == out@.map_values(
                    |m: M| m.model(),
                ).to_set().union(amod.skip(i as int).to_set()).union(bmod.skip(j as int).to_set()),
            decreases a.len() - i + b.len() - j,
        {
            let ghost omod = out@.map_values(|m: M| m.model());
            if i < a.len() && (j >= b.len() || a[i].lt(&b[j])) {
                let ghost xm = amod[i as int];
                out.push(a[i].dup());
                proof {
                    let now = out@.map_values(|m: M| m.model());
                    assert(now =~= omod.push(xm));
                    lemma_push_sorted::<M>(omod, xm);
                    lemma_push_to_set(omod, xm);
                    assert(now.to_set() == omod.to_set().insert(xm));
                    assert(now.last() == xm);
                    assert(i + 1 < amod.len() ==> M::before(amod[i as int], amod[i + 1]));
                    lemma_skip_head(amod, i as int);
                    assert(amod.to_set().union(bmod.to_set()) =~= now.to_set().union(
                        amod.skip(i + 1).to_set(),
                    ).union(bmod.skip(j as int).to_set()));
                }
                i += 1;
            } else if j < b.len() && (i >= a.len() || b[j].lt(&a[i])) {
                let ghost xm = bmod[j as int];
                out.push(b[j].dup());
                proof {
                    let now = out@.map_values(|m: M| m.model());
                    assert(now =~= omod.push(xm));
                    lemma_push_sorted::<M>(omod, xm);
                    lemma_push_to_set(omod, xm);
                    assert(now.to_set() == omod.to_set().insert(xm));
                    assert(now.last() == xm);
                    assert(j + 1 < bmod.len() ==> M::before(bmod[j as int], bmod[j + 1]));
                    lemma_skip_head(bmod, j as int);
                    assert(amod.to_set().union(bmod.to_set()) =~= now.to_set().union(
                        amod.skip(i as int).to_set(),
                    ).union(bmod.skip(j + 1).to_set()));
                }
                j += 1;
            } else {
                let ghost xm = amod[i as int];
                proof {
                    M::lemma_strict_total_order(amod[i as int], bmod[j as int], amod[i as int]);
                    assert(amod[i as int] == bmod[j as int]);
                }
                out.push(a[i].dup());
                proof {
                    let now = out@.map_values(|m: M| m.model());
                    assert(now =~= omod.push(xm));
                    lemma_push_sorted::<M>(omod, xm);
                    lemma_push_to_set(omod, xm);
                    assert(now.to_set() == omod.to_set().insert(xm));
                    assert(now.last() == xm);
                    assert(i + 1 < amod.len() ==> M::before(amod[i as int], amod[i + 1]));
                    assert(j + 1 < bmod.len() ==> M::before(bmod[j as int], bmod[j + 1]));
                    lemma_skip_head(amod, i as int);
                    lemma_skip_head(bmod, j as int);
                    assert(amod.to_set().union(bmod.to_set()) =~= now.to_set().union(
                        amod.skip(i + 1).to_set(),
                    ).union(bmod.skip(j + 1).to_set()));
                }
                i += 1;
                j += 1;
            }
        }
        let r = BTreeModifiers { value: out };
        proof {
            assert(amod.skip(a.len() as int).to_set() =~= Set::<M::Repr>::empty());
            assert(bmod.skip(b.len() as int).to_set() =~= Set::<M::Repr>::empty());
            assert(r.model().to_set() =~= amod.to_set().union(bmod.to_set()));
        }
        r
    }

    fn and(self, rhs: Self) -> (r: Self) {
        proof {
            use_type_invariant(&self);
            use_type_invariant(&rhs);
        }
        let ghost amod = self.model();
        let ghost bmod = rhs.model();
        let a = self.value;
        let b = rhs.value;
        let mut out: Vec<M> = Vec::new();
        let mut i: usize = 0;
        let mut j: usize = 0;
        proof {
            assert(amod == a@.map_values(|m: M| m.model()));
            assert(bmod == b@.map_values(|m: M| m.model()));
            assert(amod.skip(0) =~= amod);
            assert(bmod.skip(0) =~= bmod);
            assert(out@.map_values(|m: M| m.model()) =~= Seq::<M::Repr>::empty());
            assert(amod.to_set().intersect(bmod.to_set()) =~= Seq::<
                M::Repr,
            >::empty().to_set().union(amod.skip(0).to_set().intersect(bmod.skip(0).to_set())));
        }
        while i < a.len() && j < b.len()
            invariant
                0 <= i <= a.len(),
                0 <= j <= b.len(),
                amod == a@.map_values(|m: M| m.model()),
                bmod == b@.map_values(|m: M| m.model()),
                sorted_strict::<M>(amod),
                sorted_strict::<M>(bmod),
                sorted_strict::<M>(out@.map_values(|m: M| m.model())),
                out@.len() > 0 && i < a.len() ==> M::before(
                    out@.map_values(|m: M| m.model()).last(),
                    amod[i as int],
                ),
                out@.len() > 0 && j < b.len() ==> M::before(
                    out@.map_values(|m: M| m.model()).last(),
                    bmod[j as int],
                ),
                amod.to_set().intersect(bmod.to_set()) == out@.map_values(
                    |m: M| m.model(),
                ).to_set().union(amod.skip(i as int).to_set().intersect(bmod.skip(j as int).to_set())),
            decreases a.len() - i + b.len() - j,
        {
            let ghost omod = out@.map_values(|m: M| m.model());
            if a[i].lt(&b[j]) {
                proof {
                    lemma_skip_head(amod, i as int);
                    assert forall|e: M::Repr| #[trigger] bmod.skip(j as int).to_set().contains(e) implies e
                        != amod[i as int] by {
                        lemma_sorted_skip_min::<M>(bmod, j as int, e);
                        M::lemma_strict_total_order(amod[i as int], bmod[j as int], e);
                        M::lemma_strict_total_order(bmod[j as int], e, e);
                    }
                    assert(amod.skip(i as int).to_set().intersect(bmod.skip(j as int).to_set())
                        =~= amod.skip(i + 1).to_set().intersect(bmod.skip(j as int).to_set()));
                    if omod.len() > 0 && i + 1 < amod.len() {
                        assert(M::before(amod[i as int], amod[i + 1]));
                        M::lemma_strict_total_order(omod.last(), amod[i as int], amod[i + 1]);
                    }
                }
                i += 1;
            } else if b[j].lt(&a[i]) {
                proof {
                    lemma_skip_head(bmod, j as int);
                    assert forall|e: M::Repr| #[trigger] amod.skip(i as int).to_set().contains(e) implies e
                        != bmod[j as int] by {
                        lemma_sorted_skip_min::<M>(amod, i as int, e);
                        M::lemma_strict_total_order(bmod[j as int], amod[i as int], e);
                        M::lemma_strict_total_order(amod[i as int], e, e);
                    }
                    assert(amod.skip(i as int).to_set().intersect(bmod.skip(j as int).to_set())
                        =~= amod.skip(i as int).to_set().intersect(bmod.skip(j + 1).to_set()));
                    if omod.len() > 0 && j + 1 < bmod.len() {
                        assert(M::before(bmod[j as int], bmod[j + 1]));
                        M::lemma_strict_total_order(omod.last(), bmod[j as int], bmod[j + 1]);
                    }
                }
                j += 1;
            } else {
                let ghost xm = amod[i as int];
                proof {
                    M::lemma_strict_total_order(amod[i as int], bmod[j as int], amod[i as int]);
                    assert(amod[i as int] == bmod[j as int]);
                }
                out.push(a[i].dup());
                proof {
                    let now = out@.map_values(|m: M| m.model());
                    assert(now =~= omod.push(xm));
                    lemma_push_sorted::<M>(omod, xm);
                    lemma_push_to_set(omod, xm);
                    assert(now.to_set() == omod.to_set().insert(xm));
                    assert(now.last() == xm);
                    assert(i + 1 < amod.len() ==> M::before(amod[i as int], amod[i + 1]));
                    assert(j + 1 < bmod.len() ==> M::before(bmod[j as int], bmod[j + 1]));
                    lemma_skip_head(amod, i as int);
                    lemma_skip_head(bmod, j as int);
                    assert forall|e: M::Repr| #[trigger] amod.skip(i + 1).to_set().contains(e) implies e
                        != xm by {
                        lemma_sorted_skip_min::<M>(amod, i + 1, e);
                        M::lemma_strict_total_order(xm, amod[i + 1], e);
                        M::lemma_strict_total_order(amod[i + 1], e, e);
                    }
                    assert(amod.to_set().intersect(bmod.to_set()) =~= now.to_set().union(
                        amod.skip(i + 1).to_set().intersect(bmod.skip(j + 1).to_set()),
                    ));
                }
                i += 1;
                j += 1;
            }
        }
        let r = BTreeModifiers { value: out };
        proof {
            if i >= a.len() {
                assert(amod.skip(i as int).to_set() =~= Set::<M::Repr>::empty());
            } else {
                assert(bmod.skip(j as int).to_set() =~= Set::<M::Repr>::empty());
            }
            assert(amod.skip(i as int).to_set().intersect(bmod.skip(j as int).to_set()) =~= Set::<
                M::Repr,
            >::empty());
            assert(r.model().to_set() =~= amod.to_set().intersect(bmod.to_set()));
        }
        r
    }

    fn xor(self, rhs: Self) -> (r: Self) {
        proof {
            use_type_invariant(&self);
            use_type_invariant(&rhs);
        }
        let ghost amod = self.model();
        let ghost bmod = rhs.model();
        let a = self.value;
        let b = rhs.value;
        let mut out: Vec<M> = Vec::new();
        let mut i: usize = 0;
        let mut j: usize = 0;
        proof {
            assert(amod == a@.map_values(|m: M| m.model()));
            assert(bmod == b@.map_values(|m: M| m.model()));
            assert(amod.skip(0) =~= amod);
            assert(bmod.skip(0) =~= bmod);
            assert(out@.map_values(|m: M| m.model()) =~= Seq::<M::Repr>::empty());
            assert(sym_diff(amod.to_set(), bmod.to_set()) =~= Seq::<
                M::Repr,
            >::empty().to_set().union(sym_diff(amod.skip(0).to_set(), bmod.skip(0).to_set())));
        }
        while i < a.len() || j < b.len()
            invariant
                0 <= i <= a.len(),
                0 <= j <= b.len(),
                amod == a@.map_values(|m: M| m.model()),
                bmod == b@.map_values(|m: M| m.model()),
                sorted_strict::<M>(amod),
                sorted_strict::<M>(bmod),
                sorted_strict::<M>(out@.map_values(|m: M| m.model())),
                out@.len() > 0 && i < a.len() ==> M::before(
                    out@.map_values(|m: M| m.model()).last(),
                    amod[i as int],
                ),
                out@.len() > 0 && j < b.len() ==> M::before(
                    out@.map_values(|m: M| m.model()).last(),
                    bmod[j as int],
                ),
                sym_diff(amod.to_set(), bmod.to_set()) == out@.map_values(
                    |m: M| m.model(),
                ).to_set().union(sym_diff(amod.skip(i as int).to_set(), bmod.skip(j as int).to_set())),
            decreases a.len() - i + b.len() - j,
        {
            let ghost omod = out@.map_values(|m: M| m.model());
            if i < a.len() && (j >= b.len() || a[i].lt(&b[j])) {
                let ghost xm = amod[i as int];
                out.push(a[i].dup());
                proof {
                    let now = out@.map_values(|m: M| m.model());
                    assert(now =~= omod.push(xm));
                    lemma_push_sorted::<M>(omod, xm);
                    lemma_push_to_set(omod, xm);
                    assert(now.to_set() == omod.to_set().insert(xm));
                    assert(now.last() == xm);
                    assert(i + 1 < amod.len() ==> M::before(amod[i as int], amod[i + 1]));
                    lemma_skip_head(amod, i as int);
                    if j < b.len() {
                        assert forall|e: M::Repr| #[trigger] bmod.skip(j as int).to_set().contains(e)
                            implies e != xm by {
                            lemma_sorted_skip_min::<M>(bmod, j as int, e);
                            M::lemma_strict_total_order(xm, bmod[j as int], e);
                            M::lemma_strict_total_order(bmod[j as int], e, e);
                        }
                    } else {
                        assert(bmod.skip(j as int).to_set() =~= Set::<M::Repr>::empty());
                    }
                    assert forall|e: M::Repr| #[trigger] amod.skip(i + 1).to_set().contains(e) implies e
                        != xm by {
                        lemma_sorted_skip_min::<M>(amod, i + 1, e);
                        M::lemma_strict_total_order(xm, amod[i + 1], e);
                        M::lemma_strict_total_order(amod[i + 1], e, e);
                    }
                    assert(sym_diff(amod.to_set(), bmod.to_set()) =~= now.to_set().union(
                        sym_diff(amod.skip(i + 1).to_set(), bmod.skip(j as int).to_set()),
                    ));
                }
                i += 1;
            } else if j < b.len() && (i >= a.len() || b[j].lt(&a[i])) {
                let ghost xm = bmod[j as int];
                out.push(b[j].dup());
                proof {
                    let now = out@.map_values(|m: M| m.model());
                    assert(now =~= omod.push(xm));
                    lemma_push_sorted::<M>(omod, xm);
                    lemma_push_to_set(omod, xm);
                    assert(now.to_set() == omod.to_set().insert(xm));
                    assert(now.last() == xm);
                    assert(j + 1 < bmod.len() ==> M::before(bmod[j as int], bmod[j + 1]));
                    lemma_skip_head(bmod, j as int);
                    if i < a.len() {
                        assert forall|e: M::Repr| #[trigger] amod.skip(i as int).to_set().contains(e)
                            implies e != xm by {
                            lemma_sorted_skip_min::<M>(amod, i as int, e);
                            M::lemma_strict_total_order(xm, amod[i as int], e);
                            M::lemma_strict_total_order(amod[i as int], e, e);
                        }
                    } else {
                        assert(amod.skip(i as int).to_set() =~= Set::<M::Repr>::empty());
                    }
                    assert forall|e: M::Repr| #[trigger] bmod.skip(j + 1).to_set().contains(e) implies e
                        != xm by {
                        lemma_sorted_skip_min::<M>(bmod, j + 1, e);
                        M::lemma_strict_total_order(xm, bmod[j + 1], e);
                        M::lemma_strict_total_order(bmod[j + 1], e, e);
                    }
                    assert(sym_diff(amod.to_set(), bmod.to_set()) =~= now.to_set().union(
                        sym_diff(amod.skip(i as int).to_set(), bmod.skip(j + 1).to_set()),
                    ));
                }
                j += 1;
            } else {
                let ghost xm = amod[i as int];
                proof {
                    M::lemma_strict_total_order(amod[i as int], bmod[j as int], amod[i as int]);
                    assert(amod[i as int] == bmod[j as int]);
                    assert(i + 1 < amod.len() ==> M::before(amod[i as int], amod[i + 1]));
                    assert(j + 1 < bmod.len() ==> M::before(bmod[j as int], bmod[j + 1]));
                    lemma_skip_head(amod, i as int);
                    lemma_skip_head(bmod, j as int);
                    assert forall|e: M::Repr| #[trigger] amod.skip(i + 1).to_set().contains(e) implies e
                        != xm by {
                        lemma_sorted_skip_min::<M>(amod, i + 1, e);
                        M::lemma_strict_total_order(xm, amod[i + 1], e);
                        M::lemma_strict_total_order(amod[i + 1], e, e);
                    }
                    assert forall|e: M::Repr| #[trigger] bmod.skip(j + 1).to_set().contains(e) implies e
                        != xm by {
                        lemma_sorted_skip_min::<M>(bmod, j + 1, e);
                        M::lemma_strict_total_order(xm, bmod[j + 1], e);
                        M::lemma_strict_total_order(bmod[j + 1], e, e);
                    }
                    assert(sym_diff(amod.skip(i as int).to_set(), bmod.skip(j as int).to_set())
                        =~= sym_diff(amod.skip(i + 1).to_set(), bmod.skip(j + 1).to_set()));
                    if omod.len() > 0 && i + 1 < amod.len() {
                        M::lemma_strict_total_order(omod.last(), amod[i as int], amod[i + 1]);
                    }
                    if omod.len() > 0 && j + 1 < bmod.len() {
                        M::lemma_strict_total_order(omod.last(), bmod[j as int], bmod[j + 1]);
                    }
                }
                i += 1;
                j += 1;
            }
        }
        let r = BTreeModifiers { value: out };
        proof {
            assert(amod.skip(a.len() as int).to_set() =~= Set::<M::Repr>::empty());
            assert(bmod.skip(b.len() as int).to_set() =~= Set::<M::Repr>::empty());
            assert(r.model().to_set() =~= sym_diff(amod.to_set(), bmod.to_set()));
        }
        r
    }

    fn is_empty(&self) -> (r: bool) {
        proof {
            if self.value.len() > 0 {
                assert(self.model().len() == self.value@.len());
                assert(self.model().contains(self.model()[0]));
                assert(self.model().to_set().contains(self.model()[0]));
                assert(!Set::<M::Repr>::empty().contains(self.model()[0]));
                assert(self.mods() != Set::<M::Repr>::empty());
            } else {
                assert(self.model().to_set() =~= Set::<M::Repr>::empty());
            }
        }
        self.value.len() == 0
    }

    fn dup(&self) -> (r: Self) {
        self.clone()
    }
}

/// Appending an element adds exactly it to the set.
pub proof fn lemma_push_to_set<T>(s: Seq<T>, x: T)
    ensures
        s.push(x).to_set() == s.to_set().insert(x),
{
    let l = s.push(x);
    assert forall|e: T| #[trigger] l.to_set().contains(e) implies s.to_set().insert(x).contains(
        e,
    ) by {
        let k = choose|k: int| 0 <= k < l.len() && l[k] == e;
        if k < s.len() {
            assert(s[k] == e);
            assert(s.contains(e));
        }
    }
    assert forall|e: T| #[trigger] s.to_set().insert(x).contains(e) implies l.to_set().contains(
        e,
    ) by {
        if s.to_set().contains(e) {
            let k = choose|k: int| 0 <= k < s.len() && s[k] == e;
            assert(l[k] == e);
            assert(l.contains(e));
        } else {
            assert(l[s.len() as int] == e);
            assert(l.contains(e));
        }
    }
    assert(l.to_set() =~= s.to_set().insert(x));
}

/// Appending an element strictly after everything held keeps the sequence
/// strictly sorted.
pub proof fn lemma_push_sorted<M: OrderedToken>(s: Seq<M::Repr>, x: M::Repr)
    requires
        sorted_strict::<M>(s),
        s.len() > 0 ==> M::before(s.last(), x),
    ensures
        sorted_strict::<M>(s.push(x)),
{
    let n = s.push(x);
    assert forall|p: int, q: int| 0 <= p < q < n.len() implies M::before(n[p], n[q]) by {
        if q == n.len() - 1 {
            assert(n[p] == s[p]);
            if p < s.len() - 1 {
                assert(M::before(s[p], s.last()));
                M::lemma_strict_total_order(s[p], s.last(), x);
            }
        } else {
            assert(n[p] == s[p] && n[q] == s[q]);
        }
    }
}

} // verus!
