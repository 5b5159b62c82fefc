//! Keys: any type with a strict total order that verified code can compare.
use vstd::prelude::*;
use core::cmp::Ordering;

verus! {

/// A key type: `precedes` is a strict total order, and `compare` decides it.
pub trait KeyBounds: Sized {
    /// `self` comes strictly before `other`.
    spec fn precedes(self, other: Self) -> bool;

    proof fn lemma_irreflexive(a: Self)
        ensures
            !a.precedes(a),
    ;

    proof fn lemma_transitive(a: Self, b: Self, c: Self)
        requires
            a.precedes(b),
            b.precedes(c),
        ensures
            a.precedes(c),
    ;

    proof fn lemma_total(a: Self, b: Self)
        ensures
            a.precedes(b) || a == b || b.precedes(a),
    ;

    /// Three-way comparison.
    fn compare(&self, other: &Self) -> (r: Ordering)
        ensures
            (r == Ordering::Less) == self.precedes(*other),
            (r == Ordering::Equal) == (*self == *other),
            (r == Ordering::Greater) == other.precedes(*self),
    ;
}

/// A key never precedes a key that precedes it, nor itself.
pub proof fn lemma_asymmetric<K: KeyBounds>(a: K, b: K)
    requires
        a.precedes(b),
    ensures
        !b.precedes(a),
        a != b,
{
    K::lemma_irreflexive(a);
    if b.precedes(a) {
        K::lemma_transitive(a, b, a);
    }
}

/// Exactly one of `a` before `b`, `a` equal to `b`, `b` before `a` holds.
pub proof fn lemma_trichotomy<K: KeyBounds>(a: K, b: K)
    ensures
        a.precedes(b) || a == b || b.precedes(a),
        a.precedes(b) ==> !b.precedes(a) && a != b,
        b.precedes(a) ==> !a.precedes(b) && a != b,
        a == b ==> !a.precedes(b),
{
    K::lemma_total(a, b);
    K::lemma_irreflexive(a);
    if a.precedes(b) {
        lemma_asymmetric(a, b);
    }
    if b.precedes(a) {
        lemma_asymmetric(b, a);
    }
}

/// Where `x` falls among two ordered separators `k1` before `k2`.
pub proof fn lemma_place<K: KeyBounds>(x: K, k1: K, k2: K)
    requires
        k1.precedes(k2),
    ensures
        x.precedes(k1) ==> x.precedes(k2),
        k2.precedes(x) ==> k1.precedes(x),
        x == k1 ==> x.precedes(k2),
        x == k2 ==> k1.precedes(x),
        x.precedes(k1) || x == k1 || k1.precedes(x),
        x.precedes(k2) || x == k2 || k2.precedes(x),
        x.precedes(k1) ==> !k1.precedes(x) && x != k1,
        k1.precedes(x) ==> !x.precedes(k1) && x != k1,
        x.precedes(k2) ==> !k2.precedes(x) && x != k2,
        k2.precedes(x) ==> !x.precedes(k2) && x != k2,
        x == k1 ==> !x.precedes(k1),
        x == k2 ==> !x.precedes(k2),
{
    lemma_trichotomy(x, k1);
    lemma_trichotomy(x, k2);
    if x.precedes(k1) {
        K::lemma_transitive(x, k1, k2);
    }
    if k2.precedes(x) {
        K::lemma_transitive(k1, k2, x);
    }
}

impl KeyBounds for u64 {
    open spec fn precedes(self, other: Self) -> bool {
        self < other
    }

    proof fn lemma_irreflexive(a: Self) {
    }

    proof fn lemma_transitive(a: Self, b: Self, c: Self) {
    }

    proof fn lemma_total(a: Self, b: Self) {
    }

    fn compare(&self, other: &Self) -> (r: Ordering) {
        if *self < *other {
            Ordering::Less
        } else if *self == *other {
            Ordering::Equal
        } else {
            Ordering::Greater
        }
    }
}

impl KeyBounds for u32 {
    open spec fn precedes(self, other: Self) -> bool {
        self < other
    }

    proof fn lemma_irreflexive(a: Self) {
    }

    proof fn lemma_transitive(a: Self, b: Self, c: Self) {
    }

    proof fn lemma_total(a: Self, b: Self) {
    }

    fn compare(&self, other: &Self) -> (r: Ordering) {
        if *self < *other {
            Ordering::Less
        } else if *self == *other {
            Ordering::Equal
        } else {
            Ordering::Greater
        }
    }
}

impl KeyBounds for i64 {
    open spec fn precedes(self, other: Self) -> bool {
        self < other
    }

    proof fn lemma_irreflexive(a: Self) {
    }

    proof fn lemma_transitive(a: Self, b: Self, c: Self) {
    }

    proof fn lemma_total(a: Self, b: Self) {
    }

    fn compare(&self, other: &Self) -> (r: Ordering) {
        if *self < *other {
            Ordering::Less
        } else if *self == *other {
            Ordering::Equal
        } else {
            Ordering::Greater
        }
    }
}

impl KeyBounds for usize {
    open spec fn precedes(self, other: Self) -> bool {
        self < other
    }

    proof fn lemma_irreflexive(a: Self) {
    }

    proof fn lemma_transitive(a: Self, b: Self, c: Self) {
    }

    proof fn lemma_total(a: Self, b: Self) {
    }

    fn compare(&self, other: &Self) -> (r: Ordering) {
        if *self < *other {
            Ordering::Less
        } else if *self == *other {
            Ordering::Equal
        } else {
            Ordering::Greater
        }
    }
}

} // verus!
