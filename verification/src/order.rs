//! A total order on keys, with an executable comparison whose contract ties
//! it to the specification-level relation.

use vstd::prelude::*;

verus! {

/// The outcome of a three-way comparison of keys.
#[derive(Clone, Copy, Debug, PartialEq, Eq, Structural)]
pub enum KeyOrdering {
    Less,
    Equal,
    Greater,
}

/// A total order respecting specification equality, together with an
/// executable three-way comparison agreeing with it. Ordered containers take
/// their key type through this trait.
pub trait TotalOrder: Sized {
    /// The order relation itself: whether `self` comes before or equals
    /// `other`.
    spec fn le(self, other: Self) -> bool;

    /// Every key compares less-or-equal to itself.
    proof fn reflexive(x: Self)
        ensures
            Self::le(x, x),
    ;

    /// The relation is transitive.
    proof fn transitive(x: Self, y: Self, z: Self)
        requires
            Self::le(x, y),
            Self::le(y, z),
        ensures
            Self::le(x, z),
    ;

    /// Two keys below each other are equal.
    proof fn antisymmetric(x: Self, y: Self)
        requires
            Self::le(x, y),
            Self::le(y, x),
        ensures
            x == y,
    ;

    /// Any two keys are comparable.
    proof fn total(x: Self, y: Self)
        ensures
            Self::le(x, y) || Self::le(y, x),
    ;

    /// Compares two keys, with the outcome pinned to the order relation.
    fn compare(&self, other: &Self) -> (c: KeyOrdering)
        ensures
            c == KeyOrdering::Less ==> self.le(*other) && *self != *other,
            c == KeyOrdering::Equal ==> *self == *other,
            c == KeyOrdering::Greater ==> other.le(*self) && *self != *other,
    ;
}

/// Whether `a` comes strictly before `b`.
pub open spec fn strictly_less<K: TotalOrder>(a: K, b: K) -> bool {
    a.le(b) && a != b
}

/// Strict order is transitive.
pub proof fn lemma_strictly_less_trans<K: TotalOrder>(a: K, b: K, c: K)
    requires
        strictly_less(a, b),
        strictly_less(b, c),
    ensures
        strictly_less(a, c),
{
    K::transitive(a, b, c);
    if a == c {
        K::antisymmetric(b, c);
    }
}

/// Strict order is asymmetric: two keys cannot each come before the other.
pub proof fn lemma_strictly_less_asym<K: TotalOrder>(a: K, b: K)
    requires
        strictly_less(a, b),
    ensures
        !strictly_less(b, a),
{
    if strictly_less(b, a) {
        K::antisymmetric(a, b);
    }
}

/// A key not below another, and distinct from it, is strictly above it.
pub proof fn lemma_not_less<K: TotalOrder>(a: K, b: K)
    requires
        !strictly_less(a, b),
        a != b,
    ensures
        strictly_less(b, a),
{
    K::total(a, b);
}

impl TotalOrder for i32 {
    open spec fn le(self, other: Self) -> bool {
        self <= other
    }

    proof fn reflexive(x: Self) {
    }

    proof fn transitive(x: Self, y: Self, z: Self) {
    }

    proof fn antisymmetric(x: Self, y: Self) {
    }

    proof fn total(x: Self, y: Self) {
    }

    fn compare(&self, other: &Self) -> (c: KeyOrdering) {
        if *self < *other {
            KeyOrdering::Less
        } else if *self == *other {
            KeyOrdering::Equal
        } else {
            KeyOrdering::Greater
        }
    }
}

impl TotalOrder for i64 {
    open spec fn le(self, other: Self) -> bool {
        self <= other
    }

    proof fn reflexive(x: Self) {
    }

    proof fn transitive(x: Self, y: Self, z: Self) {
    }

    proof fn antisymmetric(x: Self, y: Self) {
    }

    proof fn total(x: Self, y: Self) {
    }

    fn compare(&self, other: &Self) -> (c: KeyOrdering) {
        if *self < *other {
            KeyOrdering::Less
        } else if *self == *other {
            KeyOrdering::Equal
        } else {
            KeyOrdering::Greater
        }
    }
}

impl TotalOrder for u32 {
    open spec fn le(self, other: Self) -> bool {
        self <= other
    }

    proof fn reflexive(x: Self) {
    }

    proof fn transitive(x: Self, y: Self, z: Self) {
    }

    proof fn antisymmetric(x: Self, y: Self) {
    }

    proof fn total(x: Self, y: Self) {
    }

    fn compare(&self, other: &Self) -> (c: KeyOrdering) {
        if *self < *other {
            KeyOrdering::Less
        } else if *self == *other {
            KeyOrdering::Equal
        } else {
            KeyOrdering::Greater
        }
    }
}

impl TotalOrder for u64 {
    open spec fn le(self, other: Self) -> bool {
        self <= other
    }

    proof fn reflexive(x: Self) {
    }

    proof fn transitive(x: Self, y: Self, z: Self) {
    }

    proof fn antisymmetric(x: Self, y: Self) {
    }

    proof fn total(x: Self, y: Self) {
    }

    fn compare(&self, other: &Self) -> (c: KeyOrdering) {
        if *self < *other {
            KeyOrdering::Less
        } else if *self == *other {
            KeyOrdering::Equal
        } else {
            KeyOrdering::Greater
        }
    }
}

impl TotalOrder for usize {
    open spec fn le(self, other: Self) -> bool {
        self <= other
    }

    proof fn reflexive(x: Self) {
    }

    proof fn transitive(x: Self, y: Self, z: Self) {
    }

    proof fn antisymmetric(x: Self, y: Self) {
    }

    proof fn total(x: Self, y: Self) {
    }

    fn compare(&self, other: &Self) -> (c: KeyOrdering) {
        if *self < *other {
            KeyOrdering::Less
        } else if *self == *other {
            KeyOrdering::Equal
        } else {
            KeyOrdering::Greater
        }
    }
}

} // verus!
