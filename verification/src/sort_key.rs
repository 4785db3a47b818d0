//! Keys by which values are ordered: a strict weak order with an executable test.

use vstd::prelude::*;

verus! {

/// A value that can be ordered against another of its type.
///
/// `precedes` is a strict weak order on the valid values: it is irreflexive and
/// transitive, and so is "neither precedes the other", which makes ties an
/// equivalence.
pub trait SortKey: Sized {
    /// The values on which the order is defined.
    spec fn valid(&self) -> bool;

    /// `self` comes strictly before `other`.
    spec fn precedes(&self, other: &Self) -> bool;

    /// Tests whether `self` comes strictly before `other`.
    fn is_before(&self, other: &Self) -> (b: bool)
        requires
            self.valid(),
            other.valid(),
        ensures
            b == self.precedes(other),
    ;

    /// `precedes` is a strict weak order.
    proof fn lemma_strict_weak_order(a: &Self, b: &Self, c: &Self)
        requires
            a.valid(),
            b.valid(),
            c.valid(),
        ensures
            !a.precedes(a),
            a.precedes(b) && b.precedes(c) ==> a.precedes(c),
            !a.precedes(b) && !b.precedes(c) ==> !a.precedes(c),
    ;
}

impl SortKey for u64 {
    open spec fn valid(&self) -> bool {
        true
    }

    open spec fn precedes(&self, other: &Self) -> bool {
        *self < *other
    }

    fn is_before(&self, other: &Self) -> (b: bool) {
        *self < *other
    }

    proof fn lemma_strict_weak_order(a: &Self, b: &Self, c: &Self) {
    }
}

/// Pairs are ordered by their first component, then by their second.
impl SortKey for (u64, u64) {
    open spec fn valid(&self) -> bool {
        true
    }

    open spec fn precedes(&self, other: &Self) -> bool {
        self.0 < other.0 || (self.0 == other.0 && self.1 < other.1)
    }

    fn is_before(&self, other: &Self) -> (b: bool) {
        self.0 < other.0 || (self.0 == other.0 && self.1 < other.1)
    }

    proof fn lemma_strict_weak_order(a: &Self, b: &Self, c: &Self) {
    }
}

} // verus!
