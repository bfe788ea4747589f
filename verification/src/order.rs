//! A total order on element types, decided at run time by a three-way
//! comparison. The ordered containers (search trees, the min-heap, the
//! min-stack) are generic over this trait.

use vstd::prelude::*;

verus! {

/// Result of a three-way comparison.
pub enum Rank {
    Less,
    Equal,
    Greater,
}

/// A total order on `Self`, together with an executable comparison that
/// decides it.
///
/// `le_spec` must be reflexive, transitive, antisymmetric (with respect to
/// spec equality) and total; the four proof obligations pin that down for
/// every implementation. `compare` decides the order at run time.
pub trait TotalOrder: Sized {
    spec fn le_spec(self, other: Self) -> bool;

    proof fn lemma_reflexive(a: Self)
        ensures
            a.le_spec(a),
    ;

    proof fn lemma_transitive(a: Self, b: Self, c: Self)
        requires
            a.le_spec(b),
            b.le_spec(c),
        ensures
            a.le_spec(c),
    ;

    proof fn lemma_antisymmetric(a: Self, b: Self)
        requires
            a.le_spec(b),
            b.le_spec(a),
        ensures
            a == b,
    ;

    proof fn lemma_total(a: Self, b: Self)
        ensures
            a.le_spec(b) || b.le_spec(a),
    ;

    fn compare(&self, other: &Self) -> (r: Rank)
        ensures
            (match r {
                Rank::Less => self.le_spec(*other) && *self != *other,
                Rank::Equal => *self == *other,
                Rank::Greater => other.le_spec(*self) && *self != *other,
            }),
    ;
}

/// `a < b` under the total order.
pub open spec fn lt_spec<T: TotalOrder>(a: T, b: T) -> bool {
    a.le_spec(b) && a != b
}

impl TotalOrder for i32 {
    open spec fn le_spec(self, other: Self) -> bool {
        self <= other
    }

    proof fn lemma_reflexive(a: Self) {
    }

    proof fn lemma_transitive(a: Self, b: Self, c: Self) {
    }

    proof fn lemma_antisymmetric(a: Self, b: Self) {
    }

    proof fn lemma_total(a: Self, b: Self) {
    }

    fn compare(&self, other: &Self) -> (r: Rank) {
        if *self < *other {
            Rank::Less
        } else if *self > *other {
            Rank::Greater
        } else {
            Rank::Equal
        }
    }
}

impl TotalOrder for i64 {
    open spec fn le_spec(self, other: Self) -> bool {
        self <= other
    }

    proof fn lemma_reflexive(a: Self) {
    }

    proof fn lemma_transitive(a: Self, b: Self, c: Self) {
    }

    proof fn lemma_antisymmetric(a: Self, b: Self) {
    }

    proof fn lemma_total(a: Self, b: Self) {
    }

    fn compare(&self, other: &Self) -> (r: Rank) {
        if *self < *other {
            Rank::Less
        } else if *self > *other {
            Rank::Greater
        } else {
            Rank::Equal
        }
    }
}

impl TotalOrder for u8 {
    open spec fn le_spec(self, other: Self) -> bool {
        self <= other
    }

    proof fn lemma_reflexive(a: Self) {
    }

    proof fn lemma_transitive(a: Self, b: Self, c: Self) {
    }

    proof fn lemma_antisymmetric(a: Self, b: Self) {
    }

    proof fn lemma_total(a: Self, b: Self) {
    }

    fn compare(&self, other: &Self) -> (r: Rank) {
        if *self < *other {
            Rank::Less
        } else if *self > *other {
            Rank::Greater
        } else {
            Rank::Equal
        }
    }
}

impl TotalOrder for u64 {
    open spec fn le_spec(self, other: Self) -> bool {
        self <= other
    }

    proof fn lemma_reflexive(a: Self) {
    }

    proof fn lemma_transitive(a: Self, b: Self, c: Self) {
    }

    proof fn lemma_antisymmetric(a: Self, b: Self) {
    }

    proof fn lemma_total(a: Self, b: Self) {
    }

    fn compare(&self, other: &Self) -> (r: Rank) {
        if *self < *other {
            Rank::Less
        } else if *self > *other {
            Rank::Greater
        } else {
            Rank::Equal
        }
    }
}

impl TotalOrder for usize {
    open spec fn le_spec(self, other: Self) -> bool {
        self <= other
    }

    proof fn lemma_reflexive(a: Self) {
    }

    proof fn lemma_transitive(a: Self, b: Self, c: Self) {
    }

    proof fn lemma_antisymmetric(a: Self, b: Self) {
    }

    proof fn lemma_total(a: Self, b: Self) {
    }

    fn compare(&self, other: &Self) -> (r: Rank) {
        if *self < *other {
            Rank::Less
        } else if *self > *other {
            Rank::Greater
        } else {
            Rank::Equal
        }
    }
}

} // verus!
