//! Partial orders.

use vstd::prelude::*;

verus! {

/// A type that is partially ordered.
///
/// This is distinct from `PartialOrd`: a type may be partially ordered by this trait and at the
/// same time have an unrelated `Ord`, by which its values are sorted.
pub trait PartialOrder: Eq + Sized {
    /// The order itself.
    spec fn leq(self, other: Self) -> bool;

    /// Every value is at most itself.
    proof fn leq_reflexive(a: Self)
        ensures
            a.leq(a),
    ;

    /// The order is transitive.
    proof fn leq_transitive(a: Self, b: Self, c: Self)
        requires
            a.leq(b),
            b.leq(c),
        ensures
            a.leq(c),
    ;

    /// Two values each at most the other are the same value.
    proof fn leq_antisymmetric(a: Self, b: Self)
        requires
            a.leq(b),
            b.leq(a),
        ensures
            a == b,
    ;

    /// Returns true iff `self` is at most `other`.
    fn less_equal(&self, other: &Self) -> (result: bool)
        ensures
            result == self.leq(*other),
    ;
}

impl PartialOrder for usize {
    open spec fn leq(self, other: Self) -> bool {
        self <= other
    }

    proof fn leq_reflexive(a: Self) {
    }

    proof fn leq_transitive(a: Self, b: Self, c: Self) {
    }

    proof fn leq_antisymmetric(a: Self, b: Self) {
    }

    fn less_equal(&self, other: &Self) -> bool {
        *self <= *other
    }
}

} // verus!
