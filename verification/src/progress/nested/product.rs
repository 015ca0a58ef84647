//! Pairs of timestamps, as they occur in nested scopes.

use crate::order::PartialOrder;
use crate::progress::sequences::{climb, lemma_climb, lemma_climbs};
use crate::progress::timestamp::{
    PathAlgebra, PathSummary, Timestamp, acting, advancing, before, monotone, not_after, stepwise,
};
use std::cmp::Ordering;
use vstd::prelude::*;
use vstd::std_specs::cmp::{PartialOrdIs, PartialOrdSpec, PartialOrdSpecImpl};

verus! {

/// A timestamp of an outer scope and one of an inner scope, or the summaries of what a path does
/// to the two.
///
/// Products are partially ordered by both parts at once, and sorted by the outer part first.
#[derive(Debug, PartialEq, Eq, Ord)]
pub struct Product<A, B> {
    /// The part of the outer scope.
    pub outer: A,
    /// The part of the inner scope.
    pub inner: B,
}

impl<A, B> Product<A, B> {
    /// Creates a new product from outer and inner parts.
    pub fn new(outer: A, inner: B) -> (product: Self)
        ensures
            product.outer == outer,
            product.inner == inner,
    {
        Product { outer, inner }
    }
}

impl<A: PathAlgebra, B: PathAlgebra> Clone for Product<A, B> {
    fn clone(&self) -> (copy: Self)
        ensures
            copy == *self,
    {
        let outer = self.outer.clone();
        let inner = self.inner.clone();
        proof {
            A::clone_is_same(self.outer, outer);
            B::clone_is_same(self.inner, inner);
        }
        Product { outer, inner }
    }
}

impl<A: PathAlgebra, B: PathAlgebra> Default for Product<A, B> {
    fn default() -> (product: Self)
        ensures
            product == (Product { outer: A::identity(), inner: B::identity() }),
    {
        let outer: A = Default::default();
        let inner: B = Default::default();
        proof {
            A::default_is_identity(outer);
            B::default_is_identity(inner);
        }
        Product { outer, inner }
    }
}

impl<A: PartialOrd, B: PartialOrd> PartialOrd for Product<A, B> {
    fn partial_cmp(&self, other: &Self) -> (result: Option<Ordering>) {
        match self.outer.partial_cmp(&other.outer) {
            Some(Ordering::Equal) => self.inner.partial_cmp(&other.inner),
            result => result,
        }
    }
}

impl<A: PartialOrd, B: PartialOrd> PartialOrdSpecImpl for Product<A, B> {
    open spec fn obeys_partial_cmp_spec() -> bool {
        A::obeys_partial_cmp_spec() && B::obeys_partial_cmp_spec()
    }

    open spec fn partial_cmp_spec(&self, other: &Self) -> Option<Ordering> {
        match self.outer.partial_cmp_spec(&other.outer) {
            Some(Ordering::Equal) => self.inner.partial_cmp_spec(&other.inner),
            result => result,
        }
    }
}

impl<A: PartialOrder, B: PartialOrder> PartialOrder for Product<A, B> {
    open spec fn leq(self, other: Self) -> bool {
        self.outer.leq(other.outer) && self.inner.leq(other.inner)
    }

    proof fn leq_reflexive(a: Self) {
        A::leq_reflexive(a.outer);
        B::leq_reflexive(a.inner);
    }

    proof fn leq_transitive(a: Self, b: Self, c: Self) {
        A::leq_transitive(a.outer, b.outer, c.outer);
        B::leq_transitive(a.inner, b.inner, c.inner);
    }

    proof fn leq_antisymmetric(a: Self, b: Self) {
        A::leq_antisymmetric(a.outer, b.outer);
        B::leq_antisymmetric(a.inner, b.inner);
    }

    fn less_equal(&self, other: &Self) -> bool {
        self.outer.less_equal(&other.outer) && self.inner.less_equal(&other.inner)
    }
}

impl<A: PathAlgebra, B: PathAlgebra> PathAlgebra for Product<A, B> {
    open spec fn identity() -> Self {
        Product { outer: A::identity(), inner: B::identity() }
    }

    open spec fn compose(self, next: Self) -> Option<Self> {
        match (self.outer.compose(next.outer), self.inner.compose(next.inner)) {
            (Some(outer), Some(inner)) => Some(Product { outer, inner }),
            _ => None,
        }
    }

    proof fn default_is_identity(value: Self) {
    }

    proof fn clone_is_same(value: Self, copy: Self) {
    }

    proof fn well_quasi_ordered(values: spec_fn(nat) -> Self) -> (pair: (nat, nat)) {
        let outer = |n: nat| values(n).outer;
        let start = lemma_climbs(outer);
        let (i, j) = B::well_quasi_ordered(|n: nat| values(climb(outer, start, n)).inner);
        lemma_climb(outer, start, i, j);
        (climb(outer, start, i), climb(outer, start, j))
    }
}

impl<TOuter, TInner, A: PathSummary<TOuter>, B: PathSummary<TInner>> PathSummary<
    Product<TOuter, TInner>,
> for Product<A, B> {
    open spec fn apply(self, time: Product<TOuter, TInner>) -> Option<Product<TOuter, TInner>> {
        match (self.outer.apply(time.outer), self.inner.apply(time.inner)) {
            (Some(outer), Some(inner)) => Some(Product { outer, inner }),
            _ => None,
        }
    }

    fn results_in(&self, src: &Product<TOuter, TInner>) -> Option<Product<TOuter, TInner>> {
        match (self.outer.results_in(&src.outer), self.inner.results_in(&src.inner)) {
            (Some(outer), Some(inner)) => Some(Product { outer, inner }),
            _ => None,
        }
    }

    fn followed_by(&self, other: &Self) -> Option<Self> {
        match (self.outer.followed_by(&other.outer), self.inner.followed_by(&other.inner)) {
            (Some(outer), Some(inner)) => Some(Product { outer, inner }),
            _ => None,
        }
    }
}

impl<A: Timestamp, B: Timestamp> Timestamp for Product<A, B> {
    type Summary = Product<A::Summary, B::Summary>;

    proof fn totally_ordered() {
        A::totally_ordered();
        B::totally_ordered();
        assert forall|a: Self, b: Self| #[trigger] before(a, b) <==> before(a.outer, b.outer) || (
        a.outer == b.outer && before(a.inner, b.inner)) by {
            assert(not_after(a.outer, b.outer) <==> before(a.outer, b.outer) || a.outer == b.outer);
        }
        assert forall|a: Self, b: Self| #[trigger] not_after(a, b) <==> before(a, b) || a == b by {
            assert(not_after(a.outer, b.outer) <==> before(a.outer, b.outer) || a.outer == b.outer);
            assert(not_after(a.inner, b.inner) <==> before(a.inner, b.inner) || a.inner == b.inner);
        }
    }
}

/// A product is what its parts are: both parts are compared, composed and moved along at once, and
/// there is a result only where both parts have one. Products are sorted by the outer part, and by
/// the inner one where the outer parts are the same.
pub proof fn law_product_by_parts<A: Timestamp, B: Timestamp>(
    x: Product<A::Summary, B::Summary>,
    y: Product<A::Summary, B::Summary>,
    z: Product<A::Summary, B::Summary>,
    early: Product<A, B>,
    late: Product<A, B>,
)
    ensures
        x.leq(y) <==> x.outer.leq(y.outer) && x.inner.leq(y.inner),
        early.leq(late) <==> early.outer.leq(late.outer) && early.inner.leq(late.inner),
        x.compose(y) == Some(z) <==> x.outer.compose(y.outer) == Some(z.outer) && x.inner.compose(
            y.inner,
        ) == Some(z.inner),
        x.apply(early) == Some(late) <==> x.outer.apply(early.outer) == Some(late.outer)
            && x.inner.apply(early.inner) == Some(late.inner),
        x == Product::<A::Summary, B::Summary>::identity() <==> x.outer == A::Summary::identity()
            && x.inner == B::Summary::identity(),
        before(early, late) <==> before(early.outer, late.outer) || (early.outer == late.outer
            && before(early.inner, late.inner)),
{
    A::totally_ordered();
    B::totally_ordered();
    assert(not_after(early.outer, late.outer) <==> before(early.outer, late.outer) || early.outer
        == late.outer);
}

/// The same in other words: to take one path after the other is to take their composition, where
/// it is so for both parts.
pub proof fn law_product_acts<A: Timestamp, B: Timestamp>()
    ensures
        acting::<A>() && acting::<B>() ==> acting::<Product<A, B>>(),
        stepwise::<A>() && stepwise::<B>() ==> stepwise::<Product<A, B>>(),
{
    assert forall|
        x: Product<A::Summary, B::Summary>,
        y: Product<A::Summary, B::Summary>,
        time: Product<A, B>,
    |
        #![trigger x.compose(y), x.apply(time)]
        acting::<A>() && acting::<B>() && x.apply(time) is Some && y.apply(
            x.apply(time)->0,
        ) is Some implies x.compose(y) is Some && x.compose(y)->0.apply(time) == y.apply(
        x.apply(time)->0,
    ) by {
        assert(x.outer.compose(y.outer) is Some);
        assert(x.inner.compose(y.inner) is Some);
    }
    assert forall|
        x: Product<A::Summary, B::Summary>,
        y: Product<A::Summary, B::Summary>,
        time: Product<A, B>,
    |
        #![trigger x.compose(y), x.apply(time)]
        stepwise::<A>() && stepwise::<B>() && x.compose(y) is Some && x.compose(y)->0.apply(
            time,
        ) is Some implies x.apply(time) is Some && y.apply(x.apply(time)->0) == x.compose(
        y,
    )->0.apply(time) by {
        assert(x.outer.apply(time.outer) is Some);
        assert(x.inner.apply(time.inner) is Some);
    }
}

/// Products are monotone where both parts are.
pub proof fn law_product_monotone<A: Timestamp, B: Timestamp>()
    requires
        monotone::<A::Summary>(),
        monotone::<B::Summary>(),
        advancing::<A>(),
        advancing::<B>(),
    ensures
        monotone::<Product<A::Summary, B::Summary>>(),
        advancing::<Product<A, B>>(),
{
}

} // verus!
