//! Timestamps, and what happens to them along the paths of a graph.

use crate::order::PartialOrder;
use vstd::prelude::*;
use vstd::std_specs::cmp::{PartialOrdIs, PartialOrdSpec};

verus! {

/// What a path does to a timestamp, as a value that composes with that of the next path.
///
/// The functions here are those that the contracts speak of; `PathSummary` holds the code.
pub trait PathAlgebra: PartialOrder + Clone + Default {
    /// The summary of a path that leaves each timestamp as it is.
    spec fn identity() -> Self;

    /// The summary of the path `self` with the path `next` behind it, if there is one.
    spec fn compose(self, next: Self) -> Option<Self>;

    /// `Default::default()` is the identity.
    proof fn default_is_identity(value: Self)
        requires
            call_ensures(<Self as Default>::default, (), value),
        ensures
            value == Self::identity(),
    ;

    /// A clone is the same value.
    proof fn clone_is_same(value: Self, copy: Self)
        requires
            cloned(value, copy),
        ensures
            copy == value,
    ;

    /// In an infinite sequence some value is at most a later one.
    ///
    /// So a set of summaries cannot go on for ever taking in one that no earlier one is at most.
    proof fn well_quasi_ordered(values: spec_fn(nat) -> Self) -> (pair: (nat, nat))
        ensures
            pair.0 < pair.1,
            values(pair.0).leq(values(pair.1)),
    ;
}

/// A summary of how a timestamp advances along a path in a timely dataflow graph.
pub trait PathSummary<T>: PathAlgebra {
    /// The timestamp that `time` becomes along the path, if it remains a timestamp.
    spec fn apply(self, time: T) -> Option<T>;

    /// Advances a timestamp according to the actions on the path.
    ///
    /// The path may advance the timestamp so far that it is no longer valid, for example if
    /// incrementing it would overflow. The result is then `None`.
    fn results_in(&self, src: &T) -> (result: Option<T>)
        ensures
            result == self.apply(*src),
    ;

    /// Composes this path summary with that of a path that follows.
    fn followed_by(&self, other: &Self) -> (result: Option<Self>)
        ensures
            result == self.compose(*other),
    ;
}

/// `a` comes before `b` where timestamps are sorted: `a < b`.
pub open spec fn before<T: Ord>(a: T, b: T) -> bool {
    a.is_lt(&b)
}

/// `a` is `b` or comes before it where timestamps are sorted: `a <= b`.
pub open spec fn not_after<T: Ord>(a: T, b: T) -> bool {
    a.is_le(&b)
}

/// A timestamp, as it is attached to the data in a timely dataflow graph.
///
/// Timestamps are partially ordered. Their `Ord` is a total order by which they are sorted.
pub trait Timestamp: PartialOrder + Ord {
    /// The actions that paths take on timestamps of this type.
    type Summary: PathSummary<Self>;

    /// `<` is a strict total order, and `<=` is that or equality.
    proof fn totally_ordered()
        ensures
            Self::obeys_partial_cmp_spec(),
            forall|a: Self, b: Self| !(#[trigger] before(a, b) && before(b, a)),
            forall|a: Self, b: Self| a == b || #[trigger] before(a, b) || before(b, a),
            forall|a: Self, b: Self, c: Self|
                #[trigger] before(a, b) && #[trigger] before(b, c) ==> before(a, c),
            forall|a: Self, b: Self| #[trigger] not_after(a, b) <==> before(a, b) || a == b,
    ;
}

/// A lesser summary remains so when a path goes behind it.
pub open spec fn left_monotone<S: PathAlgebra>() -> bool {
    forall|a: S, b: S, c: S|
        a.leq(b) && #[trigger] b.compose(c) is Some ==> #[trigger] a.compose(c) is Some
            && a.compose(c)->0.leq(b.compose(c)->0)
}

/// A lesser summary remains so when a path goes before it or behind it.
pub open spec fn monotone<S: PathAlgebra>() -> bool {
    &&& left_monotone::<S>()
    &&& forall|a: S, b: S, c: S|
        b.leq(c) && #[trigger] a.compose(c) is Some ==> #[trigger] a.compose(b) is Some
            && a.compose(b)->0.leq(a.compose(c)->0)
}

/// Along a path with a lesser summary, a timestamp becomes a lesser one.
pub open spec fn advancing<T: Timestamp>() -> bool {
    forall|x: T::Summary, y: T::Summary, time: T|
        x.leq(y) && #[trigger] y.apply(time) is Some ==> #[trigger] x.apply(time) is Some
            && x.apply(time)->0.leq(y.apply(time)->0)
}

/// Summaries act on timestamps one path after the other: where a timestamp passes the path `x`
/// and then the path `y`, the two compose, and the composition takes it to the same timestamp.
/// The identity leaves each timestamp as it is.
pub open spec fn acting<T: Timestamp>() -> bool {
    &&& forall|time: T| #[trigger] T::Summary::identity().apply(time) == Some(time)
    &&& forall|x: T::Summary, y: T::Summary, time: T|
        #![trigger x.compose(y), x.apply(time)]
        x.apply(time) is Some && y.apply(x.apply(time)->0) is Some ==> x.compose(y) is Some
            && x.compose(y)->0.apply(time) == y.apply(x.apply(time)->0)
}

/// A composition takes a timestamp nowhere but along both paths.
pub open spec fn stepwise<T: Timestamp>() -> bool {
    forall|x: T::Summary, y: T::Summary, time: T|
        #![trigger x.compose(y), x.apply(time)]
        x.compose(y) is Some && x.compose(y)->0.apply(time) is Some ==> x.apply(time) is Some
            && y.apply(x.apply(time)->0) == x.compose(y)->0.apply(time)
}

/// Returns true iff `a` comes before `b` where timestamps are sorted.
pub fn is_before<T: Timestamp>(a: &T, b: &T) -> (result: bool)
    ensures
        result == before(*a, *b),
{
    proof {
        T::totally_ordered();
    }
    a.lt(b)
}

impl PathAlgebra for usize {
    open spec fn identity() -> Self {
        0
    }

    open spec fn compose(self, next: Self) -> Option<Self> {
        if self + next <= usize::MAX {
            Some((self + next) as usize)
        } else {
            None
        }
    }

    proof fn default_is_identity(value: Self) {
    }

    proof fn clone_is_same(value: Self, copy: Self) {
    }

    proof fn well_quasi_ordered(values: spec_fn(nat) -> Self) -> (pair: (nat, nat)) {
        let i = lemma_no_infinite_descent(|n: nat| values(n) as nat, 0);
        (i, i + 1)
    }
}

impl PathSummary<usize> for usize {
    open spec fn apply(self, time: usize) -> Option<usize> {
        self.compose(time)
    }

    fn results_in(&self, src: &usize) -> (result: Option<usize>)
        ensures
            result is Some <==> *self + *src <= usize::MAX,
            result is Some ==> result->0 == *self + *src,
    {
        self.checked_add(*src)
    }

    fn followed_by(&self, other: &usize) -> (result: Option<usize>)
        ensures
            result is Some <==> *self + *other <= usize::MAX,
            result is Some ==> result->0 == *self + *other,
    {
        self.checked_add(*other)
    }
}

impl Timestamp for usize {
    type Summary = usize;

    proof fn totally_ordered() {
    }
}

/// Lesser numbers remain so when numbers are added to them.
pub proof fn law_usize_monotone()
    ensures
        monotone::<usize>(),
        advancing::<usize>(),
{
}

/// Summaries are monotone, and advance timestamps, if lesser ones remain lesser: with a path behind
/// them, with a path before them, and in what they make of a timestamp.
pub proof fn law_lesser_remain_lesser<T: Timestamp>()
    ensures
        (forall|a: T::Summary, b: T::Summary, c: T::Summary|
            a.leq(b) && #[trigger] b.compose(c) is Some ==> #[trigger] a.compose(c) is Some
                && a.compose(c)->0.leq(b.compose(c)->0)) ==> left_monotone::<T::Summary>(),
        left_monotone::<T::Summary>() && (forall|a: T::Summary, b: T::Summary, c: T::Summary|
            b.leq(c) && #[trigger] a.compose(c) is Some ==> #[trigger] a.compose(b) is Some
                && a.compose(b)->0.leq(a.compose(c)->0)) ==> monotone::<T::Summary>(),
        (forall|x: T::Summary, y: T::Summary, time: T|
            x.leq(y) && #[trigger] y.apply(time) is Some ==> #[trigger] x.apply(time) is Some
                && x.apply(time)->0.leq(y.apply(time)->0)) ==> advancing::<T>(),
{
}

/// For numbers, paths that advance a timestamp by `x` and by `y` advance it by `x + y`, one behind
/// the other, unless that is too large a number. Numbers are ordered and sorted as numbers are.
pub proof fn law_usize_adds(x: usize, y: usize)
    ensures
        x.compose(y) is Some <==> x + y <= usize::MAX,
        x.compose(y) is Some ==> x.compose(y)->0 == x + y,
        x.apply(y) is Some <==> x + y <= usize::MAX,
        x.apply(y) is Some ==> x.apply(y)->0 == x + y,
        <usize as PathAlgebra>::identity() == 0,
        x.leq(y) <==> x <= y,
        before(x, y) <==> x < y,
        not_after(x, y) <==> x <= y,
{
}

/// For numbers, to take one path after the other is to take their composition: if `x` takes `time`
/// to `mid` and `y` takes `mid` to `late`, the two compose, and the composition takes `time` to
/// `late`; and it takes `time` nowhere else.
pub proof fn law_usize_acts(x: usize, y: usize, z: usize, time: usize, mid: usize, late: usize)
    ensures
        acting::<usize>(),
        stepwise::<usize>(),
        <usize as PathAlgebra>::identity().apply(time) == Some(time),
        x.apply(time) == Some(mid) && y.apply(mid) == Some(late) ==> x.compose(y) is Some
            && x.compose(y)->0.apply(time) == Some(late),
        x.compose(y) is Some && x.compose(y)->0.apply(time) == Some(late) ==> x.apply(time) is Some
            && y.apply(x.apply(time)->0) == Some(late),
        x.compose(<usize as PathAlgebra>::identity()) == Some(x),
        <usize as PathAlgebra>::identity().compose(x) == Some(x),
        x.compose(y) == y.compose(x),
        x.compose(y) is Some && y.compose(z) is Some ==> x.compose(y)->0.compose(z) == x.compose(
            y.compose(z)->0,
        ),
{
}

/// A sequence of natural numbers does not descend for ever.
pub proof fn lemma_no_infinite_descent(values: spec_fn(nat) -> nat, start: nat) -> (i: nat)
    ensures
        values(i) <= values(i + 1),
    decreases values(start),
{
    if values(start) <= values(start + 1) {
        start
    } else {
        lemma_no_infinite_descent(values, start + 1)
    }
}

} // verus!
