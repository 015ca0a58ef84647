//! Concatenations, and infinite sequences.

use crate::progress::timestamp::PathAlgebra;
use vstd::prelude::*;

verus! {

/// The sequences `parts(0)` to `parts(n - 1)`, one behind the other.
pub open spec fn flat<A>(n: nat, parts: spec_fn(nat) -> Seq<A>) -> Seq<A>
    decreases n,
{
    if n == 0 {
        Seq::empty()
    } else {
        flat((n - 1) as nat, parts) + parts((n - 1) as nat)
    }
}

/// What a part contains, the concatenation contains.
pub proof fn lemma_flat_has<A>(n: nat, parts: spec_fn(nat) -> Seq<A>, i: nat, a: A)
    requires
        i < n,
        parts(i).contains(a),
    ensures
        flat(n, parts).contains(a),
    decreases n,
{
    let front = flat((n - 1) as nat, parts);
    let last = parts((n - 1) as nat);
    if i == n - 1 {
        let k = choose|k: int| 0 <= k < last.len() && last[k] == a;
        assert((front + last)[front.len() + k] == a);
    } else {
        lemma_flat_has((n - 1) as nat, parts, i, a);
        let k = choose|k: int| 0 <= k < front.len() && front[k] == a;
        assert((front + last)[k] == a);
    }
}

/// What the concatenation contains, a part contains.
pub proof fn lemma_flat_from<A>(n: nat, parts: spec_fn(nat) -> Seq<A>, a: A) -> (i: nat)
    requires
        flat(n, parts).contains(a),
    ensures
        i < n,
        parts(i).contains(a),
    decreases n,
{
    let front = flat((n - 1) as nat, parts);
    let last = parts((n - 1) as nat);
    let k = choose|k: int| 0 <= k < flat(n, parts).len() && flat(n, parts)[k] == a;
    if k < front.len() {
        assert(front[k] == a);
        lemma_flat_from((n - 1) as nat, parts, a)
    } else {
        assert(last[k - front.len()] == a);
        (n - 1) as nat
    }
}

/// The position at which the `m`th of the part `i` stands.
pub proof fn lemma_flat_place<A>(n: nat, parts: spec_fn(nat) -> Seq<A>, i: nat, m: int) -> (
place: int)
    requires
        i < n,
        0 <= m < parts(i).len(),
    ensures
        place == flat(i, parts).len() + m,
        0 <= place < flat(n, parts).len(),
        flat(n, parts)[place] == parts(i)[m],
    decreases n,
{
    if i == n - 1 {
        flat(i, parts).len() + m
    } else {
        lemma_flat_place((n - 1) as nat, parts, i, m)
    }
}

/// What stands at a position is one of a part.
pub proof fn lemma_flat_at<A>(n: nat, parts: spec_fn(nat) -> Seq<A>, place: int) -> (at: (nat, int))
    requires
        0 <= place < flat(n, parts).len(),
    ensures
        at.0 < n,
        0 <= at.1 < parts(at.0).len(),
        place == flat(at.0, parts).len() + at.1,
        flat(n, parts)[place] == parts(at.0)[at.1],
    decreases n,
{
    let front = flat((n - 1) as nat, parts);
    if place < front.len() {
        lemma_flat_at((n - 1) as nat, parts, place)
    } else {
        ((n - 1) as nat, place - front.len())
    }
}

/// What is of an earlier part stands earlier.
pub proof fn lemma_flat_ascends<A>(
    n: nat,
    parts: spec_fn(nat) -> Seq<A>,
    i: nat,
    m: int,
    j: nat,
    l: int,
)
    requires
        i < j < n,
        0 <= m < parts(i).len(),
        0 <= l,
    ensures
        flat(i, parts).len() + m < flat(j, parts).len() + l,
    decreases j,
{
    if i < j - 1 {
        lemma_flat_ascends(n, parts, i, m, (j - 1) as nat, 0);
    }
}

/// From `n` on, `p` holds of some number.
pub open spec fn holds_from(p: spec_fn(nat) -> bool, n: nat) -> bool {
    exists|m: nat| m >= n && #[trigger] p(m)
}

/// However far one goes, `p` holds of a later number.
pub open spec fn recurs(p: spec_fn(nat) -> bool) -> bool {
    forall|n: nat| #[trigger] holds_from(p, n)
}

/// A number from `n` on of which `p` holds.
pub open spec fn next(p: spec_fn(nat) -> bool, n: nat) -> nat {
    choose|m: nat| m >= n && #[trigger] p(m)
}

/// An ascending sequence of numbers of which `p` holds.
pub open spec fn nth(p: spec_fn(nat) -> bool, i: nat) -> nat
    decreases i,
{
    if i == 0 {
        next(p, 0)
    } else {
        next(p, nth(p, (i - 1) as nat) + 1)
    }
}

pub proof fn lemma_nth(p: spec_fn(nat) -> bool, i: nat)
    requires
        recurs(p),
    ensures
        p(nth(p, i)),
        i > 0 ==> nth(p, (i - 1) as nat) < nth(p, i),
{
    let n: nat = if i == 0 {
        0
    } else {
        nth(p, (i - 1) as nat) + 1
    };
    assert(holds_from(p, n));
}

pub proof fn lemma_nth_ascends(p: spec_fn(nat) -> bool, i: nat, j: nat)
    requires
        recurs(p),
        i < j,
    ensures
        nth(p, i) < nth(p, j),
    decreases j,
{
    lemma_nth(p, j);
    if i < j - 1 {
        lemma_nth_ascends(p, i, (j - 1) as nat);
    }
}

/// In an infinite sequence of values with finitely many keys, some value is at most a later one
/// with the same key.
pub proof fn lemma_keyed_well_quasi_ordered<K, S: PathAlgebra>(
    keys: Set<K>,
    values: spec_fn(nat) -> (K, S),
) -> (pair: (nat, nat))
    requires
        keys.finite(),
        forall|i: nat| keys.contains((#[trigger] values(i)).0),
    ensures
        pair.0 < pair.1,
        values(pair.0).0 == values(pair.1).0,
        values(pair.0).1.leq(values(pair.1).1),
    decreases keys.len(),
{
    let key = values(0).0;
    let hit = |i: nat| values(i).0 == key;
    if recurs(hit) {
        let (i, j) = S::well_quasi_ordered(|n: nat| values(nth(hit, n)).1);
        lemma_nth(hit, i);
        lemma_nth(hit, j);
        lemma_nth_ascends(hit, i, j);
        (nth(hit, i), nth(hit, j))
    } else {
        let n = choose|n: nat| !#[trigger] holds_from(hit, n);
        let shifted = |i: nat| values(i + n);
        assert(keys.contains(key));
        assert forall|i: nat| keys.remove(key).contains((#[trigger] shifted(i)).0) by {
            assert(keys.contains(values(i + n).0));
            assert(!hit(i + n));
        }
        let (i, j) = lemma_keyed_well_quasi_ordered(keys.remove(key), shifted);
        (i + n, j + n)
    }
}

/// A later position has a value that is no lesser than that at `i`.
pub open spec fn goes_on<S: PathAlgebra>(values: spec_fn(nat) -> S, i: nat) -> bool {
    exists|j: nat| i < j && values(i).leq(#[trigger] values(j))
}

/// The sequence goes on from each position from `start` on.
pub open spec fn climbs_from<S: PathAlgebra>(values: spec_fn(nat) -> S, start: nat) -> bool {
    forall|i: nat| i >= start ==> #[trigger] goes_on(values, i)
}

/// The `k`th of the positions, from `start` on, each of which has a value that is no lesser than
/// that of the one before.
pub open spec fn climb<S: PathAlgebra>(values: spec_fn(nat) -> S, start: nat, k: nat) -> nat
    decreases k,
{
    if k == 0 {
        start
    } else {
        let at = climb(values, start, (k - 1) as nat);
        choose|j: nat| at < j && values(at).leq(#[trigger] values(j))
    }
}

/// An infinite sequence climbs from some position on.
pub proof fn lemma_climbs<S: PathAlgebra>(values: spec_fn(nat) -> S) -> (start: nat)
    ensures
        climbs_from(values, start),
{
    let stuck = |i: nat| !goes_on(values, i);
    if recurs(stuck) {
        let (i, j) = S::well_quasi_ordered(|n: nat| values(nth(stuck, n)));
        lemma_nth(stuck, i);
        lemma_nth_ascends(stuck, i, j);
        assert(goes_on(values, nth(stuck, i)));
        0
    } else {
        let start = choose|n: nat| !#[trigger] holds_from(stuck, n);
        assert forall|i: nat| i >= start implies #[trigger] goes_on(values, i) by {
            assert(!stuck(i));
        }
        start
    }
}

/// A climb ascends, in position and in value.
pub proof fn lemma_climb<S: PathAlgebra>(values: spec_fn(nat) -> S, start: nat, i: nat, j: nat)
    requires
        climbs_from(values, start),
        i <= j,
    ensures
        start <= climb(values, start, j),
        i < j ==> climb(values, start, i) < climb(values, start, j),
        values(climb(values, start, i)).leq(values(climb(values, start, j))),
    decreases j,
{
    if j == 0 {
        S::leq_reflexive(values(start));
    } else {
        let k = (j - 1) as nat;
        lemma_climb(values, start, k, k);
        let at = climb(values, start, k);
        assert(goes_on(values, at));
        if i < j {
            lemma_climb(values, start, i, k);
            S::leq_transitive(
                values(climb(values, start, i)),
                values(at),
                values(climb(values, start, j)),
            );
        } else {
            S::leq_reflexive(values(climb(values, start, j)));
        }
    }
}

} // verus!
