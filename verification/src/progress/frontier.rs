//! Sets of mutually incomparable elements.

use crate::order::PartialOrder;
use vstd::prelude::*;

verus! {

/// Some element of `elements` is at most `x`.
pub open spec fn dominated<S: PartialOrder>(elements: Seq<S>, x: S) -> bool {
    exists|i: int| 0 <= i < elements.len() && (#[trigger] elements[i]).leq(x)
}

/// No element of `elements` is at most another one.
pub open spec fn incomparable<S: PartialOrder>(elements: Seq<S>) -> bool {
    forall|i: int, j: int|
        0 <= i < elements.len() && 0 <= j < elements.len() && i != j
            ==> !(#[trigger] elements[i]).leq(#[trigger] elements[j])
}

/// The elements that an offered `x` leaves: those that it is not at most, and last `x` itself.
/// An `x` that is dominated already changes nothing.
pub open spec fn offered<S: PartialOrder>(elements: Seq<S>, x: S) -> Seq<S> {
    if dominated(elements, x) {
        elements
    } else {
        elements.filter(|y: S| !x.leq(y)).push(x)
    }
}

/// A set of mutually incomparable elements.
///
/// Its view is the sequence of its elements, in the order in which they were inserted.
#[derive(Debug)]
pub struct Antichain<S> {
    elements: Vec<S>,
}

impl<S> View for Antichain<S> {
    type V = Seq<S>;

    closed spec fn view(&self) -> Seq<S> {
        self.elements@
    }
}

impl<S: Clone> Clone for Antichain<S> {
    fn clone(&self) -> (copy: Self)
        ensures
            copy@.len() == self@.len(),
            forall|i: int| 0 <= i < self@.len() ==> cloned(#[trigger] self@[i], copy@[i]),
    {
        Antichain { elements: self.elements.clone() }
    }
}

impl<S: PartialOrder> Antichain<S> {
    /// Creates a new empty `Antichain`.
    pub fn new() -> (antichain: Self)
        ensures
            antichain@ == Seq::<S>::empty(),
    {
        Antichain { elements: Vec::new() }
    }

    /// Creates a new singleton `Antichain`.
    pub fn from_elem(element: S) -> (antichain: Self)
        ensures
            antichain@ == seq![element],
    {
        let mut elements = Vec::new();
        elements.push(element);
        Antichain { elements }
    }

    /// Inserts an element that is not greater than or equal to some present element, in place of
    /// the present elements that are greater than it.
    ///
    /// Returns true if the element was inserted.
    pub fn insert(&mut self, element: S) -> (inserted: bool)
        ensures
            inserted == !dominated(old(self)@, element),
            final(self)@ == offered(old(self)@, element),
            incomparable(old(self)@) ==> incomparable(final(self)@),
    {
        let ghost before = self@;
        proof {
            if incomparable(before) {
                lemma_offered_incomparable(before, element);
            }
        }
        if self.less_equal(&element) {
            return false;
        }
        let ghost keep = |y: S| !element.leq(y);
        let mut i: usize = 0;
        let ghost mut seen: int = 0;
        assert(before.skip(0) =~= before);
        while i < self.elements.len()
            invariant
                0 <= seen <= before.len(),
                keep == (|y: S| !element.leq(y)),
                i == before.take(seen).filter(keep).len(),
                self.elements@ == before.take(seen).filter(keep) + before.skip(seen),
            decreases before.len() - seen,
        {
            proof {
                assert(self.elements@[i as int] == before[seen]);
                assert(before.take(seen + 1).drop_last() =~= before.take(seen));
                reveal(Seq::filter);
            }
            let ghost kept = before.take(seen).filter(keep);
            if element.less_equal(&self.elements[i]) {
                self.elements.remove(i);
                assert(self.elements@ =~= kept + before.skip(seen + 1));
            } else {
                i = i + 1;
                assert(self.elements@ =~= kept.push(before[seen]) + before.skip(seen + 1));
            }
            proof {
                seen = seen + 1;
            }
        }
        proof {
            assert(before.take(seen) =~= before);
            assert(before.skip(seen) =~= Seq::<S>::empty());
        }
        self.elements.push(element);
        true
    }

    /// Returns true iff some element of the antichain is less than or equal to `time`.
    pub fn less_equal(&self, time: &S) -> (result: bool)
        ensures
            result == dominated(self@, *time),
    {
        let mut i: usize = 0;
        while i < self.elements.len()
            invariant
                i <= self.elements@.len(),
                forall|j: int| 0 <= j < i ==> !(#[trigger] self.elements@[j]).leq(*time),
            decreases self.elements@.len() - i,
        {
            if self.elements[i].less_equal(time) {
                return true;
            }
            i = i + 1;
        }
        false
    }

    /// The elements of the antichain.
    pub fn elements(&self) -> (elements: &[S])
        ensures
            elements@ == self@,
    {
        self.elements.as_slice()
    }
}

/// What is dominated stays so when an element is offered, and the offered element is dominated.
pub proof fn lemma_offered_dominates<S: PartialOrder>(elements: Seq<S>, x: S, y: S)
    requires
        dominated(elements, y) || x.leq(y),
    ensures
        dominated(offered(elements, x), y),
{
    let after = offered(elements, x);
    let keep = |z: S| !x.leq(z);
    if dominated(elements, y) {
        let i = choose|i: int| 0 <= i < elements.len() && (#[trigger] elements[i]).leq(y);
        if !dominated(elements, x) {
            if keep(elements[i]) {
                elements.lemma_filter_contains(keep, i);
                let j = choose|j: int|
                    0 <= j < elements.filter(keep).len() && elements.filter(keep)[j] == elements[i];
                assert(after[j] == elements[i]);
            } else {
                S::leq_transitive(x, elements[i], y);
                assert(after[after.len() - 1] == x);
            }
        }
    } else if dominated(elements, x) {
        let i = choose|i: int| 0 <= i < elements.len() && (#[trigger] elements[i]).leq(x);
        S::leq_transitive(elements[i], x, y);
    } else {
        assert(after[after.len() - 1] == x);
    }
}

/// An offered element that is taken in is an element; every other element was there before.
pub proof fn lemma_offered_elements<S: PartialOrder>(elements: Seq<S>, x: S, y: S)
    ensures
        offered(elements, x).contains(y) ==> y == x || elements.contains(y),
        !dominated(elements, x) ==> offered(elements, x).contains(x),
{
    let after = offered(elements, x);
    let keep = |z: S| !x.leq(z);
    if !dominated(elements, x) {
        assert(after[after.len() - 1] == x);
        if after.contains(y) && y != x {
            let j = choose|j: int| 0 <= j < after.len() && after[j] == y;
            assert(elements.filter(keep)[j] == y);
            elements.lemma_filter_contains_rev(keep, y);
        }
    }
}

/// An antichain remains one when an element is offered to it.
pub proof fn lemma_offered_incomparable<S: PartialOrder>(elements: Seq<S>, x: S)
    requires
        incomparable(elements),
    ensures
        incomparable(offered(elements, x)),
{
    if !dominated(elements, x) {
        let keep = |z: S| !x.leq(z);
        lemma_filter_incomparable(elements, keep);
        let kept = elements.filter(keep);
        let after = offered(elements, x);
        assert forall|i: int, j: int|
            0 <= i < after.len() && 0 <= j < after.len() && i != j implies !(
        #[trigger] after[i]).leq(#[trigger] after[j]) by {
            if i < kept.len() && j < kept.len() {
                assert(after[i] == kept[i] && after[j] == kept[j]);
            } else if i == kept.len() {
                elements.lemma_filter_pred(keep, j);
            } else {
                assert(kept.contains(kept[i]));
                elements.lemma_filter_contains_rev(keep, kept[i]);
            }
        }
    }
}

/// An antichain holds the least of what was inserted: an element is refused where a present one is
/// at most it. Otherwise it comes last, in place of those that it is at most; the others stay.
pub proof fn law_insert_keeps_least<S: PartialOrder>(elements: Seq<S>, x: S, y: S)
    ensures
        dominated(elements, x) <==> exists|z: S| #[trigger] elements.contains(z) && z.leq(x),
        (exists|z: S| #[trigger] elements.contains(z) && z.leq(x)) ==> offered(elements, x)
            == elements,
        !(exists|z: S| #[trigger] elements.contains(z) && z.leq(x)) ==> {
            &&& offered(elements, x).len() > 0
            &&& offered(elements, x).last() == x
            &&& offered(elements, x).contains(y) <==> y == x || (elements.contains(y) && !x.leq(y))
        },
{
    if dominated(elements, x) {
        let i = choose|i: int| 0 <= i < elements.len() && (#[trigger] elements[i]).leq(x);
        assert(elements.contains(elements[i]));
    }
    if exists|z: S| #[trigger] elements.contains(z) && z.leq(x) {
        let z = choose|z: S| #[trigger] elements.contains(z) && z.leq(x);
        let i = choose|i: int| 0 <= i < elements.len() && elements[i] == z;
        assert(elements[i].leq(x));
    } else {
        let keep = |z: S| !x.leq(z);
        let after = offered(elements, x);
        lemma_offered_elements(elements, x, y);
        if after.contains(y) && y != x {
            let j = choose|j: int| 0 <= j < after.len() && after[j] == y;
            elements.lemma_filter_pred(keep, j);
        }
        if elements.contains(y) && !x.leq(y) {
            let i = choose|i: int| 0 <= i < elements.len() && elements[i] == y;
            elements.lemma_filter_contains(keep, i);
            let j = choose|j: int|
                0 <= j < elements.filter(keep).len() && elements.filter(keep)[j] == y;
            assert(after[j] == y);
        }
    }
}

/// If no present element is at most another one, it is so after each insertion.
pub proof fn law_insert_keeps_incomparable<S: PartialOrder>(elements: Seq<S>, x: S, i: int, j: int)
    requires
        forall|k: int, l: int|
            0 <= k < elements.len() && 0 <= l < elements.len() && k != l
                ==> !(#[trigger] elements[k]).leq(#[trigger] elements[l]),
        0 <= i < offered(elements, x).len(),
        0 <= j < offered(elements, x).len(),
        i != j,
    ensures
        !offered(elements, x)[i].leq(offered(elements, x)[j]),
{
    lemma_offered_incomparable(elements, x);
}

/// Elements that stay in an antichain keep their order: what stands before another one stood
/// before it already, unless the latter is the one that was inserted.
pub proof fn law_insert_keeps_order<S: PartialOrder>(elements: Seq<S>, x: S, i: int, j: int) -> (
was: (int, int))
    requires
        0 <= i < j < offered(elements, x).len(),
        !(exists|z: S| #[trigger] elements.contains(z) && z.leq(x)) ==> j + 1 < offered(
            elements,
            x,
        ).len(),
    ensures
        0 <= was.0 < was.1 < elements.len(),
        elements[was.0] == offered(elements, x)[i],
        elements[was.1] == offered(elements, x)[j],
{
    law_insert_keeps_least(elements, x, x);
    if dominated(elements, x) {
        (i, j)
    } else {
        lemma_filter_order(elements, |z: S| !x.leq(z), i, j)
    }
}

proof fn lemma_filter_order<S>(elements: Seq<S>, keep: spec_fn(S) -> bool, i: int, j: int) -> (
was: (int, int))
    requires
        0 <= i < j < elements.filter(keep).len(),
    ensures
        0 <= was.0 < was.1 < elements.len(),
        elements[was.0] == elements.filter(keep)[i],
        elements[was.1] == elements.filter(keep)[j],
    decreases elements.len(),
{
    reveal(Seq::filter);
    let rest = elements.drop_last();
    let kept = rest.filter(keep);
    if j < kept.len() {
        lemma_filter_order(rest, keep, i, j)
    } else {
        assert(kept.contains(kept[i]));
        rest.lemma_filter_contains_rev(keep, kept[i]);
        let k = choose|k: int| 0 <= k < rest.len() && rest[k] == kept[i];
        (k, elements.len() - 1)
    }
}

proof fn lemma_filter_incomparable<S: PartialOrder>(elements: Seq<S>, keep: spec_fn(S) -> bool)
    requires
        incomparable(elements),
    ensures
        incomparable(elements.filter(keep)),
    decreases elements.len(),
{
    reveal(Seq::filter);
    if elements.len() > 0 {
        let rest = elements.drop_last();
        assert forall|i: int, j: int|
            0 <= i < rest.len() && 0 <= j < rest.len() && i != j implies !(#[trigger] rest[i]).leq(
        #[trigger] rest[j]) by {
            assert(rest[i] == elements[i] && rest[j] == elements[j]);
        }
        lemma_filter_incomparable(rest, keep);
        let kept = rest.filter(keep);
        let last = elements.last();
        assert forall|i: int| 0 <= i < kept.len() implies !(#[trigger] kept[i]).leq(last)
            && !last.leq(kept[i]) by {
            assert(kept.contains(kept[i]));
            rest.lemma_filter_contains_rev(keep, kept[i]);
            let k = choose|k: int| 0 <= k < rest.len() && rest[k] == kept[i];
            assert(elements[k] == kept[i]);
            assert(elements[elements.len() - 1] == last);
        }
    }
}

} // verus!
