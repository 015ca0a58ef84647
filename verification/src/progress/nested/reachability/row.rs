//! What is known of the paths from one port: for each target reached, the minimal summaries.

use crate::order::PartialOrder;
use crate::progress::frontier::{Antichain, incomparable, lemma_offered_incomparable, offered};
use crate::progress::nested::Target;
use vstd::prelude::*;

verus! {

/// The targets that paths from one port reach, each with a set of path summaries.
pub type Row<S> = Seq<(Target, Seq<S>)>;

/// The row that a list of targets and antichains stands for.
pub open spec fn row_view<S>(list: Seq<(Target, Antichain<S>)>) -> Row<S> {
    Seq::new(list.len(), |i: int| (list[i].0, list[i].1@))
}

/// The row lists `target`.
pub open spec fn lists<S>(row: Row<S>, target: Target) -> bool {
    exists|i: int| 0 <= i < row.len() && (#[trigger] row[i]).0 == target
}

/// `i` is the first position at which the row lists `target`.
pub open spec fn first_at<S>(row: Row<S>, target: Target, i: int) -> bool {
    &&& 0 <= i < row.len()
    &&& row[i].0 == target
    &&& forall|j: int| 0 <= j < i ==> (#[trigger] row[j]).0 != target
}

/// The first position at which the row lists `target`.
pub open spec fn position<S>(row: Row<S>, target: Target) -> int {
    choose|i: int| first_at(row, target, i)
}

/// The summaries that the row holds for `target`.
pub open spec fn summaries<S>(row: Row<S>, target: Target) -> Seq<S> {
    if lists(row, target) {
        row[position(row, target)].1
    } else {
        Seq::empty()
    }
}

/// The row after `summary` was offered to what it holds for `target`.
pub open spec fn row_offered<S: PartialOrder>(row: Row<S>, target: Target, summary: S) -> Row<S> {
    if lists(row, target) {
        let i = position(row, target);
        row.update(i, (target, offered(row[i].1, summary)))
    } else {
        row.push((target, seq![summary]))
    }
}

/// The row lists each target once, with a non-empty set of incomparable summaries.
pub open spec fn row_wf<S: PartialOrder>(row: Row<S>) -> bool {
    &&& forall|i: int, j: int|
        0 <= i < row.len() && 0 <= j < row.len() && i != j ==> (#[trigger] row[i]).0 != (
        #[trigger] row[j]).0
    &&& forall|i: int|
        0 <= i < row.len() ==> (#[trigger] row[i]).1.len() > 0 && incomparable(row[i].1)
}

/// A listed target has a first position.
pub proof fn lemma_position<S>(row: Row<S>, target: Target)
    requires
        lists(row, target),
    ensures
        first_at(row, target, position(row, target)),
{
    let i = choose|i: int| 0 <= i < row.len() && (#[trigger] row[i]).0 == target;
    lemma_first(row, target, i);
}

proof fn lemma_first<S>(row: Row<S>, target: Target, i: int)
    requires
        0 <= i < row.len(),
        row[i].0 == target,
    ensures
        exists|j: int| first_at(row, target, j),
    decreases i,
{
    if exists|j: int| 0 <= j < i && (#[trigger] row[j]).0 == target {
        let j = choose|j: int| 0 <= j < i && (#[trigger] row[j]).0 == target;
        lemma_first(row, target, j);
    } else {
        assert(first_at(row, target, i));
    }
}

/// There is only one first position.
pub proof fn lemma_position_is<S>(row: Row<S>, target: Target, i: int)
    requires
        first_at(row, target, i),
    ensures
        lists(row, target),
        position(row, target) == i,
{
    let p = position(row, target);
    assert(first_at(row, target, p));
    if p < i {
        assert(row[p].0 != target);
    } else if i < p {
        assert(row[i].0 != target);
    }
}

/// What a row holds once `summary` was offered for `target`.
pub proof fn lemma_row_offered<S: PartialOrder>(
    row: Row<S>,
    target: Target,
    summary: S,
    other: Target,
)
    ensures
        summaries(row_offered(row, target, summary), target) == offered(
            summaries(row, target),
            summary,
        ),
        other != target ==> summaries(row_offered(row, target, summary), other) == summaries(
            row,
            other,
        ),
{
    let after = row_offered(row, target, summary);
    if lists(row, target) {
        lemma_position(row, target);
        let p = position(row, target);
        assert(first_at(after, target, p));
        lemma_position_is(after, target, p);
    } else {
        assert(offered(Seq::<S>::empty(), summary) =~= seq![summary]) by {
            assert(Seq::<S>::empty().filter(|y: S| !summary.leq(y)) =~= Seq::<S>::empty()) by {
                reveal(Seq::filter);
            }
        }
        assert(first_at(after, target, row.len() as int));
        lemma_position_is(after, target, row.len() as int);
    }
    if other != target {
        if lists(row, other) {
            lemma_position(row, other);
            let p = position(row, other);
            assert(first_at(after, other, p));
            lemma_position_is(after, other, p);
        } else if lists(after, other) {
            let i = choose|i: int| 0 <= i < after.len() && (#[trigger] after[i]).0 == other;
            if i < row.len() {
                assert(row[i].0 == other);
            }
        }
    }
}

/// A well-formed row remains so.
pub proof fn lemma_row_offered_wf<S: PartialOrder>(row: Row<S>, target: Target, summary: S)
    requires
        row_wf(row),
    ensures
        row_wf(row_offered(row, target, summary)),
{
    let after = row_offered(row, target, summary);
    if lists(row, target) {
        lemma_position(row, target);
        let p = position(row, target);
        lemma_offered_incomparable(row[p].1, summary);
        assert forall|i: int, j: int|
            0 <= i < after.len() && 0 <= j < after.len() && i != j implies (#[trigger] after[i]).0
            != (#[trigger] after[j]).0 by {
            assert(row[i].0 != row[j].0);
        }
        assert forall|i: int| 0 <= i < after.len() implies (#[trigger] after[i]).1.len() > 0
            && incomparable(after[i].1) by {
            assert(row[i].1.len() > 0);
        }
    } else {
        assert forall|i: int, j: int|
            0 <= i < after.len() && 0 <= j < after.len() && i != j implies (#[trigger] after[i]).0
            != (#[trigger] after[j]).0 by {
            if i < row.len() && j < row.len() {
                assert(row[i].0 != row[j].0);
            } else if i < row.len() {
                assert(row[i].0 != target);
            } else {
                assert(row[j].0 != target);
            }
        }
        assert forall|i: int| 0 <= i < after.len() implies (#[trigger] after[i]).1.len() > 0
            && incomparable(after[i].1) by {
            if i < row.len() {
                assert(row[i].1.len() > 0);
            }
        }
    }
}

/// In a well-formed row, each entry is what the row holds for its target.
pub proof fn lemma_row_entry<S: PartialOrder>(row: Row<S>, i: int)
    requires
        row_wf(row),
        0 <= i < row.len(),
    ensures
        lists(row, row[i].0),
        summaries(row, row[i].0) == row[i].1,
{
    assert(first_at(row, row[i].0, i)) by {
        assert forall|j: int| 0 <= j < i implies (#[trigger] row[j]).0 != row[i].0 by {}
    }
    lemma_position_is(row, row[i].0, i);
}

} // verus!
