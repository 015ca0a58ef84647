//! A collection of updates to the counts of timestamps.

use crate::progress::timestamp::{Timestamp, before, is_before};
use vstd::prelude::*;

verus! {

/// The 64-bit signed integer that equals `x` modulo 2^64.
pub open spec fn wrap(x: int) -> int {
    let r = x % 0x1_0000_0000_0000_0000;
    if r < 0x8000_0000_0000_0000 {
        r
    } else {
        r - 0x1_0000_0000_0000_0000
    }
}

/// The count of `time`: the sum of its changes.
pub open spec fn count<T>(changes: Seq<(T, i64)>, time: T) -> int
    decreases changes.len(),
{
    if changes.len() == 0 {
        0
    } else {
        count(changes.drop_last(), time) + if changes.last().0 == time {
            changes.last().1 as int
        } else {
            0
        }
    }
}

/// The changes are sorted, with at most one for each timestamp, and none is zero.
pub open spec fn canonical<T: Timestamp>(changes: Seq<(T, i64)>) -> bool {
    &&& forall|i: int, j: int|
        0 <= i < j < changes.len() ==> before((#[trigger] changes[i]).0, (#[trigger] changes[j]).0)
    &&& forall|i: int| 0 <= i < changes.len() ==> (#[trigger] changes[i]).1 != 0
}

/// `to` holds the changes of `from` and another one, for `item` with `value`.
pub open spec fn changed<T: Timestamp>(
    from: Seq<(T, i64)>,
    to: Seq<(T, i64)>,
    item: T,
    value: i64,
) -> bool {
    &&& canonical(to)
    &&& forall|time: T| #[trigger]
        count(to, time) == if time == item {
            wrap(count(from, time) + value)
        } else {
            count(from, time)
        }
}

/// A collection of accumulated updates.
///
/// Its view is the list of the net changes, sorted by timestamp. Changes that cancel out are
/// dropped. Counts wrap around at the limits of `i64`.
#[derive(Debug)]
pub struct ChangeBatch<T> {
    updates: Vec<(T, i64)>,
}

impl<T> View for ChangeBatch<T> {
    type V = Seq<(T, i64)>;

    closed spec fn view(&self) -> Seq<(T, i64)> {
        self.updates@
    }
}

impl<T: Clone> Clone for ChangeBatch<T> {
    fn clone(&self) -> (copy: Self)
        ensures
            copy@.len() == self@.len(),
            forall|i: int|
                0 <= i < self@.len() ==> cloned((#[trigger] self@[i]).0, copy@[i].0) && copy@[i].1
                    == self@[i].1,
    {
        let mut updates: Vec<(T, i64)> = Vec::new();
        while updates.len() < self.updates.len()
            invariant
                updates@.len() <= self.updates@.len(),
                forall|i: int|
                    0 <= i < updates@.len() ==> cloned(
                        (#[trigger] self.updates@[i]).0,
                        updates@[i].0,
                    ) && updates@[i].1 == self.updates@[i].1,
            decreases self.updates@.len() - updates@.len(),
        {
            let i = updates.len();
            updates.push((self.updates[i].0.clone(), self.updates[i].1));
        }
        ChangeBatch { updates }
    }
}

impl<T: Timestamp> ChangeBatch<T> {
    /// Allocates a new empty `ChangeBatch`.
    pub fn new() -> (batch: Self)
        ensures
            batch@ == Seq::<(T, i64)>::empty(),
    {
        ChangeBatch { updates: Vec::new() }
    }

    /// Adds a new update, for `item` with `value`.
    pub fn update(&mut self, item: T, value: i64)
        requires
            canonical(old(self)@),
        ensures
            changed(old(self)@, final(self)@, item, value),
    {
        let ghost old_changes = self.updates@;
        proof {
            T::totally_ordered();
        }
        let mut low: usize = 0;
        let mut high: usize = self.updates.len();
        while low < high
            invariant
                forall|a: T, b: T, c: T|
                    #[trigger] before(a, b) && #[trigger] before(b, c) ==> before(a, c),
                forall|a: T, b: T| !(#[trigger] before(a, b) && before(b, a)),
                self.updates@ == old_changes,
                canonical(old_changes),
                low <= high <= old_changes.len(),
                forall|i: int| 0 <= i < low ==> before((#[trigger] old_changes[i]).0, item),
                forall|i: int|
                    high <= i < old_changes.len() ==> !before((#[trigger] old_changes[i]).0, item),
            decreases high - low,
        {
            let middle: usize = low + (high - low) / 2;
            if is_before(&self.updates[middle].0, &item) {
                low = middle + 1;
            } else {
                assert(!before(old_changes[middle as int].0, item));
                high = middle;
            }
        }
        proof {
            lemma_wrap(value as int);
        }
        if low < self.updates.len() && !is_before(&item, &self.updates[low].0) {
            assert(old_changes[low as int].0 == item);
            let sum: i64 = self.updates[low].1.wrapping_add(value);
            proof {
                lemma_wrapping_add(old_changes[low as int].1, value);
                lemma_count_at(old_changes, low as int);
            }
            if sum == 0 {
                self.updates.remove(low);
                assert forall|time: T| #[trigger] count(self.updates@, time) == if time == item {
                    wrap(count(old_changes, time) + value)
                } else {
                    count(old_changes, time)
                } by {
                    lemma_count_remove(old_changes, low as int, time);
                }
            } else {
                self.updates[low].1 = sum;
                assert(self.updates@ =~= old_changes.update(low as int, (item, sum)));
                assert forall|time: T| #[trigger] count(self.updates@, time) == if time == item {
                    wrap(count(old_changes, time) + value)
                } else {
                    count(old_changes, time)
                } by {
                    lemma_count_update(old_changes, low as int, (item, sum), time);
                }
            }
        } else {
            assert forall|i: int| low <= i < old_changes.len() implies before(
                item,
                (#[trigger] old_changes[i]).0,
            ) by {
                assert(before(item, old_changes[low as int].0));
            }
            proof {
                lemma_count_absent(old_changes, item);
            }
            if value != 0 {
                self.updates.insert(low, (item, value));
                assert forall|time: T| #[trigger] count(self.updates@, time) == if time == item {
                    wrap(count(old_changes, time) + value)
                } else {
                    count(old_changes, time)
                } by {
                    lemma_count_insert(old_changes, low as int, (item, value), time);
                }
            }
        }
    }

    /// Drains the set of updates.
    ///
    /// The result holds the net changes, sorted by timestamp; none is zero.
    pub fn drain(&mut self) -> (changes: Vec<(T, i64)>)
        ensures
            changes@ == old(self)@,
            final(self)@ == Seq::<(T, i64)>::empty(),
    {
        let mut changes: Vec<(T, i64)> = Vec::new();
        std::mem::swap(&mut changes, &mut self.updates);
        changes
    }

    /// Clears the map.
    pub fn clear(&mut self)
        ensures
            final(self)@ == Seq::<(T, i64)>::empty(),
    {
        self.updates.clear();
    }
}

/// `wrap` keeps what fits in 64 bits, and wrapping once is enough.
pub proof fn lemma_wrap(x: int)
    ensures
        -0x8000_0000_0000_0000 <= x < 0x8000_0000_0000_0000 ==> wrap(x) == x,
        -0x8000_0000_0000_0000 <= wrap(x) < 0x8000_0000_0000_0000,
{
}

/// Summands may be wrapped before they are added.
pub proof fn lemma_wrap_add(x: int, y: int)
    ensures
        wrap(wrap(x) + y) == wrap(x + y),
        wrap(x + wrap(y)) == wrap(x + y),
{
}

proof fn lemma_wrapping_add(x: i64, y: i64)
    ensures
        x.wrapping_add(y) == wrap(x + y),
{
}

pub proof fn lemma_count_remove<T>(changes: Seq<(T, i64)>, i: int, time: T)
    requires
        0 <= i < changes.len(),
    ensures
        count(changes.remove(i), time) == count(changes, time) - if changes[i].0 == time {
            changes[i].1 as int
        } else {
            0
        },
    decreases changes.len(),
{
    let front = changes.drop_last();
    if i == changes.len() - 1 {
        assert(changes.remove(i) =~= front);
    } else {
        lemma_count_remove(front, i, time);
        assert(changes.remove(i).drop_last() =~= front.remove(i));
    }
}

proof fn lemma_count_insert<T>(changes: Seq<(T, i64)>, i: int, change: (T, i64), time: T)
    requires
        0 <= i <= changes.len(),
    ensures
        count(changes.insert(i, change), time) == count(changes, time) + if change.0 == time {
            change.1 as int
        } else {
            0
        },
{
    let after = changes.insert(i, change);
    lemma_count_remove(after, i, time);
    assert(after.remove(i) =~= changes);
}

proof fn lemma_count_update<T>(changes: Seq<(T, i64)>, i: int, change: (T, i64), time: T)
    requires
        0 <= i < changes.len(),
        changes[i].0 == change.0,
    ensures
        count(changes.update(i, change), time) == count(changes, time) + if change.0 == time {
            change.1 - changes[i].1
        } else {
            0
        },
{
    lemma_count_remove(changes, i, time);
    lemma_count_remove(changes.update(i, change), i, time);
    assert(changes.update(i, change).remove(i) =~= changes.remove(i));
}

/// A timestamp without a change has count zero.
pub proof fn lemma_count_absent<T>(changes: Seq<(T, i64)>, time: T)
    requires
        forall|i: int| 0 <= i < changes.len() ==> (#[trigger] changes[i]).0 != time,
    ensures
        count(changes, time) == 0,
    decreases changes.len(),
{
    if changes.len() > 0 {
        let front = changes.drop_last();
        assert forall|i: int| 0 <= i < front.len() implies (#[trigger] front[i]).0 != time by {
            assert(front[i] == changes[i]);
        }
        lemma_count_absent(front, time);
    }
}

/// A timestamp with a change has that as its count.
pub proof fn lemma_count_at<T: Timestamp>(changes: Seq<(T, i64)>, i: int)
    requires
        canonical(changes),
        0 <= i < changes.len(),
    ensures
        count(changes, changes[i].0) == changes[i].1,
{
    let time = changes[i].0;
    let others = changes.remove(i);
    T::totally_ordered();
    assert forall|j: int| 0 <= j < others.len() implies (#[trigger] others[j]).0 != time by {
        if j < i {
            assert(before(changes[j].0, changes[i].0));
        } else {
            assert(before(changes[i].0, changes[j + 1].0));
        }
    }
    lemma_count_absent(others, time);
    lemma_count_remove(changes, i, time);
}

/// The counts of a canonical list fit in 64 bits.
pub proof fn lemma_count_fits<T: Timestamp>(changes: Seq<(T, i64)>, time: T)
    requires
        canonical(changes),
    ensures
        wrap(count(changes, time)) == count(changes, time),
{
    if exists|i: int| 0 <= i < changes.len() && (#[trigger] changes[i]).0 == time {
        let i = choose|i: int| 0 <= i < changes.len() && (#[trigger] changes[i]).0 == time;
        lemma_count_at(changes, i);
        lemma_wrap(changes[i].1 as int);
    } else {
        lemma_count_absent(changes, time);
    }
}

/// A count that wraps around is a 64-bit number that differs from it by a multiple of 2^64, so it
/// is the count itself where that fits.
pub proof fn law_wraps_around(x: int)
    ensures
        i64::MIN <= wrap(x) <= i64::MAX,
        (wrap(x) - x) % 0x1_0000_0000_0000_0000 == 0,
        i64::MIN <= x <= i64::MAX ==> wrap(x) == x,
{
}

/// In a canonical list, the count of a timestamp is the one change that is listed for it.
proof fn lemma_entry<T: Timestamp>(changes: Seq<(T, i64)>, time: T, value: i64)
    requires
        canonical(changes),
    ensures
        changes.contains((time, value)) <==> value != 0 && count(changes, time) == value,
{
    if changes.contains((time, value)) {
        let i = choose|i: int| 0 <= i < changes.len() && changes[i] == (time, value);
        lemma_count_at(changes, i);
    }
    if value != 0 && count(changes, time) == value {
        if forall|i: int| 0 <= i < changes.len() ==> (#[trigger] changes[i]).0 != time {
            lemma_count_absent(changes, time);
        } else {
            let i = choose|i: int| 0 <= i < changes.len() && (#[trigger] changes[i]).0 == time;
            lemma_count_at(changes, i);
            assert(changes[i] == (time, value));
        }
    }
}

/// The count of a timestamp is what a list in which it stands once says of it, and zero where it
/// does not stand.
pub proof fn law_count_is_listed<T: Timestamp>(changes: Seq<(T, i64)>, time: T, value: i64)
    requires
        forall|i: int, j: int|
            0 <= i < changes.len() && 0 <= j < changes.len() && i != j ==> (
            #[trigger] changes[i]).0 != (#[trigger] changes[j]).0,
    ensures
        changes.contains((time, value)) ==> count(changes, time) == value,
        (forall|i: int| 0 <= i < changes.len() ==> (#[trigger] changes[i]).0 != time) ==> count(
            changes,
            time,
        ) == 0,
{
    if changes.contains((time, value)) {
        let i = choose|i: int| 0 <= i < changes.len() && changes[i] == (time, value);
        let others = changes.remove(i);
        assert forall|j: int| 0 <= j < others.len() implies (#[trigger] others[j]).0 != time by {
            if j < i {
                assert(changes[j].0 != changes[i].0);
            } else {
                assert(changes[j + 1].0 != changes[i].0);
            }
        }
        lemma_count_absent(others, time);
        lemma_count_remove(changes, i, time);
    }
    if forall|i: int| 0 <= i < changes.len() ==> (#[trigger] changes[i]).0 != time {
        lemma_count_absent(changes, time);
    }
}

/// An update adds its value to what is listed for its timestamp, and leaves all else as it is. The
/// list stays sorted, with one change at most for each timestamp, and without a change of zero.
pub proof fn law_update_adds<T: Timestamp>(
    from: Seq<(T, i64)>,
    to: Seq<(T, i64)>,
    item: T,
    value: i64,
    listed: i64,
    time: T,
    other: i64,
)
    requires
        forall|i: int, j: int|
            0 <= i < j < from.len() ==> before((#[trigger] from[i]).0, (#[trigger] from[j]).0),
        forall|i: int| 0 <= i < from.len() ==> (#[trigger] from[i]).1 != 0,
        changed(from, to, item, value),
    ensures
        forall|i: int, j: int|
            0 <= i < j < to.len() ==> before((#[trigger] to[i]).0, (#[trigger] to[j]).0),
        forall|i: int| 0 <= i < to.len() ==> (#[trigger] to[i]).1 != 0,
        time != item ==> (to.contains((time, other)) <==> from.contains((time, other))),
        from.contains((item, listed)) ==> (to.contains((item, other)) <==> other != 0 && other
            == listed.wrapping_add(value)),
        (forall|i: int| 0 <= i < from.len() ==> (#[trigger] from[i]).0 != item) ==> (to.contains(
            (item, other),
        ) <==> other != 0 && other == value),
{
    lemma_entry(from, time, other);
    lemma_entry(from, item, listed);
    lemma_entry(to, time, other);
    lemma_entry(to, item, other);
    lemma_wrapping_add(listed, value);
    lemma_wrap(value as int);
    if forall|i: int| 0 <= i < from.len() ==> (#[trigger] from[i]).0 != item {
        lemma_count_absent(from, item);
    }
}

/// The counts determine the canonical list.
pub proof fn law_counts_determine<T: Timestamp>(a: Seq<(T, i64)>, b: Seq<(T, i64)>)
    requires
        canonical(a),
        canonical(b),
        forall|time: T| #[trigger] count(a, time) == count(b, time),
    ensures
        a == b,
    decreases a.len(),
{
    T::totally_ordered();
    if a.len() == 0 && b.len() == 0 {
        assert(a =~= b);
    } else if a.len() == 0 {
        lemma_count_at(b, b.len() - 1);
        assert(count(a, b.last().0) == 0);
    } else if b.len() == 0 {
        lemma_count_at(a, a.len() - 1);
        assert(count(b, a.last().0) == 0);
    } else {
        let i = a.len() - 1;
        let j = b.len() - 1;
        lemma_count_at(a, i);
        lemma_count_at(b, j);
        if before(a[i].0, b[j].0) {
            assert forall|k: int| 0 <= k < a.len() implies (#[trigger] a[k]).0 != b[j].0 by {
                if k < i {
                    assert(before(a[k].0, a[i].0));
                }
            }
            lemma_count_absent(a, b[j].0);
        } else if before(b[j].0, a[i].0) {
            assert forall|k: int| 0 <= k < b.len() implies (#[trigger] b[k]).0 != a[i].0 by {
                if k < j {
                    assert(before(b[k].0, b[j].0));
                }
            }
            lemma_count_absent(b, a[i].0);
        }
        assert(a[i] == b[j]);
        let front_a = a.drop_last();
        let front_b = b.drop_last();
        assert forall|time: T| #[trigger] count(front_a, time) == count(front_b, time) by {
            assert(count(a, time) == count(b, time));
        }
        law_counts_determine(front_a, front_b);
        assert(a =~= front_a.push(a[i]));
        assert(b =~= front_b.push(b[j]));
    }
}

/// An update and then the opposite one leave a batch as it was.
pub proof fn law_updates_cancel<T: Timestamp>(
    start: Seq<(T, i64)>,
    mid: Seq<(T, i64)>,
    end: Seq<(T, i64)>,
    item: T,
    value: i64,
    opposite: i64,
)
    requires
        canonical(start),
        changed(start, mid, item, value),
        changed(mid, end, item, opposite),
        wrap(value + opposite) == 0,
    ensures
        end == start,
{
    assert forall|time: T| #[trigger] count(end, time) == count(start, time) by {
        assert(count(mid, time) == count(mid, time));
        if time == item {
            let c = count(start, time);
            lemma_wrap_add(c + value, opposite as int);
            lemma_wrap_add(c, value + opposite);
            lemma_count_fits(start, time);
        }
    }
    law_counts_determine(end, start);
}

/// It does not matter in which order two updates are made.
pub proof fn law_updates_commute<T: Timestamp>(
    start: Seq<(T, i64)>,
    first: (T, i64),
    second: (T, i64),
    one_way: (Seq<(T, i64)>, Seq<(T, i64)>),
    other_way: (Seq<(T, i64)>, Seq<(T, i64)>),
)
    requires
        canonical(start),
        changed(start, one_way.0, first.0, first.1),
        changed(one_way.0, one_way.1, second.0, second.1),
        changed(start, other_way.0, second.0, second.1),
        changed(other_way.0, other_way.1, first.0, first.1),
    ensures
        one_way.1 == other_way.1,
{
    assert forall|time: T| #[trigger] count(one_way.1, time) == count(other_way.1, time) by {
        let c = count(start, time);
        assert(count(one_way.0, time) == count(one_way.0, time));
        assert(count(other_way.0, time) == count(other_way.0, time));
        lemma_wrap_add(c + first.1, second.1 as int);
        lemma_wrap_add(c + second.1, first.1 as int);
    }
    law_counts_determine(one_way.1, other_way.1);
}

} // verus!
