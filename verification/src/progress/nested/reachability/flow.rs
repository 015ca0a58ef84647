//! What becomes of changes that are propagated along paths.

use crate::progress::change_batch::{
    canonical, changed, count, lemma_count_fits, lemma_wrap_add, wrap,
};
use crate::progress::nested::Target;
use crate::progress::nested::reachability::row::Row;
use crate::progress::timestamp::{PathSummary, Timestamp};
use vstd::prelude::*;

verus! {

/// For each node and each of its ports, a list of changes.
pub type Buffers<T> = Seq<Seq<Seq<(T, i64)>>>;

/// The changes to `result` that come of `value` at `time` along paths with these summaries:
/// `value` for each path along which `time` becomes `result`.
pub open spec fn spread<T, S: PathSummary<T>>(
    elements: Seq<S>,
    time: T,
    value: int,
    result: T,
) -> int
    decreases elements.len(),
{
    if elements.len() == 0 {
        0
    } else {
        spread(elements.drop_last(), time, value, result) + if elements.last().apply(time) == Some(
            result,
        ) {
            value
        } else {
            0
        }
    }
}

/// Those at `target`, along the paths that a row lists.
pub open spec fn row_spread<T, S: PathSummary<T>>(
    row: Row<S>,
    time: T,
    value: int,
    target: Target,
    result: T,
) -> int
    decreases row.len(),
{
    if row.len() == 0 {
        0
    } else {
        row_spread(row.drop_last(), time, value, target, result) + if row.last().0 == target {
            spread(row.last().1, time, value, result)
        } else {
            0
        }
    }
}

/// Those that come of each of a list of changes.
pub open spec fn flow<T, S: PathSummary<T>>(
    row: Row<S>,
    changes: Seq<(T, i64)>,
    target: Target,
    result: T,
) -> int
    decreases changes.len(),
{
    if changes.len() == 0 {
        0
    } else {
        flow(row, changes.drop_last(), target, result) + row_spread(
            row,
            changes.last().0,
            changes.last().1 as int,
            target,
            result,
        )
    }
}

/// Those that come of the changes at the first `ports` ports of a node.
pub open spec fn ports_flow<T, S: PathSummary<T>>(
    rows: Seq<Row<S>>,
    buffers: Seq<Seq<(T, i64)>>,
    ports: nat,
    target: Target,
    result: T,
) -> int
    decreases ports,
{
    if ports == 0 {
        0
    } else {
        ports_flow(rows, buffers, (ports - 1) as nat, target, result) + flow(
            rows[ports - 1],
            buffers[ports - 1],
            target,
            result,
        )
    }
}

/// There is a buffer for changes at `target`.
pub open spec fn has_buffer<T>(buffers: Buffers<T>, target: Target) -> bool {
    target.index < buffers.len() && target.port < buffers[target.index as int].len()
}

/// The changes at `target`.
pub open spec fn buffer_at<T>(buffers: Buffers<T>, target: Target) -> Seq<(T, i64)> {
    buffers[target.index as int][target.port as int]
}

/// Each list of changes is canonical.
pub open spec fn all_canonical<T: Timestamp>(buffers: Buffers<T>) -> bool {
    forall|n: int, p: int|
        0 <= n < buffers.len() && 0 <= p < buffers[n].len() ==> canonical(#[trigger] buffers[n][p])
}

/// The buffers are as many for each node.
pub open spec fn same_shape<T>(a: Buffers<T>, b: Buffers<T>) -> bool {
    &&& a.len() == b.len()
    &&& forall|n: int|
        #![trigger a[n]]
        #![trigger b[n]]
        0 <= n < a.len() ==> a[n].len() == b[n].len()
}

/// The counts in the buffers have changed by `amount`.
pub open spec fn grown<T: Timestamp>(
    from: Buffers<T>,
    to: Buffers<T>,
    amount: spec_fn(Target, T) -> int,
) -> bool {
    &&& same_shape(from, to)
    &&& all_canonical(to)
    &&& forall|target: Target, time: T|
        has_buffer(from, target) ==> #[trigger] count(buffer_at(to, target), time) == wrap(
            count(buffer_at(from, target), time) + amount(target, time),
        )
}

/// All targets that the row lists have a buffer.
pub open spec fn row_leads<T, S>(row: Row<S>, buffers: Buffers<T>) -> bool {
    forall|k: int| 0 <= k < row.len() ==> has_buffer(buffers, (#[trigger] row[k]).0)
}

/// All targets that the rows of a node list have a buffer.
pub open spec fn leads<T, S>(rows: Seq<Row<S>>, buffers: Buffers<T>) -> bool {
    forall|p: int| 0 <= p < rows.len() ==> row_leads(#[trigger] rows[p], buffers)
}

/// Without a change the counts have changed by nothing.
pub proof fn lemma_grown_none<T: Timestamp>(buffers: Buffers<T>)
    requires
        all_canonical(buffers),
    ensures
        grown(buffers, buffers, |target: Target, time: T| 0int),
{
    assert forall|target: Target, time: T| has_buffer(buffers, target) implies #[trigger] count(
        buffer_at(buffers, target),
        time,
    ) == wrap(count(buffer_at(buffers, target), time) + 0) by {
        lemma_count_fits(buffer_at(buffers, target), time);
    }
}

/// Changes by `a` and then by `b` are changes by `c`, if that is the sum of both.
pub proof fn lemma_grown_both<T: Timestamp>(
    from: Buffers<T>,
    mid: Buffers<T>,
    to: Buffers<T>,
    a: spec_fn(Target, T) -> int,
    b: spec_fn(Target, T) -> int,
    c: spec_fn(Target, T) -> int,
)
    requires
        grown(from, mid, a),
        grown(mid, to, b),
        forall|target: Target, time: T|
            has_buffer(from, target) ==> #[trigger] c(target, time) == a(target, time) + b(
                target,
                time,
            ),
    ensures
        grown(from, to, c),
{
    assert forall|target: Target, time: T| has_buffer(from, target) implies #[trigger] count(
        buffer_at(to, target),
        time,
    ) == wrap(count(buffer_at(from, target), time) + c(target, time)) by {
        assert(has_buffer(mid, target)) by {
            assert(from[target.index as int].len() == mid[target.index as int].len());
        }
        let start = count(buffer_at(from, target), time);
        assert(count(buffer_at(mid, target), time) == wrap(start + a(target, time)));
        lemma_wrap_add(start + a(target, time), b(target, time));
    }
    assert forall|n: int| 0 <= n < from.len() implies (#[trigger] from[n]).len()
        == to[n].len() by {
        assert(from[n].len() == mid[n].len());
        assert(mid[n].len() == to[n].len());
    }
}

/// One change in one buffer.
pub proof fn lemma_grown_one<T: Timestamp>(
    from: Buffers<T>,
    to: Buffers<T>,
    at: Target,
    item: T,
    value: i64,
)
    requires
        all_canonical(from),
        has_buffer(from, at),
        changed(buffer_at(from, at), buffer_at(to, at), item, value),
        to == from.update(
            at.index as int,
            from[at.index as int].update(at.port as int, buffer_at(to, at)),
        ),
    ensures
        grown(
            from,
            to,
            |target: Target, time: T|
                if target == at && time == item {
                    value as int
                } else {
                    0
                },
        ),
{
    assert forall|n: int, p: int| 0 <= n < to.len() && 0 <= p < to[n].len() implies canonical(
        #[trigger] to[n][p],
    ) by {
        if n == at.index && p == at.port {
        } else {
            assert(to[n][p] == from[n][p]);
        }
    }
    assert forall|target: Target, time: T| has_buffer(from, target) implies #[trigger] count(
        buffer_at(to, target),
        time,
    ) == wrap(
        count(buffer_at(from, target), time) + if target == at && time == item {
            value as int
        } else {
            0
        },
    ) by {
        lemma_count_fits(buffer_at(from, target), time);
        if target != at {
            assert(buffer_at(to, target) == buffer_at(from, target));
        }
    }
}

} // verus!
