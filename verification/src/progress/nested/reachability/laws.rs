//! What holds of graphs, of their path summaries and of what is propagated along them.

use crate::order::PartialOrder;
use crate::progress::change_batch::{
    canonical, changed, count, law_counts_determine, lemma_count_absent, lemma_count_at,
    lemma_count_fits, lemma_count_remove, lemma_wrap_add, wrap,
};
use crate::progress::frontier::{dominated, lemma_offered_elements};
use crate::progress::nested::reachability::flow::{
    Buffers, buffer_at, flow, grown, has_buffer, lemma_grown_both, lemma_grown_none, ports_flow,
    row_leads, row_spread, same_shape, spread,
};
use crate::progress::nested::reachability::minimal::{
    lemma_source_table_complete, lemma_source_table_lists, lemma_source_table_sound,
    lemma_target_row_complete, lemma_target_row_least, lemma_target_row_sound,
    lemma_target_table_lists,
};
use crate::progress::nested::reachability::row::{
    Row, lemma_position, lemma_row_entry, lemma_row_offered, lists, position, row_wf, summaries,
};
use crate::progress::nested::reachability::search::row_at;
use crate::progress::nested::reachability::topology::Topology;
use crate::progress::nested::reachability::tracker::{
    Pointstamps, blank_for, blank_for_both, blanked, blanks, node_pushes, pushes,
};
use crate::progress::nested::{Source, Target};
use crate::progress::timestamp::{
    PathAlgebra, PathSummary, Timestamp, advancing, before, left_monotone, monotone,
};
use vstd::prelude::*;

verus! {

/// A node that is added in the place of another overwrites it.
pub proof fn law_node_overwrites<S>(
    graph: Topology<S>,
    index: nat,
    first: (usize, usize, Seq<Seq<Seq<S>>>),
    second: (usize, usize, Seq<Seq<Seq<S>>>),
)
    requires
        graph.wf(),
    ensures
        graph.with_node(index as int, first.0, first.1, first.2).with_node(
            index as int,
            second.0,
            second.1,
            second.2,
        ) == graph.with_node(index as int, second.0, second.1, second.2),
{
    assert(graph.with_node(index as int, first.0, first.1, first.2).with_node(
        index as int,
        second.0,
        second.1,
        second.2,
    ) =~= graph.with_node(index as int, second.0, second.1, second.2));
}

/// Nodes can be added in any order, and before or after edges.
pub proof fn law_added_in_any_order<S>(
    graph: Topology<S>,
    i: nat,
    j: nat,
    first: (usize, usize, Seq<Seq<Seq<S>>>),
    second: (usize, usize, Seq<Seq<Seq<S>>>),
    source: Source,
    target: Target,
)
    requires
        graph.wf(),
        i != j,
    ensures
        graph.with_node(i as int, first.0, first.1, first.2).with_node(
            j as int,
            second.0,
            second.1,
            second.2,
        ) == graph.with_node(j as int, second.0, second.1, second.2).with_node(
            i as int,
            first.0,
            first.1,
            first.2,
        ),
        graph.with_node(i as int, first.0, first.1, first.2).with_edge(source, target)
            == graph.with_edge(source, target).with_node(i as int, first.0, first.1, first.2),
{
    let one_way = graph.with_node(i as int, first.0, first.1, first.2).with_node(
        j as int,
        second.0,
        second.1,
        second.2,
    );
    let other_way = graph.with_node(j as int, second.0, second.1, second.2).with_node(
        i as int,
        first.0,
        first.1,
        first.2,
    );
    assert(one_way.nodes =~= other_way.nodes);
    assert(one_way.shape =~= other_way.shape);
}

/// Which paths there are depends on the nodes and on which edges there are, not on the order or
/// the number of times in which edges were added.
pub proof fn law_paths_by_edges<S: PathAlgebra>(
    a: Topology<S>,
    b: Topology<S>,
    source: Source,
    target: Target,
    x: S,
)
    requires
        a.nodes == b.nodes,
        forall|s: Source, t: Target| #[trigger] a.links(s).contains(t) <==> b.links(s).contains(t),
    ensures
        a.path(source, target, x) <==> b.path(source, target, x),
{
    if a.path(source, target, x) {
        let hops = choose|hops: nat| a.path_of(source, target, x, hops);
        lemma_path_by_edges(a, b, source, target, x, hops);
    }
    if b.path(source, target, x) {
        let hops = choose|hops: nat| b.path_of(source, target, x, hops);
        assert forall|s: Source, t: Target| #[trigger] b.links(s).contains(t) implies a.links(
            s,
        ).contains(t) by {
            assert(a.links(s).contains(t) <==> b.links(s).contains(t));
        }
        lemma_path_by_edges(b, a, source, target, x, hops);
    }
}

proof fn lemma_path_by_edges<S: PathAlgebra>(
    a: Topology<S>,
    b: Topology<S>,
    source: Source,
    target: Target,
    x: S,
    hops: nat,
)
    requires
        a.nodes == b.nodes,
        forall|s: Source, t: Target| #[trigger] a.links(s).contains(t) ==> b.links(s).contains(t),
        a.path_of(source, target, x, hops),
    ensures
        b.path_of(source, target, x, hops),
    decreases hops,
{
    if hops > 0 {
        let (mid, y) = choose|mid: Target, y: S|
            a.path_of(source, mid, y, (hops - 1) as nat) && #[trigger] a.hop(mid, y, target, x);
        lemma_path_by_edges(a, b, source, mid, y, (hops - 1) as nat);
        let (port, j) = choose|port: usize, j: int|
            0 <= port < a.outputs(mid) && 0 <= j < a.inner(mid, port as int).len() && y.compose(
                #[trigger] a.inner(mid, port as int)[j],
            ) == Some(x) && a.links(Source { index: mid.index, port }).contains(target);
        assert(y.compose(b.inner(mid, port as int)[j]) == Some(x));
        assert(b.hop(mid, y, target, x));
    }
}

/// What holds of each edge, and still holds one node and one edge further on, holds of each path.
pub proof fn law_path_induction<S: PathAlgebra>(
    graph: Topology<S>,
    holds: spec_fn(Source, Target, S) -> bool,
    source: Source,
    target: Target,
    x: S,
)
    requires
        forall|s: Source, t: Target| #[trigger]
            graph.links(s).contains(t) ==> holds(s, t, S::identity()),
        forall|s: Source, mid: Target, y: S, t: Target, z: S| #[trigger]
            holds(s, mid, y) && #[trigger] graph.hop(mid, y, t, z) ==> holds(s, t, z),
        graph.path(source, target, x),
    ensures
        holds(source, target, x),
{
    let hops = choose|hops: nat| graph.path_of(source, target, x, hops);
    lemma_path_induction(graph, holds, source, target, x, hops);
}

proof fn lemma_path_induction<S: PathAlgebra>(
    graph: Topology<S>,
    holds: spec_fn(Source, Target, S) -> bool,
    source: Source,
    target: Target,
    x: S,
    hops: nat,
)
    requires
        forall|s: Source, t: Target| #[trigger]
            graph.links(s).contains(t) ==> holds(s, t, S::identity()),
        forall|s: Source, mid: Target, y: S, t: Target, z: S| #[trigger]
            holds(s, mid, y) && #[trigger] graph.hop(mid, y, t, z) ==> holds(s, t, z),
        graph.path_of(source, target, x, hops),
    ensures
        holds(source, target, x),
    decreases hops,
{
    if hops > 0 {
        let (mid, y) = choose|mid: Target, y: S|
            graph.path_of(source, mid, y, (hops - 1) as nat) && #[trigger] graph.hop(
                mid,
                y,
                target,
                x,
            );
        lemma_path_induction(graph, holds, source, mid, y, (hops - 1) as nat);
        assert(holds(source, mid, y));
    }
}

/// Which summaries are listed depends on the nodes and on which edges there are, not on the order
/// or the number of times in which edges were added, if lesser summaries remain so with a path
/// behind them.
pub proof fn law_summaries_by_edges<S: PathAlgebra>(
    a: Topology<S>,
    b: Topology<S>,
    source: Source,
    from: Target,
    target: Target,
    x: S,
)
    requires
        a.wf(),
        a.defined(),
        b.wf(),
        b.defined(),
        a.nodes == b.nodes,
        a.shape == b.shape,
        forall|s: Source, t: Target| #[trigger] a.links(s).contains(t) <==> b.links(s).contains(t),
        left_monotone::<S>(),
        a.has_source(source),
        a.has_target(from),
    ensures
        summaries(row_at(a.source_table(), source), target).contains(x) <==> summaries(
            row_at(b.source_table(), source),
            target,
        ).contains(x),
        summaries(
            a.target_table()[from.index as int][from.port as int],
            target,
        ).contains(x) <==> summaries(
            b.target_table()[from.index as int][from.port as int],
            target,
        ).contains(x),
{
    assert forall|s: Source, t: Target, y: S|
        #![trigger a.path(s, t, y)]
        #![trigger b.path(s, t, y)]
        a.path(s, t, y) <==> b.path(s, t, y) by {
        law_paths_by_edges(a, b, s, t, y);
    }
    lemma_source_table_lists(a);
    lemma_source_table_lists(b);
    assert(a.least_path(source, target, x) <==> b.least_path(source, target, x));
    assert forall|s: Source, t: Target, y: S| a.has_source(s) implies (#[trigger] summaries(
        row_at(a.source_table(), s),
        t,
    ).contains(y) <==> summaries(row_at(b.source_table(), s), t).contains(y)) by {
        assert(a.least_path(s, t, y) <==> b.least_path(s, t, y));
    }
    assert forall|y: S|
        #![trigger a.assembled(from, target, y)]
        #![trigger b.assembled(from, target, y)]
        a.assembled(from, target, y) <==> b.assembled(from, target, y) by {
        if a.assembled(from, target, y) {
            lemma_assembled_by_edges(a, b, from, target, y);
        }
        if b.assembled(from, target, y) {
            lemma_assembled_by_edges(b, a, from, target, y);
        }
    }
    lemma_target_row_least(a, from, target, x);
    lemma_target_row_least(b, from, target, x);
    assert(a.nodes[from.index as int].len() == a.shape[from.index as int].0);
}

proof fn lemma_assembled_by_edges<S: PathAlgebra>(
    a: Topology<S>,
    b: Topology<S>,
    from: Target,
    target: Target,
    x: S,
)
    requires
        a.wf(),
        a.has_target(from),
        a.nodes == b.nodes,
        forall|s: Source, t: Target, y: S| a.has_source(s) ==> (#[trigger] summaries(
            row_at(a.source_table(), s),
            t,
        ).contains(y) ==> summaries(row_at(b.source_table(), s), t).contains(y)),
        a.assembled(from, target, x),
    ensures
        b.assembled(from, target, x),
{
    if !(from == target && x == S::identity()) {
        let (port, j, y) = choose|port: usize, j: int, y: S|
            0 <= port < a.outputs(from) && 0 <= j < a.inner(from, port as int).len()
                && #[trigger] summaries(
                row_at(a.source_table(), Source { index: from.index, port }),
                target,
            ).contains(y) && (#[trigger] a.inner(from, port as int)[j]).compose(y) == Some(x);
        let source = Source { index: from.index, port };
        assert(a.nodes[from.index as int][from.port as int].len()
            == a.shape[from.index as int].1);
        assert(a.has_source(source));
        assert(summaries(row_at(b.source_table(), source), target).contains(y));
        assert(b.inner(from, port as int)[j].compose(y) == Some(x));
    }
}

/// Changes at a target do apply to the target: the identity is listed from a target to itself,
/// if no path back to it may leave a timestamp as it is.
pub proof fn law_target_reaches_itself<S: PathAlgebra>(graph: Topology<S>, target: Target)
    requires
        graph.wf(),
        graph.defined(),
        graph.has_target(target),
        !graph.idle_loop(target),
    ensures
        summaries(
            graph.target_table()[target.index as int][target.port as int],
            target,
        ).contains(S::identity()),
{
    let row = graph.round_row(target);
    lemma_row_offered(row, target, S::identity(), target);
    lemma_offered_elements(summaries(row, target), S::identity(), S::identity());
    assert(graph.nodes[target.index as int].len() == graph.shape[target.index as int].0);
    assert(graph.target_table()[target.index as int][target.port as int] == graph.target_row(
        target,
    ));
}

proof fn lemma_spread_positive<T, S: PathSummary<T>>(
    elements: Seq<S>,
    time: T,
    value: int,
    result: T,
)
    requires
        value >= 0,
    ensures
        spread(elements, time, value, result) >= 0,
        value > 0 && (exists|i: int|
            0 <= i < elements.len() && (#[trigger] elements[i]).apply(time) == Some(result))
            ==> spread(elements, time, value, result) > 0,
    decreases elements.len(),
{
    if elements.len() > 0 {
        let front = elements.drop_last();
        lemma_spread_positive(front, time, value, result);
        if value > 0 && exists|i: int|
            0 <= i < elements.len() && (#[trigger] elements[i]).apply(time) == Some(result) {
            let i = choose|i: int|
                0 <= i < elements.len() && (#[trigger] elements[i]).apply(time) == Some(result);
            if i < front.len() {
                assert(front[i].apply(time) == Some(result));
            }
        }
    }
}

proof fn lemma_row_spread_positive<T, S: PathSummary<T>>(
    row: Row<S>,
    time: T,
    value: int,
    target: Target,
    result: T,
    k: int,
    i: int,
)
    requires
        value >= 0,
    ensures
        row_spread(row, time, value, target, result) >= 0,
        value > 0 && 0 <= k < row.len() && row[k].0 == target && 0 <= i < row[k].1.len()
            && row[k].1[i].apply(time) == Some(result) ==> row_spread(
            row,
            time,
            value,
            target,
            result,
        ) > 0,
    decreases row.len(),
{
    if row.len() > 0 {
        lemma_row_spread_positive(row.drop_last(), time, value, target, result, k, i);
        lemma_spread_positive(row.last().1, time, value, result);
    }
}

proof fn lemma_flow_positive<T, S: PathSummary<T>>(
    row: Row<S>,
    changes: Seq<(T, i64)>,
    target: Target,
    result: T,
    n: int,
    k: int,
    i: int,
)
    requires
        forall|m: int| 0 <= m < changes.len() ==> (#[trigger] changes[m]).1 >= 0,
    ensures
        flow(row, changes, target, result) >= 0,
        0 <= n < changes.len() && changes[n].1 > 0 && 0 <= k < row.len() && row[k].0 == target && 0
            <= i < row[k].1.len() && row[k].1[i].apply(changes[n].0) == Some(result) ==> flow(
            row,
            changes,
            target,
            result,
        ) > 0,
    decreases changes.len(),
{
    if changes.len() > 0 {
        let front = changes.drop_last();
        assert forall|m: int| 0 <= m < front.len() implies (#[trigger] front[m]).1 >= 0 by {
            assert(front[m] == changes[m]);
        }
        lemma_flow_positive(row, front, target, result, n, k, i);
        let (time, value) = changes.last();
        assert(changes[changes.len() - 1].1 >= 0);
        lemma_row_spread_positive(row, time, value as int, target, result, k, i);
    }
}

proof fn lemma_spread_hits<T, S: PathSummary<T>>(
    elements: Seq<S>,
    time: T,
    value: int,
    result: T,
)
    requires
        spread(elements, time, value, result) != 0,
    ensures
        exists|x: S| elements.contains(x) && #[trigger] x.apply(time) == Some(result),
    decreases elements.len(),
{
    let front = elements.drop_last();
    if elements.last().apply(time) == Some(result) {
        assert(elements.contains(elements.last()));
    } else {
        lemma_spread_hits(front, time, value, result);
        let x = choose|x: S| front.contains(x) && #[trigger] x.apply(time) == Some(result);
        let i = choose|i: int| 0 <= i < front.len() && front[i] == x;
        assert(elements[i] == x);
    }
}

proof fn lemma_row_spread_hits<T, S: PathSummary<T>>(
    row: Row<S>,
    time: T,
    value: int,
    target: Target,
    result: T,
) -> (k: int)
    requires
        row_spread(row, time, value, target, result) != 0,
    ensures
        0 <= k < row.len(),
        row[k].0 == target,
        exists|x: S| row[k].1.contains(x) && #[trigger] x.apply(time) == Some(result),
    decreases row.len(),
{
    let last = row.last();
    if last.0 == target && spread(last.1, time, value, result) != 0 {
        lemma_spread_hits(last.1, time, value, result);
        row.len() - 1
    } else {
        lemma_row_spread_hits(row.drop_last(), time, value, target, result)
    }
}

proof fn lemma_flow_hits<T, S: PathSummary<T>>(
    row: Row<S>,
    changes: Seq<(T, i64)>,
    target: Target,
    result: T,
) -> (r: (int, S))
    requires
        row_wf(row),
        flow(row, changes, target, result) != 0,
    ensures
        0 <= r.0 < changes.len(),
        summaries(row, target).contains(r.1),
        r.1.apply(changes[r.0].0) == Some(result),
    decreases changes.len(),
{
    let (time, value) = changes.last();
    if row_spread(row, time, value as int, target, result) != 0 {
        let k = lemma_row_spread_hits(row, time, value as int, target, result);
        lemma_row_entry(row, k);
        let x = choose|x: S| row[k].1.contains(x) && #[trigger] x.apply(time) == Some(result);
        (changes.len() - 1, x)
    } else {
        lemma_flow_hits(row, changes.drop_last(), target, result)
    }
}

/// A listed summary has a place in the row.
proof fn lemma_listed_place<S: PathAlgebra>(row: Row<S>, target: Target, x: S) -> (place: (
    int,
    int,
))
    requires
        summaries(row, target).contains(x),
    ensures
        0 <= place.0 < row.len(),
        row[place.0].0 == target,
        0 <= place.1 < row[place.0].1.len(),
        row[place.0].1[place.1] == x,
{
    assert(lists(row, target));
    lemma_position(row, target);
    let k = position(row, target);
    let i = choose|i: int| 0 <= i < row[k].1.len() && row[k].1[i] == x;
    (k, i)
}

proof fn lemma_flow_reaches<T: Timestamp>(
    row: Row<T::Summary>,
    changes: Seq<(T, i64)>,
    n: int,
    target: Target,
    x: T::Summary,
    late: T,
) -> (early: T)
    requires
        dominated(summaries(row, target), x),
        advancing::<T>(),
        forall|m: int| 0 <= m < changes.len() ==> (#[trigger] changes[m]).1 >= 0,
        0 <= n < changes.len(),
        changes[n].1 > 0,
        x.apply(changes[n].0) == Some(late),
    ensures
        early.leq(late),
        flow(row, changes, target, early) > 0,
{
    let listed = summaries(row, target);
    let j = choose|j: int| 0 <= j < listed.len() && (#[trigger] listed[j]).leq(x);
    let e = listed[j];
    assert(listed.contains(e));
    let (k, i) = lemma_listed_place(row, target, e);
    let time = changes[n].0;
    assert(x.apply(time) is Some);
    assert(e.apply(time) is Some);
    let early = e.apply(time)->0;
    lemma_flow_positive(row, changes, target, early, n, k, i);
    early
}

proof fn lemma_wrap_multiple(x: int, y: int)
    requires
        y % 0x1_0000_0000_0000_0000 == 0,
    ensures
        wrap(x + y) == wrap(x),
{
}

/// What a change spreads to is additive, and a change that wraps to nothing spreads to nothing.
proof fn lemma_spread_adds<T, S: PathSummary<T>>(
    elements: Seq<S>,
    time: T,
    a: int,
    b: int,
    result: T,
)
    ensures
        spread(elements, time, a + b, result) == spread(elements, time, a, result) + spread(
            elements,
            time,
            b,
            result,
        ),
        a % 0x1_0000_0000_0000_0000 == 0 ==> spread(elements, time, a, result)
            % 0x1_0000_0000_0000_0000 == 0,
    decreases elements.len(),
{
    if elements.len() > 0 {
        lemma_spread_adds(elements.drop_last(), time, a, b, result);
    }
}

proof fn lemma_row_spread_adds<T, S: PathSummary<T>>(
    row: Row<S>,
    time: T,
    a: int,
    b: int,
    target: Target,
    result: T,
)
    ensures
        row_spread(row, time, a + b, target, result) == row_spread(row, time, a, target, result)
            + row_spread(row, time, b, target, result),
        a % 0x1_0000_0000_0000_0000 == 0 ==> row_spread(row, time, a, target, result)
            % 0x1_0000_0000_0000_0000 == 0,
    decreases row.len(),
{
    if row.len() > 0 {
        lemma_row_spread_adds(row.drop_last(), time, a, b, target, result);
        lemma_spread_adds(row.last().1, time, a, b, result);
    }
}

proof fn lemma_flow_remove<T, S: PathSummary<T>>(
    row: Row<S>,
    changes: Seq<(T, i64)>,
    i: int,
    target: Target,
    result: T,
)
    requires
        0 <= i < changes.len(),
    ensures
        flow(row, changes, target, result) == flow(row, changes.remove(i), target, result)
            + row_spread(row, changes[i].0, changes[i].1 as int, target, result),
    decreases changes.len(),
{
    let front = changes.drop_last();
    if i == changes.len() - 1 {
        assert(changes.remove(i) =~= front);
    } else {
        lemma_flow_remove(row, front, i, target, result);
        assert(changes.remove(i).drop_last() =~= front.remove(i));
        assert(changes.remove(i).last() == changes.last());
    }
}

/// The changes but for that of one timestamp.
spec fn without<T>(changes: Seq<(T, i64)>, item: T) -> Seq<(T, i64)> {
    if exists|i: int| 0 <= i < changes.len() && (#[trigger] changes[i]).0 == item {
        changes.remove(
            choose|i: int| 0 <= i < changes.len() && (#[trigger] changes[i]).0 == item,
        )
    } else {
        changes
    }
}

/// A list of changes flows as the one for `item` and the others do.
proof fn lemma_without<T: Timestamp>(
    row: Row<T::Summary>,
    changes: Seq<(T, i64)>,
    item: T,
    target: Target,
    result: T,
)
    requires
        canonical(changes),
    ensures
        canonical(without(changes, item)),
        forall|time: T| #[trigger]
            count(without(changes, item), time) == if time == item {
                0
            } else {
                count(changes, time)
            },
        flow(row, changes, target, result) == flow(row, without(changes, item), target, result)
            + row_spread(row, item, count(changes, item), target, result),
{
    if exists|i: int| 0 <= i < changes.len() && (#[trigger] changes[i]).0 == item {
        let i = choose|i: int| 0 <= i < changes.len() && (#[trigger] changes[i]).0 == item;
        let rest = changes.remove(i);
        lemma_flow_remove(row, changes, i, target, result);
        lemma_count_at(changes, i);
        assert forall|a: int, b: int| 0 <= a < b < rest.len() implies before(
            (#[trigger] rest[a]).0,
            (#[trigger] rest[b]).0,
        ) by {
            let old_a = if a < i {
                a
            } else {
                a + 1
            };
            let old_b = if b < i {
                b
            } else {
                b + 1
            };
            assert(before(changes[old_a].0, changes[old_b].0));
        }
        assert forall|a: int| 0 <= a < rest.len() implies (#[trigger] rest[a]).1 != 0 by {
            let old_a = if a < i {
                a
            } else {
                a + 1
            };
            assert(changes[old_a].1 != 0);
        }
        assert forall|time: T| #[trigger] count(rest, time) == if time == item {
            0
        } else {
            count(changes, time)
        } by {
            lemma_count_remove(changes, i, time);
        }
    } else {
        lemma_count_absent(changes, item);
        lemma_row_spread_adds(row, item, 0, 0, target, result);
    }
}

/// The consequences of a list of changes and one more are those of the list and those of the one.
pub proof fn law_changes_add_up<T: Timestamp>(
    row: Row<T::Summary>,
    from: Seq<(T, i64)>,
    to: Seq<(T, i64)>,
    item: T,
    value: i64,
    target: Target,
    result: T,
)
    requires
        canonical(from),
        changed(from, to, item, value),
    ensures
        wrap(flow(row, to, target, result)) == wrap(
            flow(row, from, target, result) + row_spread(row, item, value as int, target, result),
        ),
{
    lemma_without(row, from, item, target, result);
    lemma_without(row, to, item, target, result);
    let rest = without(from, item);
    assert forall|time: T| #[trigger] count(without(to, item), time) == count(rest, time) by {
        assert(count(to, time) == count(to, time));
    }
    law_counts_determine(without(to, item), rest);
    let c = count(from, item);
    let excess = wrap(c + value) - (c + value);
    assert(count(to, item) == wrap(c + value));
    assert(excess % 0x1_0000_0000_0000_0000 == 0);
    lemma_row_spread_adds(row, item, c, value as int, target, result);
    lemma_row_spread_adds(row, item, excess, c + value, target, result);
    lemma_wrap_multiple(
        flow(row, from, target, result) + row_spread(row, item, value as int, target, result),
        row_spread(row, item, excess, target, result),
    );
}

pub proof fn lemma_ports_flow_one<T: Timestamp>(
    rows: Seq<Row<T::Summary>>,
    buffers: Seq<Seq<(T, i64)>>,
    port: int,
    changes: Seq<(T, i64)>,
    ports: nat,
    target: Target,
    result: T,
)
    requires
        0 <= port < buffers.len(),
        ports <= buffers.len(),
    ensures
        ports_flow(rows, buffers.update(port, changes), ports, target, result) == ports_flow(
            rows,
            buffers,
            ports,
            target,
            result,
        ) + if port < ports {
            flow(rows[port], changes, target, result) - flow(
                rows[port],
                buffers[port],
                target,
                result,
            )
        } else {
            0
        },
    decreases ports,
{
    if ports > 0 {
        lemma_ports_flow_one(rows, buffers, port, changes, (ports - 1) as nat, target, result);
    }
}

/// Nothing flows from empty buffers.
pub proof fn lemma_ports_flow_blank<T: Timestamp>(
    rows: Seq<Row<T::Summary>>,
    all: nat,
    ports: nat,
    target: Target,
    result: T,
)
    requires
        ports <= all,
    ensures
        ports_flow(rows, blanks::<T>(all), ports, target, result) == 0,
    decreases ports,
{
    if ports > 0 {
        lemma_ports_flow_blank(rows, all, (ports - 1) as nat, target, result);
    }
}

pub proof fn lemma_nodes_flow_blank<T: Timestamp>(
    state: Pointstamps<T>,
    nodes: nat,
    target: Target,
    result: T,
)
    requires
        nodes <= state.source.len(),
        nodes <= state.target.len(),
        state.source == blanked(state.source),
        state.target == blanked(state.target),
    ensures
        state.nodes_flow(nodes, target, result) == 0,
    decreases nodes,
{
    if nodes > 0 {
        let n = nodes - 1;
        lemma_nodes_flow_blank(state, n as nat, target, result);
        assert(state.source[n] == blanks::<T>(state.source[n].len()));
        assert(state.target[n] == blanks::<T>(state.target[n].len()));
        let outputs = state.source[n].len();
        let inputs = state.target[n].len();
        lemma_ports_flow_blank(state.source_target[n], outputs, outputs, target, result);
        lemma_ports_flow_blank(state.target_target[n], inputs, inputs, target, result);
    }
}

/// Buffers with the same counts are the same.
proof fn lemma_grown_same<T: Timestamp>(
    from: Buffers<T>,
    a: Buffers<T>,
    b: Buffers<T>,
    f: spec_fn(Target, T) -> int,
    g: spec_fn(Target, T) -> int,
)
    requires
        from.len() <= usize::MAX,
        forall|n: int| 0 <= n < from.len() ==> (#[trigger] from[n]).len() <= usize::MAX,
        grown(from, a, f),
        grown(from, b, g),
        forall|target: Target, time: T|
            has_buffer(from, target) ==> wrap(
                count(buffer_at(from, target), time) + #[trigger] f(target, time),
            ) == wrap(count(buffer_at(from, target), time) + g(target, time)),
    ensures
        a == b,
{
    assert forall|n: int| 0 <= n < a.len() implies #[trigger] a[n] == b[n] by {
        assert(from[n].len() == a[n].len());
        assert(from[n].len() == b[n].len());
        assert forall|p: int| 0 <= p < a[n].len() implies #[trigger] a[n][p] == b[n][p] by {
            let at = Target { index: n as usize, port: p as usize };
            assert(has_buffer(from, at));
            assert(canonical(a[n][p]));
            assert(canonical(b[n][p]));
            assert forall|time: T| #[trigger] count(a[n][p], time) == count(b[n][p], time) by {
                assert(count(buffer_at(a, at), time) == wrap(
                    count(buffer_at(from, at), time) + f(at, time),
                ));
                assert(count(buffer_at(b, at), time) == wrap(
                    count(buffer_at(from, at), time) + g(at, time),
                ));
            }
            law_counts_determine(a[n][p], b[n][p]);
        }
        assert(a[n] =~= b[n]);
    }
    assert(a =~= b);
}

/// To propagate again at once changes nothing.
pub proof fn law_propagate_again<T: Timestamp>(state: Pointstamps<T>, pushed: Buffers<T>)
    requires
        state.wf(),
        state.in_range(),
        state.source == blanked(state.source),
        state.target == blanked(state.target),
        pushes(state, pushed),
    ensures
        pushed == state.pushed,
{
    let f = |target: Target, time: T| state.nodes_flow(state.target.len(), target, time);
    let none = |target: Target, time: T| 0int;
    lemma_grown_none(state.pushed);
    assert forall|target: Target, time: T| has_buffer(state.pushed, target) implies wrap(
        count(buffer_at(state.pushed, target), time) + #[trigger] f(target, time),
    ) == wrap(count(buffer_at(state.pushed, target), time) + none(target, time)) by {
        lemma_nodes_flow_blank(state, state.target.len(), target, time);
    }
    lemma_grown_same(state.pushed, pushed, state.pushed, f, none);
}

/// It does not matter in which order two nodes are propagated.
pub proof fn law_nodes_in_any_order<T: Timestamp>(
    state: Pointstamps<T>,
    i: int,
    j: int,
    one_way: (Buffers<T>, Buffers<T>),
    other_way: (Buffers<T>, Buffers<T>),
)
    requires
        state.wf(),
        i != j,
        0 <= i < state.source.len(),
        0 <= i < state.target.len(),
        0 <= j < state.source.len(),
        0 <= j < state.target.len(),
        node_pushes(state, i, one_way.0),
        node_pushes(state.drained_node(i, one_way.0), j, one_way.1),
        node_pushes(state, j, other_way.0),
        node_pushes(state.drained_node(j, other_way.0), i, other_way.1),
    ensures
        one_way.1 == other_way.1,
{
    let after_i = state.drained_node(i, one_way.0);
    let after_j = state.drained_node(j, other_way.0);
    let f1 = |t: Target, u: T| state.node_flow(i, t, u);
    let f2 = |t: Target, u: T| after_i.node_flow(j, t, u);
    let g1 = |t: Target, u: T| state.node_flow(j, t, u);
    let g2 = |t: Target, u: T| after_j.node_flow(i, t, u);
    let f = |t: Target, u: T| f1(t, u) + f2(t, u);
    let g = |t: Target, u: T| g1(t, u) + g2(t, u);
    lemma_grown_both(state.pushed, one_way.0, one_way.1, f1, f2, f);
    lemma_grown_both(state.pushed, other_way.0, other_way.1, g1, g2, g);
    lemma_grown_same(state.pushed, one_way.1, other_way.1, f, g);
}

pub proof fn lemma_nodes_flow_one<T: Timestamp>(
    a: Pointstamps<T>,
    b: Pointstamps<T>,
    index: int,
    more: int,
    nodes: nat,
    target: Target,
    result: T,
)
    requires
        0 <= index,
        forall|n: int|
            0 <= n < nodes && n != index ==> #[trigger] b.node_flow(n, target, result)
                == a.node_flow(n, target, result),
        b.node_flow(index, target, result) == a.node_flow(index, target, result) + more,
    ensures
        b.nodes_flow(nodes, target, result) == a.nodes_flow(nodes, target, result) + if index
            < nodes {
            more
        } else {
            0
        },
    decreases nodes,
{
    if nodes > 0 {
        lemma_nodes_flow_one(a, b, index, more, (nodes - 1) as nat, target, result);
        assert(nodes - 1 != index ==> b.node_flow(nodes - 1, target, result) == a.node_flow(
            nodes - 1,
            target,
            result,
        ));
    }
}

pub proof fn lemma_source_flow<T: Timestamp>(
    state: Pointstamps<T>,
    source: Source,
    changes: Seq<(T, i64)>,
    nodes: nat,
    target: Target,
    result: T,
)
    requires
        state.has_source(source),
        source.index < nodes,
        nodes <= state.source.len(),
    ensures
        state.with_source(source, changes).nodes_flow(nodes, target, result) == state.nodes_flow(
            nodes,
            target,
            result,
        ) + flow(row_at(state.source_target, source), changes, target, result) - flow(
            row_at(state.source_target, source),
            state.at_source(source),
            target,
            result,
        ),
{
    let index = source.index as int;
    let row = row_at(state.source_target, source);
    let more = flow(row, changes, target, result) - flow(
        row,
        state.at_source(source),
        target,
        result,
    );
    lemma_ports_flow_one(
        state.source_target[index],
        state.source[index],
        source.port as int,
        changes,
        state.source[index].len(),
        target,
        result,
    );
    lemma_nodes_flow_one(
        state,
        state.with_source(source, changes),
        index,
        more,
        nodes,
        target,
        result,
    );
}

pub proof fn lemma_target_flow<T: Timestamp>(
    state: Pointstamps<T>,
    from: Target,
    changes: Seq<(T, i64)>,
    nodes: nat,
    target: Target,
    result: T,
)
    requires
        state.has_target(from),
        from.index < nodes,
        nodes <= state.target.len(),
    ensures
        state.with_target(from, changes).nodes_flow(nodes, target, result) == state.nodes_flow(
            nodes,
            target,
            result,
        ) + flow(
            state.target_target[from.index as int][from.port as int],
            changes,
            target,
            result,
        ) - flow(
            state.target_target[from.index as int][from.port as int],
            state.at_target(from),
            target,
            result,
        ),
{
    let index = from.index as int;
    let row = state.target_target[index][from.port as int];
    let more = flow(row, changes, target, result) - flow(
        row,
        state.at_target(from),
        target,
        result,
    );
    lemma_ports_flow_one(
        state.target_target[index],
        state.target[index],
        from.port as int,
        changes,
        state.target[index].len(),
        target,
        result,
    );
    lemma_nodes_flow_one(
        state,
        state.with_target(from, changes),
        index,
        more,
        nodes,
        target,
        result,
    );
}

/// The consequences of three lists of changes, of which `sum` holds those of `base` and `item`
/// with `value`, and `only` holds the latter alone.
proof fn lemma_flow_splits<T: Timestamp>(
    row: Row<T::Summary>,
    base: Seq<(T, i64)>,
    sum: Seq<(T, i64)>,
    only: Seq<(T, i64)>,
    item: T,
    value: i64,
    target: Target,
    result: T,
    rest: int,
)
    requires
        canonical(base),
        changed(base, sum, item, value),
        changed(Seq::empty(), only, item, value),
    ensures
        wrap(rest + flow(row, sum, target, result)) == wrap(
            rest + flow(row, base, target, result) + flow(row, only, target, result),
        ),
{
    law_changes_add_up(row, base, sum, item, value, target, result);
    law_changes_add_up(row, Seq::empty(), only, item, value, target, result);
    let one = row_spread(row, item, value as int, target, result);
    let f_base = flow(row, base, target, result);
    lemma_wrap_add(rest, flow(row, sum, target, result));
    lemma_wrap_add(rest, f_base + one);
    lemma_wrap_add(rest + f_base, flow(row, only, target, result));
    lemma_wrap_add(rest + f_base, one);
}

/// It does not matter whether changes are propagated at once or later: to observe a change at an
/// output and then propagate pushes the same as to propagate, observe it and propagate again.
pub proof fn law_source_can_wait<T: Timestamp>(
    state: Pointstamps<T>,
    source: Source,
    time: T,
    value: i64,
    sum: Seq<(T, i64)>,
    only: Seq<(T, i64)>,
    later: Buffers<T>,
    first: Buffers<T>,
    second: Buffers<T>,
)
    requires
        state.wf(),
        state.in_range(),
        state.has_source(source),
        changed(state.at_source(source), sum, time, value),
        changed(Seq::empty(), only, time, value),
        pushes(state.with_source(source, sum), later),
        pushes(state, first),
        pushes(state.drained(first).with_source(source, only), second),
    ensures
        second == later,
{
    let nodes = state.target.len();
    let row = row_at(state.source_target, source);
    let base = state.at_source(source);
    let busy = state.with_source(source, sum);
    let quiet = state.drained(first);
    let again = quiet.with_source(source, only);
    assert(canonical(state.source[source.index as int][source.port as int]));
    assert(quiet.source[source.index as int].len() == state.source[source.index as int].len());
    let f = |t: Target, u: T| busy.nodes_flow(nodes, t, u);
    let g1 = |t: Target, u: T| state.nodes_flow(nodes, t, u);
    let g2 = |t: Target, u: T| again.nodes_flow(nodes, t, u);
    let g = |t: Target, u: T| g1(t, u) + g2(t, u);
    lemma_grown_both(state.pushed, first, second, g1, g2, g);
    assert forall|t: Target, u: T| has_buffer(state.pushed, t) implies wrap(
        count(buffer_at(state.pushed, t), u) + #[trigger] f(t, u),
    ) == wrap(count(buffer_at(state.pushed, t), u) + g(t, u)) by {
        let c = count(buffer_at(state.pushed, t), u);
        lemma_source_flow(state, source, sum, nodes, t, u);
        lemma_source_flow(quiet, source, only, nodes, t, u);
        lemma_drained_blank(state, first);
        lemma_nodes_flow_blank(quiet, nodes, t, u);
        assert(quiet.at_source(source) =~= Seq::empty());
        lemma_flow_splits(
            row,
            base,
            sum,
            only,
            time,
            value,
            t,
            u,
            c + state.nodes_flow(nodes, t, u) - flow(row, base, t, u),
        );
    }
    lemma_grown_same(state.pushed, later, second, f, g);
}

/// The same for a change at an input.
pub proof fn law_target_can_wait<T: Timestamp>(
    state: Pointstamps<T>,
    from: Target,
    time: T,
    value: i64,
    sum: Seq<(T, i64)>,
    only: Seq<(T, i64)>,
    later: Buffers<T>,
    first: Buffers<T>,
    second: Buffers<T>,
)
    requires
        state.wf(),
        state.in_range(),
        state.has_target(from),
        changed(state.at_target(from), sum, time, value),
        changed(Seq::empty(), only, time, value),
        pushes(state.with_target(from, sum), later),
        pushes(state, first),
        pushes(state.drained(first).with_target(from, only), second),
    ensures
        second == later,
{
    let nodes = state.target.len();
    let row = state.target_target[from.index as int][from.port as int];
    let base = state.at_target(from);
    let busy = state.with_target(from, sum);
    let quiet = state.drained(first);
    let again = quiet.with_target(from, only);
    assert(canonical(state.target[from.index as int][from.port as int]));
    assert(quiet.target[from.index as int].len() == state.target[from.index as int].len());
    let f = |t: Target, u: T| busy.nodes_flow(nodes, t, u);
    let g1 = |t: Target, u: T| state.nodes_flow(nodes, t, u);
    let g2 = |t: Target, u: T| again.nodes_flow(nodes, t, u);
    let g = |t: Target, u: T| g1(t, u) + g2(t, u);
    lemma_grown_both(state.pushed, first, second, g1, g2, g);
    assert forall|t: Target, u: T| has_buffer(state.pushed, t) implies wrap(
        count(buffer_at(state.pushed, t), u) + #[trigger] f(t, u),
    ) == wrap(count(buffer_at(state.pushed, t), u) + g(t, u)) by {
        let c = count(buffer_at(state.pushed, t), u);
        lemma_target_flow(state, from, sum, nodes, t, u);
        lemma_target_flow(quiet, from, only, nodes, t, u);
        lemma_drained_blank(state, first);
        lemma_nodes_flow_blank(quiet, nodes, t, u);
        assert(quiet.at_target(from) =~= Seq::empty());
        lemma_flow_splits(
            row,
            base,
            sum,
            only,
            time,
            value,
            t,
            u,
            c + state.nodes_flow(nodes, t, u) - flow(row, base, t, u),
        );
    }
    lemma_grown_same(state.pushed, later, second, f, g);
}

pub proof fn lemma_drained_blank<T: Timestamp>(state: Pointstamps<T>, pushed: Buffers<T>)
    ensures
        state.drained(pushed).source == blanked(state.drained(pushed).source),
        state.drained(pushed).target == blanked(state.drained(pushed).target),
{
    assert(blanked(blanked(state.source)) =~= blanked(state.source));
    assert(blanked(blanked(state.target)) =~= blanked(state.target));
}

/// No count is negative.
pub open spec fn no_negative<T>(buffers: Buffers<T>) -> bool {
    forall|n: int, p: int, k: int|
        0 <= n < buffers.len() && 0 <= p < buffers[n].len() && 0 <= k < buffers[n][p].len() ==> (
        #[trigger] buffers[n][p][k]).1 >= 0
}

/// The tracker is one for this graph.
pub open spec fn tracks<T: Timestamp>(state: Pointstamps<T>, graph: Topology<T::Summary>) -> bool {
    &&& graph.wf()
    &&& graph.defined()
    &&& state.wf()
    &&& state.source_target == graph.source_table()
    &&& state.target_target == graph.target_table()
}

proof fn lemma_ports_flow_positive<T: Timestamp>(
    rows: Seq<Row<T::Summary>>,
    buffers: Seq<Seq<(T, i64)>>,
    ports: nat,
    port: int,
    target: Target,
    result: T,
)
    requires
        ports <= buffers.len(),
        forall|p: int, k: int|
            0 <= p < buffers.len() && 0 <= k < buffers[p].len() ==> (#[trigger] buffers[p][k]).1
                >= 0,
    ensures
        ports_flow(rows, buffers, ports, target, result) >= 0,
        0 <= port < ports && flow(rows[port], buffers[port], target, result) > 0 ==> ports_flow(
            rows,
            buffers,
            ports,
            target,
            result,
        ) > 0,
    decreases ports,
{
    if ports > 0 {
        lemma_ports_flow_positive(rows, buffers, (ports - 1) as nat, port, target, result);
        lemma_flow_positive(rows[ports - 1], buffers[ports - 1], target, result, 0, 0, 0);
    }
}

proof fn lemma_node_flow_positive<T: Timestamp>(
    state: Pointstamps<T>,
    index: int,
    port: int,
    target: Target,
    result: T,
)
    requires
        no_negative(state.source),
        no_negative(state.target),
        0 <= index < state.source.len(),
        0 <= index < state.target.len(),
    ensures
        state.node_flow(index, target, result) >= 0,
        0 <= port < state.source[index].len() && flow(
            state.source_target[index][port],
            state.source[index][port],
            target,
            result,
        ) > 0 ==> state.node_flow(index, target, result) > 0,
        0 <= port < state.target[index].len() && flow(
            state.target_target[index][port],
            state.target[index][port],
            target,
            result,
        ) > 0 ==> state.node_flow(index, target, result) > 0,
{
    lemma_ports_flow_positive(
        state.source_target[index],
        state.source[index],
        state.source[index].len(),
        port,
        target,
        result,
    );
    lemma_ports_flow_positive(
        state.target_target[index],
        state.target[index],
        state.target[index].len(),
        port,
        target,
        result,
    );
}

proof fn lemma_nodes_flow_positive<T: Timestamp>(
    state: Pointstamps<T>,
    nodes: nat,
    index: int,
    target: Target,
    result: T,
)
    requires
        no_negative(state.source),
        no_negative(state.target),
        nodes <= state.source.len(),
        nodes <= state.target.len(),
    ensures
        state.nodes_flow(nodes, target, result) >= 0,
        0 <= index < nodes && state.node_flow(index, target, result) > 0 ==> state.nodes_flow(
            nodes,
            target,
            result,
        ) > 0,
    decreases nodes,
{
    if nodes > 0 {
        lemma_nodes_flow_positive(state, (nodes - 1) as nat, index, target, result);
        lemma_node_flow_positive(state, nodes - 1, 0, target, result);
    }
}

/// What was observed at an output reaches each input that paths lead to: along whichever path a
/// timestamp moves, propagation pushes a count there for one that is no later than what the
/// timestamp becomes, if no negative count was observed anywhere.
pub proof fn law_observed_at_source_reaches<T: Timestamp>(
    graph: Topology<T::Summary>,
    state: Pointstamps<T>,
    pushed: Buffers<T>,
    source: Source,
    n: int,
    target: Target,
    x: T::Summary,
    late: T,
) -> (early: T)
    requires
        tracks(state, graph),
        state.in_range(),
        left_monotone::<T::Summary>(),
        advancing::<T>(),
        no_negative(state.source),
        no_negative(state.target),
        pushes(state, pushed),
        state.has_source(source),
        0 <= n < state.at_source(source).len(),
        graph.path(source, target, x),
        x.apply(state.at_source(source)[n].0) == Some(late),
    ensures
        early.leq(late),
        has_buffer(state.pushed, target),
        state.nodes_flow(state.target.len(), target, early) > 0,
        ({
            let was = count(buffer_at(state.pushed, target), early);
            let more = state.nodes_flow(state.target.len(), target, early);
            was >= 0 && was + more < 0x8000_0000_0000_0000 ==> count(
                buffer_at(pushed, target),
                early,
            ) > 0
        }),
{
    let row = row_at(state.source_target, source);
    let changes = state.at_source(source);
    lemma_source_table_complete(graph, source, target, x);
    assert(canonical(state.source[source.index as int][source.port as int]));
    assert forall|m: int| 0 <= m < changes.len() implies (#[trigger] changes[m]).1 >= 0 by {
        assert(state.source[source.index as int][source.port as int][m].1 >= 0);
    }
    assert(changes[n].1 != 0);
    let early = lemma_flow_reaches(row, changes, n, target, x, late);
    lemma_node_flow_positive(state, source.index as int, source.port as int, target, early);
    lemma_nodes_flow_positive(state, state.target.len(), source.index as int, target, early);
    assert(state.leads_from(source.index as int));
    assert(row_leads(state.source_target[source.index as int][source.port as int], state.pushed));
    lemma_dominated_has_buffer(row, state.pushed, target, x);
    lemma_pushed_positive(state, pushed, target, early);
    early
}

/// The same of what was observed at an input.
pub proof fn law_observed_at_target_reaches<T: Timestamp>(
    graph: Topology<T::Summary>,
    state: Pointstamps<T>,
    pushed: Buffers<T>,
    from: Target,
    n: int,
    target: Target,
    x: T::Summary,
    late: T,
) -> (early: T)
    requires
        tracks(state, graph),
        state.in_range(),
        monotone::<T::Summary>(),
        advancing::<T>(),
        no_negative(state.source),
        no_negative(state.target),
        pushes(state, pushed),
        state.has_target(from),
        0 <= n < state.at_target(from).len(),
        graph.route(from, target, x),
        x.apply(state.at_target(from)[n].0) == Some(late),
    ensures
        early.leq(late),
        has_buffer(state.pushed, target),
        state.nodes_flow(state.target.len(), target, early) > 0,
        ({
            let was = count(buffer_at(state.pushed, target), early);
            let more = state.nodes_flow(state.target.len(), target, early);
            was >= 0 && was + more < 0x8000_0000_0000_0000 ==> count(
                buffer_at(pushed, target),
                early,
            ) > 0
        }),
{
    lemma_target_of_graph(graph, state, from);
    let row = graph.target_row(from);
    let changes = state.at_target(from);
    lemma_target_row_complete(graph, from, target, x);
    assert(canonical(state.target[from.index as int][from.port as int]));
    assert forall|m: int| 0 <= m < changes.len() implies (#[trigger] changes[m]).1 >= 0 by {
        assert(state.target[from.index as int][from.port as int][m].1 >= 0);
    }
    assert(changes[n].1 != 0);
    let early = lemma_flow_reaches(row, changes, n, target, x, late);
    lemma_node_flow_positive(state, from.index as int, from.port as int, target, early);
    lemma_nodes_flow_positive(state, state.target.len(), from.index as int, target, early);
    assert(state.leads_from(from.index as int));
    assert(row_leads(state.target_target[from.index as int][from.port as int], state.pushed));
    lemma_dominated_has_buffer(row, state.pushed, target, x);
    lemma_pushed_positive(state, pushed, target, early);
    early
}

/// A target for which the row lists something has a buffer.
proof fn lemma_dominated_has_buffer<T, S: PathAlgebra>(
    row: Row<S>,
    buffers: Buffers<T>,
    target: Target,
    x: S,
)
    requires
        row_leads(row, buffers),
        dominated(summaries(row, target), x),
    ensures
        has_buffer(buffers, target),
{
    let listed = summaries(row, target);
    let j = choose|j: int| 0 <= j < listed.len() && (#[trigger] listed[j]).leq(x);
    assert(listed.contains(listed[j]));
    let (k, i) = lemma_listed_place(row, target, listed[j]);
    assert(has_buffer(buffers, row[k].0));
}

proof fn lemma_pushed_positive<T: Timestamp>(
    state: Pointstamps<T>,
    pushed: Buffers<T>,
    target: Target,
    time: T,
)
    requires
        pushes(state, pushed),
        has_buffer(state.pushed, target),
        state.nodes_flow(state.target.len(), target, time) > 0,
    ensures
        count(buffer_at(state.pushed, target), time) >= 0 && count(
            buffer_at(state.pushed, target),
            time,
        ) + state.nodes_flow(state.target.len(), target, time) < 0x8000_0000_0000_0000 ==> count(
            buffer_at(pushed, target),
            time,
        ) > 0,
{
    assert(count(buffer_at(pushed, target), time) == wrap(
        count(buffer_at(state.pushed, target), time) + state.nodes_flow(
            state.target.len(),
            target,
            time,
        ),
    ));
}

/// An input port of the tracker is one of the graph, with the row of that.
proof fn lemma_target_of_graph<T: Timestamp>(
    graph: Topology<T::Summary>,
    state: Pointstamps<T>,
    from: Target,
)
    requires
        tracks(state, graph),
        state.has_target(from),
    ensures
        graph.has_target(from),
        state.target_target[from.index as int][from.port as int] == graph.target_row(from),
{
    assert(state.target[from.index as int].len() == state.target_target[from.index as int].len());
    assert(graph.nodes[from.index as int].len() == graph.shape[from.index as int].0);
}

proof fn lemma_ports_flow_hits<T: Timestamp>(
    rows: Seq<Row<T::Summary>>,
    buffers: Seq<Seq<(T, i64)>>,
    ports: nat,
    target: Target,
    result: T,
) -> (port: int)
    requires
        ports_flow(rows, buffers, ports, target, result) != 0,
    ensures
        0 <= port < ports,
        flow(rows[port], buffers[port], target, result) != 0,
    decreases ports,
{
    if flow(rows[ports - 1], buffers[ports - 1], target, result) != 0 {
        ports - 1
    } else {
        lemma_ports_flow_hits(rows, buffers, (ports - 1) as nat, target, result)
    }
}

proof fn lemma_nodes_flow_hits<T: Timestamp>(
    state: Pointstamps<T>,
    nodes: nat,
    target: Target,
    result: T,
) -> (index: int)
    requires
        state.nodes_flow(nodes, target, result) != 0,
    ensures
        0 <= index < nodes,
        state.node_flow(index, target, result) != 0,
    decreases nodes,
{
    if state.node_flow(nodes - 1, target, result) != 0 {
        nodes - 1
    } else {
        lemma_nodes_flow_hits(state, (nodes - 1) as nat, target, result)
    }
}

/// A timestamp was observed at an output from which a path makes `result` of it at `target`.
pub open spec fn comes_of_source<T: Timestamp>(
    graph: Topology<T::Summary>,
    state: Pointstamps<T>,
    target: Target,
    result: T,
) -> bool {
    exists|source: Source, n: int, x: T::Summary|
        state.has_source(source) && 0 <= n < state.at_source(source).len() && #[trigger] graph.path(
            source,
            target,
            x,
        ) && #[trigger] x.apply(state.at_source(source)[n].0) == Some(result)
}

/// A timestamp was observed at an input from which a path makes `result` of it at `target`.
pub open spec fn comes_of_target<T: Timestamp>(
    graph: Topology<T::Summary>,
    state: Pointstamps<T>,
    target: Target,
    result: T,
) -> bool {
    exists|from: Target, n: int, x: T::Summary|
        state.has_target(from) && 0 <= n < state.at_target(from).len() && #[trigger] graph.route(
            from,
            target,
            x,
        ) && #[trigger] x.apply(state.at_target(from)[n].0) == Some(result)
}

/// Propagation changes a count only for what an observed timestamp becomes along a path that
/// there is.
pub proof fn law_only_observed_reaches<T: Timestamp>(
    graph: Topology<T::Summary>,
    state: Pointstamps<T>,
    pushed: Buffers<T>,
    target: Target,
    result: T,
)
    requires
        tracks(state, graph),
        state.in_range(),
        pushes(state, pushed),
        has_buffer(state.pushed, target),
        count(buffer_at(pushed, target), result) != count(buffer_at(state.pushed, target), result),
    ensures
        comes_of_source(graph, state, target, result) || comes_of_target(
            graph,
            state,
            target,
            result,
        ),
{
    let nodes = state.target.len();
    let was = buffer_at(state.pushed, target);
    assert(canonical(state.pushed[target.index as int][target.port as int]));
    lemma_count_fits(was, result);
    assert(count(buffer_at(pushed, target), result) == wrap(
        count(was, result) + state.nodes_flow(nodes, target, result),
    ));
    let index = lemma_nodes_flow_hits(state, nodes, target, result);
    let inputs = state.target[index].len();
    let outputs = state.source[index].len();
    if ports_flow(state.target_target[index], state.target[index], inputs, target, result) != 0 {
        let port = lemma_ports_flow_hits(
            state.target_target[index],
            state.target[index],
            inputs,
            target,
            result,
        );
        lemma_table_limits(graph);
        assert(state.target[index].len() == state.target_target[index].len());
        let from = Target { index: index as usize, port: port as usize };
        lemma_target_of_graph(graph, state, from);
        lemma_target_row_sound(graph, from, target, T::Summary::identity());
        let (n, x) = lemma_flow_hits(
            graph.target_row(from),
            state.at_target(from),
            target,
            result,
        );
        lemma_target_row_sound(graph, from, target, x);
        assert(graph.route(from, target, x));
    } else {
        let port = lemma_ports_flow_hits(
            state.source_target[index],
            state.source[index],
            outputs,
            target,
            result,
        );
        lemma_table_limits(graph);
        assert(state.source[index].len() == state.source_target[index].len());
        let source = Source { index: index as usize, port: port as usize };
        lemma_source_table_sound(graph);
        assert(state.source_target[index].len() == graph.shape[index].1);
        assert(graph.has_source(source));
        let row = row_at(graph.source_table(), source);
        assert(row_wf(row));
        let (n, x) = lemma_flow_hits(row, state.at_source(source), target, result);
        assert(graph.path(source, target, x));
    }
}

proof fn lemma_table_limits<S: PathAlgebra>(graph: Topology<S>)
    requires
        graph.wf(),
        graph.defined(),
    ensures
        graph.fits_sources(graph.source_table()),
        graph.fits_targets(graph.target_table()),
{
    lemma_source_table_lists(graph);
    lemma_target_table_lists(graph);
}

/// A tracker that was cleared is as it was when it was allocated.
pub proof fn law_clear_restores<T: Timestamp>(state: Pointstamps<T>)
    requires
        state.wf(),
        same_shape(
            state.pushed,
            blank_for_both::<T, T::Summary>(state.source_target, state.target_target),
        ),
    ensures
        blanked(state.source) == blank_for::<T, T::Summary>(state.source_target),
        blanked(state.target) == blank_for::<T, T::Summary>(state.target_target),
        blanked(state.pushed) == blank_for_both::<T, T::Summary>(
            state.source_target,
            state.target_target,
        ),
{
    assert(blanked(state.source) =~= blank_for::<T, T::Summary>(state.source_target));
    assert(blanked(state.target) =~= blank_for::<T, T::Summary>(state.target_target));
    let fresh = blank_for_both::<T, T::Summary>(state.source_target, state.target_target);
    assert forall|n: int| 0 <= n < fresh.len() implies #[trigger] blanked(state.pushed)[n]
        == fresh[n] by {
        assert(state.pushed[n].len() == fresh[n].len());
    }
    assert(blanked(state.pushed) =~= fresh);
}

} // verus!
