//! What the compiled tables list.

use crate::order::PartialOrder;
use crate::progress::change_batch::ChangeBatch;
use crate::progress::frontier::{Antichain, dominated, offered};
use crate::progress::nested::reachability::builder::{
    Summary, antichains_view, edges_view, first_idle, first_undefined, nodes_view, ports_view,
};
use crate::progress::nested::reachability::graphs::law_moves_make_a_path;
use crate::progress::nested::reachability::minimal::{
    law_idle_loops, lemma_source_table_complete, lemma_source_table_lists,
    lemma_target_row_complete, lemma_target_table_lists,
};
use crate::progress::nested::reachability::row::{
    Row, first_at, lemma_position, lemma_position_is, lemma_row_entry, lists, position, row_offered,
    row_view, summaries,
};
use crate::progress::nested::reachability::search::row_at;
use crate::progress::nested::reachability::topology::Topology;
use crate::progress::nested::reachability::tracker::{batches_view, buffers_view};
use crate::progress::nested::{Source, Target};
use crate::progress::sequences::{lemma_flat_ascends, lemma_flat_at, lemma_flat_place};
use crate::progress::timestamp::{
    PathAlgebra, PathSummary, Timestamp, acting, advancing, left_monotone, monotone,
};
use vstd::prelude::*;

verus! {

/// What contracts say of lists of antichains they say of each antichain in its place.
pub proof fn law_views_show_nodes<S>(
    nodes: Seq<Vec<Vec<Antichain<S>>>>,
    edges: Seq<Vec<Vec<Target>>>,
    n: int,
    i: int,
    o: int,
)
    ensures
        nodes_view(nodes).len() == nodes.len(),
        edges_view(edges).len() == edges.len(),
        0 <= n < nodes.len() ==> {
            &&& nodes_view(nodes)[n] == ports_view(nodes[n]@)
            &&& ports_view(nodes[n]@).len() == nodes[n]@.len()
            &&& 0 <= i < nodes[n]@.len() ==> {
                &&& ports_view(nodes[n]@)[i].len() == nodes[n]@[i]@.len()
                &&& antichains_view(nodes[n]@[i]@).len() == nodes[n]@[i]@.len()
                &&& 0 <= o < nodes[n]@[i]@.len() ==> {
                    &&& ports_view(nodes[n]@)[i][o] == nodes[n]@[i]@[o]@
                    &&& antichains_view(nodes[n]@[i]@)[o] == nodes[n]@[i]@[o]@
                }
            }
        },
        0 <= n < edges.len() ==> {
            &&& edges_view(edges)[n].len() == edges[n]@.len()
            &&& 0 <= i < edges[n]@.len() ==> edges_view(edges)[n][i] == edges[n]@[i]@
        },
{
}

/// What contracts say of a summary they say of each of its entries in its place: the tables have
/// the same rows, of the same targets, with the same summaries, in the same order.
pub proof fn law_views_show_tables<T: Timestamp>(summary: Summary<T>, n: int, p: int, k: int)
    ensures
        summary.source_table().len() == summary.source_target@.len(),
        0 <= n < summary.source_target@.len() ==> {
            let rows = summary.source_target@[n]@;
            &&& summary.source_table()[n].len() == rows.len()
            &&& 0 <= p < rows.len() ==> {
                &&& summary.source_table()[n][p].len() == rows[p]@.len()
                &&& 0 <= k < rows[p]@.len() ==> {
                    &&& summary.source_table()[n][p][k].0 == rows[p]@[k].0
                    &&& summary.source_table()[n][p][k].1 == rows[p]@[k].1@
                }
            }
        },
        summary.target_table().len() == summary.target_target@.len(),
        0 <= n < summary.target_target@.len() ==> {
            let rows = summary.target_target@[n]@;
            &&& summary.target_table()[n].len() == rows.len()
            &&& 0 <= p < rows.len() ==> {
                &&& summary.target_table()[n][p].len() == rows[p]@.len()
                &&& 0 <= k < rows[p]@.len() ==> {
                    &&& summary.target_table()[n][p][k].0 == rows[p]@[k].0
                    &&& summary.target_table()[n][p][k].1 == rows[p]@[k].1@
                }
            }
        },
{
}

/// What contracts say of lists of batches, or of a row, they say of each in its place.
pub proof fn law_views_show_lists<T, S>(
    nodes: Seq<Vec<ChangeBatch<T>>>,
    batches: Seq<ChangeBatch<T>>,
    row: Seq<(Target, Antichain<S>)>,
    n: int,
    p: int,
)
    ensures
        buffers_view(nodes).len() == nodes.len(),
        0 <= n < nodes.len() ==> {
            &&& buffers_view(nodes)[n].len() == nodes[n]@.len()
            &&& 0 <= p < nodes[n]@.len() ==> buffers_view(nodes)[n][p] == nodes[n]@[p]@
        },
        batches_view(batches).len() == batches.len(),
        0 <= p < batches.len() ==> batches_view(batches)[p] == batches[p]@,
        row_view(row).len() == row.len(),
        0 <= p < row.len() ==> row_view(row)[p].0 == row[p].0 && row_view(row)[p].1 == row[p].1@,
{
}

/// A summary for a target is offered to the first entry of that target, and all other entries stay
/// as they are. Without such an entry there is a new one, behind the others, with that summary.
pub proof fn law_row_takes_in<S: PartialOrder>(row: Row<S>, target: Target, x: S, i: int, j: int)
    requires
        0 <= i <= row.len(),
        forall|k: int| 0 <= k < i ==> (#[trigger] row[k]).0 != target,
        i < row.len() ==> row[i].0 == target,
    ensures
        i < row.len() ==> {
            &&& summaries(row, target) == row[i].1
            &&& row_offered(row, target, x).len() == row.len()
            &&& row_offered(row, target, x)[i].0 == target
            &&& row_offered(row, target, x)[i].1 == offered(row[i].1, x)
            &&& 0 <= j < row.len() && j != i ==> row_offered(row, target, x)[j] == row[j]
        },
        i == row.len() ==> {
            &&& summaries(row, target) == Seq::<S>::empty()
            &&& row_offered(row, target, x).len() == row.len() + 1
            &&& row_offered(row, target, x)[i].0 == target
            &&& row_offered(row, target, x)[i].1.len() == 1
            &&& row_offered(row, target, x)[i].1[0] == x
            &&& 0 <= j < row.len() ==> row_offered(row, target, x)[j] == row[j]
        },
{
    if i < row.len() {
        assert(first_at(row, target, i));
        lemma_position_is(row, target, i);
    } else {
        assert(!lists(row, target));
    }
}

/// What is listed from an output: there is a row for each output. It lists each target once, with
/// at least one summary, and none of its summaries is at most another one. Each is the summary of
/// a path from the output to the target, and the target exists.
pub proof fn law_sources_list_paths<S: PathAlgebra>(
    graph: Topology<S>,
    n: usize,
    p: usize,
    k: int,
    other: int,
    m: int,
    l: int,
)
    requires
        graph.wf(),
        graph.defined(),
        n < graph.shape.len(),
    ensures
        graph.source_table().len() == graph.shape.len(),
        graph.source_table()[n as int].len() == graph.shape[n as int].1,
        p < graph.shape[n as int].1 && 0 <= k < graph.source_table()[n as int][p as int].len() ==> {
            let row = graph.source_table()[n as int][p as int];
            &&& row[k].1.len() > 0
            &&& row[k].0.index < graph.shape.len()
            &&& row[k].0.port < graph.shape[row[k].0.index as int].0
            &&& 0 <= other < row.len() && other != k ==> row[other].0 != row[k].0
            &&& 0 <= m < row[k].1.len() ==> graph.path(
                Source { index: n, port: p },
                row[k].0,
                row[k].1[m],
            )
            &&& 0 <= m < row[k].1.len() && 0 <= l < row[k].1.len() && l != m
                ==> !row[k].1[m].leq(row[k].1[l])
        },
{
    lemma_source_table_lists(graph);
    let table = graph.source_table();
    let source = Source { index: n, port: p };
    if p < graph.shape[n as int].1 && 0 <= k < table[n as int][p as int].len() {
        let row = row_at(table, source);
        assert(row == table[n as int][p as int]);
        lemma_row_entry(row, k);
        assert(graph.has_source(source));
        if 0 <= m < row[k].1.len() {
            assert(summaries(row, row[k].0).contains(row[k].1[m]));
        }
    }
}

/// Each path from an output to a target is listed there, by its own summary or by one that is at
/// most that, where lesser summaries remain so with a path behind them.
pub proof fn law_paths_are_listed<S: PathAlgebra>(
    graph: Topology<S>,
    source: Source,
    target: Target,
    x: S,
) -> (place: (int, int))
    requires
        graph.wf(),
        graph.defined(),
        left_monotone::<S>(),
        graph.path(source, target, x),
    ensures
        source.index < graph.shape.len(),
        source.port < graph.shape[source.index as int].1,
        ({
            let row = graph.source_table()[source.index as int][source.port as int];
            &&& 0 <= place.0 < row.len()
            &&& row[place.0].0 == target
            &&& 0 <= place.1 < row[place.0].1.len()
            &&& row[place.0].1[place.1].leq(x)
        }),
{
    lemma_source_table_complete(graph, source, target, x);
    lemma_place(row_at(graph.source_table(), source), target, x)
}

proof fn lemma_place<S: PathAlgebra>(row: Row<S>, target: Target, x: S) -> (place: (int, int))
    requires
        dominated(summaries(row, target), x),
    ensures
        0 <= place.0 < row.len(),
        row[place.0].0 == target,
        0 <= place.1 < row[place.0].1.len(),
        row[place.0].1[place.1].leq(x),
{
    let listed = summaries(row, target);
    let m = choose|m: int| 0 <= m < listed.len() && (#[trigger] listed[m]).leq(x);
    assert(lists(row, target));
    lemma_position(row, target);
    (position(row, target), m)
}

/// Whatever the order of summaries is, an edge is listed by a summary that is at most the
/// identity.
pub proof fn law_edges_are_listed<S: PathAlgebra>(
    graph: Topology<S>,
    n: usize,
    p: usize,
    k: int,
) -> (place: (int, int))
    requires
        graph.wf(),
        graph.defined(),
        n < graph.edges.len(),
        p < graph.edges[n as int].len(),
        0 <= k < graph.edges[n as int][p as int].len(),
    ensures
        ({
            let row = graph.source_table()[n as int][p as int];
            &&& 0 <= place.0 < row.len()
            &&& row[place.0].0 == graph.edges[n as int][p as int][k]
            &&& 0 <= place.1 < row[place.0].1.len()
            &&& row[place.0].1[place.1].leq(S::identity())
        }),
{
    let source = Source { index: n, port: p };
    let target = graph.edges[n as int][p as int][k];
    lemma_source_table_lists(graph);
    assert(graph.links(source)[k] == target);
    assert(graph.links(source).contains(target));
    lemma_place(row_at(graph.source_table(), source), target, S::identity())
}

/// Whatever the order of summaries is: where a summary is listed for a target, and a path inside
/// its node and an edge lead on, the next target is listed too, by the composition or by a summary
/// that is at most that.
pub proof fn law_listed_paths_go_on<S: PathAlgebra>(
    graph: Topology<S>,
    source: Source,
    k: int,
    m: int,
    port: usize,
    j: int,
    e: int,
) -> (place: (int, int))
    requires
        graph.wf(),
        graph.defined(),
        source.index < graph.shape.len(),
        source.port < graph.shape[source.index as int].1,
        ({
            let row = graph.source_table()[source.index as int][source.port as int];
            let mid = row[k].0;
            &&& 0 <= k < row.len()
            &&& 0 <= m < row[k].1.len()
            &&& port < graph.shape[mid.index as int].1
            &&& 0 <= j < graph.nodes[mid.index as int][mid.port as int][port as int].len()
            &&& mid.index < graph.edges.len()
            &&& port < graph.edges[mid.index as int].len()
            &&& 0 <= e < graph.edges[mid.index as int][port as int].len()
            &&& row[k].1[m].compose(
                graph.nodes[mid.index as int][mid.port as int][port as int][j],
            ) is Some
        }),
    ensures
        ({
            let row = graph.source_table()[source.index as int][source.port as int];
            let mid = row[k].0;
            &&& 0 <= place.0 < row.len()
            &&& row[place.0].0 == graph.edges[mid.index as int][port as int][e]
            &&& 0 <= place.1 < row[place.0].1.len()
            &&& row[place.0].1[place.1].leq(
                row[k].1[m].compose(
                    graph.nodes[mid.index as int][mid.port as int][port as int][j],
                )->0,
            )
        }),
{
    lemma_source_table_lists(graph);
    let table = graph.source_table();
    let row = row_at(table, source);
    assert(row == table[source.index as int][source.port as int]);
    let mid = row[k].0;
    let y = row[k].1[m];
    lemma_row_entry(row, k);
    assert(summaries(row, mid).contains(y));
    assert(graph.has_target(mid));
    assert(graph.nodes[mid.index as int].len() == graph.shape[mid.index as int].0);
    assert(graph.nodes[mid.index as int][mid.port as int].len()
        == graph.shape[mid.index as int].1);
    let x = y.compose(graph.inner(mid, port as int)[j])->0;
    let out = Source { index: mid.index, port };
    let target = graph.edges[mid.index as int][port as int][e];
    assert(graph.links(out)[e] == target);
    assert(graph.links(out).contains(target));
    assert(y.compose(graph.inner(mid, port as int)[j]) == Some(x));
    assert(graph.hop(mid, y, target, x));
    lemma_place(row, target, x)
}

/// A timestamp that moves along edges and through nodes, from an output to an input, is listed
/// there: one of the summaries listed for the input takes it to a timestamp that is no later.
pub proof fn law_moves_are_listed<T: Timestamp>(
    graph: Topology<T::Summary>,
    source: Source,
    stops: Seq<Target>,
    ports: Seq<usize>,
    picks: Seq<T::Summary>,
    times: Seq<T>,
) -> (place: (int, int))
    requires
        graph.wf(),
        graph.defined(),
        acting::<T>(),
        left_monotone::<T::Summary>(),
        advancing::<T>(),
        stops.len() == ports.len() + 1,
        picks.len() == ports.len(),
        times.len() == ports.len() + 1,
        source.index < graph.edges.len(),
        source.port < graph.edges[source.index as int].len(),
        graph.edges[source.index as int][source.port as int].contains(stops[0]),
        forall|k: int|
            0 <= k < ports.len() ==> {
                let stop = #[trigger] stops[k];
                &&& ports[k] < graph.nodes[stop.index as int][stop.port as int].len()
                &&& graph.nodes[stop.index as int][stop.port as int][ports[k] as int].contains(
                    picks[k],
                )
                &&& stop.index < graph.edges.len()
                &&& ports[k] < graph.edges[stop.index as int].len()
                &&& graph.edges[stop.index as int][ports[k] as int].contains(stops[k + 1])
                &&& picks[k].apply(times[k]) == Some(times[k + 1])
            },
    ensures
        ({
            let row = graph.source_table()[source.index as int][source.port as int];
            &&& 0 <= place.0 < row.len()
            &&& row[place.0].0 == stops.last()
            &&& 0 <= place.1 < row[place.0].1.len()
            &&& row[place.0].1[place.1].apply(times[0]) is Some
            &&& row[place.0].1[place.1].apply(times[0])->0.leq(times.last())
        }),
{
    let x = law_moves_make_a_path(graph, source, stops, ports, picks, times);
    let place = law_paths_are_listed(graph, source, stops.last(), x);
    let row = graph.source_table()[source.index as int][source.port as int];
    let listed = row[place.0].1[place.1];
    assert(x.apply(times[0]) is Some);
    assert(listed.apply(times[0]) is Some);
    place
}

/// What is listed from an input: there is a row for each input. It lists each target once, with at
/// least one summary, and none of its summaries is at most another one. Each is the identity, to
/// the input itself, or that of a path inside the node with one from an output behind it.
pub proof fn law_targets_list_paths<S: PathAlgebra>(
    graph: Topology<S>,
    n: usize,
    i: usize,
    k: int,
    other: int,
    m: int,
    l: int,
)
    requires
        graph.wf(),
        graph.defined(),
        n < graph.shape.len(),
    ensures
        graph.target_table().len() == graph.shape.len(),
        graph.target_table()[n as int].len() == graph.shape[n as int].0,
        i < graph.shape[n as int].0 && 0 <= k < graph.target_table()[n as int][i as int].len() ==> {
            let row = graph.target_table()[n as int][i as int];
            &&& row[k].1.len() > 0
            &&& row[k].0.index < graph.shape.len()
            &&& row[k].0.port < graph.shape[row[k].0.index as int].0
            &&& 0 <= other < row.len() && other != k ==> row[other].0 != row[k].0
            &&& 0 <= m < row[k].1.len() ==> {
                ||| row[k].0 == (Target { index: n, port: i }) && row[k].1[m] == S::identity()
                ||| exists|port: usize, j: int, y: S|
                    port < graph.shape[n as int].1 && 0 <= j
                        < graph.nodes[n as int][i as int][port as int].len()
                        && #[trigger] graph.path(Source { index: n, port }, row[k].0, y) && (
                    #[trigger] graph.nodes[n as int][i as int][port as int][j]).compose(y) == Some(
                        row[k].1[m],
                    )
            }
            &&& 0 <= m < row[k].1.len() && 0 <= l < row[k].1.len() && l != m
                ==> !row[k].1[m].leq(row[k].1[l])
        },
{
    lemma_target_table_lists(graph);
    let table = graph.target_table();
    let from = Target { index: n, port: i };
    assert(graph.nodes[n as int].len() == graph.shape[n as int].0);
    if i < graph.shape[n as int].0 && 0 <= k < table[n as int][i as int].len() {
        let row = table[n as int][i as int];
        lemma_row_entry(row, k);
        assert(graph.has_target(from));
        assert(graph.nodes[n as int][i as int].len() == graph.shape[n as int].1);
        if 0 <= m < row[k].1.len() {
            let x = row[k].1[m];
            let target = row[k].0;
            assert(summaries(table[from.index as int][from.port as int], target).contains(x));
            assert(graph.route(from, target, x));
            if graph.round(from, target, x) {
                let (port, j, y) = choose|port: usize, j: int, y: S|
                    0 <= port < graph.outputs(from) && 0 <= j < graph.inner(from, port as int).len()
                        && #[trigger] graph.path(Source { index: from.index, port }, target, y) && (
                    #[trigger] graph.inner(from, port as int)[j]).compose(y) == Some(x);
                assert(graph.nodes[n as int][i as int][port as int][j].compose(y) == Some(x));
            }
        }
    }
}

/// The input itself is listed, by the identity or by a summary that is at most that.
pub proof fn law_inputs_list_themselves<S: PathAlgebra>(graph: Topology<S>, n: usize, i: usize) -> (
place: (int, int))
    requires
        graph.wf(),
        graph.defined(),
        n < graph.shape.len(),
        i < graph.shape[n as int].0,
    ensures
        ({
            let row = graph.target_table()[n as int][i as int];
            &&& 0 <= place.0 < row.len()
            &&& row[place.0].0 == (Target { index: n, port: i })
            &&& 0 <= place.1 < row[place.0].1.len()
            &&& row[place.0].1[place.1].leq(S::identity())
        }),
{
    let from = Target { index: n, port: i };
    lemma_target_table_lists(graph);
    assert(graph.has_target(from));
    lemma_place(
        graph.target_table()[from.index as int][from.port as int],
        from,
        S::identity(),
    )
}

/// Whatever the order of summaries is: what is listed from an output of a node is listed from its
/// inputs too, with each path inside the node before it, or by a summary that is at most that.
pub proof fn law_outputs_are_listed_from_inputs<S: PathAlgebra>(
    graph: Topology<S>,
    n: usize,
    i: usize,
    port: usize,
    j: int,
    k: int,
    m: int,
) -> (place: (int, int))
    requires
        graph.wf(),
        graph.defined(),
        n < graph.shape.len(),
        i < graph.shape[n as int].0,
        port < graph.shape[n as int].1,
        0 <= j < graph.nodes[n as int][i as int][port as int].len(),
        0 <= k < graph.source_table()[n as int][port as int].len(),
        0 <= m < graph.source_table()[n as int][port as int][k].1.len(),
        graph.nodes[n as int][i as int][port as int][j].compose(
            graph.source_table()[n as int][port as int][k].1[m],
        ) is Some,
    ensures
        ({
            let row = graph.target_table()[n as int][i as int];
            &&& 0 <= place.0 < row.len()
            &&& row[place.0].0 == graph.source_table()[n as int][port as int][k].0
            &&& 0 <= place.1 < row[place.0].1.len()
            &&& row[place.0].1[place.1].leq(
                graph.nodes[n as int][i as int][port as int][j].compose(
                    graph.source_table()[n as int][port as int][k].1[m],
                )->0,
            )
        }),
{
    lemma_source_table_lists(graph);
    lemma_target_table_lists(graph);
    let from = Target { index: n, port: i };
    let source = Source { index: n, port };
    let row = row_at(graph.source_table(), source);
    assert(row == graph.source_table()[n as int][port as int]);
    lemma_row_entry(row, k);
    let target = row[k].0;
    let y = row[k].1[m];
    assert(graph.has_target(from));
    assert(graph.nodes[n as int].len() == graph.shape[n as int].0);
    assert(graph.nodes[n as int][i as int].len() == graph.shape[n as int].1);
    assert(summaries(row_at(graph.source_table(), Source { index: from.index, port }), target)
        .contains(y));
    assert(graph.inner(from, port as int)[j].compose(y) is Some);
    lemma_place(
        graph.target_table()[from.index as int][from.port as int],
        target,
        graph.inner(from, port as int)[j].compose(y)->0,
    )
}

/// Each path from an input through its node is listed there, by its own summary or by one that is
/// at most that, where lesser summaries remain so with a path before or behind them.
pub proof fn law_routes_are_listed<S: PathAlgebra>(
    graph: Topology<S>,
    n: usize,
    i: usize,
    port: usize,
    j: int,
    target: Target,
    y: S,
) -> (place: (int, int))
    requires
        graph.wf(),
        graph.defined(),
        monotone::<S>(),
        n < graph.shape.len(),
        i < graph.shape[n as int].0,
        port < graph.shape[n as int].1,
        0 <= j < graph.nodes[n as int][i as int][port as int].len(),
        graph.path(Source { index: n, port }, target, y),
        graph.nodes[n as int][i as int][port as int][j].compose(y) is Some,
    ensures
        ({
            let row = graph.target_table()[n as int][i as int];
            &&& 0 <= place.0 < row.len()
            &&& row[place.0].0 == target
            &&& 0 <= place.1 < row[place.0].1.len()
            &&& row[place.0].1[place.1].leq(
                graph.nodes[n as int][i as int][port as int][j].compose(y)->0,
            )
        }),
{
    let from = Target { index: n, port: i };
    let x = graph.inner(from, port as int)[j].compose(y)->0;
    assert(graph.nodes[n as int].len() == graph.shape[n as int].0);
    assert(graph.nodes[n as int][i as int].len() == graph.shape[n as int].1);
    assert(graph.inner(from, port as int)[j].compose(y) == Some(x));
    assert(graph.path(Source { index: from.index, port }, target, y));
    assert(graph.round(from, target, x));
    lemma_target_row_complete(graph, from, target, x);
    assert(graph.target_table()[n as int][i as int] == graph.target_row(from));
    lemma_place(graph.target_table()[n as int][i as int], target, x)
}

/// An idle loop that is reported is one: a path inside the node of the target, and one from there
/// back to it, whose composition is at most the identity.
pub proof fn law_reported_loop_is_idle<S: PathAlgebra>(graph: Topology<S>, target: Target) -> (
part: (usize, int, S))
    requires
        graph.wf(),
        graph.defined(),
        graph.idle_loop(target),
    ensures
        target.index < graph.shape.len(),
        target.port < graph.shape[target.index as int].0,
        part.0 < graph.shape[target.index as int].1,
        0 <= part.1
            < graph.nodes[target.index as int][target.port as int][part.0 as int].len(),
        graph.path(Source { index: target.index, port: part.0 }, target, part.2),
        ({
            let pick =
                graph.nodes[target.index as int][target.port as int][part.0 as int][part.1];
            pick.compose(part.2) is Some && pick.compose(part.2)->0.leq(S::identity())
        }),
{
    law_idle_loops(graph, target);
    let x = choose|x: S| #[trigger] graph.round(target, target, x) && x.leq(S::identity());
    let (port, j, y) = choose|port: usize, j: int, y: S|
        0 <= port < graph.outputs(target) && 0 <= j < graph.inner(target, port as int).len()
            && #[trigger] graph.path(Source { index: target.index, port }, target, y) && (
        #[trigger] graph.inner(target, port as int)[j]).compose(y) == Some(x);
    assert(graph.nodes[target.index as int].len() == graph.shape[target.index as int].0);
    assert(graph.nodes[target.index as int][target.port as int].len()
        == graph.shape[target.index as int].1);
    (port, j, y)
}

/// Each idle loop is reported, where lesser summaries remain so with a path before or behind them.
pub proof fn law_idle_loop_is_reported<S: PathAlgebra>(
    graph: Topology<S>,
    target: Target,
    port: usize,
    j: int,
    y: S,
)
    requires
        graph.wf(),
        graph.defined(),
        monotone::<S>(),
        target.index < graph.shape.len(),
        target.port < graph.shape[target.index as int].0,
        port < graph.shape[target.index as int].1,
        0 <= j < graph.nodes[target.index as int][target.port as int][port as int].len(),
        graph.path(Source { index: target.index, port }, target, y),
        graph.nodes[target.index as int][target.port as int][port as int][j].compose(y) is Some,
        graph.nodes[target.index as int][target.port as int][port as int][j].compose(y)->0.leq(
            S::identity(),
        ),
    ensures
        graph.idle_loop(target),
{
    assert(graph.nodes[target.index as int].len() == graph.shape[target.index as int].0);
    assert(graph.nodes[target.index as int][target.port as int].len()
        == graph.shape[target.index as int].1);
    let x = graph.inner(target, port as int)[j].compose(y)->0;
    assert(graph.inner(target, port as int)[j].compose(y) == Some(x));
    assert(graph.round(target, target, x));
    law_idle_loops(graph, target);
}

/// The idle loop that is reported is that of the first target with one: no target of an earlier
/// node, and no earlier input of the same node, has one.
pub proof fn law_first_loop_is_reported<S: PathAlgebra>(
    graph: Topology<S>,
    target: Target,
    other: Target,
)
    requires
        first_idle(graph, target),
    ensures
        graph.idle_loop(target),
        graph.idle_loop(other) ==> target.index < other.index || (target.index == other.index
            && target.port <= other.port),
{
}

/// The edge that is reported is one of the graph, with an end that its nodes do not have, and it
/// is the first one: the ends of all edges from earlier nodes, from earlier outputs of the same
/// node, and before it from the same output, exist.
pub proof fn law_first_undefined_is_reported<S: PathAlgebra>(
    graph: Topology<S>,
    source: Source,
    target: Target,
    n: int,
    p: int,
    e: int,
) -> (at: int)
    requires
        graph.wf(),
        first_undefined(graph, source, target),
    ensures
        !graph.defined(),
        source.index < graph.edges.len(),
        source.port < graph.edges[source.index as int].len(),
        0 <= at < graph.edges[source.index as int][source.port as int].len(),
        graph.edges[source.index as int][source.port as int][at] == target,
        source.index >= graph.shape.len() || source.port >= graph.shape[source.index as int].1
            || target.index >= graph.shape.len() || target.port
            >= graph.shape[target.index as int].0,
        0 <= n < graph.edges.len() && 0 <= p < graph.edges[n].len() && 0 <= e
            < graph.edges[n][p].len() && (n < source.index || (n == source.index && (p < source.port
            || (p == source.port && e < at)))) ==> {
            &&& n < graph.shape.len()
            &&& p < graph.shape[n].1
            &&& graph.edges[n][p][e].index < graph.shape.len()
            &&& graph.edges[n][p][e].port < graph.shape[graph.edges[n][p][e].index as int].0
        },
{
    let items = graph.seeds(graph.edges.len());
    let k = choose|k: int|
        0 <= k < items.len() && (#[trigger] items[k]).0 == (source, target) && !(graph.has_source(
            source,
        ) && graph.has_target(target)) && forall|i: int|
            0 <= i < k ==> graph.has_source((#[trigger] items[i]).0.0) && graph.has_target(
                items[i].0.1,
            );
    let of_node = |node: nat| graph.seeds_of(node, graph.edges[node as int].len());
    let (a, rest) = lemma_flat_at(graph.edges.len(), of_node, k);
    let at_port = |port: nat| graph.seeds_at(a, port);
    let (b, at) = lemma_flat_at(graph.edges[a as int].len(), at_port, rest);
    assert(graph.seeds_at(a, b)[at] == items[k]);
    assert(graph.edges[a as int].len() <= usize::MAX);
    assert(source == (Source { index: a as usize, port: b as usize }));
    assert(graph.links(source)[at] == target);
    assert(graph.links(source).contains(target));
    if 0 <= n < graph.edges.len() && 0 <= p < graph.edges[n].len() && 0 <= e
        < graph.edges[n][p].len() && (n < source.index || (n == source.index && (p < source.port
        || (p == source.port && e < at)))) {
        let ports_of = |port: nat| graph.seeds_at(n as nat, port);
        let within = lemma_flat_place(graph.edges[n].len(), ports_of, p as nat, e);
        let i = lemma_flat_place(graph.edges.len(), of_node, n as nat, within);
        assert(of_node(n as nat)[within] == graph.seeds_at(n as nat, p as nat)[e]);
        assert(items[i] == graph.seeds_at(n as nat, p as nat)[e]);
        if n < source.index {
            lemma_flat_ascends(graph.edges.len(), of_node, n as nat, within, a, rest);
        } else if p < source.port {
            lemma_flat_ascends(graph.edges[n].len(), ports_of, p as nat, e, b, at);
        }
        assert(i < k);
        assert(graph.edges[n].len() <= usize::MAX);
        assert(graph.has_source(items[i].0.0));
    }
    at
}

} // verus!
