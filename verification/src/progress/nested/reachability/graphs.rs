//! What the description of a graph says: which nodes, ports and edges there are, and how paths lead
//! along them.

use crate::progress::nested::reachability::topology::Topology;
use crate::progress::nested::{Source, Target};
use crate::progress::timestamp::{PathAlgebra, PathSummary, Timestamp, acting, stepwise};
use vstd::prelude::*;

verus! {

/// A node that is added has the ports that were given, and between its input `i` and its output
/// `o` exactly the paths that were given for the two. All other nodes, and all edges, are as they
/// were; nodes that are missing before it have no ports.
pub proof fn law_node_is_as_given<S>(
    graph: Topology<S>,
    index: usize,
    inputs: usize,
    outputs: usize,
    summary: Seq<Seq<Seq<S>>>,
    i: usize,
    o: int,
    n: int,
)
    requires
        graph.nodes.len() == graph.shape.len(),
    ensures
        ({
            let after = graph.with_node(index as int, inputs, outputs, summary);
            let nodes: int = if graph.nodes.len() <= index {
                index + 1
            } else {
                graph.nodes.len() as int
            };
            &&& after.nodes.len() == nodes
            &&& after.shape.len() == nodes
            &&& after.shape[index as int] == (inputs, outputs)
            &&& after.nodes[index as int].len() == summary.len()
            &&& i < summary.len() && 0 <= o < summary[i as int].len() ==> {
                &&& after.nodes[index as int][i as int].len() == summary[i as int].len()
                &&& after.nodes[index as int][i as int][o] == summary[i as int][o]
                &&& after.inner(Target { index, port: i }, o) == summary[i as int][o]
                &&& after.outputs(Target { index, port: i }) == summary[i as int].len()
            }
            &&& 0 <= n < graph.nodes.len() && n != index ==> after.nodes[n] == graph.nodes[n]
                && after.shape[n] == graph.shape[n]
            &&& graph.nodes.len() <= n < index ==> after.nodes[n].len() == 0 && after.shape[n] == (
                0usize,
                0usize,
            )
            &&& after.edges == graph.edges
        }),
{
}

/// After an edge from `source` to `target` was added there is an edge from `s` to `t` if there was
/// one before, or if it is the one that was added. It comes behind the other edges from `source`,
/// whose order remains, and the nodes are as they were.
pub proof fn law_edge_is_as_given<S>(
    graph: Topology<S>,
    source: Source,
    target: Target,
    s: Source,
    t: Target,
)
    ensures
        ({
            let after = graph.with_edge(source, target);
            &&& after.links(s).contains(t) <==> graph.links(s).contains(t) || (s == source && t
                == target)
            &&& after.links(source).len() == graph.links(source).len() + 1
            &&& after.links(source).last() == target
            &&& after.links(source).drop_last() == graph.links(source)
            &&& s != source ==> after.links(s) == graph.links(s)
            &&& after.nodes == graph.nodes
            &&& after.shape == graph.shape
        }),
{
    let before = graph.links(source);
    let after = graph.with_edge(source, target);
    assert(after.links(source) =~= before.push(target));
    if before.contains(t) {
        let k = choose|k: int| 0 <= k < before.len() && before[k] == t;
        assert(after.links(source)[k] == t);
    }
    assert(after.links(source)[before.len() as int] == target);
    if after.links(source).contains(t) && t != target {
        let k = choose|k: int| 0 <= k < before.len() + 1 && after.links(source)[k] == t;
        assert(before[k] == t);
    }
    assert(after.links(source).drop_last() =~= before);
    if s != source {
        assert(after.links(s) =~= graph.links(s));
    }
}

/// The edges from a port are those in its list, and the ports of a node are as many as its shape
/// says.
pub proof fn law_ports_and_edges<S>(graph: Topology<S>, source: Source, target: Target)
    ensures
        graph.links(source).contains(target) <==> exists|k: int|
            source.index < graph.edges.len() && source.port
                < graph.edges[source.index as int].len() && 0 <= k
                < graph.edges[source.index as int][source.port as int].len()
                && #[trigger] graph.edges[source.index as int][source.port as int][k] == target,
        graph.has_source(source) <==> source.index < graph.shape.len() && source.port
            < graph.shape[source.index as int].1,
        graph.has_target(target) <==> target.index < graph.shape.len() && target.port
            < graph.shape[target.index as int].0,
{
    if graph.links(source).contains(target) {
        let list = graph.links(source);
        let k = choose|k: int| 0 <= k < list.len() && list[k] == target;
        assert(graph.edges[source.index as int][source.port as int][k] == target);
    }
    if exists|k: int|
        source.index < graph.edges.len() && source.port < graph.edges[source.index as int].len()
            && 0 <= k < graph.edges[source.index as int][source.port as int].len()
            && #[trigger] graph.edges[source.index as int][source.port as int][k] == target {
        let k = choose|k: int|
            source.index < graph.edges.len() && source.port < graph.edges[source.index as int].len()
                && 0 <= k < graph.edges[source.index as int][source.port as int].len()
                && #[trigger] graph.edges[source.index as int][source.port as int][k] == target;
        assert(graph.links(source)[k] == target);
    }
}

/// In a defined graph, each edge starts at an output and ends at an input that its nodes have.
pub proof fn law_defined_edges_exist<S>(graph: Topology<S>, n: int, p: int, k: int)
    requires
        graph.edges.len() <= usize::MAX,
        graph.edges[n].len() <= usize::MAX,
        graph.defined(),
        0 <= n < graph.edges.len(),
        0 <= p < graph.edges[n].len(),
        0 <= k < graph.edges[n][p].len(),
    ensures
        n < graph.shape.len(),
        p < graph.shape[n].1,
        graph.edges[n][p][k].index < graph.shape.len(),
        graph.edges[n][p][k].port < graph.shape[graph.edges[n][p][k].index as int].0,
{
    let source = Source { index: n as usize, port: p as usize };
    let end = graph.edges[n][p][k];
    assert(graph.links(source)[k] == end);
    assert(graph.links(source).contains(end));
}

/// A graph in which each edge starts at an output and ends at an input that its nodes have is
/// defined.
pub proof fn law_existing_edges_define<S>(graph: Topology<S>)
    requires
        forall|n: int, p: int, k: int|
            0 <= n < graph.edges.len() && 0 <= p < graph.edges[n].len() && 0 <= k
                < graph.edges[n][p].len() ==> n < graph.shape.len() && p < graph.shape[n].1 && (
            #[trigger] graph.edges[n][p][k]).index < graph.shape.len()
                && graph.edges[n][p][k].port < graph.shape[graph.edges[n][p][k].index as int].0,
    ensures
        graph.defined(),
{
    assert forall|source: Source, target: Target| #[trigger]
        graph.links(source).contains(target) implies graph.has_source(source) && graph.has_target(
        target,
    ) by {
        let list = graph.links(source);
        let k = choose|k: int| 0 <= k < list.len() && list[k] == target;
        let end = graph.edges[source.index as int][source.port as int][k];
        assert(end == target);
    }
}

/// Where edges and paths inside nodes follow each other, there is a path: from `source` along an
/// edge to the first stop, from each stop through its node to the output `ports[k]` by a path with
/// summary `picks[k]`, and from there along an edge to the next stop. Its summary is made of those
/// of the parts, first to last.
pub proof fn law_walk_is_path<S: PathAlgebra>(
    graph: Topology<S>,
    source: Source,
    stops: Seq<Target>,
    ports: Seq<usize>,
    picks: Seq<S>,
    sums: Seq<S>,
)
    requires
        stops.len() == ports.len() + 1,
        picks.len() == ports.len(),
        sums.len() == ports.len() + 1,
        graph.edges[source.index as int][source.port as int].contains(stops[0]),
        source.index < graph.edges.len(),
        source.port < graph.edges[source.index as int].len(),
        sums[0] == S::identity(),
        forall|k: int|
            0 <= k < ports.len() ==> {
                let stop = #[trigger] stops[k];
                &&& ports[k] < graph.nodes[stop.index as int][stop.port as int].len()
                &&& graph.nodes[stop.index as int][stop.port as int][ports[k] as int].contains(
                    picks[k],
                )
                &&& stop.index < graph.edges.len()
                &&& ports[k] < graph.edges[stop.index as int].len()
                &&& graph.edges[stop.index as int][ports[k] as int].contains(stops[k + 1])
                &&& sums[k].compose(picks[k]) == Some(sums[k + 1])
            },
    ensures
        graph.path(source, stops.last(), sums.last()),
{
    lemma_walk(graph, source, stops, ports, picks, sums);
}

proof fn lemma_walk<S: PathAlgebra>(
    graph: Topology<S>,
    source: Source,
    stops: Seq<Target>,
    ports: Seq<usize>,
    picks: Seq<S>,
    sums: Seq<S>,
)
    requires
        stops.len() == ports.len() + 1,
        picks.len() == ports.len(),
        sums.len() == ports.len() + 1,
        graph.links(source).contains(stops[0]),
        sums[0] == S::identity(),
        forall|k: int|
            0 <= k < ports.len() ==> {
                let stop = #[trigger] stops[k];
                &&& ports[k] < graph.nodes[stop.index as int][stop.port as int].len()
                &&& graph.nodes[stop.index as int][stop.port as int][ports[k] as int].contains(
                    picks[k],
                )
                &&& stop.index < graph.edges.len()
                &&& ports[k] < graph.edges[stop.index as int].len()
                &&& graph.edges[stop.index as int][ports[k] as int].contains(stops[k + 1])
                &&& sums[k].compose(picks[k]) == Some(sums[k + 1])
            },
    ensures
        graph.path_of(source, stops.last(), sums.last(), ports.len()),
    decreases ports.len(),
{
    if ports.len() > 0 {
        let n = ports.len() - 1;
        let mid = stops[n];
        let y = sums[n];
        lemma_walk(
            graph,
            source,
            stops.drop_last(),
            ports.drop_last(),
            picks.drop_last(),
            sums.drop_last(),
        );
        let list = graph.nodes[mid.index as int][mid.port as int][ports[n] as int];
        let j = choose|j: int| 0 <= j < list.len() && list[j] == picks[n];
        assert(graph.inner(mid, ports[n] as int)[j] == picks[n]);
        assert(graph.links(Source { index: mid.index, port: ports[n] }).contains(stops[n + 1]));
        assert(graph.hop(mid, y, stops.last(), sums.last()));
    }
}

/// Each path is made of edges and of paths inside nodes that follow each other.
pub proof fn law_path_is_walk<S: PathAlgebra>(
    graph: Topology<S>,
    source: Source,
    target: Target,
    x: S,
) -> (walk: (Seq<Target>, Seq<usize>, Seq<S>, Seq<S>))
    requires
        graph.path(source, target, x),
    ensures
        ({
            let (stops, ports, picks, sums) = walk;
            &&& stops.len() == ports.len() + 1
            &&& picks.len() == ports.len()
            &&& sums.len() == ports.len() + 1
            &&& source.index < graph.edges.len()
            &&& source.port < graph.edges[source.index as int].len()
            &&& graph.edges[source.index as int][source.port as int].contains(stops[0])
            &&& sums[0] == S::identity()
            &&& stops.last() == target
            &&& sums.last() == x
            &&& forall|k: int|
                0 <= k < ports.len() ==> {
                    let stop = #[trigger] stops[k];
                    &&& ports[k] < graph.nodes[stop.index as int][stop.port as int].len()
                    &&& graph.nodes[stop.index as int][stop.port as int][ports[k] as int].contains(
                        picks[k],
                    )
                    &&& stop.index < graph.edges.len()
                    &&& ports[k] < graph.edges[stop.index as int].len()
                    &&& graph.edges[stop.index as int][ports[k] as int].contains(stops[k + 1])
                    &&& sums[k].compose(picks[k]) == Some(sums[k + 1])
                }
        }),
{
    let hops = choose|hops: nat| graph.path_of(source, target, x, hops);
    lemma_path_walk(graph, source, target, x, hops)
}

proof fn lemma_path_walk<S: PathAlgebra>(
    graph: Topology<S>,
    source: Source,
    target: Target,
    x: S,
    hops: nat,
) -> (walk: (Seq<Target>, Seq<usize>, Seq<S>, Seq<S>))
    requires
        graph.path_of(source, target, x, hops),
    ensures
        ({
            let (stops, ports, picks, sums) = walk;
            &&& ports.len() == hops
            &&& stops.len() == ports.len() + 1
            &&& picks.len() == ports.len()
            &&& sums.len() == ports.len() + 1
            &&& source.index < graph.edges.len()
            &&& source.port < graph.edges[source.index as int].len()
            &&& graph.edges[source.index as int][source.port as int].contains(stops[0])
            &&& sums[0] == S::identity()
            &&& stops.last() == target
            &&& sums.last() == x
            &&& forall|k: int|
                0 <= k < ports.len() ==> {
                    let stop = #[trigger] stops[k];
                    &&& ports[k] < graph.nodes[stop.index as int][stop.port as int].len()
                    &&& graph.nodes[stop.index as int][stop.port as int][ports[k] as int].contains(
                        picks[k],
                    )
                    &&& stop.index < graph.edges.len()
                    &&& ports[k] < graph.edges[stop.index as int].len()
                    &&& graph.edges[stop.index as int][ports[k] as int].contains(stops[k + 1])
                    &&& sums[k].compose(picks[k]) == Some(sums[k + 1])
                }
        }),
    decreases hops,
{
    if hops == 0 {
        (seq![target], Seq::empty(), Seq::empty(), seq![x])
    } else {
        let (mid, y) = choose|mid: Target, y: S|
            graph.path_of(source, mid, y, (hops - 1) as nat) && #[trigger] graph.hop(
                mid,
                y,
                target,
                x,
            );
        let (stops, ports, picks, sums) = lemma_path_walk(
            graph,
            source,
            mid,
            y,
            (hops - 1) as nat,
        );
        let (port, j) = choose|port: usize, j: int|
            0 <= port < graph.outputs(mid) && 0 <= j < graph.inner(mid, port as int).len()
                && y.compose(#[trigger] graph.inner(mid, port as int)[j]) == Some(x)
                && graph.links(Source { index: mid.index, port }).contains(target);
        let pick = graph.inner(mid, port as int)[j];
        let more = (stops.push(target), ports.push(port), picks.push(pick), sums.push(x));
        assert forall|k: int| 0 <= k < more.1.len() implies {
            let stop = #[trigger] more.0[k];
            &&& more.1[k] < graph.nodes[stop.index as int][stop.port as int].len()
            &&& graph.nodes[stop.index as int][stop.port as int][more.1[k] as int].contains(
                more.2[k],
            )
            &&& stop.index < graph.edges.len()
            &&& more.1[k] < graph.edges[stop.index as int].len()
            &&& graph.edges[stop.index as int][more.1[k] as int].contains(more.0[k + 1])
            &&& more.3[k].compose(more.2[k]) == Some(more.3[k + 1])
        } by {
            if k < ports.len() {
                assert(stops[k] == more.0[k]);
            } else {
                assert(more.0[k] == mid);
                assert(graph.nodes[mid.index as int][mid.port as int][port as int][j] == pick);
            }
        }
        more
    }
}

/// A timestamp that moves from stop to stop, through each node as one of the paths inside it says,
/// arrives as what one path makes of it in all, where summaries act as their parts do.
pub proof fn law_moves_make_a_path<T: Timestamp>(
    graph: Topology<T::Summary>,
    source: Source,
    stops: Seq<Target>,
    ports: Seq<usize>,
    picks: Seq<T::Summary>,
    times: Seq<T>,
) -> (x: T::Summary)
    requires
        acting::<T>(),
        stops.len() == ports.len() + 1,
        picks.len() == ports.len(),
        times.len() == ports.len() + 1,
        source.index < graph.edges.len(),
        source.port < graph.edges[source.index as int].len(),
        graph.edges[source.index as int][source.port as int].contains(stops[0]),
        forall|k: int|
            0 <= k < ports.len() ==> {
                let stop = #[trigger] stops[k];
                &&& ports[k] < graph.nodes[stop.index as int][stop.port as int].len()
                &&& graph.nodes[stop.index as int][stop.port as int][ports[k] as int].contains(
                    picks[k],
                )
                &&& stop.index < graph.edges.len()
                &&& ports[k] < graph.edges[stop.index as int].len()
                &&& graph.edges[stop.index as int][ports[k] as int].contains(stops[k + 1])
                &&& picks[k].apply(times[k]) == Some(times[k + 1])
            },
    ensures
        graph.path(source, stops.last(), x),
        x.apply(times[0]) == Some(times.last()),
{
    lemma_moves(graph, source, stops, ports, picks, times)
}

proof fn lemma_moves<T: Timestamp>(
    graph: Topology<T::Summary>,
    source: Source,
    stops: Seq<Target>,
    ports: Seq<usize>,
    picks: Seq<T::Summary>,
    times: Seq<T>,
) -> (x: T::Summary)
    requires
        acting::<T>(),
        stops.len() == ports.len() + 1,
        picks.len() == ports.len(),
        times.len() == ports.len() + 1,
        graph.links(source).contains(stops[0]),
        forall|k: int|
            0 <= k < ports.len() ==> {
                let stop = #[trigger] stops[k];
                &&& ports[k] < graph.nodes[stop.index as int][stop.port as int].len()
                &&& graph.nodes[stop.index as int][stop.port as int][ports[k] as int].contains(
                    picks[k],
                )
                &&& stop.index < graph.edges.len()
                &&& ports[k] < graph.edges[stop.index as int].len()
                &&& graph.edges[stop.index as int][ports[k] as int].contains(stops[k + 1])
                &&& picks[k].apply(times[k]) == Some(times[k + 1])
            },
    ensures
        graph.path_of(source, stops.last(), x, ports.len()),
        x.apply(times[0]) == Some(times.last()),
    decreases ports.len(),
{
    if ports.len() == 0 {
        T::Summary::identity()
    } else {
        let n = ports.len() - 1;
        let mid = stops[n];
        let y = lemma_moves(
            graph,
            source,
            stops.drop_last(),
            ports.drop_last(),
            picks.drop_last(),
            times.drop_last(),
        );
        let list = graph.nodes[mid.index as int][mid.port as int][ports[n] as int];
        let j = choose|j: int| 0 <= j < list.len() && list[j] == picks[n];
        assert(y.apply(times[0]) is Some);
        assert(y.compose(picks[n]) is Some);
        let x = y.compose(picks[n])->0;
        assert(graph.inner(mid, ports[n] as int)[j] == picks[n]);
        assert(graph.links(Source { index: mid.index, port: ports[n] }).contains(stops[n + 1]));
        assert(graph.hop(mid, y, stops.last(), x));
        x
    }
}

/// What a path makes of a timestamp is what becomes of it from stop to stop, where compositions
/// take a timestamp nowhere but along their parts.
pub proof fn law_path_moves<T: Timestamp>(
    graph: Topology<T::Summary>,
    source: Source,
    target: Target,
    x: T::Summary,
    time: T,
) -> (walk: (Seq<Target>, Seq<usize>, Seq<T::Summary>, Seq<T>))
    requires
        acting::<T>(),
        stepwise::<T>(),
        graph.path(source, target, x),
        x.apply(time) is Some,
    ensures
        ({
            let (stops, ports, picks, times) = walk;
            &&& stops.len() == ports.len() + 1
            &&& picks.len() == ports.len()
            &&& times.len() == ports.len() + 1
            &&& source.index < graph.edges.len()
            &&& source.port < graph.edges[source.index as int].len()
            &&& graph.edges[source.index as int][source.port as int].contains(stops[0])
            &&& stops.last() == target
            &&& times[0] == time
            &&& Some(times.last()) == x.apply(time)
            &&& forall|k: int|
                0 <= k < ports.len() ==> {
                    let stop = #[trigger] stops[k];
                    &&& ports[k] < graph.nodes[stop.index as int][stop.port as int].len()
                    &&& graph.nodes[stop.index as int][stop.port as int][ports[k] as int].contains(
                        picks[k],
                    )
                    &&& stop.index < graph.edges.len()
                    &&& ports[k] < graph.edges[stop.index as int].len()
                    &&& graph.edges[stop.index as int][ports[k] as int].contains(stops[k + 1])
                    &&& picks[k].apply(times[k]) == Some(times[k + 1])
                }
        }),
{
    let (stops, ports, picks, sums) = law_path_is_walk(graph, source, target, x);
    let times = Seq::new(sums.len(), |k: int| sums[k].apply(time)->0);
    assert forall|k: int| 0 <= k < ports.len() implies sums[k].compose(#[trigger] picks[k]) == Some(
        sums[k + 1],
    ) by {
        let stop = stops[k];
        assert(stop.index < graph.edges.len());
    }
    lemma_sums_apply::<T>(picks, sums, ports.len() as int, time);
    assert forall|k: int| 0 <= k < ports.len() implies (#[trigger] picks[k]).apply(times[k])
        == Some(times[k + 1]) by {
        let early = sums[k].apply(time);
        assert(sums[k].compose(picks[k]) == Some(sums[k + 1]));
        assert(sums[k + 1].apply(time) is Some);
        assert(picks[k].apply(early->0) == sums[k].compose(picks[k])->0.apply(time));
    }
    (stops, ports, picks, times)
}

proof fn lemma_sums_apply<T: Timestamp>(
    picks: Seq<T::Summary>,
    sums: Seq<T::Summary>,
    n: int,
    time: T,
)
    requires
        stepwise::<T>(),
        0 <= n < sums.len(),
        n <= picks.len(),
        forall|k: int|
            0 <= k < n ==> sums[k].compose(#[trigger] picks[k]) == Some(sums[k + 1]),
        sums[n].apply(time) is Some,
    ensures
        forall|k: int| 0 <= k <= n ==> (#[trigger] sums[k]).apply(time) is Some,
    decreases n,
{
    if n > 0 {
        assert(sums[n - 1].compose(picks[n - 1]) == Some(sums[n]));
        assert(sums[n - 1].compose(picks[n - 1])->0.apply(time) is Some);
        let early = sums[n - 1].apply(time);
        assert(early is Some);
        lemma_sums_apply::<T>(picks, sums, n - 1, time);
    }
}

} // verus!
