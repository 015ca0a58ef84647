//! In which order paths are found, and so listed.

use crate::progress::frontier::dominated;
use crate::progress::nested::reachability::minimal::filled;
use crate::progress::nested::reachability::row::{row_offered, summaries};
use crate::progress::nested::reachability::search::{lemma_done_table, row_at};
use crate::progress::nested::reachability::topology::Topology;
use crate::progress::nested::{Source, Target};
use crate::progress::sequences::{flat, lemma_flat_at, lemma_flat_ascends, lemma_flat_place};
use crate::progress::timestamp::PathAlgebra;
use vstd::prelude::*;

verus! {

/// At first nothing is listed for any output, and the paths to look at are the edges, each with
/// the identity: those of an earlier node first, for one node those from an earlier output, and
/// for one output in the order in which they were added.
pub proof fn law_search_starts_with_edges<S: PathAlgebra>(
    graph: Topology<S>,
    n: usize,
    p: usize,
    e: int,
    later: (usize, usize, int),
) -> (places: (int, int))
    requires
        graph.wf(),
        n < graph.edges.len(),
        p < graph.edges[n as int].len(),
        0 <= e < graph.edges[n as int][p as int].len(),
        later.0 < graph.edges.len(),
        later.1 < graph.edges[later.0 as int].len(),
        0 <= later.2 < graph.edges[later.0 as int][later.1 as int].len(),
        n < later.0 || (n == later.0 && (p < later.1 || (p == later.1 && e < later.2))),
    ensures
        0 <= places.0 < places.1 < graph.search(0).work.len(),
        graph.search(0).work[places.0] == (
            (Source { index: n, port: p }, graph.edges[n as int][p as int][e]),
            S::identity(),
        ),
        graph.search(0).work[places.1] == (
            (
                Source { index: later.0, port: later.1 },
                graph.edges[later.0 as int][later.1 as int][later.2],
            ),
            S::identity(),
        ),
{
    let of_node = |node: nat| graph.seeds_of(node, graph.edges[node as int].len());
    let first = lemma_seed_place(graph, n, p, e);
    let second = lemma_seed_place(graph, later.0, later.1, later.2);
    let ports = |port: nat| graph.seeds_at(n as nat, port);
    let others = |port: nat| graph.seeds_at(later.0 as nat, port);
    let i = lemma_flat_place(graph.edges[n as int].len(), ports, p as nat, e);
    let j = lemma_flat_place(
        graph.edges[later.0 as int].len(),
        others,
        later.1 as nat,
        later.2,
    );
    if n < later.0 {
        assert(of_node(n as nat).len() > i);
        lemma_flat_ascends(graph.edges.len(), of_node, n as nat, i, later.0 as nat, j);
    } else if p < later.1 {
        lemma_flat_ascends(
            graph.edges[n as int].len(),
            ports,
            p as nat,
            e,
            later.1 as nat,
            later.2,
        );
    }
    (first, second)
}

proof fn lemma_seed_place<S: PathAlgebra>(graph: Topology<S>, n: usize, p: usize, e: int) -> (
place: int)
    requires
        n < graph.edges.len(),
        p < graph.edges[n as int].len(),
        0 <= e < graph.edges[n as int][p as int].len(),
    ensures
        place == flat(
            n as nat,
            |node: nat| graph.seeds_of(node, graph.edges[node as int].len()),
        ).len() + flat(p as nat, |port: nat| graph.seeds_at(n as nat, port)).len() + e,
        0 <= place < graph.search(0).work.len(),
        graph.search(0).work[place] == (
            (Source { index: n, port: p }, graph.edges[n as int][p as int][e]),
            S::identity(),
        ),
{
    let of_node = |node: nat| graph.seeds_of(node, graph.edges[node as int].len());
    let ports = |port: nat| graph.seeds_at(n as nat, port);
    let i = lemma_flat_place(graph.edges[n as int].len(), ports, p as nat, e);
    let place = lemma_flat_place(graph.edges.len(), of_node, n as nat, i);
    assert(of_node(n as nat)[i] == graph.seeds_at(n as nat, p as nat)[e]);
    place
}

/// Nothing else is looked at to begin with, and each output has an empty row.
pub proof fn law_search_starts_with_nothing_else<S: PathAlgebra>(
    graph: Topology<S>,
    i: int,
    n: int,
    p: int,
) -> (edge: (usize, usize, int))
    requires
        graph.wf(),
        0 <= i < graph.search(0).work.len(),
    ensures
        edge.0 < graph.edges.len(),
        edge.1 < graph.edges[edge.0 as int].len(),
        0 <= edge.2 < graph.edges[edge.0 as int][edge.1 as int].len(),
        graph.search(0).work[i] == (
            (
                Source { index: edge.0, port: edge.1 },
                graph.edges[edge.0 as int][edge.1 as int][edge.2],
            ),
            S::identity(),
        ),
        graph.search(0).table.len() == graph.shape.len(),
        0 <= n < graph.shape.len() ==> graph.search(0).table[n].len() == graph.shape[n].1,
        0 <= n < graph.shape.len() && 0 <= p < graph.shape[n].1 ==> graph.search(
            0,
        ).table[n][p].len() == 0,
{
    let of_node = |node: nat| graph.seeds_of(node, graph.edges[node as int].len());
    let (a, rest) = lemma_flat_at(graph.edges.len(), of_node, i);
    let ports = |port: nat| graph.seeds_at(a, port);
    let (b, e) = lemma_flat_at(graph.edges[a as int].len(), ports, rest);
    assert(graph.edges[a as int].len() <= usize::MAX);
    (a as usize, b as usize, e)
}

/// The path that was found first is looked at first. It is offered to the row of its output, and
/// no other row changes. The other paths move up. If a listed summary is at most that of the path,
/// nothing comes behind them.
pub proof fn law_first_found_is_first_explored<S: PathAlgebra>(
    graph: Topology<S>,
    steps: nat,
    i: int,
    n: int,
    p: int,
)
    requires
        graph.search(steps).work.len() > 0,
        ({
            let source = graph.search(steps).work[0].0.0;
            &&& source.index < graph.search(steps).table.len()
            &&& source.port < graph.search(steps).table[source.index as int].len()
        }),
    ensures
        ({
            let from = graph.search(steps);
            let to = graph.search(steps + 1);
            let ((source, target), x) = from.work[0];
            let row = from.table[source.index as int][source.port as int];
            &&& to.work.len() >= from.work.len() - 1
            &&& 0 <= i < from.work.len() - 1 ==> to.work[i] == from.work[i + 1]
            &&& to.table.len() == from.table.len()
            &&& to.table[source.index as int].len() == from.table[source.index as int].len()
            &&& to.table[source.index as int][source.port as int] == row_offered(row, target, x)
            &&& 0 <= n < from.table.len() && n != source.index ==> to.table[n] == from.table[n]
            &&& 0 <= p < from.table[source.index as int].len() && p != source.port
                ==> to.table[source.index as int][p] == from.table[source.index as int][p]
            &&& (exists|y: S| #[trigger] summaries(row, target).contains(y) && y.leq(x))
                ==> to.work.len() == from.work.len() - 1
        }),
{
    let from = graph.search(steps);
    let ((source, target), x) = from.work[0];
    let row = row_at(from.table, source);
    if exists|y: S| #[trigger] summaries(row, target).contains(y) && y.leq(x) {
        let listed = summaries(row, target);
        let y = choose|y: S| #[trigger] listed.contains(y) && y.leq(x);
        let k = choose|k: int| 0 <= k < listed.len() && listed[k] == y;
        assert(listed[k].leq(x));
    }
}

/// Behind a path that is new come the paths that extend it: those by an earlier output first, for
/// one output those by an earlier path inside the node, and then in the order of the edges.
pub proof fn law_new_path_is_extended<S: PathAlgebra>(
    graph: Topology<S>,
    steps: nat,
    port: usize,
    j: int,
    e: int,
    later: (usize, int, int),
) -> (places: (int, int))
    requires
        graph.search(steps).work.len() > 0,
        ({
            let from = graph.search(steps);
            let ((source, mid), x) = from.work[0];
            let row = from.table[source.index as int][source.port as int];
            let node = graph.nodes[mid.index as int][mid.port as int];
            &&& !(exists|y: S| #[trigger] summaries(row, mid).contains(y) && y.leq(x))
            &&& mid.index < graph.edges.len()
            &&& port < node.len()
            &&& 0 <= j < node[port as int].len()
            &&& x.compose(node[port as int][j]) is Some
            &&& port < graph.edges[mid.index as int].len()
            &&& 0 <= e < graph.edges[mid.index as int][port as int].len()
            &&& later.0 < node.len()
            &&& 0 <= later.1 < node[later.0 as int].len()
            &&& x.compose(node[later.0 as int][later.1]) is Some
            &&& later.0 < graph.edges[mid.index as int].len()
            &&& 0 <= later.2 < graph.edges[mid.index as int][later.0 as int].len()
            &&& port < later.0 || (port == later.0 && (j < later.1 || (j == later.1 && e
                < later.2)))
        }),
    ensures
        ({
            let from = graph.search(steps);
            let to = graph.search(steps + 1);
            let ((source, mid), x) = from.work[0];
            let node = graph.nodes[mid.index as int][mid.port as int];
            &&& from.work.len() - 1 <= places.0 < places.1 < to.work.len()
            &&& to.work[places.0] == (
                (source, graph.edges[mid.index as int][port as int][e]),
                x.compose(node[port as int][j])->0,
            )
            &&& to.work[places.1] == (
                (source, graph.edges[mid.index as int][later.0 as int][later.2]),
                x.compose(node[later.0 as int][later.1])->0,
            )
        }),
{
    let from = graph.search(steps);
    let ((source, mid), x) = from.work[0];
    let row = row_at(from.table, source);
    lemma_not_dominated(summaries(row, mid), x);
    let ports = graph.outputs(mid);
    let at_port = |port: nat|
        graph.hops_at(source, mid, x, port, graph.inner(mid, port as int).len());
    let (w1, i1) = lemma_hop_place(graph, source, mid, x, port, j, e);
    let (w2, i2) = lemma_hop_place(graph, source, mid, x, later.0, later.1, later.2);
    let by_path = |k: nat| graph.hops_by(source, mid, x, port as nat, k);
    if port < later.0 {
        lemma_flat_ascends(ports, at_port, port as nat, w1, later.0 as nat, w2);
    } else if j < later.1 {
        lemma_flat_ascends(
            graph.inner(mid, port as int).len(),
            by_path,
            j as nat,
            e,
            later.1 as nat,
            later.2,
        );
    }
    let base = from.work.len() - 1;
    (base + i1, base + i2)
}

proof fn lemma_not_dominated<S: PathAlgebra>(listed: Seq<S>, x: S)
    requires
        !(exists|y: S| #[trigger] listed.contains(y) && y.leq(x)),
    ensures
        !dominated(listed, x),
{
    if dominated(listed, x) {
        let i = choose|i: int| 0 <= i < listed.len() && (#[trigger] listed[i]).leq(x);
        assert(listed.contains(listed[i]));
    }
}

proof fn lemma_hop_place<S: PathAlgebra>(
    graph: Topology<S>,
    source: Source,
    mid: Target,
    x: S,
    port: usize,
    j: int,
    e: int,
) -> (places: (int, int))
    requires
        port < graph.outputs(mid),
        0 <= j < graph.inner(mid, port as int).len(),
        x.compose(graph.inner(mid, port as int)[j]) is Some,
        mid.index < graph.edges.len(),
        port < graph.edges[mid.index as int].len(),
        0 <= e < graph.edges[mid.index as int][port as int].len(),
    ensures
        places.0 == flat(j as nat, |k: nat| graph.hops_by(source, mid, x, port as nat, k)).len()
            + e,
        0 <= places.0 < graph.hops_at(
            source,
            mid,
            x,
            port as nat,
            graph.inner(mid, port as int).len(),
        ).len(),
        places.1 == flat(
            port as nat,
            |k: nat| graph.hops_at(source, mid, x, k, graph.inner(mid, k as int).len()),
        ).len() + places.0,
        0 <= places.1 < graph.hops(source, mid, x, graph.outputs(mid)).len(),
        graph.hops(source, mid, x, graph.outputs(mid))[places.1] == (
            (source, graph.edges[mid.index as int][port as int][e]),
            x.compose(graph.inner(mid, port as int)[j])->0,
        ),
        e < graph.hops_by(source, mid, x, port as nat, j as nat).len(),
{
    let at_port = |k: nat| graph.hops_at(source, mid, x, k, graph.inner(mid, k as int).len());
    let by_path = |k: nat| graph.hops_by(source, mid, x, port as nat, k);
    let within = lemma_flat_place(graph.inner(mid, port as int).len(), by_path, j as nat, e);
    let place = lemma_flat_place(graph.outputs(mid), at_port, port as nat, within);
    assert(at_port(port as nat)[within] == by_path(j as nat)[e]);
    (within, place)
}

/// The search is over when no path is left to look at, and what is listed then is the result.
pub proof fn law_search_result<S: PathAlgebra>(graph: Topology<S>, steps: nat)
    requires
        graph.search(steps).work.len() == 0,
    ensures
        graph.source_table() == graph.search(steps).table,
{
    assert(graph.done(steps));
    lemma_done_table(graph, steps);
}

/// Nothing else comes behind: each path that is put there extends the one that was looked at, by a
/// path inside a node and by an edge.
pub proof fn law_only_extensions_follow<S: PathAlgebra>(
    graph: Topology<S>,
    steps: nat,
    i: int,
) -> (part: (usize, int, int))
    requires
        graph.search(steps).work.len() > 0,
        graph.search(steps).work.len() - 1 <= i < graph.search(steps + 1).work.len(),
        ({
            let mid = graph.search(steps).work[0].0.1;
            graph.nodes[mid.index as int][mid.port as int].len() <= usize::MAX
        }),
    ensures
        ({
            let from = graph.search(steps);
            let to = graph.search(steps + 1);
            let ((source, mid), x) = from.work[0];
            let node = graph.nodes[mid.index as int][mid.port as int];
            &&& part.0 < node.len()
            &&& 0 <= part.1 < node[part.0 as int].len()
            &&& mid.index < graph.edges.len()
            &&& part.0 < graph.edges[mid.index as int].len()
            &&& 0 <= part.2 < graph.edges[mid.index as int][part.0 as int].len()
            &&& x.compose(node[part.0 as int][part.1]) is Some
            &&& to.work[i] == (
                (source, graph.edges[mid.index as int][part.0 as int][part.2]),
                x.compose(node[part.0 as int][part.1])->0,
            )
        }),
{
    let from = graph.search(steps);
    let ((source, mid), x) = from.work[0];
    let at_port = |k: nat| graph.hops_at(source, mid, x, k, graph.inner(mid, k as int).len());
    let place = i - (from.work.len() - 1);
    let (port, within) = lemma_flat_at(graph.outputs(mid), at_port, place);
    let by_path = |k: nat| graph.hops_by(source, mid, x, port, k);
    let (j, e) = lemma_flat_at(graph.inner(mid, port as int).len(), by_path, within);
    assert(graph.hops_by(source, mid, x, port, j).len() > 0);
    (port as usize, j as int, e)
}

/// The row of an input takes in one path after the other: those to an earlier output of its node
/// first, then by an earlier path inside the node, then by an earlier entry of what is listed from
/// the output, and then by an earlier summary of the entry.
pub proof fn law_rounds_in_order<S: PathAlgebra>(
    graph: Topology<S>,
    from: Target,
    a: (usize, int, int, int),
    b: (usize, int, int, int),
) -> (places: (int, int))
    requires
        ({
            let node = graph.nodes[from.index as int][from.port as int];
            let row = graph.source_table()[from.index as int][a.0 as int];
            &&& a.0 < node.len()
            &&& 0 <= a.1 < node[a.0 as int].len()
            &&& 0 <= a.2 < row.len()
            &&& 0 <= a.3 < row[a.2].1.len()
            &&& node[a.0 as int][a.1].compose(row[a.2].1[a.3]) is Some
        }),
        ({
            let node = graph.nodes[from.index as int][from.port as int];
            let row = graph.source_table()[from.index as int][b.0 as int];
            &&& b.0 < node.len()
            &&& 0 <= b.1 < node[b.0 as int].len()
            &&& 0 <= b.2 < row.len()
            &&& 0 <= b.3 < row[b.2].1.len()
            &&& node[b.0 as int][b.1].compose(row[b.2].1[b.3]) is Some
        }),
        a.0 < b.0 || (a.0 == b.0 && (a.1 < b.1 || (a.1 == b.1 && (a.2 < b.2 || (a.2 == b.2 && a.3
            < b.3))))),
    ensures
        ({
            let node = graph.nodes[from.index as int][from.port as int];
            let items = graph.joined_all(graph.source_table(), from, graph.outputs(from));
            let row_a = graph.source_table()[from.index as int][a.0 as int];
            let row_b = graph.source_table()[from.index as int][b.0 as int];
            &&& graph.outputs(from) == node.len()
            &&& 0 <= places.0 < places.1 < items.len()
            &&& items[places.0] == (
                row_a[a.2].0,
                node[a.0 as int][a.1].compose(row_a[a.2].1[a.3])->0,
            )
            &&& items[places.1] == (
                row_b[b.2].0,
                node[b.0 as int][b.1].compose(row_b[b.2].1[b.3])->0,
            )
        }),
{
    let table = graph.source_table();
    let at_port = |port: nat|
        graph.joined_port(table, from, port, graph.inner(from, port as int).len());
    let (m1, k1, j1, p1) = lemma_joined_place(graph, from, a);
    let (m2, k2, j2, p2) = lemma_joined_place(graph, from, b);
    let row = row_at(table, Source { index: from.index, port: a.0 });
    let by_path = |j: nat| graph.joined_row(row, from, a.0 as nat, j, row.len());
    let by_entry = |k: nat|
        graph.joined_entry(row, from, a.0 as nat, a.1 as nat, k, row[k as int].1.len());
    let by_element = |m: nat|
        graph.joined(
            from,
            a.0 as nat,
            a.1 as nat,
            row[a.2 as nat as int].0,
            row[a.2 as nat as int].1[m as int],
        );
    if a.0 < b.0 {
        lemma_flat_ascends(graph.outputs(from), at_port, a.0 as nat, j1, b.0 as nat, j2);
    } else if a.1 < b.1 {
        lemma_flat_ascends(
            graph.inner(from, a.0 as int).len(),
            by_path,
            a.1 as nat,
            k1,
            b.1 as nat,
            k2,
        );
    } else if a.2 < b.2 {
        lemma_flat_ascends(row.len(), by_entry, a.2 as nat, m1, b.2 as nat, m2);
    } else {
        lemma_flat_ascends(row[a.2].1.len(), by_element, a.3 as nat, 0, b.3 as nat, 0);
    }
    (p1, p2)
}

proof fn lemma_joined_place<S: PathAlgebra>(
    graph: Topology<S>,
    from: Target,
    a: (usize, int, int, int),
) -> (places: (int, int, int, int))
    requires
        ({
            let node = graph.nodes[from.index as int][from.port as int];
            let row = graph.source_table()[from.index as int][a.0 as int];
            &&& a.0 < node.len()
            &&& 0 <= a.1 < node[a.0 as int].len()
            &&& 0 <= a.2 < row.len()
            &&& 0 <= a.3 < row[a.2].1.len()
            &&& node[a.0 as int][a.1].compose(row[a.2].1[a.3]) is Some
        }),
    ensures
        ({
            let table = graph.source_table();
            let row = row_at(table, Source { index: from.index, port: a.0 });
            let items = graph.joined_all(table, from, graph.outputs(from));
            &&& graph.joined(from, a.0 as nat, a.1 as nat, row[a.2].0, row[a.2].1[a.3]).len() == 1
            &&& places.0 == flat(
                a.3 as nat,
                |m: nat|
                    graph.joined(
                        from,
                        a.0 as nat,
                        a.1 as nat,
                        row[a.2 as nat as int].0,
                        row[a.2 as nat as int].1[m as int],
                    ),
            ).len()
            &&& 0 <= places.0 < graph.joined_entry(
                row,
                from,
                a.0 as nat,
                a.1 as nat,
                a.2 as nat,
                row[a.2].1.len(),
            ).len()
            &&& places.1 == flat(
                a.2 as nat,
                |k: nat|
                    graph.joined_entry(row, from, a.0 as nat, a.1 as nat, k, row[k as int].1.len()),
            ).len() + places.0
            &&& 0 <= places.1 < graph.joined_row(
                row,
                from,
                a.0 as nat,
                a.1 as nat,
                row.len(),
            ).len()
            &&& places.2 == flat(
                a.1 as nat,
                |j: nat| graph.joined_row(row, from, a.0 as nat, j, row.len()),
            ).len() + places.1
            &&& 0 <= places.2 < graph.joined_port(
                table,
                from,
                a.0 as nat,
                graph.inner(from, a.0 as int).len(),
            ).len()
            &&& places.3 == flat(
                a.0 as nat,
                |port: nat|
                    graph.joined_port(table, from, port, graph.inner(from, port as int).len()),
            ).len() + places.2
            &&& 0 <= places.3 < items.len()
            &&& items[places.3] == (
                row[a.2].0,
                graph.nodes[from.index as int][from.port as int][a.0 as int][a.1].compose(
                    row[a.2].1[a.3],
                )->0,
            )
        }),
{
    let table = graph.source_table();
    let port = a.0 as nat;
    let j = a.1 as nat;
    let k = a.2 as nat;
    let row = row_at(table, Source { index: from.index, port: a.0 });
    let at_port = |port: nat|
        graph.joined_port(table, from, port, graph.inner(from, port as int).len());
    let by_path = |j: nat| graph.joined_row(row, from, port, j, row.len());
    let by_entry = |k: nat| graph.joined_entry(row, from, port, j, k, row[k as int].1.len());
    let by_element = |m: nat|
        graph.joined(from, port, j, row[k as int].0, row[k as int].1[m as int]);
    assert(by_element(a.3 as nat).len() == 1);
    let e = lemma_flat_place(row[a.2].1.len(), by_element, a.3 as nat, 0);
    let r = lemma_flat_place(row.len(), by_entry, k, e);
    let p = lemma_flat_place(graph.inner(from, a.0 as int).len(), by_path, j, r);
    let all = lemma_flat_place(graph.outputs(from), at_port, port, p);
    (e, r, p, all)
}

/// A row takes in summaries one after the other, beginning with nothing; that of an input takes in
/// those of the paths through its node, and then the identity to the input itself.
pub proof fn law_rows_are_filled_in_order<S: PathAlgebra>(
    graph: Topology<S>,
    n: usize,
    i: usize,
    items: Seq<(Target, S)>,
    target: Target,
    x: S,
)
    requires
        n < graph.nodes.len(),
        i < graph.nodes[n as int].len(),
    ensures
        filled(Seq::<(Target, S)>::empty()).len() == 0,
        filled(items.push((target, x))) == row_offered(filled(items), target, x),
        ({
            let from = Target { index: n, port: i };
            let rounds = filled(graph.joined_all(graph.source_table(), from, graph.outputs(from)));
            &&& graph.round_table()[n as int][i as int] == rounds
            &&& graph.target_table()[n as int][i as int] == row_offered(
                rounds,
                from,
                S::identity(),
            )
        }),
{
    assert(items.push((target, x)).drop_last() =~= items);
}

} // verus!
