//! The search for all paths of a graph, step by step.

use crate::progress::frontier::{dominated, lemma_offered_dominates, lemma_offered_elements};
use crate::progress::nested::reachability::row::{
    Row, lemma_position, lemma_row_offered, lemma_row_offered_wf, lists, row_offered, row_wf,
    summaries,
};
use crate::progress::sequences::{
    flat, holds_from, lemma_flat_from, lemma_flat_has, lemma_keyed_well_quasi_ordered, lemma_nth,
    lemma_nth_ascends, nth, recurs,
};
use crate::progress::nested::reachability::topology::Topology;
use crate::progress::nested::{Source, Target};
use crate::progress::timestamp::PathAlgebra;
use vstd::prelude::*;

verus! {

/// A path that was found: its ends and its summary.
pub type Item<S> = ((Source, Target), S);

/// For each node and each of its ports, what is known of the paths from there.
pub type Table<S> = Seq<Seq<Row<S>>>;

/// The state of a search: the paths not yet looked at, first to last, and what was found.
#[verifier::ext_equal]
pub struct Search<S> {
    pub work: Seq<Item<S>>,
    pub table: Table<S>,
}

/// What the table holds of the paths from `source`.
pub open spec fn row_at<S>(table: Table<S>, source: Source) -> Row<S> {
    table[source.index as int][source.port as int]
}

/// The table with another row for `source`.
pub open spec fn with_row<S>(table: Table<S>, source: Source, row: Row<S>) -> Table<S> {
    table.update(
        source.index as int,
        table[source.index as int].update(source.port as int, row),
    )
}

impl<S: PathAlgebra> Topology<S> {
    /// The paths that are one edge from an output port, one for each edge.
    pub open spec fn seeds_at(self, node: nat, port: nat) -> Seq<Item<S>> {
        let source = Source { index: node as usize, port: port as usize };
        self.edges[node as int][port as int].map_values(
            |target: Target| ((source, target), S::identity()),
        )
    }

    /// The paths that are one edge from one of the first `ports` outputs of a node.
    pub open spec fn seeds_of(self, node: nat, ports: nat) -> Seq<Item<S>> {
        flat(ports, |port: nat| self.seeds_at(node, port))
    }

    /// The paths that are one edge from one of the first `nodes` nodes.
    pub open spec fn seeds(self, nodes: nat) -> Seq<Item<S>> {
        flat(nodes, |node: nat| self.seeds_of(node, self.edges[node as int].len()))
    }

    /// The paths that extend one from `source` to `mid` with summary `x`: by the `j`th path to
    /// the output `port`, and then by an edge.
    pub open spec fn hops_by(
        self,
        source: Source,
        mid: Target,
        x: S,
        port: nat,
        j: nat,
    ) -> Seq<Item<S>> {
        match x.compose(self.inner(mid, port as int)[j as int]) {
            Some(y) => self.links(Source { index: mid.index, port: port as usize }).map_values(
                |target: Target| ((source, target), y),
            ),
            None => Seq::empty(),
        }
    }

    /// Those by one of the first `n` paths to the output `port`.
    pub open spec fn hops_at(
        self,
        source: Source,
        mid: Target,
        x: S,
        port: nat,
        n: nat,
    ) -> Seq<Item<S>> {
        flat(n, |j: nat| self.hops_by(source, mid, x, port, j))
    }

    /// Those by one of the first `ports` outputs.
    pub open spec fn hops(self, source: Source, mid: Target, x: S, ports: nat) -> Seq<Item<S>> {
        flat(
            ports,
            |port: nat| self.hops_at(source, mid, x, port, self.inner(mid, port as int).len()),
        )
    }

    /// A table with nothing in it, with a row for each output port.
    pub open spec fn blank(self) -> Table<S> {
        Seq::new(
            self.shape.len(),
            |n: int| Seq::new(self.shape[n].1 as nat, |p: int| Seq::<(Target, Seq<S>)>::empty()),
        )
    }

    /// One step of the search: the first path is offered to the table and, if it is a new one,
    /// the paths that extend it are put behind the others.
    pub open spec fn step(self, state: Search<S>) -> Search<S> {
        if state.work.len() == 0 {
            state
        } else {
            let ((source, target), x) = state.work[0];
            let row = row_at(state.table, source);
            let rest = state.work.skip(1);
            Search {
                work: if dominated(summaries(row, target), x) {
                    rest
                } else {
                    rest + self.hops(source, target, x, self.outputs(target))
                },
                table: with_row(state.table, source, row_offered(row, target, x)),
            }
        }
    }

    /// The state after `n` steps, from a blank table and a path for each edge.
    pub open spec fn search(self, n: nat) -> Search<S>
        decreases n,
    {
        if n == 0 {
            Search { work: self.seeds(self.edges.len()), table: self.blank() }
        } else {
            self.step(self.search((n - 1) as nat))
        }
    }

    /// After `n` steps nothing is left to look at.
    pub open spec fn done(self, n: nat) -> bool {
        self.search(n).work.len() == 0
    }

    /// What the search finds: for each output port, the minimal summaries to each target.
    pub open spec fn source_table(self) -> Table<S> {
        self.search(choose|n: nat| self.done(n)).table
    }
}

/// Both ends of a path exist; an edge leads from the one, and an edge leads to the other.
pub proof fn lemma_path_ends<S: PathAlgebra>(
    graph: Topology<S>,
    source: Source,
    target: Target,
    x: S,
    hops: nat,
)
    requires
        graph.defined(),
        graph.path_of(source, target, x, hops),
    ensures
        graph.has_source(source),
        graph.has_target(target),
        exists|t: Target| #[trigger] graph.links(source).contains(t),
        exists|s: Source| #[trigger] graph.links(s).contains(target),
    decreases hops,
{
    if hops > 0 {
        let (mid, y) = choose|mid: Target, y: S|
            graph.path_of(source, mid, y, (hops - 1) as nat) && #[trigger] graph.hop(
                mid,
                y,
                target,
                x,
            );
        lemma_path_ends(graph, source, mid, y, (hops - 1) as nat);
    }
}

/// The seeds are the edges, each with the identity.
pub proof fn lemma_seeds<S: PathAlgebra>(graph: Topology<S>, source: Source, target: Target, x: S)
    requires
        graph.wf(),
    ensures
        graph.seeds(graph.edges.len()).contains(((source, target), x)) <==> graph.links(
            source,
        ).contains(target) && x == S::identity(),
{
    let item = ((source, target), x);
    let of_node = |node: nat| graph.seeds_of(node, graph.edges[node as int].len());
    if graph.links(source).contains(target) && x == S::identity() {
        let node = source.index as nat;
        let at_port = |port: nat| graph.seeds_at(node, port);
        let list = graph.links(source);
        let k = choose|k: int| 0 <= k < list.len() && list[k] == target;
        assert(graph.seeds_at(node, source.port as nat)[k] == item);
        lemma_flat_has(graph.edges[node as int].len(), at_port, source.port as nat, item);
        lemma_flat_has(graph.edges.len(), of_node, node, item);
    }
    if graph.seeds(graph.edges.len()).contains(item) {
        let node = lemma_flat_from(graph.edges.len(), of_node, item);
        let at_port = |port: nat| graph.seeds_at(node, port);
        let port = lemma_flat_from(graph.edges[node as int].len(), at_port, item);
        let part = graph.seeds_at(node, port);
        let k = choose|k: int| 0 <= k < part.len() && part[k] == item;
        assert(graph.edges[node as int].len() <= usize::MAX);
        assert(graph.links(source)[k] == target);
    }
}

/// The extensions of a path are those by one hop.
pub proof fn lemma_hops<S: PathAlgebra>(
    graph: Topology<S>,
    source: Source,
    mid: Target,
    y: S,
    other: Source,
    target: Target,
    x: S,
)
    requires
        graph.wf(),
        graph.has_target(mid),
    ensures
        graph.hops(source, mid, y, graph.outputs(mid)).contains(((other, target), x)) <==> other
            == source && graph.hop(mid, y, target, x),
{
    let item = ((other, target), x);
    let ports = graph.outputs(mid);
    let at_port = |port: nat|
        graph.hops_at(source, mid, y, port, graph.inner(mid, port as int).len());
    assert(graph.nodes[mid.index as int][mid.port as int].len() == graph.shape[mid.index as int].1);
    if other == source && graph.hop(mid, y, target, x) {
        let (port, j) = choose|port: usize, j: int|
            0 <= port < graph.outputs(mid) && 0 <= j < graph.inner(mid, port as int).len()
                && y.compose(#[trigger] graph.inner(mid, port as int)[j]) == Some(x)
                && graph.links(Source { index: mid.index, port }).contains(target);
        let by_path = |j: nat| graph.hops_by(source, mid, y, port as nat, j);
        let list = graph.links(Source { index: mid.index, port });
        let k = choose|k: int| 0 <= k < list.len() && list[k] == target;
        assert(graph.hops_by(source, mid, y, port as nat, j as nat)[k] == item);
        lemma_flat_has(graph.inner(mid, port as int).len(), by_path, j as nat, item);
        lemma_flat_has(ports, at_port, port as nat, item);
    }
    if graph.hops(source, mid, y, ports).contains(item) {
        let port = lemma_flat_from(ports, at_port, item);
        let by_path = |j: nat| graph.hops_by(source, mid, y, port, j);
        let j = lemma_flat_from(graph.inner(mid, port as int).len(), by_path, item);
        let part = graph.hops_by(source, mid, y, port, j);
        let k = choose|k: int| 0 <= k < part.len() && part[k] == item;
        let list = graph.links(Source { index: mid.index, port: port as usize });
        assert(list[k] == target);
        assert(y.compose(graph.inner(mid, (port as usize) as int)[j as int]) == Some(x));
    }
}

impl<S: PathAlgebra> Topology<S> {
    /// The table has a row for each output port.
    pub open spec fn fits_sources(self, table: Table<S>) -> bool {
        &&& table.len() == self.shape.len()
        &&& forall|n: int|
            0 <= n < table.len() ==> (#[trigger] table[n]).len() == self.shape[n].1
    }

    /// The rows are well-formed, and what they hold are summaries of paths.
    pub open spec fn sound(self, table: Table<S>) -> bool {
        &&& self.fits_sources(table)
        &&& forall|source: Source|
            self.has_source(source) ==> row_wf(#[trigger] row_at(table, source))
        &&& forall|source: Source, target: Target, x: S|
            self.has_source(source) && #[trigger] summaries(
                row_at(table, source),
                target,
            ).contains(x) ==> self.path(source, target, x)
    }

    /// A summary of a path from `source` to `target` is dominated, or the path is in `work`.
    pub open spec fn met(self, state: Search<S>, source: Source, target: Target, x: S) -> bool {
        ||| dominated(summaries(row_at(state.table, source), target), x)
        ||| state.work.contains(((source, target), x))
    }

    /// Each edge, and each path by one hop from one that the table holds, is met.
    pub open spec fn closed(self, state: Search<S>) -> bool {
        &&& forall|source: Source, target: Target| #[trigger]
            self.links(source).contains(target) ==> self.met(state, source, target, S::identity())
        &&& forall|source: Source, mid: Target, y: S, target: Target, x: S|
            self.has_source(source) && #[trigger] summaries(
                row_at(state.table, source),
                mid,
            ).contains(y) && #[trigger] self.hop(mid, y, target, x) ==> self.met(
                state,
                source,
                target,
                x,
            )
    }

    /// What holds at each step of the search.
    pub open spec fn search_inv(self, state: Search<S>) -> bool {
        &&& self.sound(state.table)
        &&& self.closed(state)
        &&& forall|i: int|
            0 <= i < state.work.len() ==> self.path(
                (#[trigger] state.work[i]).0.0,
                state.work[i].0.1,
                state.work[i].1,
            )
    }
}

/// Both ends of a path exist.
pub proof fn lemma_path_defined<S: PathAlgebra>(
    graph: Topology<S>,
    source: Source,
    target: Target,
    x: S,
)
    requires
        graph.defined(),
        graph.path(source, target, x),
    ensures
        graph.has_source(source),
        graph.has_target(target),
{
    let hops = choose|hops: nat| graph.path_of(source, target, x, hops);
    lemma_path_ends(graph, source, target, x, hops);
}

/// A path and a hop make a path.
pub proof fn lemma_path_hop<S: PathAlgebra>(
    graph: Topology<S>,
    source: Source,
    mid: Target,
    y: S,
    target: Target,
    x: S,
)
    requires
        graph.path(source, mid, y),
        graph.hop(mid, y, target, x),
    ensures
        graph.path(source, target, x),
{
    let hops = choose|hops: nat| graph.path_of(source, mid, y, hops);
    assert(graph.path_of(source, target, x, hops + 1));
}

/// A summary that is dominated already leaves the row as it is.
pub proof fn lemma_dominated_same<S: PathAlgebra>(row: Row<S>, target: Target, x: S)
    requires
        dominated(summaries(row, target), x),
    ensures
        row_offered(row, target, x) == row,
{
    assert(lists(row, target));
    lemma_position(row, target);
    assert(row_offered(row, target, x) =~= row);
}

/// What a step does to the rows.
proof fn lemma_step_rows<S: PathAlgebra>(
    graph: Topology<S>,
    state: Search<S>,
    source: Source,
    target: Target,
    z: S,
)
    requires
        graph.fits_sources(state.table),
        state.work.len() > 0,
        graph.has_source(state.work[0].0.0),
        graph.has_source(source),
    ensures
        graph.fits_sources(graph.step(state).table),
        source != state.work[0].0.0 ==> row_at(graph.step(state).table, source) == row_at(
            state.table,
            source,
        ),
        source == state.work[0].0.0 ==> row_at(graph.step(state).table, source) == row_offered(
            row_at(state.table, source),
            state.work[0].0.1,
            state.work[0].1,
        ),
        dominated(summaries(row_at(state.table, source), target), z) ==> dominated(
            summaries(row_at(graph.step(state).table, source), target),
            z,
        ),
        (source, target) == state.work[0].0 && state.work[0].1.leq(z) ==> dominated(
            summaries(row_at(graph.step(state).table, source), target),
            z,
        ),
        summaries(row_at(graph.step(state).table, source), target).contains(z) ==> summaries(
            row_at(state.table, source),
            target,
        ).contains(z) || state.work[0] == ((source, target), z),
{
    let ((s, t), x) = state.work[0];
    let row = row_at(state.table, s);
    let old_node = state.table[s.index as int];
    let new_node = graph.step(state).table[s.index as int];
    assert(new_node =~= old_node.update(s.port as int, row_offered(row, t, x)));
    if source == s {
        lemma_row_offered(row, t, x, target);
        if target == t {
            lemma_offered_elements(summaries(row, t), x, z);
            if dominated(summaries(row, t), z) || x.leq(z) {
                lemma_offered_dominates(summaries(row, t), x, z);
            }
        }
    }
}

/// The invariant holds at first.
pub proof fn lemma_search_starts<S: PathAlgebra>(graph: Topology<S>)
    requires
        graph.wf(),
        graph.defined(),
    ensures
        graph.search_inv(graph.search(0)),
{
    let state = graph.search(0);
    assert forall|source: Source, target: Target, x: S|
        graph.has_source(source) implies !(#[trigger] summaries(
        row_at(state.table, source),
        target,
    ).contains(x)) && row_wf(row_at(state.table, source)) by {
        assert(row_at(state.table, source) =~= Seq::<(Target, Seq<S>)>::empty());
    }
    assert forall|source: Source| graph.has_source(source) implies row_wf(
        #[trigger] row_at(state.table, source),
    ) by {
        assert(row_at(state.table, source) =~= Seq::<(Target, Seq<S>)>::empty());
    }
    assert forall|source: Source, target: Target| #[trigger]
        graph.links(source).contains(target) implies graph.met(
        state,
        source,
        target,
        S::identity(),
    ) by {
        lemma_seeds(graph, source, target, S::identity());
    }
    assert forall|i: int| 0 <= i < state.work.len() implies graph.path(
        (#[trigger] state.work[i]).0.0,
        state.work[i].0.1,
        state.work[i].1,
    ) by {
        let ((source, target), x) = state.work[i];
        assert(state.work.contains(state.work[i]));
        lemma_seeds(graph, source, target, x);
        assert(graph.path_of(source, target, x, 0));
    }
}

/// A path that is met remains so through a step.
proof fn lemma_step_met<S: PathAlgebra>(
    graph: Topology<S>,
    state: Search<S>,
    source: Source,
    target: Target,
    x: S,
)
    requires
        graph.fits_sources(state.table),
        state.work.len() > 0,
        graph.has_source(state.work[0].0.0),
        graph.has_source(source),
        graph.met(state, source, target, x),
    ensures
        graph.met(graph.step(state), source, target, x),
{
    lemma_step_rows(graph, state, source, target, x);
    if !dominated(summaries(row_at(state.table, source), target), x) {
        let item = ((source, target), x);
        let i = choose|i: int| 0 <= i < state.work.len() && state.work[i] == item;
        if i == 0 {
            S::leq_reflexive(x);
        } else {
            assert(state.work.skip(1)[i - 1] == item);
            assert(graph.step(state).work[i - 1] == item);
        }
    }
}

/// The invariant survives a step.
pub proof fn lemma_search_steps<S: PathAlgebra>(graph: Topology<S>, state: Search<S>)
    requires
        graph.wf(),
        graph.defined(),
        graph.search_inv(state),
    ensures
        graph.search_inv(graph.step(state)),
{
    if state.work.len() > 0 {
        let after = graph.step(state);
        let ((s, t), x0) = state.work[0];
        assert(graph.path(s, t, x0));
        lemma_path_defined(graph, s, t, x0);
        let row = row_at(state.table, s);
        let novel = !dominated(summaries(row, t), x0);
        lemma_step_rows(graph, state, s, t, x0);
        assert forall|source: Source| graph.has_source(source) implies row_wf(
            #[trigger] row_at(after.table, source),
        ) by {
            lemma_step_rows(graph, state, source, t, x0);
            assert(row_wf(row_at(state.table, source)));
            if source == s {
                lemma_row_offered_wf(row, t, x0);
            }
        }
        assert forall|source: Source, target: Target, x: S|
            graph.has_source(source) && #[trigger] summaries(
                row_at(after.table, source),
                target,
            ).contains(x) implies graph.path(source, target, x) by {
            lemma_step_rows(graph, state, source, target, x);
        }
        assert forall|source: Source, target: Target| #[trigger]
            graph.links(source).contains(target) implies graph.met(
            after,
            source,
            target,
            S::identity(),
        ) by {
            lemma_step_met(graph, state, source, target, S::identity());
        }
        assert forall|source: Source, mid: Target, y: S, target: Target, x: S|
            graph.has_source(source) && #[trigger] summaries(
                row_at(after.table, source),
                mid,
            ).contains(y) && #[trigger] graph.hop(mid, y, target, x) implies graph.met(
            after,
            source,
            target,
            x,
        ) by {
            lemma_step_rows(graph, state, source, mid, y);
            if summaries(row_at(state.table, source), mid).contains(y) {
                lemma_step_met(graph, state, source, target, x);
            } else {
                assert(state.work[0] == ((source, mid), y));
                if novel {
                    lemma_hops(graph, s, t, x0, s, target, x);
                    let more = graph.hops(s, t, x0, graph.outputs(t));
                    let item = ((source, target), x);
                    let k = choose|k: int| 0 <= k < more.len() && more[k] == item;
                    assert(after.work[state.work.skip(1).len() + k] == item);
                } else {
                    lemma_dominated_same(row, t, x0);
                }
            }
        }
        assert forall|i: int| 0 <= i < after.work.len() implies graph.path(
            (#[trigger] after.work[i]).0.0,
            after.work[i].0.1,
            after.work[i].1,
        ) by {
            let rest = state.work.skip(1);
            if i < rest.len() {
                assert(after.work[i] == state.work[i + 1]);
            } else {
                let more = graph.hops(s, t, x0, graph.outputs(t));
                let ((other, target), x) = after.work[i];
                assert(more[i - rest.len()] == after.work[i]);
                assert(more.contains(after.work[i]));
                lemma_hops(graph, s, t, x0, other, target, x);
                lemma_path_hop(graph, s, t, x0, target, x);
            }
        }
    }
}

/// The invariant holds throughout the search.
pub proof fn lemma_search<S: PathAlgebra>(graph: Topology<S>, n: nat)
    requires
        graph.wf(),
        graph.defined(),
    ensures
        graph.search_inv(graph.search(n)),
    decreases n,
{
    if n == 0 {
        lemma_search_starts(graph);
    } else {
        lemma_search(graph, (n - 1) as nat);
        lemma_search_steps(graph, graph.search((n - 1) as nat));
    }
}

/// What is dominated remains so for the rest of the search.
proof fn lemma_stays_dominated<S: PathAlgebra>(
    graph: Topology<S>,
    n: nat,
    m: nat,
    source: Source,
    target: Target,
    x: S,
)
    requires
        graph.wf(),
        graph.defined(),
        graph.has_source(source),
        n <= m,
        dominated(summaries(row_at(graph.search(n).table, source), target), x),
    ensures
        dominated(summaries(row_at(graph.search(m).table, source), target), x),
    decreases m,
{
    if n < m {
        let state = graph.search((m - 1) as nat);
        lemma_stays_dominated(graph, n, (m - 1) as nat, source, target, x);
        lemma_search(graph, (m - 1) as nat);
        if state.work.len() > 0 {
            let ((s, t), y) = state.work[0];
            lemma_path_defined(graph, s, t, y);
            lemma_step_rows(graph, state, source, target, x);
        }
    }
}

impl<S: PathAlgebra> Topology<S> {
    /// The step from the `n`th state finds something new.
    pub open spec fn finds(self, n: nat) -> bool {
        let state = self.search(n);
        state.work.len() > 0 && !dominated(
            summaries(row_at(state.table, state.work[0].0.0), state.work[0].0.1),
            state.work[0].1,
        )
    }
}

/// A search that finds nothing new comes to an end.
proof fn lemma_work_shrinks<S: PathAlgebra>(graph: Topology<S>, n: nat, k: nat)
    requires
        forall|m: nat| n <= m ==> !#[trigger] graph.finds(m),
        forall|m: nat| !#[trigger] graph.done(m),
    ensures
        graph.search(n + k).work.len() + k == graph.search(n).work.len(),
    decreases k,
{
    if k > 0 {
        lemma_work_shrinks(graph, n, (k - 1) as nat);
        let m = (n + k - 1) as nat;
        assert(!graph.finds(m));
        assert(!graph.done(m));
        assert(graph.search(n + k) == graph.step(graph.search(m)));
    }
}

/// Each pair of a source that an edge starts at and a target that one ends at.
spec fn ends<S: PathAlgebra>(graph: Topology<S>) -> Seq<(Source, Target)> {
    let edges = graph.seeds(graph.edges.len());
    flat(edges.len(), |i: nat| ends_from(edges, i))
}

spec fn ends_from<S>(edges: Seq<Item<S>>, i: nat) -> Seq<(Source, Target)> {
    Seq::new(edges.len(), |j: int| (edges[i as int].0.0, edges[j].0.1))
}

/// A path runs between two of these.
proof fn lemma_path_in_ends<S: PathAlgebra>(
    graph: Topology<S>,
    source: Source,
    target: Target,
    x: S,
)
    requires
        graph.wf(),
        graph.defined(),
        graph.path(source, target, x),
    ensures
        ends(graph).contains((source, target)),
{
    let edges = graph.seeds(graph.edges.len());
    let hops = choose|hops: nat| graph.path_of(source, target, x, hops);
    lemma_path_ends(graph, source, target, x, hops);
    let t = choose|t: Target| #[trigger] graph.links(source).contains(t);
    let s = choose|s: Source| #[trigger] graph.links(s).contains(target);
    lemma_seeds(graph, source, t, S::identity());
    lemma_seeds(graph, s, target, S::identity());
    let i = choose|i: int| 0 <= i < edges.len() && edges[i] == ((source, t), S::identity());
    let j = choose|j: int| 0 <= j < edges.len() && edges[j] == ((s, target), S::identity());
    assert(ends_from(edges, i as nat)[j] == (source, target));
    lemma_flat_has(
        edges.len(),
        |i: nat| ends_from(edges, i),
        i as nat,
        (source, target),
    );
}

/// The search comes to an end.
///
/// Otherwise it would find something new again and again, between one pair of ports: an infinite
/// sequence of summaries none of which is at most a later one.
pub proof fn law_search_ends<S: PathAlgebra>(graph: Topology<S>)
    requires
        graph.wf(),
        graph.defined(),
    ensures
        exists|n: nat| graph.done(n),
{
    if forall|n: nat| !#[trigger] graph.done(n) {
        let finds = |n: nat| graph.finds(n);
        if !recurs(finds) {
            let n = choose|n: nat| !#[trigger] holds_from(finds, n);
            assert forall|m: nat| n <= m implies !#[trigger] graph.finds(m) by {
                assert(!finds(m));
            }
            let k = graph.search(n).work.len();
            lemma_work_shrinks(graph, n, k);
            assert(graph.done(n + k));
        } else {
            let keys = ends(graph).to_set();
            let values = |i: nat| graph.search(nth(finds, i)).work[0];
            vstd::seq_lib::seq_to_set_is_finite(ends(graph));
            assert forall|i: nat| keys.contains((#[trigger] values(i)).0) by {
                let n = nth(finds, i);
                lemma_nth(finds, i);
                lemma_search(graph, n);
                let ((source, target), x) = graph.search(n).work[0];
                lemma_path_in_ends(graph, source, target, x);
            }
            let (i, j) = lemma_keyed_well_quasi_ordered(keys, values);
            lemma_nth(finds, i);
            lemma_nth(finds, j);
            lemma_nth_ascends(finds, i, j);
            let early = nth(finds, i);
            let late = nth(finds, j);
            let ((source, target), x) = graph.search(early).work[0];
            let y = graph.search(late).work[0].1;
            lemma_search(graph, early);
            lemma_path_defined(graph, source, target, x);
            lemma_step_rows(graph, graph.search(early), source, target, y);
            assert(graph.search(early + 1) == graph.step(graph.search(early)));
            lemma_stays_dominated(graph, early + 1, late, source, target, y);
            assert(graph.finds(late));
        }
    }
}

/// Once the search has come to an end, nothing changes any more.
proof fn lemma_done_stays<S: PathAlgebra>(graph: Topology<S>, n: nat, m: nat)
    requires
        graph.done(n),
        n <= m,
    ensures
        graph.search(m) == graph.search(n),
    decreases m,
{
    if n < m {
        lemma_done_stays(graph, n, (m - 1) as nat);
    }
}

/// The table at the end of the search is `source_table`.
pub proof fn lemma_done_table<S: PathAlgebra>(graph: Topology<S>, n: nat)
    requires
        graph.done(n),
    ensures
        graph.search(n).table == graph.source_table(),
{
    let m = choose|m: nat| graph.done(m);
    if n <= m {
        lemma_done_stays(graph, n, m);
    } else {
        lemma_done_stays(graph, m, n);
    }
}

/// A search that has come to an end was not short of it before.
pub proof fn lemma_done_after<S: PathAlgebra>(graph: Topology<S>, n: nat, m: nat)
    requires
        graph.done(m),
        !graph.done(n),
    ensures
        n < m,
{
    if m <= n {
        lemma_done_stays(graph, m, n);
    }
}

} // verus!
