//! The compiled path summaries of a graph, and why they are the minimal ones.

use crate::progress::frontier::{
    dominated, incomparable, lemma_offered_dominates, lemma_offered_elements,
};
use crate::progress::nested::reachability::row::{
    Row, lemma_position, lemma_row_entry, lemma_row_offered, lemma_row_offered_wf, lists, position,
    row_offered, row_wf, summaries,
};
use crate::progress::nested::reachability::search::{
    Table, law_search_ends, lemma_path_defined, lemma_search, row_at,
};
use crate::progress::sequences::{flat, lemma_flat_from, lemma_flat_has};
use crate::progress::nested::reachability::topology::Topology;
use crate::progress::nested::{Source, Target};
use crate::progress::timestamp::{PathAlgebra, left_monotone, monotone};
use vstd::prelude::*;

verus! {

/// The row that takes in a list of summaries, first to last.
pub open spec fn filled<S: PathAlgebra>(items: Seq<(Target, S)>) -> Row<S>
    decreases items.len(),
{
    if items.len() == 0 {
        Seq::empty()
    } else {
        row_offered(filled(items.drop_last()), items.last().0, items.last().1)
    }
}

/// A filled row is well-formed, holds only what it was given, and dominates all of that.
pub proof fn lemma_filled<S: PathAlgebra>(items: Seq<(Target, S)>, target: Target, x: S)
    ensures
        row_wf(filled(items)),
        summaries(filled(items), target).contains(x) ==> items.contains((target, x)),
        items.contains((target, x)) ==> dominated(summaries(filled(items), target), x),
    decreases items.len(),
{
    if items.len() > 0 {
        let front = items.drop_last();
        let (t, y) = items.last();
        lemma_filled(front, target, x);
        lemma_row_offered_wf(filled(front), t, y);
        lemma_row_offered(filled(front), t, y, target);
        assert(items =~= front.push((t, y)));
        if summaries(filled(items), target).contains(x) {
            if target == t {
                lemma_offered_elements(summaries(filled(front), t), y, x);
                if x == y {
                    assert(items[items.len() - 1] == (target, x));
                }
            }
            if front.contains((target, x)) {
                let k = choose|k: int| 0 <= k < front.len() && front[k] == (target, x);
                assert(items[k] == (target, x));
            }
        }
        if items.contains((target, x)) {
            let k = choose|k: int| 0 <= k < items.len() && items[k] == (target, x);
            if k < front.len() {
                assert(front[k] == (target, x));
            } else {
                S::leq_reflexive(x);
            }
            if target == t {
                lemma_offered_dominates(summaries(filled(front), t), y, x);
            }
        }
    }
}

impl<S: PathAlgebra> Topology<S> {
    /// The `j`th path inside the node of `from` to its output `port`, and then the path with
    /// summary `y` to `target`.
    pub open spec fn joined(
        self,
        from: Target,
        port: nat,
        j: nat,
        target: Target,
        y: S,
    ) -> Seq<(Target, S)> {
        match self.inner(from, port as int)[j as int].compose(y) {
            Some(x) => seq![(target, x)],
            None => Seq::empty(),
        }
    }

    /// That path, and then one of the first `n` that the `k`th entry of the row lists.
    pub open spec fn joined_entry(
        self,
        row: Row<S>,
        from: Target,
        port: nat,
        j: nat,
        k: nat,
        n: nat,
    ) -> Seq<(Target, S)> {
        flat(n, |m: nat| self.joined(from, port, j, row[k as int].0, row[k as int].1[m as int]))
    }

    /// That path, and then one from the first `n` entries of the row.
    pub open spec fn joined_row(
        self,
        row: Row<S>,
        from: Target,
        port: nat,
        j: nat,
        n: nat,
    ) -> Seq<(Target, S)> {
        flat(n, |k: nat| self.joined_entry(row, from, port, j, k, row[k as int].1.len()))
    }

    /// One of the first `n` paths to the output `port`, and then one that the table lists.
    pub open spec fn joined_port(
        self,
        table: Table<S>,
        from: Target,
        port: nat,
        n: nat,
    ) -> Seq<(Target, S)> {
        let row = row_at(table, Source { index: from.index, port: port as usize });
        flat(n, |j: nat| self.joined_row(row, from, port, j, row.len()))
    }

    /// A path to one of the first `ports` outputs, and then one that the table lists.
    pub open spec fn joined_all(
        self,
        table: Table<S>,
        from: Target,
        ports: nat,
    ) -> Seq<(Target, S)> {
        flat(
            ports,
            |port: nat| self.joined_port(table, from, port, self.inner(from, port as int).len()),
        )
    }

    /// What is found of the paths from the input `from` through at least one node.
    pub open spec fn round_row(self, from: Target) -> Row<S> {
        filled(self.joined_all(self.source_table(), from, self.outputs(from)))
    }

    /// What is found of the paths from the input `from`, the empty one included.
    pub open spec fn target_row(self, from: Target) -> Row<S> {
        row_offered(self.round_row(from), from, S::identity())
    }

    /// What is found of the paths from each input port through at least one node.
    pub open spec fn round_table(self) -> Table<S> {
        Seq::new(
            self.nodes.len(),
            |n: int|
                Seq::new(
                    self.nodes[n].len(),
                    |i: int| self.round_row(Target { index: n as usize, port: i as usize }),
                ),
        )
    }

    /// What is found of the paths from each input port.
    pub open spec fn target_table(self) -> Table<S> {
        Seq::new(
            self.nodes.len(),
            |n: int|
                Seq::new(
                    self.nodes[n].len(),
                    |i: int| self.target_row(Target { index: n as usize, port: i as usize }),
                ),
        )
    }

    /// A path from `target` back to it was found that may leave a timestamp as it is.
    pub open spec fn idle_loop(self, target: Target) -> bool {
        self.has_target(target) && dominated(
            summaries(self.round_row(target), target),
            S::identity(),
        )
    }

    /// `x` is the summary of the empty path from `from` to `target`, or of a path inside the node
    /// of `from` with one behind it that the search lists.
    pub open spec fn assembled(self, from: Target, target: Target, x: S) -> bool {
        ||| from == target && x == S::identity()
        ||| exists|port: usize, j: int, y: S|
            0 <= port < self.outputs(from) && 0 <= j < self.inner(from, port as int).len()
                && #[trigger] summaries(
                row_at(self.source_table(), Source { index: from.index, port }),
                target,
            ).contains(y) && (#[trigger] self.inner(from, port as int)[j]).compose(y) == Some(x)
    }

    /// There is a path from the input `from` to the input `target` with summary `x`: the empty
    /// path, or one through at least one node.
    pub open spec fn route(self, from: Target, target: Target, x: S) -> bool {
        self.round(from, target, x) || (from == target && x == S::identity())
    }

    /// `x` is the summary of a path from `source` to `target`, and no path has a lesser one.
    pub open spec fn least_path(self, source: Source, target: Target, x: S) -> bool {
        &&& self.path(source, target, x)
        &&& forall|y: S| #[trigger] self.path(source, target, y) && y.leq(x) ==> y == x
    }

    /// `x` is the summary of a path from the input `from` to the input `target`, and no path has
    /// a lesser one.
    pub open spec fn least_route(self, from: Target, target: Target, x: S) -> bool {
        &&& self.route(from, target, x)
        &&& forall|y: S| #[trigger] self.route(from, target, y) && y.leq(x) ==> y == x
    }
}

/// The search has found what it says: well-formed rows of summaries of paths.
pub proof fn lemma_source_table_sound<S: PathAlgebra>(graph: Topology<S>)
    requires
        graph.wf(),
        graph.defined(),
    ensures
        graph.sound(graph.source_table()),
{
    law_search_ends(graph);
    let n = choose|n: nat| graph.done(n);
    lemma_search(graph, n);
}

/// What the search lists is closed: an edge is dominated by something listed, and so is what
/// comes by one hop of something listed.
pub proof fn lemma_source_table_closed<S: PathAlgebra>(
    graph: Topology<S>,
    source: Source,
    mid: Target,
    y: S,
    target: Target,
    x: S,
)
    requires
        graph.wf(),
        graph.defined(),
        graph.has_source(source),
    ensures
        graph.links(source).contains(target) ==> dominated(
            summaries(row_at(graph.source_table(), source), target),
            S::identity(),
        ),
        summaries(row_at(graph.source_table(), source), mid).contains(y) && graph.hop(
            mid,
            y,
            target,
            x,
        ) ==> dominated(summaries(row_at(graph.source_table(), source), target), x),
{
    law_search_ends(graph);
    let n = choose|n: nat| graph.done(n);
    lemma_search(graph, n);
    let state = graph.search(n);
    assert(graph.closed(state));
    assert(!state.work.contains(((source, target), S::identity())));
    assert(!state.work.contains(((source, target), x)));
    if graph.links(source).contains(target) {
        assert(graph.met(state, source, target, S::identity()));
    }
    if summaries(row_at(state.table, source), mid).contains(y) && graph.hop(mid, y, target, x) {
        assert(graph.met(state, source, target, x));
    }
}

proof fn lemma_path_dominated<S: PathAlgebra>(
    graph: Topology<S>,
    source: Source,
    target: Target,
    x: S,
    hops: nat,
)
    requires
        graph.wf(),
        graph.defined(),
        left_monotone::<S>(),
        graph.path_of(source, target, x, hops),
    ensures
        graph.has_source(source),
        dominated(summaries(row_at(graph.source_table(), source), target), x),
    decreases hops,
{
    assert(graph.path(source, target, x));
    lemma_path_defined(graph, source, target, x);
    if hops == 0 {
        lemma_source_table_closed(graph, source, target, x, target, x);
    } else {
        let (mid, y) = choose|mid: Target, y: S|
            graph.path_of(source, mid, y, (hops - 1) as nat) && #[trigger] graph.hop(
                mid,
                y,
                target,
                x,
            );
        lemma_path_dominated(graph, source, mid, y, (hops - 1) as nat);
        let listed = summaries(row_at(graph.source_table(), source), mid);
        let i = choose|i: int| 0 <= i < listed.len() && (#[trigger] listed[i]).leq(y);
        let e = listed[i];
        assert(listed.contains(e));
        let (port, j) = choose|port: usize, j: int|
            0 <= port < graph.outputs(mid) && 0 <= j < graph.inner(mid, port as int).len()
                && y.compose(#[trigger] graph.inner(mid, port as int)[j]) == Some(x)
                && graph.links(Source { index: mid.index, port }).contains(target);
        let z = graph.inner(mid, port as int)[j];
        assert(e.compose(z) is Some);
        let less = e.compose(z)->0;
        assert(graph.hop(mid, e, target, less));
        lemma_source_table_closed(graph, source, mid, e, target, less);
        lemma_dominated_above(summaries(row_at(graph.source_table(), source), target), less, x);
    }
}

proof fn lemma_dominated_above<S: PathAlgebra>(elements: Seq<S>, x: S, y: S)
    requires
        dominated(elements, x),
        x.leq(y),
    ensures
        dominated(elements, y),
{
    let i = choose|i: int| 0 <= i < elements.len() && (#[trigger] elements[i]).leq(x);
    S::leq_transitive(elements[i], x, y);
}

/// Each path from an output port has a summary that something listed is at most.
pub proof fn lemma_source_table_complete<S: PathAlgebra>(
    graph: Topology<S>,
    source: Source,
    target: Target,
    x: S,
)
    requires
        graph.wf(),
        graph.defined(),
        left_monotone::<S>(),
        graph.path(source, target, x),
    ensures
        graph.has_source(source),
        dominated(summaries(row_at(graph.source_table(), source), target), x),
{
    let hops = choose|hops: nat| graph.path_of(source, target, x, hops);
    lemma_path_dominated(graph, source, target, x, hops);
}

/// What is joined: a path inside the node, and one that the table lists.
pub proof fn lemma_joined<S: PathAlgebra>(
    graph: Topology<S>,
    table: Table<S>,
    from: Target,
    target: Target,
    x: S,
)
    requires
        graph.wf(),
        graph.has_target(from),
        graph.sound(table),
    ensures
        graph.joined_all(table, from, graph.outputs(from)).contains((target, x)) <==> exists|
            port: usize,
            j: int,
            y: S,
        |
            0 <= port < graph.outputs(from) && 0 <= j < graph.inner(from, port as int).len()
                && #[trigger] summaries(
                row_at(table, Source { index: from.index, port }),
                target,
            ).contains(y) && (#[trigger] graph.inner(from, port as int)[j]).compose(y) == Some(x),
{
    let item = (target, x);
    let ports = graph.outputs(from);
    let all = graph.joined_all(table, from, ports);
    let at_port = |port: nat|
        graph.joined_port(table, from, port, graph.inner(from, port as int).len());
    assert(graph.nodes[from.index as int][from.port as int].len()
        == graph.shape[from.index as int].1);
    if all.contains(item) {
        let port = lemma_flat_from(ports, at_port, item);
        let source = Source { index: from.index, port: port as usize };
        let row = row_at(table, source);
        assert(graph.has_source(source));
        let by_path = |j: nat| graph.joined_row(row, from, port, j, row.len());
        let j = lemma_flat_from(graph.inner(from, port as int).len(), by_path, item);
        let by_entry = |k: nat|
            graph.joined_entry(row, from, port, j, k, row[k as int].1.len());
        let k = lemma_flat_from(row.len(), by_entry, item);
        let by_element = |m: nat|
            graph.joined(from, port, j, row[k as int].0, row[k as int].1[m as int]);
        let m = lemma_flat_from(row[k as int].1.len(), by_element, item);
        let y = row[k as int].1[m as int];
        let one = graph.joined(from, port, j, row[k as int].0, y);
        assert(one.contains(item));
        assert(one[0] == item);
        lemma_row_entry(row, k as int);
        assert(summaries(row, target).contains(y));
        assert(graph.inner(from, (port as usize) as int)[j as int].compose(y) == Some(x));
    }
    if exists|port: usize, j: int, y: S|
        0 <= port < graph.outputs(from) && 0 <= j < graph.inner(from, port as int).len()
            && #[trigger] summaries(
            row_at(table, Source { index: from.index, port }),
            target,
        ).contains(y) && (#[trigger] graph.inner(from, port as int)[j]).compose(y) == Some(x) {
        let (port, j, y) = choose|port: usize, j: int, y: S|
            0 <= port < graph.outputs(from) && 0 <= j < graph.inner(from, port as int).len()
                && #[trigger] summaries(
                row_at(table, Source { index: from.index, port }),
                target,
            ).contains(y) && (#[trigger] graph.inner(from, port as int)[j]).compose(y) == Some(x);
        let row = row_at(table, Source { index: from.index, port });
        assert(lists(row, target));
        lemma_position(row, target);
        let k = position(row, target);
        let m = choose|m: int| 0 <= m < row[k].1.len() && row[k].1[m] == y;
        let port = port as nat;
        assert(graph.joined(from, port, j as nat, row[k].0, row[k].1[m])[0] == item);
        lemma_flat_has(
            row[k].1.len(),
            |m: nat|
                graph.joined(
                    from,
                    port,
                    j as nat,
                    row[k as nat as int].0,
                    row[k as nat as int].1[m as int],
                ),
            m as nat,
            item,
        );
        lemma_flat_has(
            row.len(),
            |k: nat| graph.joined_entry(row, from, port, j as nat, k, row[k as int].1.len()),
            k as nat,
            item,
        );
        lemma_flat_has(
            graph.inner(from, port as int).len(),
            |j: nat| graph.joined_row(row, from, port, j, row.len()),
            j as nat,
            item,
        );
        lemma_flat_has(ports, at_port, port, item);
    }
}

/// The row of an input port is well-formed, and what it holds are summaries of paths.
pub proof fn lemma_target_row_sound<S: PathAlgebra>(
    graph: Topology<S>,
    from: Target,
    target: Target,
    x: S,
)
    requires
        graph.wf(),
        graph.defined(),
        graph.has_target(from),
    ensures
        row_wf(graph.round_row(from)),
        row_wf(graph.target_row(from)),
        summaries(graph.round_row(from), target).contains(x) ==> graph.round(from, target, x),
        summaries(graph.target_row(from), target).contains(x) ==> graph.route(from, target, x),
{
    let table = graph.source_table();
    let items = graph.joined_all(table, from, graph.outputs(from));
    lemma_source_table_sound(graph);
    lemma_filled(items, target, x);
    lemma_joined(graph, table, from, target, x);
    lemma_row_offered_wf(graph.round_row(from), from, S::identity());
    lemma_row_offered(graph.round_row(from), from, S::identity(), target);
    lemma_offered_elements(summaries(graph.round_row(from), from), S::identity(), x);
    if items.contains((target, x)) {
        let (port, j, y) = choose|port: usize, j: int, y: S|
            0 <= port < graph.outputs(from) && 0 <= j < graph.inner(from, port as int).len()
                && #[trigger] summaries(
                row_at(table, Source { index: from.index, port }),
                target,
            ).contains(y) && (#[trigger] graph.inner(from, port as int)[j]).compose(y) == Some(x);
        let source = Source { index: from.index, port };
        assert(graph.nodes[from.index as int][from.port as int].len()
            == graph.shape[from.index as int].1);
        assert(graph.has_source(source));
        assert(graph.path(source, target, y));
    }
}

/// Each path from an input port has a summary that something listed is at most.
pub proof fn lemma_target_row_complete<S: PathAlgebra>(
    graph: Topology<S>,
    from: Target,
    target: Target,
    x: S,
)
    requires
        graph.wf(),
        graph.defined(),
        graph.has_target(from),
        monotone::<S>(),
    ensures
        graph.round(from, target, x) ==> dominated(summaries(graph.round_row(from), target), x),
        graph.route(from, target, x) ==> dominated(summaries(graph.target_row(from), target), x),
{
    let table = graph.source_table();
    let items = graph.joined_all(table, from, graph.outputs(from));
    lemma_row_offered(graph.round_row(from), from, S::identity(), target);
    if graph.round(from, target, x) {
        let (port, j, y) = choose|port: usize, j: int, y: S|
            0 <= port < graph.outputs(from) && 0 <= j < graph.inner(from, port as int).len()
                && #[trigger] graph.path(Source { index: from.index, port }, target, y) && (
            #[trigger] graph.inner(from, port as int)[j]).compose(y) == Some(x);
        let source = Source { index: from.index, port };
        lemma_source_table_complete(graph, source, target, y);
        let listed = summaries(row_at(table, source), target);
        let i = choose|i: int| 0 <= i < listed.len() && (#[trigger] listed[i]).leq(y);
        let e = listed[i];
        assert(listed.contains(e));
        let z = graph.inner(from, port as int)[j];
        assert(z.compose(e) is Some);
        let less = z.compose(e)->0;
        lemma_source_table_sound(graph);
        lemma_joined(graph, table, from, target, less);
        lemma_filled(items, target, less);
        lemma_dominated_above(summaries(graph.round_row(from), target), less, x);
        if target == from {
            lemma_offered_dominates(summaries(graph.round_row(from), from), S::identity(), x);
        }
    }
    if from == target && x == S::identity() {
        S::leq_reflexive(x);
        lemma_offered_dominates(summaries(graph.round_row(from), from), x, x);
    }
}

impl<S: PathAlgebra> Topology<S> {
    /// The table has a row for each input port.
    pub open spec fn fits_targets(self, table: Table<S>) -> bool {
        &&& table.len() == self.shape.len()
        &&& forall|n: int|
            0 <= n < table.len() ==> (#[trigger] table[n]).len() == self.shape[n].0
    }

    /// Each row of the table is well-formed and lists targets that exist.
    pub open spec fn well_listed(self, table: Table<S>) -> bool {
        forall|n: int, p: int|
            0 <= n < table.len() && 0 <= p < table[n].len() ==> row_wf(#[trigger] table[n][p])
                && forall|k: int|
                0 <= k < table[n][p].len() ==> self.has_target((#[trigger] table[n][p][k]).0)
    }

    /// The table lists summaries of paths from each output port, and of each edge, and of each
    /// path by one hop from one that it lists, it lists a summary that is at most that path's.
    pub open spec fn lists_paths(self, table: Table<S>) -> bool {
        &&& forall|source: Source, target: Target, x: S|
            self.has_source(source) && #[trigger] summaries(
                row_at(table, source),
                target,
            ).contains(x) ==> self.path(source, target, x)
        &&& forall|source: Source, target: Target| #[trigger]
            self.links(source).contains(target) ==> dominated(
                summaries(row_at(table, source), target),
                S::identity(),
            )
        &&& forall|source: Source, mid: Target, y: S, target: Target, x: S|
            self.has_source(source) && #[trigger] summaries(row_at(table, source), mid).contains(y)
                && #[trigger] self.hop(mid, y, target, x) ==> dominated(
                summaries(row_at(table, source), target),
                x,
            )
    }

    /// The table lists, from each output port to each target, the least summaries of paths.
    pub open spec fn lists_least_paths(self, table: Table<S>) -> bool {
        forall|source: Source, target: Target, x: S|
            self.has_source(source) ==> (#[trigger] summaries(
                row_at(table, source),
                target,
            ).contains(x) <==> self.least_path(source, target, x))
    }

    /// The table lists summaries of paths from each input port. For the empty path, and for each
    /// path through a node followed by one in `sources`, it lists one that is at most that path's.
    pub open spec fn lists_routes(self, sources: Table<S>, table: Table<S>) -> bool {
        &&& forall|from: Target, target: Target, x: S|
            self.has_target(from) && #[trigger] summaries(
                table[from.index as int][from.port as int],
                target,
            ).contains(x) ==> self.route(from, target, x)
        &&& forall|from: Target|
            self.has_target(from) ==> dominated(
                #[trigger] summaries(table[from.index as int][from.port as int], from),
                S::identity(),
            )
        &&& forall|from: Target, port: usize, j: int, target: Target, y: S|
            self.has_target(from) && port < self.outputs(from) && 0 <= j < self.inner(
                from,
                port as int,
            ).len() && #[trigger] summaries(
                row_at(sources, Source { index: from.index, port }),
                target,
            ).contains(y) && (#[trigger] self.inner(from, port as int)[j]).compose(y) is Some
                ==> dominated(
                summaries(table[from.index as int][from.port as int], target),
                self.inner(from, port as int)[j].compose(y)->0,
            )
    }

    /// The table lists, from each input port to each target, the least summaries of paths.
    pub open spec fn lists_least_routes(self, table: Table<S>) -> bool {
        forall|from: Target, target: Target, x: S|
            self.has_target(from) ==> (#[trigger] summaries(
                table[from.index as int][from.port as int],
                target,
            ).contains(x) <==> self.least_route(from, target, x))
    }
}

/// Incomparable elements of `all`, of which one is at most each of `all`, are its least ones.
proof fn lemma_least<S: PathAlgebra>(elements: Seq<S>, all: spec_fn(S) -> bool, x: S)
    requires
        incomparable(elements),
        forall|y: S| #[trigger] elements.contains(y) ==> all(y),
        forall|y: S| #[trigger] all(y) ==> dominated(elements, y),
    ensures
        elements.contains(x) <==> all(x) && forall|y: S| #[trigger] all(y) && y.leq(x) ==> y == x,
{
    if elements.contains(x) {
        let j = choose|j: int| 0 <= j < elements.len() && elements[j] == x;
        assert forall|y: S| #[trigger] all(y) && y.leq(x) implies y == x by {
            let i = choose|i: int| 0 <= i < elements.len() && (#[trigger] elements[i]).leq(y);
            S::leq_transitive(elements[i], y, x);
            assert(i == j);
            S::leq_antisymmetric(x, y);
        }
    } else if all(x) {
        let i = choose|i: int| 0 <= i < elements.len() && (#[trigger] elements[i]).leq(x);
        assert(elements.contains(elements[i]));
        assert(all(elements[i]));
    }
}

proof fn lemma_summaries_incomparable<S: PathAlgebra>(row: Row<S>, target: Target)
    requires
        row_wf(row),
    ensures
        incomparable(summaries(row, target)),
{
    if lists(row, target) {
        lemma_position(row, target);
    }
}

/// What `source_table` lists.
pub proof fn lemma_source_table_lists<S: PathAlgebra>(graph: Topology<S>)
    requires
        graph.wf(),
        graph.defined(),
    ensures
        graph.fits_sources(graph.source_table()),
        graph.well_listed(graph.source_table()),
        graph.lists_paths(graph.source_table()),
        left_monotone::<S>() ==> graph.lists_least_paths(graph.source_table()),
{
    let table = graph.source_table();
    lemma_source_table_sound(graph);
    assert forall|n: int, p: int| 0 <= n < table.len() && 0 <= p < table[n].len() implies row_wf(
        #[trigger] table[n][p],
    ) && forall|k: int|
        0 <= k < table[n][p].len() ==> graph.has_target((#[trigger] table[n][p][k]).0) by {
        let source = Source { index: n as usize, port: p as usize };
        let row = row_at(table, source);
        assert(table[n].len() == graph.shape[n].1);
        assert(graph.has_source(source));
        assert forall|k: int| 0 <= k < row.len() implies graph.has_target(
            (#[trigger] row[k]).0,
        ) by {
            lemma_row_entry(row, k);
            assert(summaries(row, row[k].0).contains(row[k].1[0]));
            lemma_path_defined(graph, source, row[k].0, row[k].1[0]);
        }
    }
    assert forall|source: Source, target: Target| #[trigger]
        graph.links(source).contains(target) implies dominated(
        summaries(row_at(table, source), target),
        S::identity(),
    ) by {
        lemma_source_table_closed(graph, source, target, S::identity(), target, S::identity());
    }
    assert forall|source: Source, mid: Target, y: S, target: Target, x: S|
        graph.has_source(source) && #[trigger] summaries(row_at(table, source), mid).contains(y)
            && #[trigger] graph.hop(mid, y, target, x) implies dominated(
        summaries(row_at(table, source), target),
        x,
    ) by {
        lemma_source_table_closed(graph, source, mid, y, target, x);
    }
    if left_monotone::<S>() {
        assert forall|source: Source, target: Target, x: S|
            graph.has_source(source) implies (#[trigger] summaries(
            row_at(table, source),
            target,
        ).contains(x) <==> graph.least_path(source, target, x)) by {
            let row = row_at(table, source);
            let all = |y: S| graph.path(source, target, y);
            lemma_summaries_incomparable(row, target);
            assert forall|y: S| #[trigger] all(y) implies dominated(summaries(row, target), y) by {
                lemma_source_table_complete(graph, source, target, y);
            }
            lemma_least(summaries(row, target), all, x);
            assert(all(x) == graph.path(source, target, x));
            if graph.least_path(source, target, x) {
                assert forall|y: S| #[trigger] all(y) && y.leq(x) implies y == x by {
                    assert(graph.path(source, target, y));
                }
            }
            if summaries(row, target).contains(x) {
                assert forall|y: S| #[trigger] graph.path(source, target, y) && y.leq(x) implies y
                    == x by {
                    assert(all(y));
                }
            }
        }
    }
}

/// The row of an input port holds the least of what is assembled.
pub proof fn lemma_target_row_least<S: PathAlgebra>(
    graph: Topology<S>,
    from: Target,
    target: Target,
    x: S,
)
    requires
        graph.wf(),
        graph.defined(),
        graph.has_target(from),
    ensures
        summaries(graph.target_row(from), target).contains(x) <==> graph.assembled(from, target, x)
            && forall|y: S| #[trigger] graph.assembled(from, target, y) && y.leq(x) ==> y == x,
{
    let table = graph.source_table();
    let items = graph.joined_all(table, from, graph.outputs(from));
    let row = graph.target_row(from);
    let rounds = summaries(graph.round_row(from), target);
    let id = S::identity();
    let all = |y: S| graph.assembled(from, target, y);
    lemma_source_table_sound(graph);
    lemma_target_row_sound(graph, from, target, x);
    lemma_summaries_incomparable(row, target);
    lemma_row_offered(graph.round_row(from), from, id, target);
    S::leq_reflexive(id);
    assert forall|y: S| #[trigger] summaries(row, target).contains(y) implies all(y) by {
        lemma_filled(items, target, y);
        lemma_joined(graph, table, from, target, y);
        lemma_offered_elements(rounds, id, y);
    }
    assert forall|y: S| #[trigger] all(y) implies dominated(summaries(row, target), y) by {
        lemma_filled(items, target, y);
        lemma_joined(graph, table, from, target, y);
        lemma_offered_dominates(rounds, id, y);
    }
    lemma_least(summaries(row, target), all, x);
    assert(all(x) == graph.assembled(from, target, x));
    assert forall|y: S| #[trigger] graph.assembled(from, target, y) == all(y) by {}
    assert forall|y: S| #[trigger] all(y) == graph.assembled(from, target, y) by {}
}

/// What `target_table` lists.
pub proof fn lemma_target_table_lists<S: PathAlgebra>(graph: Topology<S>)
    requires
        graph.wf(),
        graph.defined(),
    ensures
        graph.fits_targets(graph.target_table()),
        graph.well_listed(graph.target_table()),
        graph.lists_routes(graph.source_table(), graph.target_table()),
        monotone::<S>() ==> graph.lists_least_routes(graph.target_table()),
{
    let sources = graph.source_table();
    let table = graph.target_table();
    assert forall|from: Target| graph.has_target(from) implies
        #[trigger] table[from.index as int][from.port as int] == graph.target_row(from) by {
        assert(graph.nodes[from.index as int].len() == graph.shape[from.index as int].0);
    }
    assert forall|n: int, p: int| 0 <= n < table.len() && 0 <= p < table[n].len() implies row_wf(
        #[trigger] table[n][p],
    ) && forall|k: int|
        0 <= k < table[n][p].len() ==> graph.has_target((#[trigger] table[n][p][k]).0) by {
        let from = Target { index: n as usize, port: p as usize };
        assert(graph.nodes[n].len() == graph.shape[n].0);
        assert(graph.has_target(from));
        let row = table[n][p];
        lemma_target_row_sound(graph, from, from, S::identity());
        assert forall|k: int| 0 <= k < row.len() implies graph.has_target(
            (#[trigger] row[k]).0,
        ) by {
            lemma_row_entry(row, k);
            let target = row[k].0;
            let x = row[k].1[0];
            assert(summaries(row, target).contains(x));
            lemma_target_row_sound(graph, from, target, x);
            if graph.round(from, target, x) {
                let (port, j, y) = choose|port: usize, j: int, y: S|
                    0 <= port < graph.outputs(from) && 0 <= j < graph.inner(from, port as int).len()
                        && #[trigger] graph.path(Source { index: from.index, port }, target, y) && (
                    #[trigger] graph.inner(from, port as int)[j]).compose(y) == Some(x);
                lemma_path_defined(graph, Source { index: from.index, port }, target, y);
            }
        }
    }
    assert forall|from: Target, target: Target, x: S|
        graph.has_target(from) && #[trigger] summaries(
            table[from.index as int][from.port as int],
            target,
        ).contains(x) implies graph.route(from, target, x) by {
        lemma_target_row_sound(graph, from, target, x);
    }
    assert forall|from: Target| graph.has_target(from) implies dominated(
        #[trigger] summaries(table[from.index as int][from.port as int], from),
        S::identity(),
    ) by {
        let id = S::identity();
        S::leq_reflexive(id);
        lemma_row_offered(graph.round_row(from), from, id, from);
        lemma_offered_dominates(summaries(graph.round_row(from), from), id, id);
    }
    assert forall|from: Target, port: usize, j: int, target: Target, y: S|
        graph.has_target(from) && port < graph.outputs(from) && 0 <= j < graph.inner(
            from,
            port as int,
        ).len() && #[trigger] summaries(
            row_at(sources, Source { index: from.index, port }),
            target,
        ).contains(y) && (#[trigger] graph.inner(from, port as int)[j]).compose(y) is Some
            implies dominated(
        summaries(table[from.index as int][from.port as int], target),
        graph.inner(from, port as int)[j].compose(y)->0,
    ) by {
        let x = graph.inner(from, port as int)[j].compose(y)->0;
        let id = S::identity();
        lemma_source_table_sound(graph);
        lemma_joined(graph, sources, from, target, x);
        lemma_filled(graph.joined_all(sources, from, graph.outputs(from)), target, x);
        lemma_row_offered(graph.round_row(from), from, id, target);
        if target == from {
            lemma_offered_dominates(summaries(graph.round_row(from), from), id, x);
        }
    }
    if monotone::<S>() {
        assert forall|from: Target, target: Target, x: S|
            graph.has_target(from) implies (#[trigger] summaries(
            table[from.index as int][from.port as int],
            target,
        ).contains(x) <==> graph.least_route(from, target, x)) by {
            let row = graph.target_row(from);
            let all = |y: S| graph.route(from, target, y);
            lemma_target_row_sound(graph, from, target, x);
            lemma_summaries_incomparable(row, target);
            assert forall|y: S| #[trigger] summaries(row, target).contains(y) implies all(y) by {
                lemma_target_row_sound(graph, from, target, y);
            }
            assert forall|y: S| #[trigger] all(y) implies dominated(summaries(row, target), y) by {
                lemma_target_row_complete(graph, from, target, y);
            }
            lemma_least(summaries(row, target), all, x);
            if graph.least_route(from, target, x) {
                assert forall|y: S| #[trigger] all(y) && y.leq(x) implies y == x by {
                    assert(graph.route(from, target, y));
                }
                assert(all(x));
            }
            if summaries(row, target).contains(x) {
                assert forall|y: S| #[trigger] graph.route(from, target, y) && y.leq(x) implies y
                    == x by {
                    assert(all(y));
                }
            }
        }
    }
}

/// An idle loop that was found is one: a path from a target back to it that may leave a timestamp
/// as it is. If lesser summaries remain so along a path, each such loop is found.
pub proof fn law_idle_loops<S: PathAlgebra>(graph: Topology<S>, target: Target)
    requires
        graph.wf(),
        graph.defined(),
        graph.has_target(target),
    ensures
        graph.idle_loop(target) ==> exists|x: S| #[trigger]
            graph.round(target, target, x) && x.leq(S::identity()),
        monotone::<S>() ==> (graph.idle_loop(target) <==> exists|x: S| #[trigger]
            graph.round(target, target, x) && x.leq(S::identity())),
{
    let listed = summaries(graph.round_row(target), target);
    let id = S::identity();
    if graph.idle_loop(target) {
        let i = choose|i: int| 0 <= i < listed.len() && (#[trigger] listed[i]).leq(id);
        assert(listed.contains(listed[i]));
        lemma_target_row_sound(graph, target, target, listed[i]);
    }
    if monotone::<S>() && exists|x: S| #[trigger] graph.round(target, target, x) && x.leq(id) {
        let x = choose|x: S| #[trigger] graph.round(target, target, x) && x.leq(id);
        lemma_target_row_complete(graph, target, target, x);
        lemma_dominated_above(listed, x, id);
    }
}

} // verus!
