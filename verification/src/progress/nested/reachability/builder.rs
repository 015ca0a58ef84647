//! Compiles the nodes and edges of a graph into path summaries.

use crate::order::PartialOrder;
use crate::progress::frontier::{Antichain, dominated};
use crate::progress::nested::reachability::minimal::{
    filled, lemma_source_table_lists, lemma_target_row_sound, lemma_target_table_lists,
};
use crate::progress::nested::reachability::row::{
    Row, first_at, lemma_position, lemma_position_is, lemma_row_entry, lists, row_offered, row_view,
    row_wf, summaries,
};
use crate::progress::nested::reachability::search::{
    Table, law_search_ends, lemma_done_after, lemma_done_table, lemma_path_defined, lemma_search,
    lemma_seeds, row_at, with_row,
};
use crate::progress::nested::reachability::topology::{Topology, extended};
use crate::progress::nested::{Source, Target};
use crate::progress::timestamp::{PathAlgebra, PathSummary, Timestamp, left_monotone, monotone};
use std::collections::VecDeque;
use vstd::prelude::*;

verus! {

/// The summaries that a list of antichains holds.
pub open spec fn antichains_view<S>(antichains: Seq<Antichain<S>>) -> Seq<Seq<S>> {
    antichains.map_values(|antichain: Antichain<S>| antichain@)
}

/// The summaries between each input port and each output port of a node.
pub open spec fn ports_view<S>(ports: Seq<Vec<Antichain<S>>>) -> Seq<Seq<Seq<S>>> {
    ports.map_values(|port: Vec<Antichain<S>>| antichains_view(port@))
}

/// The summaries inside each node.
pub open spec fn nodes_view<S>(nodes: Seq<Vec<Vec<Antichain<S>>>>) -> Seq<Seq<Seq<Seq<S>>>> {
    nodes.map_values(|node: Vec<Vec<Antichain<S>>>| ports_view(node@))
}

/// The edges from each output port of a node.
pub open spec fn links_view(ports: Seq<Vec<Target>>) -> Seq<Seq<Target>> {
    ports.map_values(|port: Vec<Target>| port@)
}

/// The edges from each node.
pub open spec fn edges_view(nodes: Seq<Vec<Vec<Target>>>) -> Seq<Seq<Seq<Target>>> {
    nodes.map_values(|node: Vec<Vec<Target>>| links_view(node@))
}

/// The rows of a node.
pub open spec fn rows_view<S>(rows: Seq<Vec<(Target, Antichain<S>)>>) -> Seq<Row<S>> {
    rows.map_values(|row: Vec<(Target, Antichain<S>)>| row_view(row@))
}

/// The rows of all nodes.
pub open spec fn table_view<S>(nodes: Seq<Vec<Vec<(Target, Antichain<S>)>>>) -> Table<S> {
    nodes.map_values(|node: Vec<Vec<(Target, Antichain<S>)>>| rows_view(node@))
}

/// A topology builder, which can summarize reachability along paths.
///
/// A `Builder` takes descriptions of the nodes and edges in a graph, and compiles
/// a static summary of the minimal actions a timestamp must endure going from any
/// input or output port to a destination input port.
///
/// A graph is provided as (i) several indexed nodes, each with some number of input
/// and output ports, and each with a summary of the internal paths connecting each
/// input to each output, and (ii) a set of edges connecting output ports to input
/// ports. Edges do not adjust timestamps; only nodes do this.
///
/// The resulting summary describes, for each origin port in the graph and destination
/// input port, a set of incomparable path summaries, each describing what happens to
/// a timestamp as it moves along the path. There may be multiple summaries for each
/// pair of origin and destination due to the fact that the actions on timestamps may
/// not be totally ordered (e.g., "increment the timestamp" and "take the maximum of
/// the timestamp and seven").
///
/// Its view is the graph that was described.
#[derive(Debug)]
pub struct Builder<T: Timestamp> {
    /// Internal connections within hosted operators.
    ///
    /// Indexed by operator index, then input port, then output port.
    nodes: Vec<Vec<Vec<Antichain<T::Summary>>>>,
    /// Direct connections from sources to targets.
    ///
    /// Edges do not affect timestamps, so we only need to know the connectivity.
    /// Indexed by operator index, then output port.
    edges: Vec<Vec<Vec<Target>>>,
    /// Numbers of inputs and outputs for each node.
    shape: Vec<(usize, usize)>,
}

impl<T: Timestamp> View for Builder<T> {
    type V = Topology<T::Summary>;

    closed spec fn view(&self) -> Topology<T::Summary> {
        Topology {
            nodes: nodes_view(self.nodes@),
            edges: edges_view(self.edges@),
            shape: self.shape@,
        }
    }
}

impl<T: Timestamp> Clone for Builder<T> {
    fn clone(&self) -> (copy: Self)
        ensures
            copy@ == self@,
    {
        let copy = Builder {
            nodes: self.nodes.clone(),
            edges: self.edges.clone(),
            shape: copy_shape(&self.shape),
        };
        proof {
            assert forall|n: int| 0 <= n < self.nodes@.len() implies ports_view(
                #[trigger] copy.nodes@[n]@,
            ) == ports_view(self.nodes@[n]@) by {
                lemma_ports_cloned(self.nodes@[n], copy.nodes@[n]);
            }
            assert(copy@.nodes =~= self@.nodes);
            assert forall|n: int| 0 <= n < self.edges@.len() implies links_view(
                #[trigger] copy.edges@[n]@,
            ) == links_view(self.edges@[n]@) by {
                lemma_links_cloned(self.edges@[n], copy.edges@[n]);
            }
            assert(copy@.edges =~= self@.edges);
        }
        copy
    }
}

fn copy_shape(shape: &Vec<(usize, usize)>) -> (copy: Vec<(usize, usize)>)
    ensures
        copy@ == shape@,
{
    let mut copy: Vec<(usize, usize)> = Vec::new();
    while copy.len() < shape.len()
        invariant
            copy@.len() <= shape@.len(),
            copy@ == shape@.take(copy@.len() as int),
        decreases shape@.len() - copy@.len(),
    {
        let node = shape[copy.len()];
        copy.push(node);
        assert(copy@ =~= shape@.take(copy@.len() as int));
    }
    assert(shape@.take(copy@.len() as int) =~= shape@);
    copy
}

proof fn lemma_ports_cloned<S: PathAlgebra>(
    ports: Vec<Vec<Antichain<S>>>,
    copy: Vec<Vec<Antichain<S>>>,
)
    requires
        cloned(ports, copy),
    ensures
        ports_view(copy@) == ports_view(ports@),
{
    assert forall|i: int| 0 <= i < ports@.len() implies antichains_view(#[trigger] copy@[i]@)
        == antichains_view(ports@[i]@) by {
        let port = ports@[i];
        let other = copy@[i];
        assert(cloned(port, other));
        assert forall|o: int| 0 <= o < port@.len() implies (#[trigger] other@[o])@ == port@[o]@ by {
            assert(cloned(port@[o], other@[o]));
            assert forall|k: int| 0 <= k < port@[o]@.len() implies #[trigger] other@[o]@[k]
                == port@[o]@[k] by {
                assert(cloned(port@[o]@[k], other@[o]@[k]));
                S::clone_is_same(port@[o]@[k], other@[o]@[k]);
            }
            assert(other@[o]@ =~= port@[o]@);
        }
        assert(antichains_view(other@) =~= antichains_view(port@));
    }
    assert(ports_view(copy@) =~= ports_view(ports@));
}

proof fn lemma_links_cloned(links: Vec<Vec<Target>>, copy: Vec<Vec<Target>>)
    requires
        cloned(links, copy),
    ensures
        links_view(copy@) == links_view(links@),
{
    assert forall|p: int| 0 <= p < links@.len() implies (#[trigger] copy@[p])@ == links@[p]@ by {
        assert(cloned(links@[p], copy@[p]));
        assert forall|k: int| 0 <= k < links@[p]@.len() implies #[trigger] copy@[p]@[k]
            == links@[p]@[k] by {
            assert(cloned(links@[p]@[k], copy@[p]@[k]));
        }
        assert(copy@[p]@ =~= links@[p]@);
    }
    assert(links_view(copy@) =~= links_view(links@));
}

impl<T: Timestamp> Builder<T> {
    /// Create a new empty topology builder.
    pub fn new() -> (builder: Self)
        ensures
            builder@ == Topology::<T::Summary>::empty(),
            builder@.wf(),
            builder@.defined(),
            builder@.nodes.len() == 0,
            builder@.edges.len() == 0,
            builder@.shape.len() == 0,
    {
        let builder = Builder { nodes: Vec::new(), edges: Vec::new(), shape: Vec::new() };
        assert(builder@ =~= Topology::<T::Summary>::empty());
        builder
    }

    /// Add links internal to operators.
    ///
    /// This method overwrites any existing summary, instead of anything more sophisticated.
    pub fn add_node(
        &mut self,
        index: usize,
        inputs: usize,
        outputs: usize,
        summary: Vec<Vec<Antichain<T::Summary>>>,
    )
        requires
            old(self)@.wf(),
            index < usize::MAX,
            summary@.len() == inputs,
            forall|i: int| 0 <= i < inputs ==> (#[trigger] summary@[i])@.len() == outputs,
        ensures
            final(self)@ == old(self)@.with_node(
                index as int,
                inputs,
                outputs,
                ports_view(summary@),
            ),
            final(self)@.wf(),
            final(self)@.shape[index as int] == (inputs, outputs),
            forall|i: int, o: int|
                0 <= i < inputs && 0 <= o < outputs ==> final(self)@.nodes[index as int][i][o] == (
                #[trigger] summary@[i]@[o])@,
            final(self)@.edges == old(self)@.edges,
    {
        let ghost graph = self@;
        while self.nodes.len() <= index
            invariant
                graph.wf(),
                index < usize::MAX,
                self.nodes@.len() == self.shape@.len(),
                graph.nodes.len() <= self.nodes@.len(),
                self.nodes@.len() <= index + 1 || self.nodes@.len() == graph.nodes.len(),
                self@.edges == graph.edges,
                forall|i: int|
                    0 <= i < graph.nodes.len() ==> self@.nodes[i] == #[trigger] graph.nodes[i],
                forall|i: int|
                    0 <= i < graph.nodes.len() ==> self@.shape[i] == #[trigger] graph.shape[i],
                forall|i: int|
                    graph.nodes.len() <= i < self@.nodes.len() ==> (#[trigger] self@.nodes[i]).len()
                        == 0,
                forall|i: int|
                    graph.nodes.len() <= i < self@.nodes.len() ==> #[trigger] self@.shape[i] == (
                        0usize,
                        0usize,
                    ),
            decreases index + 1 - self.nodes@.len(),
        {
            let ghost before = self@;
            self.nodes.push(Vec::new());
            self.shape.push((0, 0));
            assert(self@.nodes =~= before.nodes.push(ports_view(Seq::empty())));
            assert(self@.shape =~= before.shape.push((0, 0)));
        }
        let ghost padded = self@;
        assert(padded.nodes =~= extended(graph.nodes, index as int, Seq::empty())) by {
            assert forall|i: int| graph.nodes.len() <= i < padded.nodes.len() implies
                #[trigger] padded.nodes[i] == Seq::<Seq<Seq<T::Summary>>>::empty() by {
                assert(padded.nodes[i] =~= Seq::<Seq<Seq<T::Summary>>>::empty());
            }
        }
        assert(padded.shape =~= extended(graph.shape, index as int, (0usize, 0usize)));
        self.nodes[index] = summary;
        self.shape[index] = (inputs, outputs);
        assert(self@ =~= graph.with_node(index as int, inputs, outputs, ports_view(summary@)));
    }

    /// Add links between operators.
    ///
    /// This method does not check that the associated nodes and ports exist. References to
    /// missing nodes or ports are discovered in `summarize`.
    pub fn add_edge(&mut self, source: Source, target: Target)
        requires
            old(self)@.wf(),
            source.index < usize::MAX,
            source.port < usize::MAX,
        ensures
            final(self)@ == old(self)@.with_edge(source, target),
            final(self)@.wf(),
            final(self)@.links(source) == old(self)@.links(source).push(target),
            forall|other: Source|
                other != source ==> #[trigger] final(self)@.links(other) == old(self)@.links(other),
            final(self)@.nodes == old(self)@.nodes,
            final(self)@.shape == old(self)@.shape,
    {
        let ghost graph = self@;
        while self.edges.len() <= source.index
            invariant
                source.index < usize::MAX,
                graph.edges.len() <= self.edges@.len(),
                self.edges@.len() <= source.index + 1 || self.edges@.len() == graph.edges.len(),
                self@.nodes == graph.nodes,
                self@.shape == graph.shape,
                forall|i: int|
                    0 <= i < graph.edges.len() ==> self@.edges[i] == #[trigger] graph.edges[i],
                forall|i: int|
                    graph.edges.len() <= i < self@.edges.len() ==> (#[trigger] self@.edges[i]).len()
                        == 0,
            decreases source.index + 1 - self.edges@.len(),
        {
            let ghost before = self@;
            self.edges.push(Vec::new());
            assert(self@.edges =~= before.edges.push(links_view(Seq::empty())));
        }
        let ghost nodes = self@.edges;
        assert(nodes =~= extended(graph.edges, source.index as int, Seq::empty())) by {
            assert forall|i: int| graph.edges.len() <= i < nodes.len() implies #[trigger] nodes[i]
                == Seq::<Seq<Target>>::empty() by {
                assert(nodes[i] =~= Seq::<Seq<Target>>::empty());
            }
        }
        let ghost node = nodes[source.index as int];
        while self.edges[source.index].len() <= source.port
            invariant
                source.port < usize::MAX,
                source.index < nodes.len(),
                node == nodes[source.index as int],
                self@.nodes == graph.nodes,
                self@.shape == graph.shape,
                self@.edges.len() == nodes.len(),
                forall|i: int|
                    0 <= i < nodes.len() && i != source.index ==> self@.edges[i]
                        == #[trigger] nodes[i],
                node.len() <= self@.edges[source.index as int].len(),
                self@.edges[source.index as int].len() <= source.port + 1
                    || self@.edges[source.index as int].len() == node.len(),
                forall|i: int|
                    0 <= i < node.len() ==> self@.edges[source.index as int][i]
                        == #[trigger] node[i],
                forall|i: int|
                    node.len() <= i < self@.edges[source.index as int].len() ==> (
                    #[trigger] self@.edges[source.index as int][i]).len() == 0,
            decreases source.port + 1 - self@.edges[source.index as int].len(),
        {
            let ghost before = self@;
            self.edges[source.index].push(Vec::new());
            let ghost grown = before.edges[source.index as int].push(Seq::empty());
            assert(self@.edges[source.index as int] =~= grown);
            assert(self@.edges =~= before.edges.update(source.index as int, grown));
        }
        let ghost ports = self@.edges[source.index as int];
        assert(ports =~= extended(node, source.port as int, Seq::empty())) by {
            assert forall|i: int| node.len() <= i < ports.len() implies #[trigger] ports[i]
                == Seq::<Target>::empty() by {
                assert(ports[i] =~= Seq::<Target>::empty());
            }
        }
        self.edges[source.index][source.port].push(target);
        assert(self@.edges[source.index as int] =~= ports.update(
            source.port as int,
            ports[source.port as int].push(target),
        ));
        assert(self@.edges =~= graph.with_edge(source, target).edges);
        assert(self@ =~= graph.with_edge(source, target));
    }
}

impl<T: Timestamp> Builder<T> {
    /// All edges in the graph, each as a path with a default summary.
    fn seeds(&self) -> (work: VecDeque<((Source, Target), T::Summary)>)
        requires
            self@.wf(),
        ensures
            work@ == self@.seeds(self@.edges.len()),
    {
        let ghost graph = self@;
        let mut work: VecDeque<((Source, Target), T::Summary)> = VecDeque::new();
        let mut index: usize = 0;
        while index < self.edges.len()
            invariant
                index <= self.edges@.len(),
                graph == self@,
                work@ == graph.seeds(index as nat),
            decreases self.edges@.len() - index,
        {
            let mut port: usize = 0;
            while port < self.edges[index].len()
                invariant
                    index < self.edges@.len(),
                    port <= self.edges@[index as int]@.len(),
                    graph == self@,
                    work@ == graph.seeds(index as nat) + graph.seeds_of(index as nat, port as nat),
                decreases self.edges@[index as int]@.len() - port,
            {
                let ghost before = work@;
                let mut k: usize = 0;
                while k < self.edges[index][port].len()
                    invariant
                        index < self.edges@.len(),
                        port < self.edges@[index as int]@.len(),
                        k <= self.edges@[index as int]@[port as int]@.len(),
                        graph == self@,
                        work@ == before + graph.seeds_at(index as nat, port as nat).take(k as int),
                    decreases self.edges@[index as int]@[port as int]@.len() - k,
                {
                    let summary: T::Summary = Default::default();
                    proof {
                        T::Summary::default_is_identity(summary);
                    }
                    let ghost links = graph.edges[index as int][port as int];
                    let target = self.edges[index][port][k];
                    assert(links[k as int] == target);
                    work.push_back(((Source { index: index, port: port }, target), summary));
                    let ghost all = graph.seeds_at(index as nat, port as nat);
                    assert(all.take(k + 1) =~= all.take(k as int).push(all[k as int]));
                    k = k + 1;
                }
                let ghost all = graph.seeds_at(index as nat, port as nat);
                assert(all.take(k as int) =~= all);
                assert(work@ =~= graph.seeds(index as nat) + graph.seeds_of(
                    index as nat,
                    (port + 1) as nat,
                ));
                port = port + 1;
            }
            index = index + 1;
        }
        work
    }

    /// Appends to `work` each path that extends, by one hop, a path from `source` to `mid`.
    fn push_hops(
        &self,
        work: &mut VecDeque<((Source, Target), T::Summary)>,
        source: Source,
        mid: Target,
        summary: &T::Summary,
    )
        requires
            self@.wf(),
            self@.has_target(mid),
        ensures
            final(work)@ == old(work)@ + self@.hops(source, mid, *summary, self@.outputs(mid)),
    {
        let ghost graph = self@;
        let ghost before = work@;
        let ghost x = *summary;
        let outputs = &self.nodes[mid.index][mid.port];
        let mut port: usize = 0;
        while port < outputs.len()
            invariant
                graph == self@,
                graph.wf(),
                graph.has_target(mid),
                x == *summary,
                outputs == self.nodes@[mid.index as int]@[mid.port as int],
                port <= outputs@.len(),
                work@ == before + graph.hops(source, mid, x, port as nat),
            decreases outputs@.len() - port,
        {
            let internal = outputs[port].elements();
            let ghost upto = work@;
            assert(internal@ == graph.inner(mid, port as int));
            let next = Source { index: mid.index, port: port };
            let mut j: usize = 0;
            while j < internal.len()
                invariant
                    graph == self@,
                    x == *summary,
                    internal@ == graph.inner(mid, port as int),
                    next == (Source { index: mid.index, port: port }),
                    j <= internal@.len(),
                    work@ == upto + graph.hops_at(source, mid, x, port as nat, j as nat),
                decreases internal@.len() - j,
            {
                let ghost upto_here = work@;
                let ghost more = graph.hops_by(source, mid, x, port as nat, j as nat);
                if let Some(new_summary) = summary.followed_by(&internal[j]) {
                    if next.index < self.edges.len() && next.port < self.edges[next.index].len() {
                        let links = &self.edges[next.index][next.port];
                        assert(links@ == graph.links(next));
                        let mut k: usize = 0;
                        while k < links.len()
                            invariant
                                k <= links@.len(),
                                links@ == graph.links(next),
                                more == links@.map_values(
                                    |target: Target| ((source, target), new_summary),
                                ),
                                work@ == upto_here + more.take(k as int),
                            decreases links@.len() - k,
                        {
                            let copy = new_summary.clone();
                            proof {
                                T::Summary::clone_is_same(new_summary, copy);
                            }
                            work.push_back(((source, links[k]), copy));
                            assert(more.take(k + 1) =~= more.take(k as int).push(more[k as int]));
                            k = k + 1;
                        }
                        assert(more.take(k as int) =~= more);
                    } else {
                        assert(more =~= Seq::empty());
                        assert(work@ =~= upto_here + more);
                    }
                } else {
                    assert(work@ =~= upto_here + more);
                }
                assert(work@ =~= upto + graph.hops_at(
                    source,
                    mid,
                    x,
                    port as nat,
                    (j + 1) as nat,
                ));
                j = j + 1;
            }
            assert(work@ =~= before + graph.hops(source, mid, x, (port + 1) as nat));
            port = port + 1;
        }
    }

    /// A table with an empty row for each output port.
    fn blank(&self) -> (table: Vec<Vec<Vec<(Target, Antichain<T::Summary>)>>>)
        ensures
            table_view(table@) == self@.blank(),
    {
        let ghost graph = self@;
        let mut table: Vec<Vec<Vec<(Target, Antichain<T::Summary>)>>> = Vec::new();
        let mut index: usize = 0;
        while index < self.shape.len()
            invariant
                graph == self@,
                index <= self.shape@.len(),
                table_view(table@) == graph.blank().take(index as int),
            decreases self.shape@.len() - index,
        {
            let ghost before = table_view(table@);
            let mut rows: Vec<Vec<(Target, Antichain<T::Summary>)>> = Vec::new();
            let outputs = self.shape[index].1;
            while rows.len() < outputs
                invariant
                    rows@.len() <= outputs,
                    forall|p: int| 0 <= p < rows@.len() ==> (#[trigger] rows@[p])@.len() == 0,
                decreases outputs - rows@.len(),
            {
                rows.push(Vec::new());
            }
            proof {
                assert forall|p: int| 0 <= p < rows@.len() implies #[trigger] rows_view(rows@)[p]
                    == Seq::<(Target, Seq<T::Summary>)>::empty() by {
                    assert(rows@[p]@.len() == 0);
                    assert(rows_view(rows@)[p] =~= Seq::<(Target, Seq<T::Summary>)>::empty());
                }
                assert(rows_view(rows@) =~= graph.blank()[index as int]);
            }
            table.push(rows);
            assert(table_view(table@) =~= before.push(rows_view(rows@)));
            assert(graph.blank().take(index + 1) =~= graph.blank().take(index as int).push(
                graph.blank()[index as int],
            ));
            index = index + 1;
        }
        assert(graph.blank().take(index as int) =~= graph.blank());
        table
    }

    /// Establishes all source-target path summaries by fixed-point computation.
    fn search(&self) -> (table: Vec<Vec<Vec<(Target, Antichain<T::Summary>)>>>)
        requires
            self@.wf(),
            self@.defined(),
        ensures
            table_view(table@) == self@.source_table(),
    {
        let ghost graph = self@;
        let mut work = self.seeds();
        let mut table = self.blank();
        let ghost mut n: nat = 0;
        proof {
            law_search_ends(graph);
        }
        let ghost end = choose|n: nat| graph.done(n);
        loop
            invariant
                graph == self@,
                graph.wf(),
                graph.defined(),
                graph.done(end),
                work@ == graph.search(n).work,
                table_view(table@) == graph.search(n).table,
            ensures
                graph.done(n),
            decreases end - n,
        {
            let ghost state = graph.search(n);
            if let Some(((source, target), summary)) = work.pop_front() {
                proof {
                    lemma_search(graph, n);
                    lemma_path_defined(graph, source, target, summary);
                    lemma_done_after(graph, n, end);
                    assert(work@ =~= state.work.skip(1));
                }
                let ghost before = table_view(table@);
                let ghost row = row_at(before, source);
                let copy = summary.clone();
                proof {
                    T::Summary::clone_is_same(summary, copy);
                    assert(before[source.index as int].len() == graph.shape[source.index as int].1);
                }
                // If the summary is novel we should explore its two-hop connections.
                let novel = add_summary(&mut table[source.index][source.port], target, copy);
                proof {
                    let node = before[source.index as int];
                    let new_row = row_offered(row, target, summary);
                    assert(table_view(table@)[source.index as int] =~= node.update(
                        source.port as int,
                        new_row,
                    ));
                    assert(table_view(table@) =~= with_row(before, source, new_row));
                }
                if novel {
                    self.push_hops(&mut work, source, target, &summary);
                }
                proof {
                    assert(graph.search(n + 1) == graph.step(state));
                    n = n + 1;
                }
            } else {
                break;
            }
        }
        proof {
            lemma_done_table(graph, n);
        }
        table
    }
}

impl<T: Timestamp> Builder<T> {
    /// Extends source-target path summaries by one connection from the input `from`, to yield
    /// the summaries of the paths from there through at least one node.
    fn rounds_from(
        &self,
        source_target: &Vec<Vec<Vec<(Target, Antichain<T::Summary>)>>>,
        from: Target,
    ) -> (vector: Vec<(Target, Antichain<T::Summary>)>)
        requires
            self@.wf(),
            self@.has_target(from),
            self@.fits_sources(table_view(source_target@)),
        ensures
            row_view(vector@) == filled(
                self@.joined_all(table_view(source_target@), from, self@.outputs(from)),
            ),
    {
        let ghost graph = self@;
        let ghost table = table_view(source_target@);
        let ghost mut items: Seq<(Target, T::Summary)> = Seq::empty();
        let mut vector: Vec<(Target, Antichain<T::Summary>)> = Vec::new();
        let outputs = &self.nodes[from.index][from.port];
        proof {
            assert(row_view(vector@) =~= filled(items));
            assert(graph.nodes[from.index as int][from.port as int].len()
                == graph.shape[from.index as int].1);
            assert(table[from.index as int].len() == graph.shape[from.index as int].1);
        }
        let mut port: usize = 0;
        while port < outputs.len()
            invariant
                graph == self@,
                table == table_view(source_target@),
                graph.wf(),
                graph.has_target(from),
                from.index < source_target@.len(),
                outputs == self.nodes@[from.index as int]@[from.port as int],
                source_target@[from.index as int]@.len() == outputs@.len(),
                port <= outputs@.len(),
                items == graph.joined_all(table, from, port as nat),
                row_view(vector@) == filled(items),
            decreases outputs@.len() - port,
        {
            let ghost upto_port = items;
            let internal = outputs[port].elements();
            let known = &source_target[from.index][port];
            let ghost row = row_at(table, Source { index: from.index, port: port });
            assert(internal@ == graph.inner(from, port as int));
            assert(row_view(known@) == row);
            assert(items =~= upto_port + graph.joined_port(table, from, port as nat, 0));
            let mut j: usize = 0;
            while j < internal.len()
                invariant
                    graph == self@,
                    internal@ == graph.inner(from, port as int),
                    row == row_at(table, Source { index: from.index, port: port }),
                    row_view(known@) == row,
                    j <= internal@.len(),
                    items == upto_port + graph.joined_port(table, from, port as nat, j as nat),
                    row_view(vector@) == filled(items),
                decreases internal@.len() - j,
            {
                let ghost upto_path = items;
                assert(items =~= upto_path + graph.joined_row(row, from, port as nat, j as nat, 0));
                let mut k: usize = 0;
                while k < known.len()
                    invariant
                        graph == self@,
                        internal@ == graph.inner(from, port as int),
                        row_view(known@) == row,
                        j < internal@.len(),
                        k <= known@.len(),
                        items == upto_path + graph.joined_row(
                            row,
                            from,
                            port as nat,
                            j as nat,
                            k as nat,
                        ),
                        row_view(vector@) == filled(items),
                    decreases known@.len() - k,
                {
                    let ghost upto_entry = items;
                    let target = known[k].0;
                    let new_summaries = known[k].1.elements();
                    assert(row[k as int] == (target, new_summaries@));
                    assert(items =~= upto_entry + graph.joined_entry(
                        row,
                        from,
                        port as nat,
                        j as nat,
                        k as nat,
                        0,
                    ));
                    let mut m: usize = 0;
                    while m < new_summaries.len()
                        invariant
                            graph == self@,
                            internal@ == graph.inner(from, port as int),
                            row[k as int] == (target, new_summaries@),
                            j < internal@.len(),
                            m <= new_summaries@.len(),
                            items == upto_entry + graph.joined_entry(
                                row,
                                from,
                                port as nat,
                                j as nat,
                                k as nat,
                                m as nat,
                            ),
                            row_view(vector@) == filled(items),
                        decreases new_summaries@.len() - m,
                    {
                        let ghost before = items;
                        let ghost more = graph.joined(
                            from,
                            port as nat,
                            j as nat,
                            target,
                            new_summaries@[m as int],
                        );
                        if let Some(summary) = internal[j].followed_by(&new_summaries[m]) {
                            add_summary(&mut vector, target, summary);
                            proof {
                                items = items.push((target, summary));
                                assert(items.drop_last() =~= before);
                                assert(items =~= before + more);
                            }
                        } else {
                            assert(items =~= before + more);
                        }
                        assert(items =~= upto_entry + graph.joined_entry(
                            row,
                            from,
                            port as nat,
                            j as nat,
                            k as nat,
                            (m + 1) as nat,
                        ));
                        m = m + 1;
                    }
                    assert(items =~= upto_path + graph.joined_row(
                        row,
                        from,
                        port as nat,
                        j as nat,
                        (k + 1) as nat,
                    ));
                    k = k + 1;
                }
                assert(items =~= upto_port + graph.joined_port(
                    table,
                    from,
                    port as nat,
                    (j + 1) as nat,
                ));
                j = j + 1;
            }
            assert(items =~= graph.joined_all(table, from, (port + 1) as nat));
            port = port + 1;
        }
        vector
    }

    /// The summaries of the paths from each input port through at least one node.
    fn rounds(
        &self,
        source_target: &Vec<Vec<Vec<(Target, Antichain<T::Summary>)>>>,
    ) -> (target_target: Vec<Vec<Vec<(Target, Antichain<T::Summary>)>>>)
        requires
            self@.wf(),
            self@.fits_sources(table_view(source_target@)),
            table_view(source_target@) == self@.source_table(),
        ensures
            table_view(target_target@) == self@.round_table(),
    {
        let ghost graph = self@;
        let mut target_target: Vec<Vec<Vec<(Target, Antichain<T::Summary>)>>> = Vec::new();
        let mut index: usize = 0;
        while index < self.nodes.len()
            invariant
                graph == self@,
                graph.wf(),
                graph.fits_sources(table_view(source_target@)),
                table_view(source_target@) == graph.source_table(),
                index <= self.nodes@.len(),
                table_view(target_target@) == graph.round_table().take(index as int),
            decreases self.nodes@.len() - index,
        {
            let ghost before = table_view(target_target@);
            let ghost expected = graph.round_table()[index as int];
            let mut rows: Vec<Vec<(Target, Antichain<T::Summary>)>> = Vec::new();
            let mut input_port: usize = 0;
            assert(rows_view(rows@) =~= expected.take(0));
            while input_port < self.nodes[index].len()
                invariant
                    graph == self@,
                    graph.wf(),
                    graph.fits_sources(table_view(source_target@)),
                    table_view(source_target@) == graph.source_table(),
                    index < self.nodes@.len(),
                    input_port <= self.nodes@[index as int]@.len(),
                    expected == graph.round_table()[index as int],
                    rows_view(rows@) == expected.take(input_port as int),
                decreases self.nodes@[index as int]@.len() - input_port,
            {
                let ghost rows_before = rows_view(rows@);
                let from = Target { index: index, port: input_port };
                assert(graph.nodes[index as int].len() == graph.shape[index as int].0);
                let row = self.rounds_from(source_target, from);
                rows.push(row);
                assert(rows_view(rows@) =~= rows_before.push(row_view(row@)));
                assert(expected.take(input_port + 1) =~= expected.take(input_port as int).push(
                    expected[input_port as int],
                ));
                input_port = input_port + 1;
            }
            assert(expected.take(input_port as int) =~= expected);
            target_target.push(rows);
            assert(table_view(target_target@) =~= before.push(rows_view(rows@)));
            assert(graph.round_table().take(index + 1) =~= graph.round_table().take(
                index as int,
            ).push(expected));
            index = index + 1;
        }
        assert(graph.round_table().take(index as int) =~= graph.round_table());
        target_target
    }

    /// Incorporates trivial self-loops, as changes at a target do apply to the target.
    fn add_empty_paths(
        &self,
        target_target: &mut Vec<Vec<Vec<(Target, Antichain<T::Summary>)>>>,
    )
        requires
            self@.wf(),
            table_view(old(target_target)@) == self@.round_table(),
        ensures
            table_view(final(target_target)@) == self@.target_table(),
    {
        let ghost graph = self@;
        let ghost rounds = graph.round_table();
        let ghost goal = graph.target_table();
        let mut index: usize = 0;
        while index < self.nodes.len()
            invariant
                graph == self@,
                graph.wf(),
                rounds == graph.round_table(),
                goal == graph.target_table(),
                index <= self.nodes@.len(),
                table_view(target_target@).len() == rounds.len(),
                forall|n: int|
                    0 <= n < index ==> #[trigger] table_view(target_target@)[n] == goal[n],
                forall|n: int|
                    index <= n < rounds.len() ==> #[trigger] table_view(target_target@)[n]
                        == rounds[n],
            decreases self.nodes@.len() - index,
        {
            let ghost before = table_view(target_target@);
            let mut input_port: usize = 0;
            while input_port < self.nodes[index].len()
                invariant
                    graph == self@,
                    graph.wf(),
                    rounds == graph.round_table(),
                    goal == graph.target_table(),
                    index < self.nodes@.len(),
                    input_port <= self.nodes@[index as int]@.len(),
                    table_view(target_target@).len() == rounds.len(),
                    forall|n: int|
                        0 <= n < rounds.len() && n != index ==> #[trigger] table_view(
                            target_target@,
                        )[n] == before[n],
                    table_view(target_target@)[index as int].len() == rounds[index as int].len(),
                    forall|i: int|
                        0 <= i < input_port ==> #[trigger] table_view(
                            target_target@,
                        )[index as int][i] == goal[index as int][i],
                    forall|i: int|
                        input_port <= i < rounds[index as int].len() ==> #[trigger] table_view(
                            target_target@,
                        )[index as int][i] == rounds[index as int][i],
                decreases self.nodes@[index as int]@.len() - input_port,
            {
                let ghost node = table_view(target_target@)[index as int];
                let ghost tables = table_view(target_target@);
                let ghost row = node[input_port as int];
                let from = Target { index: index, port: input_port };
                let summary: T::Summary = Default::default();
                proof {
                    T::Summary::default_is_identity(summary);
                    assert(row == graph.round_row(from));
                }
                add_summary(&mut target_target[index][input_port], from, summary);
                proof {
                    let changed = node.update(input_port as int, graph.target_row(from));
                    assert(table_view(target_target@)[index as int] =~= changed);
                    assert(table_view(target_target@) =~= tables.update(index as int, changed));
                }
                input_port = input_port + 1;
            }
            assert(table_view(target_target@)[index as int] =~= goal[index as int]);
            index = index + 1;
        }
        assert(table_view(target_target@) =~= goal);
    }

    /// Compiles the current nodes and edges into immutable path summaries.
    ///
    /// Each edge has to refer to nodes and ports that exist, and there may be no self-loop with a
    /// default summary (a serious liveness issue). `try_summarize` looks for both.
    pub fn summarize(&mut self) -> (summary: Summary<T>)
        requires
            old(self)@.wf(),
            old(self)@.defined(),
            forall|target: Target| !#[trigger] old(self)@.idle_loop(target),
        ensures
            *final(self) == *old(self),
            summary.source_table() == old(self)@.source_table(),
            summary.target_table() == old(self)@.target_table(),
            summary.describes(old(self)@),
    {
        self.summarize_with_loops()
    }

    /// Compiles the current nodes and edges into immutable path summaries, whichever self-loops
    /// there are.
    ///
    /// Self-loops with default summaries are summarized as any other path. Each edge has to refer
    /// to nodes and ports that exist.
    pub fn summarize_with_loops(&mut self) -> (summary: Summary<T>)
        requires
            old(self)@.wf(),
            old(self)@.defined(),
        ensures
            *final(self) == *old(self),
            summary.source_table() == old(self)@.source_table(),
            summary.target_table() == old(self)@.target_table(),
            summary.describes(old(self)@),
    {
        let source_target = self.search();
        proof {
            lemma_source_table_lists(self@);
            lemma_target_table_lists(self@);
        }
        let mut target_target = self.rounds(&source_target);
        self.add_empty_paths(&mut target_target);
        Summary { source_target, target_target }
    }
}

/// What is wrong with a graph.
#[derive(Clone, Copy, Debug, PartialEq, Eq, Structural)]
pub enum TopologyError {
    /// An edge refers to a node or a port that does not exist.
    UndefinedEdge(Source, Target),
    /// There is a path from a target back to it that may leave a timestamp as it is.
    DefaultSelfLoop(Target),
}

impl<T: Timestamp> Builder<T> {
    /// The first edge that refers to a node or a port that does not exist.
    fn undefined_edge(&self) -> (result: Option<(Source, Target)>)
        requires
            self@.wf(),
        ensures
            match result {
                Some((source, target)) => first_undefined(self@, source, target) && self@.links(
                    source,
                ).contains(target) && !(self@.has_source(source) && self@.has_target(target)),
                None => self@.defined(),
            },
    {
        let ghost graph = self@;
        let ghost all = graph.seeds(graph.edges.len());
        let mut work = self.seeds();
        let ghost mut seen: int = 0;
        loop
            invariant
                graph == self@,
                all == graph.seeds(graph.edges.len()),
                graph.wf(),
                0 <= seen <= all.len(),
                work@ == all.skip(seen),
                forall|i: int|
                    0 <= i < seen ==> graph.has_source((#[trigger] all[i]).0.0) && graph.has_target(
                        all[i].0.1,
                    ),
            ensures
                seen == all.len(),
            decreases all.len() - seen,
        {
            if let Some(((source, target), _)) = work.pop_front() {
                assert(all[seen].0 == (source, target));
                let has_source = source.index < self.shape.len() && source.port
                    < self.shape[source.index].1;
                let has_target = target.index < self.shape.len() && target.port
                    < self.shape[target.index].0;
                if !has_source || !has_target {
                    proof {
                        assert(all.contains(all[seen]));
                        lemma_seeds(graph, source, target, all[seen].1);
                    }
                    return Some((source, target));
                }
                assert(work@ =~= all.skip(seen + 1));
                proof {
                    seen = seen + 1;
                }
            } else {
                break;
            }
        }
        proof {
            assert forall|source: Source, target: Target| #[trigger]
                graph.links(source).contains(target) implies graph.has_source(source)
                && graph.has_target(target) by {
                lemma_seeds(graph, source, target, T::Summary::identity());
                let i = choose|i: int|
                    0 <= i < all.len() && all[i] == ((source, target), T::Summary::identity());
                assert(graph.has_source(all[i].0.0));
            }
        }
        None
    }

    /// The first target that has a path back to it with at most a default summary.
    fn self_loop(
        &self,
        target_target: &Vec<Vec<Vec<(Target, Antichain<T::Summary>)>>>,
    ) -> (result: Option<Target>)
        requires
            self@.wf(),
            self@.defined(),
            table_view(target_target@) == self@.round_table(),
        ensures
            match result {
                Some(target) => first_idle(self@, target),
                None => forall|target: Target| !#[trigger] self@.idle_loop(target),
            },
    {
        let ghost graph = self@;
        let default: T::Summary = Default::default();
        proof {
            T::Summary::default_is_identity(default);
            assert(table_view(target_target@).len() == target_target@.len());
        }
        let mut node: usize = 0;
        while node < target_target.len()
            invariant
                graph == self@,
                graph.wf(),
                graph.defined(),
                target_target@.len() == graph.nodes.len(),
                table_view(target_target@) == graph.round_table(),
                default == T::Summary::identity(),
                node <= target_target@.len(),
                forall|t: Target| t.index < node ==> !#[trigger] graph.idle_loop(t),
            decreases target_target@.len() - node,
        {
            let mut port: usize = 0;
            while port < target_target[node].len()
                invariant
                    graph == self@,
                    graph.wf(),
                    graph.defined(),
                    target_target@.len() == graph.nodes.len(),
                    table_view(target_target@) == graph.round_table(),
                    default == T::Summary::identity(),
                    node < target_target@.len(),
                    port <= target_target@[node as int]@.len(),
                    forall|t: Target|
                        t.index < node || (t.index == node && t.port < port)
                            ==> !#[trigger] graph.idle_loop(t),
                decreases target_target@[node as int]@.len() - port,
            {
                let this_target = Target { index: node, port: port };
                let row = &target_target[node][port];
                assert(table_view(target_target@)[node as int].len()
                    == target_target@[node as int]@.len());
                assert(graph.round_table()[node as int][port as int] == graph.round_row(
                    this_target,
                ));
                assert(table_view(target_target@)[node as int][port as int] == row_view(row@));
                assert(graph.nodes[node as int].len() == graph.shape[node as int].0);
                proof {
                    lemma_target_row_sound(graph, this_target, this_target, default);
                }
                if covers(row, this_target, &default) {
                    return Some(this_target);
                }
                port = port + 1;
            }
            assert(graph.round_table()[node as int].len() == graph.shape[node as int].0) by {
                assert(graph.nodes[node as int].len() == graph.shape[node as int].0);
            }
            assert(table_view(target_target@)[node as int].len()
                == target_target@[node as int]@.len());
            assert forall|t: Target| t.index < node + 1 implies !#[trigger] graph.idle_loop(t) by {}
            node = node + 1;
        }
        None
    }

    /// Compiles the current nodes and edges into immutable path summaries, if they are valid.
    ///
    /// This method checks for references to undefined nodes and ports, as well as for self-loops
    /// with default summaries (a serious liveness issue).
    pub fn try_summarize(&mut self) -> (result: Result<Summary<T>, TopologyError>)
        requires
            old(self)@.wf(),
        ensures
            *final(self) == *old(self),
            match result {
                Ok(summary) => {
                    &&& old(self)@.defined()
                    &&& forall|target: Target| !#[trigger] old(self)@.idle_loop(target)
                    &&& summary.source_table() == old(self)@.source_table()
                    &&& summary.target_table() == old(self)@.target_table()
                    &&& summary.describes(old(self)@)
                },
                Err(TopologyError::UndefinedEdge(source, target)) => first_undefined(
                    old(self)@,
                    source,
                    target,
                ),
                Err(TopologyError::DefaultSelfLoop(target)) => old(self)@.defined() && first_idle(
                    old(self)@,
                    target,
                ),
            },
            old(self)@.defined() && (forall|target: Target|
                !#[trigger] old(self)@.idle_loop(target)) ==> result is Ok,
            result matches Err(TopologyError::UndefinedEdge(source, target)) ==> {
                &&& !old(self)@.defined()
                &&& old(self)@.links(source).contains(target)
                &&& !(old(self)@.has_source(source) && old(self)@.has_target(target))
            },
            result matches Err(TopologyError::DefaultSelfLoop(target)) ==> old(self)@.defined()
                && old(self)@.idle_loop(target),
    {
        if let Some((source, target)) = self.undefined_edge() {
            return Err(TopologyError::UndefinedEdge(source, target));
        }
        let source_target = self.search();
        proof {
            lemma_source_table_lists(self@);
            lemma_target_table_lists(self@);
        }
        let mut target_target = self.rounds(&source_target);
        if let Some(target) = self.self_loop(&target_target) {
            return Err(TopologyError::DefaultSelfLoop(target));
        }
        self.add_empty_paths(&mut target_target);
        Ok(Summary { source_target, target_target })
    }
}

/// The edge is the first one, node by node and port by port, with an end that does not exist.
pub open spec fn first_undefined<S: PathAlgebra>(
    graph: Topology<S>,
    source: Source,
    target: Target,
) -> bool {
    let edges = graph.seeds(graph.edges.len());
    exists|k: int|
        0 <= k < edges.len() && (#[trigger] edges[k]).0 == (source, target) && !(graph.has_source(
            source,
        ) && graph.has_target(target)) && forall|i: int|
            0 <= i < k ==> graph.has_source((#[trigger] edges[i]).0.0) && graph.has_target(
                edges[i].0.1,
            )
}

/// The target is the first one, node by node and port by port, with an idle loop.
pub open spec fn first_idle<S: PathAlgebra>(graph: Topology<S>, target: Target) -> bool {
    &&& graph.idle_loop(target)
    &&& forall|t: Target|
        t.index < target.index || (t.index == target.index && t.port < target.port)
            ==> !#[trigger] graph.idle_loop(t)
}

/// Returns true iff the row holds, for `target`, a summary that is at most `summary`.
fn covers<S: PartialOrder>(
    vector: &Vec<(Target, Antichain<S>)>,
    target: Target,
    summary: &S,
) -> (result: bool)
    requires
        row_wf(row_view(vector@)),
    ensures
        result == dominated(summaries(row_view(vector@), target), *summary),
{
    let ghost row = row_view(vector@);
    let mut i: usize = 0;
    while i < vector.len()
        invariant
            i <= vector@.len(),
            row == row_view(vector@),
            row_wf(row),
            forall|j: int|
                0 <= j < i && (#[trigger] row[j]).0 == target ==> !dominated(row[j].1, *summary),
        decreases vector@.len() - i,
    {
        if vector[i].0 == target && vector[i].1.less_equal(summary) {
            proof {
                lemma_row_entry(row, i as int);
            }
            return true;
        }
        i = i + 1;
    }
    proof {
        if lists(row, target) {
            lemma_position(row, target);
        }
    }
    false
}

/// A summary of minimal path summaries in a timely dataflow graph.
///
/// A `Summary` instance records a compiled representation of path summaries along paths
/// in a timely dataflow graph, mostly commonly constructed by a `reachability::Builder`.
pub struct Summary<T: Timestamp> {
    /// Compiled source-to-target reachability.
    pub source_target: Vec<Vec<Vec<(Target, Antichain<T::Summary>)>>>,
    /// Compiled target-to-target reachability.
    pub target_target: Vec<Vec<Vec<(Target, Antichain<T::Summary>)>>>,
}

impl<T: Timestamp> Summary<T> {
    /// What is known of the paths from each output port.
    pub open spec fn source_table(self) -> Table<T::Summary> {
        table_view(self.source_target@)
    }

    /// What is known of the paths from each input port.
    pub open spec fn target_table(self) -> Table<T::Summary> {
        table_view(self.target_target@)
    }

    /// For each port of the graph and each target there are the summaries of the paths from the
    /// one to the other: mutually incomparable ones, each of a path that there is. They are the
    /// least ones from outputs if lesser summaries remain so with a path behind them, and from
    /// inputs if they do so also with a path before them.
    pub open spec fn describes(self, graph: Topology<T::Summary>) -> bool {
        &&& graph.fits_sources(self.source_table())
        &&& graph.fits_targets(self.target_table())
        &&& graph.well_listed(self.source_table())
        &&& graph.well_listed(self.target_table())
        &&& graph.lists_paths(self.source_table())
        &&& graph.lists_routes(self.source_table(), self.target_table())
        &&& left_monotone::<T::Summary>() ==> graph.lists_least_paths(self.source_table())
        &&& monotone::<T::Summary>() ==> graph.lists_least_routes(self.target_table())
    }
}

/// Offers a summary to what the row holds for `target`, and returns true if it was taken in.
pub fn add_summary<S: PartialOrder>(
    vector: &mut Vec<(Target, Antichain<S>)>,
    target: Target,
    summary: S,
) -> (added: bool)
    ensures
        added == !dominated(summaries(row_view(old(vector)@), target), summary),
        row_view(final(vector)@) == row_offered(row_view(old(vector)@), target, summary),
{
    let ghost row = row_view(vector@);
    let mut i: usize = 0;
    while i < vector.len()
        invariant
            i <= vector@.len(),
            row == row_view(vector@),
            vector@ == old(vector)@,
            forall|j: int| 0 <= j < i ==> (#[trigger] row[j]).0 != target,
        decreases vector@.len() - i,
    {
        if vector[i].0 == target {
            proof {
                assert(first_at(row, target, i as int));
                lemma_position_is(row, target, i as int);
            }
            let added = vector[i].1.insert(summary);
            assert(row_view(vector@) =~= row_offered(row, target, summary));
            return added;
        }
        i = i + 1;
    }
    vector.push((target, Antichain::from_elem(summary)));
    assert(row_view(vector@) =~= row.push((target, seq![summary])));
    true
}

} // verus!
