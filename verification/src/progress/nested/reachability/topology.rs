//! The graph as a mathematical value, and the paths in it.

use crate::progress::nested::{Source, Target};
use crate::progress::timestamp::PathAlgebra;
use vstd::prelude::*;

verus! {

/// A graph of nodes with ports, with the summaries of the paths inside each node.
#[verifier::ext_equal]
pub struct Topology<S> {
    /// For each node, input port and output port: the summaries of the paths between the two.
    pub nodes: Seq<Seq<Seq<Seq<S>>>>,
    /// For each node and output port: where its edges lead. A list may be missing, which means
    /// that there is no edge.
    pub edges: Seq<Seq<Seq<Target>>>,
    /// The numbers of input and output ports of each node.
    pub shape: Seq<(usize, usize)>,
}

impl<S> Topology<S> {
    /// The node and its output port exist.
    pub open spec fn has_source(self, source: Source) -> bool {
        source.index < self.shape.len() && source.port < self.shape[source.index as int].1
    }

    /// The node and its input port exist.
    pub open spec fn has_target(self, target: Target) -> bool {
        target.index < self.shape.len() && target.port < self.shape[target.index as int].0
    }

    /// Where the edges from `source` lead.
    pub open spec fn links(self, source: Source) -> Seq<Target> {
        if source.index < self.edges.len() && source.port < self.edges[source.index as int].len() {
            self.edges[source.index as int][source.port as int]
        } else {
            Seq::empty()
        }
    }

    /// The summaries of the paths inside a node from its input `target` to its output `port`.
    pub open spec fn inner(self, target: Target, port: int) -> Seq<S> {
        self.nodes[target.index as int][target.port as int][port]
    }

    /// The number of output ports of the node of `target`.
    pub open spec fn outputs(self, target: Target) -> nat {
        self.nodes[target.index as int][target.port as int].len()
    }

    /// Each node has a summary for each pair of its ports.
    pub open spec fn wf(self) -> bool {
        &&& self.nodes.len() == self.shape.len()
        &&& self.nodes.len() <= usize::MAX
        &&& self.edges.len() <= usize::MAX
        &&& forall|n: int|
            #![trigger self.nodes[n]]
            #![trigger self.shape[n]]
            0 <= n < self.nodes.len() ==> self.nodes[n].len() == self.shape[n].0
        &&& forall|n: int, i: int|
            0 <= n < self.nodes.len() && 0 <= i < self.nodes[n].len() ==> (
            #[trigger] self.nodes[n][i]).len() == self.shape[n].1
        &&& forall|n: int|
            0 <= n < self.edges.len() ==> (#[trigger] self.edges[n]).len() <= usize::MAX
    }

    /// No edge refers to a node or a port that does not exist.
    pub open spec fn defined(self) -> bool {
        forall|source: Source, target: Target|
            #[trigger] self.links(source).contains(target) ==> self.has_source(source)
                && self.has_target(target)
    }
}

/// The sequence, filled up at its end until it has a position `index`.
pub open spec fn extended<A>(s: Seq<A>, index: int, filler: A) -> Seq<A> {
    Seq::new(
        if s.len() <= index {
            (index + 1) as nat
        } else {
            s.len()
        },
        |i: int|
            if i < s.len() {
                s[i]
            } else {
                filler
            },
    )
}

impl<S> Topology<S> {
    /// The graph without nodes and edges.
    pub open spec fn empty() -> Self {
        Topology { nodes: Seq::empty(), edges: Seq::empty(), shape: Seq::empty() }
    }

    /// The graph with this node at `index`. The nodes before it that do not exist get no ports.
    pub open spec fn with_node(
        self,
        index: int,
        inputs: usize,
        outputs: usize,
        summary: Seq<Seq<Seq<S>>>,
    ) -> Self {
        Topology {
            nodes: extended(self.nodes, index, Seq::empty()).update(index, summary),
            edges: self.edges,
            shape: extended(self.shape, index, (0usize, 0usize)).update(index, (inputs, outputs)),
        }
    }

    /// The graph with another edge.
    pub open spec fn with_edge(self, source: Source, target: Target) -> Self {
        let nodes = extended(self.edges, source.index as int, Seq::empty());
        let ports = extended(nodes[source.index as int], source.port as int, Seq::empty());
        let links = ports[source.port as int].push(target);
        Topology {
            nodes: self.nodes,
            edges: nodes.update(source.index as int, ports.update(source.port as int, links)),
            shape: self.shape,
        }
    }
}

impl<S: PathAlgebra> Topology<S> {
    /// A path with summary `x` to `target` comes of one with summary `y` to `mid`: through the
    /// node of `mid`, and then along an edge.
    pub open spec fn hop(self, mid: Target, y: S, target: Target, x: S) -> bool {
        exists|port: usize, j: int|
            0 <= port < self.outputs(mid) && 0 <= j < self.inner(mid, port as int).len()
                && y.compose(#[trigger] self.inner(mid, port as int)[j]) == Some(x) && self.links(
                Source { index: mid.index, port },
            ).contains(target)
    }

    /// There is a path from `source` to `target`, through `hops` nodes, with summary `x`.
    pub open spec fn path_of(self, source: Source, target: Target, x: S, hops: nat) -> bool
        decreases hops,
    {
        if hops == 0 {
            self.links(source).contains(target) && x == S::identity()
        } else {
            exists|mid: Target, y: S|
                self.path_of(source, mid, y, (hops - 1) as nat) && #[trigger] self.hop(
                    mid,
                    y,
                    target,
                    x,
                )
        }
    }

    /// There is a path from the output `source` to the input `target` with summary `x`.
    pub open spec fn path(self, source: Source, target: Target, x: S) -> bool {
        exists|hops: nat| self.path_of(source, target, x, hops)
    }

    /// There is a path from the input `from` to the input `target`, through at least one node,
    /// with summary `x`.
    pub open spec fn round(self, from: Target, target: Target, x: S) -> bool {
        exists|port: usize, j: int, y: S|
            0 <= port < self.outputs(from) && 0 <= j < self.inner(from, port as int).len()
                && #[trigger] self.path(Source { index: from.index, port }, target, y) && (
            #[trigger] self.inner(from, port as int)[j]).compose(y) == Some(x)
    }
}

} // verus!
