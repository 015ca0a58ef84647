//! The ports of the nodes of a graph.

use vstd::prelude::*;

verus! {

/// An output port of a node: where an edge starts.
#[derive(Clone, Copy, Debug, PartialEq, Eq, PartialOrd, Ord, Hash, Structural)]
pub struct Source {
    /// The index of the node.
    pub index: usize,
    /// The output port of the node.
    pub port: usize,
}

/// An input port of a node: where an edge ends.
#[derive(Clone, Copy, Debug, PartialEq, Eq, PartialOrd, Ord, Hash, Structural)]
pub struct Target {
    /// The index of the node.
    pub index: usize,
    /// The input port of the node.
    pub port: usize,
}

} // verus!
