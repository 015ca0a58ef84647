//! Manages pointstamp reachability within a graph.
//!
//! Timely dataflow is concerned with understanding and communicating the potential
//! for capabilites to reach nodes in a directed graph, by following paths through
//! the graph (along edges and through nodes). This module contains one abstraction
//! for managing this information.
//!
//! `builder` and `tracker` hold the code. The other modules hold what their contracts speak of:
//! `topology` the graph and its paths, `row` what is known of the paths from one port, `search`
//! and `minimal` how the path summaries are found and why they are the minimal ones, and `flow`
//! what becomes of changes along paths.
//!
//! What the operations are for stands as laws: in `graphs` what nodes, edges and paths are, in
//! `tables` what a summary lists, in `discovery` in which order it does so, in `changes` what
//! changes at ports come to, in `laws` what holds of all this together, and in `history` what any
//! sequence of updates and propagations comes to.
//!
//! # Examples
//!
//! ```rust
//! use timely::progress::frontier::Antichain;
//! use timely::progress::nested::subgraph::{Source, Target};
//! use timely::progress::nested::reachability::{Builder, Tracker};
//!
//! // allocate a new empty topology builder.
//! let mut builder = Builder::<usize>::new();
//!
//! // Each node with one input connected to one output.
//! builder.add_node(0, 1, 1, vec![vec![Antichain::from_elem(0)]]);
//! builder.add_node(1, 1, 1, vec![vec![Antichain::from_elem(0)]]);
//! builder.add_node(2, 1, 1, vec![vec![Antichain::from_elem(1)]]);
//!
//! // Connect nodes in sequence, looping around to the first from the last.
//! builder.add_edge(Source { index: 0, port: 0}, Target { index: 1, port: 0} );
//! builder.add_edge(Source { index: 1, port: 0}, Target { index: 2, port: 0} );
//! builder.add_edge(Source { index: 2, port: 0}, Target { index: 0, port: 0} );
//!
//! // Construct a reachability tracker.
//! let mut tracker = Tracker::allocate_from(builder.summarize());
//!
//! // Introduce a pointstamp at the output of the first node.
//! tracker.update_source(Source { index: 0, port: 0}, 17, 1);
//!
//! // Propagate changes; until this call updates are simply buffered.
//! tracker.propagate();
//!
//! // Propagated changes should have a single element, incremented for node zero.
//! assert_eq!(tracker.pushed_mut(0)[0].drain(), vec![(18, 1)]);
//! assert_eq!(tracker.pushed_mut(1)[0].drain(), vec![(17, 1)]);
//! assert_eq!(tracker.pushed_mut(2)[0].drain(), vec![(17, 1)]);
//! ```

pub mod builder;
pub mod changes;
pub mod discovery;
pub mod flow;
pub mod graphs;
pub mod history;
pub mod laws;
pub mod minimal;
pub mod row;
pub mod search;
pub mod tables;
pub mod topology;
pub mod tracker;

pub use crate::progress::nested::reachability::builder::{Builder, Summary, TopologyError};
pub use crate::progress::nested::reachability::tracker::Tracker;
