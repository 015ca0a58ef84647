//! Graphs of dataflow operators.

pub mod product;
pub mod reachability;
pub mod subgraph;

pub use crate::progress::nested::subgraph::{Source, Target};
