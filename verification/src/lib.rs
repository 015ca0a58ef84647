//! Pointstamp reachability in timely dataflow graphs.
//!
//! A timely dataflow computation has to know which timestamps may still arrive at which input of
//! which operator. `progress::nested::reachability` answers this for a graph of operators: a
//! `Builder` compiles the graph into the minimal summaries of its paths, and a `Tracker`
//! propagates changes of timestamp counts along them.

pub mod order;
pub mod progress;
