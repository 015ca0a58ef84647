//! Tracking of the progress of a timely dataflow computation.

pub mod change_batch;
pub mod frontier;
pub mod nested;
pub mod sequences;
pub mod timestamp;
