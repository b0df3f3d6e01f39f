//! Metrics of the executors of a node.

pub mod histogram;
pub mod metrics;
