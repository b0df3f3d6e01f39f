//! A simulated cluster: its configuration, its nodes, and their workload.

pub mod allocator;
pub mod builder;
pub mod config;
pub mod generate;
pub mod roles;
pub mod workload;
