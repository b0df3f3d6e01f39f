//! Finalized contract reads, event delivery, and transaction submission.

pub mod batch;
pub mod codec;
pub mod logs;
pub mod pages;
pub mod records;
pub mod reliable;
pub mod round;
pub mod scan;
pub mod state_reader;
pub mod submitter;
pub mod tx;
pub mod types;
