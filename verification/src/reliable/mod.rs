//! At-least-once delivery: retry scheduling and message deduplication.

pub mod message;
pub mod retry;
