//! The distributed-key-generation runtime around the protocol engine.

pub mod abandonment;
pub mod delivery;
pub mod envelope;
pub mod error;
pub mod ids;
pub mod keys;
pub mod local_registration;
pub mod manager;
pub mod message;
pub mod message_store;
pub mod metrics;
pub mod peers;
pub mod protocol;
pub mod record;
pub mod recovery;
pub mod registration;
pub mod runner;
pub mod runner_record;
pub mod session;
pub mod start;
pub mod transport;
pub mod wal_files;
pub mod weights;
