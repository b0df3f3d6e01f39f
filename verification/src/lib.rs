//! Runtime building blocks of a validator node.

pub mod chain;
pub mod cluster;
pub mod dataplane;
pub mod digest;
pub mod dkg;
pub mod executor;
pub mod octets;
pub mod order;
pub mod ordered_map;
pub mod reliable;
pub mod rlp;
pub mod text;
pub mod wal;

use vstd::prelude::*;

verus! {

/// Distributed-key-generation sessions that may be live at the same time.
pub const MAX_RETAINED_DKG_SESSIONS: usize = 2;

} // verus!
