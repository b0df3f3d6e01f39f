//! UDP readers and authenticated sessions.

pub mod bufring;
pub mod reader;
pub mod session;
pub mod shared;
