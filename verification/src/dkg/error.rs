//! Errors of the distributed-key-generation runtime.

use crate::dkg::ids::{Address, SeqNum};
use vstd::prelude::*;

verus! {

/// Why an operation of the runtime failed.
#[allow(inconsistent_fields)]
#[derive(Clone, Copy, Debug)]
pub enum DkgError {
    /// An operation outside the runtime failed.
    Operation { operation: &'static str },
    Unsupported(&'static str),
    ChannelClosed(&'static str),
    InsufficientValidators { actual: usize, minimum: usize },
    RegistrationContractMismatch { expected: Address, actual: Address },
    ResultEpochMismatch { expected: u64, actual: u64 },
    DuplicateValidator,
    FinalizedRegistrationConflict { address: Address },
    NoActiveSession { epoch: u64 },
    ChainDataUnavailable { block: SeqNum },
}

impl DkgError {
    /// The error of a failed operation outside the runtime.
    pub fn operation(operation: &'static str) -> (error: Self)
        ensures
            error == (DkgError::Operation { operation }),
    {
        DkgError::Operation { operation }
    }
}

} // verus!
