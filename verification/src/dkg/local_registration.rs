//! The registration of the local node for the next epoch.
//!
//! A registration is opened per epoch, submitted once the finalized state lacks
//! it, retried while it still lacks it, and done once the state shows it.

use crate::chain::types::RegistrationCall;
use crate::dkg::ids::{Address, Epoch, SeqNum};
use vstd::prelude::*;

verus! {

/// How far the registration has come.
#[allow(inconsistent_fields)]
#[derive(Clone, Copy, Debug, PartialEq, Eq, Structural)]
pub enum LocalRegistrationState {
    Idle,
    Open { epoch: Epoch, unavailable_block: Option<SeqNum> },
    Submitted { epoch: Epoch, unavailable_block: Option<SeqNum> },
    Done { epoch: Epoch },
}

impl LocalRegistrationState {
    /// The epoch that is registered for.
    pub open spec fn of_epoch(self) -> Option<Epoch> {
        match self {
            LocalRegistrationState::Idle => None,
            LocalRegistrationState::Open { epoch, .. } => Some(epoch),
            LocalRegistrationState::Submitted { epoch, .. } => Some(epoch),
            LocalRegistrationState::Done { epoch } => Some(epoch),
        }
    }

    /// The epoch and the block to read again, while the registration is not done.
    pub open spec fn in_progress(self) -> Option<(Epoch, Option<SeqNum>)> {
        match self {
            LocalRegistrationState::Open { epoch, unavailable_block } => Some(
                (epoch, unavailable_block),
            ),
            LocalRegistrationState::Submitted { epoch, unavailable_block } => Some(
                (epoch, unavailable_block),
            ),
            _ => None,
        }
    }

    /// The state with another block to read again.
    pub open spec fn with_unavailable_block(self, block: Option<SeqNum>) -> LocalRegistrationState {
        match self {
            LocalRegistrationState::Open { epoch, .. } => LocalRegistrationState::Open {
                epoch,
                unavailable_block: block,
            },
            LocalRegistrationState::Submitted { epoch, .. } => LocalRegistrationState::Submitted {
                epoch,
                unavailable_block: block,
            },
            _ => self,
        }
    }

    pub fn epoch(self) -> (epoch: Option<Epoch>)
        ensures
            epoch == self.of_epoch(),
    {
        match self {
            LocalRegistrationState::Idle => None,
            LocalRegistrationState::Open { epoch, .. } => Some(epoch),
            LocalRegistrationState::Submitted { epoch, .. } => Some(epoch),
            LocalRegistrationState::Done { epoch } => Some(epoch),
        }
    }

    pub fn active(self) -> (active: Option<(Epoch, Option<SeqNum>)>)
        ensures
            active == self.in_progress(),
    {
        match self {
            LocalRegistrationState::Open { epoch, unavailable_block } => Some(
                (epoch, unavailable_block),
            ),
            LocalRegistrationState::Submitted { epoch, unavailable_block } => Some(
                (epoch, unavailable_block),
            ),
            _ => None,
        }
    }

    pub fn set_unavailable_block(&mut self, block: Option<SeqNum>)
        ensures
            *final(self) == old(self).with_unavailable_block(block),
    {
        *self =
        match *self {
            LocalRegistrationState::Open { epoch, .. } => LocalRegistrationState::Open {
                epoch,
                unavailable_block: block,
            },
            LocalRegistrationState::Submitted { epoch, .. } => LocalRegistrationState::Submitted {
                epoch,
                unavailable_block: block,
            },
            state => state,
        };
    }
}

/// A read of the local registration from the finalized state.
#[derive(Clone, Copy, Debug)]
pub struct LocalRegistrationRead {
    pub address: Address,
    pub epoch: Epoch,
    pub block: SeqNum,
}

/// What is to be done after a read.
#[allow(inconsistent_fields)]
#[derive(Clone, Copy, Debug)]
pub enum LocalRegistrationAction {
    Ignore,
    Submit { epoch: Epoch, block: SeqNum, registration: RegistrationCall },
    Retry { epoch: Epoch, block: SeqNum },
    Confirm { epoch: Epoch, registration: RegistrationCall },
}

/// The finalized registration is not the local one.
#[derive(Clone, Copy, Debug, PartialEq, Eq, Structural)]
pub struct RegistrationConflict;

/// What became of the start of an epoch.
#[derive(Clone, Copy, Debug)]
pub enum RegistrationStart {
    /// That epoch or a later one is open.
    Ignored,
    /// It is open; the transaction of the `previous` epoch is to be cancelled.
    Started { previous: Option<Epoch> },
}

/// The registration of the local node.
#[derive(Clone, Copy, Debug)]
pub struct LocalRegistration {
    pub address: Address,
    pub state: LocalRegistrationState,
}

impl LocalRegistration {
    pub open spec fn with_state(self, state: LocalRegistrationState) -> LocalRegistration {
        LocalRegistration { address: self.address, state }
    }

    /// Whether an epoch at or above `epoch` has been opened.
    pub open spec fn reached(self, epoch: Epoch) -> bool {
        self.state.of_epoch() matches Some(current) && current.0 >= epoch.0
    }

    /// The read to make with the chain final up to `latest`: a block whose state
    /// was not available is read first.
    pub open spec fn wanted_read(self, latest: SeqNum) -> Option<LocalRegistrationRead> {
        match self.state.in_progress() {
            Some((epoch, unavailable_block)) => Some(
                LocalRegistrationRead {
                    address: self.address,
                    epoch,
                    block: match unavailable_block {
                        Some(block) => block,
                        None => latest,
                    },
                },
            ),
            None => None,
        }
    }

    /// What follows from a read that showed `observed`, with `local` as the
    /// registration of this node.
    pub open spec fn observed(
        self,
        read: LocalRegistrationRead,
        observed: Option<RegistrationCall>,
        local: RegistrationCall,
    ) -> (LocalRegistration, Result<LocalRegistrationAction, RegistrationConflict>) {
        let epoch = read.epoch;
        if self.state.of_epoch() != Some(epoch) {
            (self, Ok(LocalRegistrationAction::Ignore))
        } else if observed is Some {
            (
                self.with_state(LocalRegistrationState::Done { epoch }),
                if observed == Some(local) {
                    Ok(LocalRegistrationAction::Confirm { epoch, registration: local })
                } else {
                    Err(RegistrationConflict)
                },
            )
        } else {
            match self.state {
                LocalRegistrationState::Open { .. } => (
                    self.with_state(
                        LocalRegistrationState::Submitted { epoch, unavailable_block: None },
                    ),
                    Ok(
                        LocalRegistrationAction::Submit {
                            epoch,
                            block: read.block,
                            registration: local,
                        },
                    ),
                ),
                LocalRegistrationState::Submitted { .. } => (
                    self.with_state(self.state.with_unavailable_block(None)),
                    Ok(LocalRegistrationAction::Retry { epoch, block: read.block }),
                ),
                _ => (self, Ok(LocalRegistrationAction::Ignore)),
            }
        }
    }

    pub fn new(address: Address) -> (registration: Self)
        ensures
            registration == (LocalRegistration { address, state: LocalRegistrationState::Idle }),
    {
        LocalRegistration { address, state: LocalRegistrationState::Idle }
    }

    pub fn epoch(&self) -> (epoch: Option<Epoch>)
        ensures
            epoch == self.state.of_epoch(),
    {
        self.state.epoch()
    }

    /// Opens `epoch` and identifies an older transaction epoch that must be cancelled.
    pub fn start_epoch(&mut self, epoch: Epoch) -> (start: RegistrationStart)
        ensures
            start == (if old(self).reached(epoch) {
                RegistrationStart::Ignored
            } else {
                RegistrationStart::Started { previous: old(self).state.of_epoch() }
            }),
            *final(self) == (if old(self).reached(epoch) {
                *old(self)
            } else {
                old(self).with_state(
                    LocalRegistrationState::Open { epoch, unavailable_block: None },
                )
            }),
    {
        let previous: Option<Epoch> = self.state.epoch();
        match previous {
            Some(current) => {
                if current.0 >= epoch.0 {
                    return RegistrationStart::Ignored;
                }
            },
            None => {},
        }
        self.state = LocalRegistrationState::Open { epoch, unavailable_block: None };
        RegistrationStart::Started { previous }
    }

    /// Ends the registration for `epoch`. Returns whether that epoch was open.
    pub fn close(&mut self, epoch: Epoch) -> (closed: bool)
        ensures
            closed == (old(self).state.of_epoch() == Some(epoch)),
            *final(self) == (if closed {
                old(self).with_state(LocalRegistrationState::Done { epoch })
            } else {
                *old(self)
            }),
    {
        match self.state.epoch() {
            Some(current) => {
                if current != epoch {
                    return false;
                }
            },
            None => {
                return false;
            },
        }
        self.state = LocalRegistrationState::Done { epoch };
        true
    }

    pub fn next_read(&self, latest: SeqNum) -> (read: Option<LocalRegistrationRead>)
        ensures
            read == self.wanted_read(latest),
    {
        match self.state.active() {
            Some((epoch, unavailable_block)) => {
                let block: SeqNum = match unavailable_block {
                    Some(block) => block,
                    None => latest,
                };
                Some(LocalRegistrationRead { address: self.address, epoch, block })
            },
            None => None,
        }
    }

    /// Notes that a block could not be read, so that it is read again.
    pub fn read_failed(&mut self, read: LocalRegistrationRead)
        ensures
            *final(self) == (if old(self).state.of_epoch() == Some(read.epoch) {
                old(self).with_state(old(self).state.with_unavailable_block(Some(read.block)))
            } else {
                *old(self)
            }),
    {
        match self.state.epoch() {
            Some(epoch) => {
                if epoch == read.epoch {
                    self.state.set_unavailable_block(Some(read.block));
                }
            },
            None => {},
        }
    }

    pub fn observe(
        &mut self,
        read: LocalRegistrationRead,
        observed: Option<RegistrationCall>,
        local: RegistrationCall,
    ) -> (result: Result<LocalRegistrationAction, RegistrationConflict>)
        ensures
            (*final(self), result) == old(self).observed(read, observed, local),
    {
        let current: bool = match self.state.epoch() {
            Some(epoch) => epoch == read.epoch,
            None => false,
        };
        if !current {
            return Ok(LocalRegistrationAction::Ignore);
        }
        self.state.set_unavailable_block(None);
        let epoch: Epoch = read.epoch;
        match observed {
            Some(observed) => {
                self.state = LocalRegistrationState::Done { epoch };
                if !observed.same(&local) {
                    return Err(RegistrationConflict);
                }
                return Ok(LocalRegistrationAction::Confirm { epoch, registration: local });
            },
            None => {},
        }
        match self.state {
            LocalRegistrationState::Open { .. } => {
                self.state = LocalRegistrationState::Submitted { epoch, unavailable_block: None };
                Ok(LocalRegistrationAction::Submit { epoch, block: read.block, registration: local })
            },
            LocalRegistrationState::Submitted { .. } => Ok(
                LocalRegistrationAction::Retry { epoch, block: read.block },
            ),
            _ => Ok(LocalRegistrationAction::Ignore),
        }
    }

    /// Ends the registration that could not be loaded.
    pub fn abandon(&mut self)
        ensures
            *final(self) == (match old(self).state.of_epoch() {
                Some(epoch) => old(self).with_state(LocalRegistrationState::Done { epoch }),
                None => *old(self),
            }),
    {
        match self.state.epoch() {
            Some(epoch) => {
                self.state = LocalRegistrationState::Done { epoch };
            },
            None => {},
        }
    }
}

/// A block that could not be read is the next one to be read, whatever has
/// become final since.
pub proof fn law_failed_read_is_repeated(
    registration: LocalRegistration,
    seen: SeqNum,
    latest: SeqNum,
    read: LocalRegistrationRead,
)
    requires
        registration.wanted_read(seen) == Some(read),
    ensures
        registration.with_state(
            registration.state.with_unavailable_block(Some(read.block)),
        ).wanted_read(latest) == Some(read),
{
}

/// A registration is submitted at most once per epoch: after the first look at
/// the state, later looks only retry it, confirm it, or refuse it.
pub proof fn law_registration_is_submitted_once(
    registration: LocalRegistration,
    first: LocalRegistrationRead,
    second: LocalRegistrationRead,
    seen_first: Option<RegistrationCall>,
    seen_second: Option<RegistrationCall>,
    local: RegistrationCall,
)
    requires
        registration.state.of_epoch() == Some(first.epoch),
    ensures
        !(registration.observed(first, seen_first, local).0.observed(second, seen_second, local).1
            matches Ok(LocalRegistrationAction::Submit { .. })),
{
}

/// Once the finalized state shows a registration, nothing more is read or sent
/// for that epoch.
pub proof fn law_settled_registration_rests(
    registration: LocalRegistration,
    read: LocalRegistrationRead,
    seen: RegistrationCall,
    local: RegistrationCall,
    latest: SeqNum,
)
    requires
        registration.state.of_epoch() == Some(read.epoch),
    ensures
        registration.observed(read, Some(seen), local).0.wanted_read(latest) is None,
{
}

/// A registration that the finalized state shows is confirmed where it is the local
/// one and a conflict where it is not; one that the state lacks is submitted at
/// first and retried afterwards. A read of another epoch changes nothing.
pub proof fn law_observation_decides_the_registration(
    registration: LocalRegistration,
    read: LocalRegistrationRead,
    seen: Option<RegistrationCall>,
    local: RegistrationCall,
)
    ensures
        ({
            let (after, action) = registration.observed(read, seen, local);
            let own = registration.state.of_epoch() == Some(read.epoch);
            &&& after.address == registration.address
            &&& !own ==> after == registration && action == Ok::<
                LocalRegistrationAction,
                RegistrationConflict,
            >(LocalRegistrationAction::Ignore)
            &&& own && seen == Some(local) ==> action == Ok::<LocalRegistrationAction, RegistrationConflict>(
                LocalRegistrationAction::Confirm { epoch: read.epoch, registration: local },
            )
            &&& own && seen is Some && seen != Some(local) ==> action is Err
            &&& own && seen is Some ==> after.state == (LocalRegistrationState::Done {
                epoch: read.epoch,
            })
            &&& own && seen is None && registration.state is Open ==> action == Ok::<
                LocalRegistrationAction,
                RegistrationConflict,
            >(
                LocalRegistrationAction::Submit {
                    epoch: read.epoch,
                    block: read.block,
                    registration: local,
                },
            ) && after.state is Submitted
            &&& own && seen is None && registration.state is Submitted ==> action == Ok::<
                LocalRegistrationAction,
                RegistrationConflict,
            >(LocalRegistrationAction::Retry { epoch: read.epoch, block: read.block })
                && after.state is Submitted
            &&& own && seen is None && registration.state is Done ==> after == registration && action
                == Ok::<LocalRegistrationAction, RegistrationConflict>(LocalRegistrationAction::Ignore)
        }),
{
}

/// The own registration is read for its epoch and its address while it is open or
/// submitted: at the block that was unavailable before, or else at the newest one.
pub proof fn law_registration_is_read_while_in_progress(registration: LocalRegistration, latest: SeqNum)
    ensures
        registration.wanted_read(latest) is Some <==> registration.state is Open
            || registration.state is Submitted,
        registration.wanted_read(latest) matches Some(read) ==> {
            &&& read.address == registration.address
            &&& registration.state.of_epoch() == Some(read.epoch)
            &&& match registration.state {
                LocalRegistrationState::Open { unavailable_block: Some(block), .. } => read.block
                    == block,
                LocalRegistrationState::Submitted { unavailable_block: Some(block), .. } => read.block
                    == block,
                _ => read.block == latest,
            }
        },
{
}

/// An epoch is reached where the registration is for it or for a later one.
pub proof fn law_epoch_is_reached_by_its_registration(registration: LocalRegistration, epoch: Epoch)
    ensures
        registration.state is Idle ==> !registration.reached(epoch),
        registration.state matches LocalRegistrationState::Open { epoch: current, .. }
            ==> (registration.reached(epoch) <==> epoch.0 <= current.0),
        registration.state matches LocalRegistrationState::Submitted { epoch: current, .. }
            ==> (registration.reached(epoch) <==> epoch.0 <= current.0),
        registration.state matches LocalRegistrationState::Done { epoch: current }
            ==> (registration.reached(epoch) <==> epoch.0 <= current.0),
{
}

} // verus!
