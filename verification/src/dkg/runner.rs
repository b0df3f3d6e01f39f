//! The runtime across epochs.
//!
//! A runner follows the finalized chain, registers the local node for the next
//! epoch, starts the session of an epoch from the registrations of its
//! validators, reads the chain events of the newest session, and hands chain
//! calls to the submitter. Reads are made outside: [`DkgRunner::next_chain_task`]
//! names the next one, and its outcome is handed back. Sessions run outside too;
//! the runner knows which epochs are live.

use crate::chain::batch::{BatchRun, BatchStage};
use crate::chain::pages::event_views;
use crate::chain::scan::{ChainEventBatch, ChainEventReader, ChainEventSession, ChainRead};
use crate::chain::submitter::{
    epoch_registrations, epoch_txs, lists_pending, TxKey, TxSubmitter, TxSubmitterView,
};
use crate::chain::types::{ChainCall, ChainEvent, RegistrationCall};
use crate::dkg::envelope::{read_envelope, DeliveryEnvelope, DeliveryMessage};
use crate::dkg::error::DkgError;
use crate::dkg::ids::{Address, Epoch, NodeId, SeqNum};
use crate::dkg::local_registration::{
    LocalRegistration, LocalRegistrationAction, LocalRegistrationRead, RegistrationStart,
};
use crate::dkg::registration::{
    addresses_of, assemble_registered_session, assembled, by_address, registrations_of,
    repeated_address, CheckedRegistration, DkgValidator, LocalPublicKeys, RegisteredParty,
};
use crate::dkg::session::{EffectView, SessionEffect};
use crate::dkg::transport::{deliveries_view, DeliveryOutbound, OutboundView};
use crate::MAX_RETAINED_DKG_SESSIONS;
use vstd::prelude::*;

verus! {

/// A session whose registrations are still to be read.
pub struct PendingRegisteredSession {
    pub epoch: Epoch,
    pub validators: Vec<DkgValidator>,
    /// The block to read them at.
    pub registration_block: Option<SeqNum>,
}

#[verifier::ext_equal]
pub struct PendingSessionView {
    pub epoch: Epoch,
    pub validators: Seq<DkgValidator>,
    pub registration_block: Option<SeqNum>,
}

impl View for PendingRegisteredSession {
    type V = PendingSessionView;

    open spec fn view(&self) -> PendingSessionView {
        PendingSessionView {
            epoch: self.epoch,
            validators: self.validators@,
            registration_block: self.registration_block,
        }
    }
}

/// What is looked at next after a change.
#[derive(Clone, Copy, Debug, PartialEq, Eq, Structural)]
pub enum Settling {
    LocalRegistration,
    PendingSession,
    Events,
    Settled,
}

/// A read of the finalized chain.
pub enum ChainTask {
    Idle,
    ReadLocalRegistration(LocalRegistrationRead),
    ReadRegistrations { epoch: Epoch, block: SeqNum, parties: Vec<Address> },
    ReadEvents(ChainRead),
}

/// A session that can start.
pub struct RegisteredStart {
    pub epoch: Epoch,
    pub recovery_block: SeqNum,
    pub parties: Vec<RegisteredParty>,
}

/// The runtime of one node.
pub struct DkgRunner {
    self_id: NodeId,
    submitter: TxSubmitter,
    reader: ChainEventReader,
    registration: LocalRegistration,
    sessions: Vec<Epoch>,
    latest_started_epoch: Option<Epoch>,
    pending: Option<PendingRegisteredSession>,
    chain_session: Option<(Epoch, usize)>,
    sync_block: Option<SeqNum>,
    latest_finalized: Option<SeqNum>,
    settling: Settling,
    attempts: Vec<Vec<TxKey>>,
}

/// The model of a runner.
#[verifier::ext_equal]
pub struct RunnerView {
    pub self_id: NodeId,
    pub submitter: TxSubmitterView,
    pub reader: ChainEventReader,
    pub registration: LocalRegistration,
    /// The live epochs, the oldest first.
    pub sessions: Seq<Epoch>,
    pub latest_started_epoch: Option<Epoch>,
    pub pending: Option<PendingSessionView>,
    pub chain_session: Option<(Epoch, usize)>,
    pub sync_block: Option<SeqNum>,
    pub latest_finalized: Option<SeqNum>,
    pub settling: Settling,
    /// The submissions to attempt, one list after the other.
    pub attempts: Seq<Seq<TxKey>>,
}

/// The views of lists of submissions.
pub open spec fn attempt_views(attempts: Seq<Vec<TxKey>>) -> Seq<Seq<TxKey>> {
    attempts.map_values(|keys: Vec<TxKey>| keys@)
}

/// Whether an epoch is not after the one noted, if any.
pub open spec fn reached(noted: Option<Epoch>, epoch: Epoch) -> bool {
    noted matches Some(noted) && noted.0 >= epoch.0
}

/// The live epochs once `epoch` starts, and the one that ends.
pub open spec fn rotated(sessions: Seq<Epoch>, epoch: Epoch) -> (Seq<Epoch>, Option<Epoch>) {
    let all = sessions.push(epoch);
    if all.len() > MAX_RETAINED_DKG_SESSIONS {
        (all.skip(1), Some(all[0]))
    } else {
        (all, None)
    }
}

/// The submitter once calls were handed to it, one after the other.
pub open spec fn with_calls(submitter: TxSubmitterView, epoch: Epoch, calls: Seq<ChainCall>) -> TxSubmitterView
    decreases calls.len(),
{
    if calls.len() == 0 {
        submitter
    } else {
        with_calls(submitter, epoch, calls.drop_last()).with_call(epoch, calls.last())
    }
}

/// The submissions to attempt after calls were handed in.
pub open spec fn call_attempts(submitter: TxSubmitterView, epoch: Epoch, calls: Seq<ChainCall>) -> Seq<
    Seq<TxKey>,
>
    decreases calls.len(),
{
    if calls.len() == 0 {
        Seq::empty()
    } else {
        call_attempts(submitter, epoch, calls.drop_last()).push(
            with_calls(submitter, epoch, calls.drop_last()).attempts_call(epoch, calls.last()),
        )
    }
}

impl RunnerView {
    /// The runner once the chain is final up to `block`. A session whose
    /// registrations wait for a block reads them there.
    pub open spec fn with_head(self, block: SeqNum) -> RunnerView {
        if self.latest_finalized matches Some(latest) && block.0 <= latest.0 {
            self
        } else {
            RunnerView {
                latest_finalized: Some(block),
                pending: match self.pending {
                    Some(pending) => Some(
                        PendingSessionView {
                            registration_block: match pending.registration_block {
                                Some(earlier) => Some(earlier),
                                None => Some(block),
                            },
                            ..pending
                        },
                    ),
                    None => None,
                },
                ..self
            }
        }
    }

    /// The runner with the first thing to look at.
    pub open spec fn unsettled(self) -> RunnerView {
        RunnerView { settling: Settling::LocalRegistration, ..self }
    }

    /// The runner once local registration is open for `epoch`. The transaction of
    /// an older epoch is abandoned.
    pub open spec fn with_registration(self, epoch: Epoch) -> RunnerView {
        if self.registration.reached(epoch) {
            self
        } else {
            RunnerView {
                registration: self.registration.with_state(
                    crate::dkg::local_registration::LocalRegistrationState::Open {
                        epoch,
                        unavailable_block: None,
                    },
                ),
                submitter: match self.registration.state.of_epoch() {
                    Some(previous) => self.submitter.without_registrations(previous),
                    None => self.submitter,
                },
                ..self
            }.unsettled()
        }
    }

    /// The runner once one more block is final. The boundary of the recovery
    /// stays.
    pub open spec fn with_finalized(self, block: SeqNum) -> RunnerView {
        let headed = self.with_head(block);
        RunnerView { reader: headed.reader.with_finalized(block), ..headed }.unsettled()
    }

    /// The runner once execution is in sync at `block`: the boundary of the
    /// recovery, which only moves forward.
    pub open spec fn with_sync(self, block: SeqNum) -> RunnerView {
        if self.sync_block matches Some(current) && current.0 >= block.0 {
            self
        } else {
            let headed = RunnerView { sync_block: Some(block), ..self }.with_head(block);
            let reader = headed.reader.with_finalized(block);
            RunnerView {
                reader: match headed.chain_session {
                    Some((epoch, party_count)) => reader.with_session(
                        ChainEventSession { epoch, party_count, recovery_block: block },
                    ),
                    None => reader,
                },
                ..headed
            }.unsettled()
        }
    }

    /// The runner once the registration window of `epoch` is closed.
    pub open spec fn without_window(self, epoch: Epoch) -> RunnerView {
        if self.registration.state.of_epoch() == Some(epoch) {
            RunnerView {
                submitter: self.submitter.without_registrations(epoch),
                registration: self.registration.with_state(
                    crate::dkg::local_registration::LocalRegistrationState::Done { epoch },
                ),
                ..self
            }
        } else {
            self
        }
    }

    /// The runner once the session of `epoch` is wanted. An epoch that started or
    /// that a later one overtook is ignored.
    pub open spec fn with_wanted(self, epoch: Epoch, validators: Seq<DkgValidator>) -> RunnerView {
        let closed = self.without_window(epoch);
        if reached(self.latest_started_epoch, epoch) || (self.pending matches Some(pending)
            && pending.epoch.0 >= epoch.0) {
            closed
        } else {
            RunnerView {
                pending: Some(
                    PendingSessionView {
                        epoch,
                        validators,
                        registration_block: self.latest_finalized,
                    },
                ),
                ..closed
            }.unsettled()
        }
    }

    /// The read of the local registration that is due.
    pub open spec fn local_read(self) -> Option<LocalRegistrationRead> {
        if self.sync_block is Some && self.latest_finalized is Some {
            self.registration.wanted_read(self.latest_finalized->Some_0)
        } else {
            None
        }
    }

    /// The read of registrations that is due.
    pub open spec fn session_read(self) -> Option<(Epoch, SeqNum)> {
        match self.pending {
            Some(pending) if self.sync_block is Some && pending.registration_block is Some => Some(
                (pending.epoch, pending.registration_block->Some_0),
            ),
            _ => None,
        }
    }

    /// What is looked at next, once nothing is due at the stages before.
    pub open spec fn due_stage(self) -> Settling {
        if self.settling == Settling::LocalRegistration && self.local_read() is Some {
            Settling::LocalRegistration
        } else if (self.settling == Settling::LocalRegistration || self.settling
            == Settling::PendingSession) && self.session_read() is Some {
            Settling::PendingSession
        } else if self.settling != Settling::Settled && self.reader.wanted_read() is Some {
            Settling::Events
        } else {
            Settling::Settled
        }
    }

    /// The runner once the session of `epoch` runs.
    pub open spec fn with_session(self, epoch: Epoch, party_count: usize, recovery_block: SeqNum) -> RunnerView {
        RunnerView {
            latest_started_epoch: Some(epoch),
            sessions: rotated(self.sessions, epoch).0,
            chain_session: Some((epoch, party_count)),
            submitter: self.submitter.with_session(epoch),
            reader: self.reader.with_session(
                ChainEventSession { epoch, party_count, recovery_block },
            ),
            ..self
        }
    }
}

impl View for DkgRunner {
    type V = RunnerView;

    closed spec fn view(&self) -> RunnerView {
        RunnerView {
            self_id: self.self_id,
            submitter: self.submitter@,
            reader: self.reader,
            registration: self.registration,
            sessions: self.sessions@,
            latest_started_epoch: self.latest_started_epoch,
            pending: match self.pending {
                Some(pending) => Some(pending@),
                None => None,
            },
            chain_session: self.chain_session,
            sync_block: self.sync_block,
            latest_finalized: self.latest_finalized,
            settling: self.settling,
            attempts: attempt_views(self.attempts@),
        }
    }
}

impl DkgRunner {
    pub closed spec fn submitter_wf(self) -> bool {
        self.submitter.wf()
    }

    /// Few sessions are live, in ascending order, and none is newer than the
    /// latest that started.
    pub open spec fn wf(self) -> bool {
        &&& self.submitter_wf()
        &&& crate::order::ascending(self@.sessions)
        &&& self@.sessions.len() <= MAX_RETAINED_DKG_SESSIONS
        &&& forall|i: int|
            0 <= i < self@.sessions.len() ==> reached(
                self@.latest_started_epoch,
                #[trigger] self@.sessions[i],
            )
    }

    pub fn new(self_id: NodeId, submitter: TxSubmitter) -> (runner: Self)
        requires
            submitter.wf(),
        ensures
            runner.wf(),
            runner@ == (RunnerView {
                self_id,
                submitter: submitter@,
                reader: ChainEventReader { latest: None, scan: None },
                registration: LocalRegistration {
                    address: submitter@.signer,
                    state: crate::dkg::local_registration::LocalRegistrationState::Idle,
                },
                sessions: Seq::empty(),
                latest_started_epoch: None,
                pending: None,
                chain_session: None,
                sync_block: None,
                latest_finalized: None,
                settling: Settling::Settled,
                attempts: Seq::empty(),
            }),
    {
        let registration: LocalRegistration = LocalRegistration::new(submitter.signer_address());
        let runner = DkgRunner {
            self_id,
            submitter,
            reader: ChainEventReader::new(),
            registration,
            sessions: Vec::new(),
            latest_started_epoch: None,
            pending: None,
            chain_session: None,
            sync_block: None,
            latest_finalized: None,
            settling: Settling::Settled,
            attempts: Vec::new(),
        };
        assert(runner@.attempts =~= Seq::empty());
        runner
    }

    /// The block at which execution was in sync.
    pub fn sync_block(&self) -> (block: Option<SeqNum>)
        ensures
            block == self@.sync_block,
    {
        self.sync_block
    }

    /// The newest epoch that started.
    pub fn latest_started_epoch(&self) -> (epoch: Option<Epoch>)
        ensures
            epoch == self@.latest_started_epoch,
    {
        self.latest_started_epoch
    }

    /// The epoch whose registrations are to be read, and the block.
    pub fn pending_session(&self) -> (pending: Option<(Epoch, Option<SeqNum>)>)
        ensures
            pending == (match self@.pending {
                Some(pending) => Some((pending.epoch, pending.registration_block)),
                None => None,
            }),
    {
        match &self.pending {
            Some(pending) => Some((pending.epoch, pending.registration_block)),
            None => None,
        }
    }

    /// Whether the session of an epoch is live.
    pub fn is_live(&self, epoch: Epoch) -> (live: bool)
        ensures
            live == self@.sessions.contains(epoch),
    {
        let mut i: usize = 0;
        while i < self.sessions.len()
            invariant
                i <= self.sessions@.len(),
                forall|j: int| 0 <= j < i ==> #[trigger] self.sessions@[j] != epoch,
            decreases self.sessions@.len() - i,
        {
            if self.sessions[i] == epoch {
                assert(self.sessions@[i as int] == epoch);
                return true;
            }
            i += 1;
        }
        false
    }

    /// Opens local registration for the next validator epoch.
    ///
    /// Calls are monotone and idempotent. Advancing the target abandons any
    /// unfinalized registration transaction for the older epoch.
    pub fn prepare_registration(&mut self, epoch: Epoch)
        requires
            old(self).wf(),
        ensures
            final(self).wf(),
            final(self)@ == old(self)@.with_registration(epoch),
    {
        match self.registration.start_epoch(epoch) {
            RegistrationStart::Ignored => {},
            RegistrationStart::Started { previous } => {
                match previous {
                    Some(previous) => {
                        self.submitter.cancel_registration(previous);
                    },
                    None => {},
                }
                self.settling = Settling::LocalRegistration;
            },
        }
    }

    fn record_finalized_head(&mut self, block: SeqNum)
        requires
            old(self).wf(),
        ensures
            final(self).wf(),
            final(self)@ == old(self)@.with_head(block),
    {
        match self.latest_finalized {
            Some(latest) => {
                if block.0 <= latest.0 {
                    return;
                }
            },
            None => {},
        }
        self.latest_finalized = Some(block);
        let mut pending: Option<PendingRegisteredSession> = None;
        std::mem::swap(&mut pending, &mut self.pending);
        self.pending =
        match pending {
            Some(pending) => {
                let registration_block: Option<SeqNum> = match pending.registration_block {
                    Some(earlier) => Some(earlier),
                    None => Some(block),
                };
                Some(
                    PendingRegisteredSession {
                        epoch: pending.epoch,
                        validators: pending.validators,
                        registration_block,
                    },
                )
            },
            None => None,
        };
    }

    /// Makes one more finalized block available to the active chain cursor. This
    /// never establishes or changes the recovery snapshot boundary.
    pub fn notify_finalized(&mut self, block: SeqNum)
        requires
            old(self).wf(),
        ensures
            final(self).wf(),
            final(self)@ == old(self)@.with_finalized(block),
    {
        self.record_finalized_head(block);
        self.reader.notify_finalized(block);
        self.settling = Settling::LocalRegistration;
    }

    /// Establishes the exact chain-state boundary used for recovery.
    ///
    /// Once a session is known, the runner reads a snapshot at `block` and then
    /// scans every subsequently finalized block in order.
    pub fn notify_sync_complete(&mut self, block: SeqNum)
        requires
            old(self).wf(),
        ensures
            final(self).wf(),
            final(self)@ == old(self)@.with_sync(block),
    {
        match self.sync_block {
            Some(current) => {
                if current.0 >= block.0 {
                    return;
                }
            },
            None => {},
        }
        self.sync_block = Some(block);
        self.record_finalized_head(block);
        self.reader.notify_finalized(block);
        match self.chain_session {
            Some((epoch, party_count)) => {
                self.reader.start_session(
                    ChainEventSession { epoch, party_count, recovery_block: block },
                );
            },
            None => {},
        }
        self.settling = Settling::LocalRegistration;
    }

    /// Begins a session whose public key material is loaded from the finalized
    /// registration contract before the engine is constructed.
    pub fn start_chain_registered_session(&mut self, epoch: Epoch, validators: Vec<DkgValidator>)
        requires
            old(self).wf(),
        ensures
            final(self).wf(),
            final(self)@ == old(self)@.with_wanted(epoch, validators@),
    {
        if self.registration.close(epoch) {
            self.submitter.cancel_registration(epoch);
        }
        match self.latest_started_epoch {
            Some(started) => {
                if started.0 >= epoch.0 {
                    return;
                }
            },
            None => {},
        }
        match &self.pending {
            Some(pending) => {
                if pending.epoch.0 >= epoch.0 {
                    return;
                }
            },
            None => {},
        }
        self.pending =
        Some(
            PendingRegisteredSession {
                epoch,
                validators,
                registration_block: self.latest_finalized,
            },
        );
        self.settling = Settling::LocalRegistration;
    }

    /// Reads the events of a session from the next boundary on.
    pub fn start_chain_session(
        &mut self,
        epoch: Epoch,
        party_count: usize,
        recovery_block: Option<SeqNum>,
    )
        requires
            old(self).wf(),
        ensures
            final(self).wf(),
            final(self)@ == (RunnerView {
                chain_session: Some((epoch, party_count)),
                submitter: old(self)@.submitter.with_session(epoch),
                reader: match recovery_block {
                    Some(recovery_block) => old(self)@.reader.with_session(
                        ChainEventSession { epoch, party_count, recovery_block },
                    ),
                    None => old(self)@.reader,
                },
                ..old(self)@
            }),
    {
        self.chain_session = Some((epoch, party_count));
        self.submitter.start_session(epoch);
        match recovery_block {
            Some(recovery_block) => {
                self.reader.start_session(ChainEventSession { epoch, party_count, recovery_block });
            },
            None => {},
        }
    }

    /// Names the next read of the finalized chain: the local registration first,
    /// then the registrations of a wanted session, then chain events.
    pub fn next_chain_task(&mut self) -> (task: ChainTask)
        requires
            old(self).wf(),
        ensures
            final(self).wf(),
            final(self)@ == (RunnerView { settling: old(self)@.due_stage(), ..old(self)@ }),
            match old(self)@.due_stage() {
                Settling::LocalRegistration => task == ChainTask::ReadLocalRegistration(
                    old(self)@.local_read()->Some_0,
                ),
                Settling::PendingSession => task matches ChainTask::ReadRegistrations {
                    epoch,
                    block,
                    parties,
                } && old(self)@.session_read() == Some((epoch, block)) && parties@ == addresses_of(
                    old(self)@.pending->Some_0.validators,
                ),
                Settling::Events => task == ChainTask::ReadEvents(
                    old(self)@.reader.wanted_read()->Some_0,
                ),
                Settling::Settled => task is Idle,
            },
    {
        let synced: bool = self.sync_block.is_some();
        if self.settling == Settling::LocalRegistration {
            match self.latest_finalized {
                Some(latest) => {
                    if synced {
                        match self.registration.next_read(latest) {
                            Some(read) => {
                                return ChainTask::ReadLocalRegistration(read);
                            },
                            None => {},
                        }
                    }
                },
                None => {},
            }
            self.settling = Settling::PendingSession;
        }
        if self.settling == Settling::PendingSession {
            match &self.pending {
                Some(pending) => match pending.registration_block {
                    Some(block) => {
                        if synced {
                            return ChainTask::ReadRegistrations {
                                epoch: pending.epoch,
                                block,
                                parties: validator_addresses(&pending.validators),
                            };
                        }
                    },
                    None => {},
                },
                None => {},
            }
            self.settling = Settling::Events;
        }
        if self.settling == Settling::Events {
            match self.reader.next_read() {
                Some(read) => {
                    return ChainTask::ReadEvents(read);
                },
                None => {},
            }
            self.settling = Settling::Settled;
        }
        ChainTask::Idle
    }

    fn push_attempt(&mut self, keys: Vec<TxKey>)
        requires
            old(self).wf(),
        ensures
            final(self).wf(),
            final(self)@ == (RunnerView {
                attempts: old(self)@.attempts.push(keys@),
                ..old(self)@
            }),
    {
        let ghost before = self.attempts@;
        self.attempts.push(keys);
        assert(attempt_views(self.attempts@) =~= attempt_views(before).push(keys@));
    }

    /// Notes that the local registration could not be read.
    pub fn local_registration_unavailable(&mut self, read: LocalRegistrationRead)
        requires
            old(self).wf(),
        ensures
            final(self).wf(),
            final(self)@ == (RunnerView {
                registration: if old(self)@.registration.state.of_epoch() == Some(read.epoch) {
                    old(self)@.registration.with_state(
                        old(self)@.registration.state.with_unavailable_block(Some(read.block)),
                    )
                } else {
                    old(self)@.registration
                },
                settling: Settling::PendingSession,
                ..old(self)@
            }),
    {
        self.registration.read_failed(read);
        self.settling = Settling::PendingSession;
    }

    /// Takes a read of the local registration, together with the registration of
    /// this node from the recovery log.
    pub fn accept_local_registration(
        &mut self,
        read: LocalRegistrationRead,
        observed: Option<RegistrationCall>,
        local: Option<RegistrationCall>,
    ) -> (result: Result<(), DkgError>)
        requires
            old(self).wf(),
            old(self)@.local_read() == Some(read),
        ensures
            final(self).wf(),
            takes_local_read(old(self)@, final(self)@, read, observed, local, result),
    {
        let ghost before = self@;
        let latest: SeqNum = match self.latest_finalized {
            Some(latest) => latest,
            None => read.block,
        };
        let local: RegistrationCall = match local {
            Some(local) => local,
            None => {
                self.registration.abandon();
                self.settling = Settling::PendingSession;
                return Err(DkgError::operation("load local DKG registration"));
            },
        };
        let action: LocalRegistrationAction = match self.registration.observe(read, observed, local) {
            Ok(action) => action,
            Err(_) => {
                self.settling = Settling::PendingSession;
                return Err(DkgError::FinalizedRegistrationConflict { address: read.address });
            },
        };
        if read.block.0 >= latest.0 {
            self.settling = Settling::PendingSession;
        }
        let ghost ready = self@;
        match action {
            LocalRegistrationAction::Ignore => {},
            LocalRegistrationAction::Confirm { epoch, registration } => {
                self.submitter.confirm_registration(epoch, &registration);
            },
            LocalRegistrationAction::Submit { epoch, block, registration } => {
                let keys: Vec<TxKey> = self.submitter.submit_registration(epoch, block, registration);
                self.push_attempt(keys);
            },
            LocalRegistrationAction::Retry { epoch, block } => {
                let keys: Vec<TxKey> = self.submitter.retry_registration(epoch, block);
                let ghost listed = keys@;
                self.push_attempt(keys);
                assert(self@.attempts == ready.attempts.push(listed));
            },
        }
        assert(performs(ready, self@, action));
        Ok(())
    }

    /// Notes that the registrations of a wanted session could not be read.
    pub fn registrations_unavailable(&mut self)
        requires
            old(self).wf(),
        ensures
            final(self).wf(),
            final(self)@ == (RunnerView { settling: Settling::Events, ..old(self)@ }),
    {
        self.settling = Settling::Events;
    }

    /// Takes the registrations of the wanted session. It is wanted no longer; the
    /// session can start, unless that epoch has started, or it cannot.
    pub fn accept_registrations(
        &mut self,
        registrations: &Vec<CheckedRegistration>,
        local: Result<LocalPublicKeys, DkgError>,
    ) -> (result: Result<Option<RegisteredStart>, DkgError>)
        requires
            old(self).wf(),
            old(self)@.session_read() is Some,
        ensures
            final(self).wf(),
            final(self)@ == (RunnerView {
                pending: None,
                settling: Settling::Events,
                ..old(self)@
            }),
            ({
                let pending = old(self)@.pending->Some_0;
                let ranked = by_address(pending.validators);
                let refused = Err::<Option<RegisteredStart>, _>(
                    DkgError::Operation { operation: "assemble registered DKG session" },
                );
                if repeated_address(pending.validators) is Some {
                    result == refused
                } else {
                    match assembled(
                        pending.epoch,
                        old(self)@.self_id,
                        ranked,
                        local,
                        registrations_of(ranked, registrations@),
                    ) {
                        Err(_) => result == refused,
                        Ok(parties) => if reached(old(self)@.latest_started_epoch, pending.epoch) {
                            result matches Ok(None)
                        } else {
                            result matches Ok(Some(start)) && start.epoch == pending.epoch
                                && start.recovery_block == pending.registration_block->Some_0
                                && start.parties@ == parties
                        },
                    }
                }
            }),
    {
        self.settling = Settling::Events;
        let mut pending: Option<PendingRegisteredSession> = None;
        std::mem::swap(&mut pending, &mut self.pending);
        let (epoch, validators, block) = match pending {
            Some(pending) => (pending.epoch, pending.validators, pending.registration_block),
            None => {
                return Ok(None);
            },
        };
        match assemble_registered_session(epoch, &self.self_id, &validators, local, registrations) {
            Err(_) => Err(DkgError::operation("assemble registered DKG session")),
            Ok(parties) => {
                match self.latest_started_epoch {
                    Some(started) => {
                        if started.0 >= epoch.0 {
                            return Ok(None);
                        }
                    },
                    None => {},
                }
                match block {
                    Some(recovery_block) => Ok(
                        Some(RegisteredStart { epoch, recovery_block, parties }),
                    ),
                    None => Ok(None),
                }
            },
        }
    }

    /// Notes that an epoch started in which this node is no party.
    pub fn session_skipped(&mut self, epoch: Epoch)
        requires
            old(self).wf(),
            !reached(old(self)@.latest_started_epoch, epoch),
        ensures
            final(self).wf(),
            final(self)@ == (RunnerView { latest_started_epoch: Some(epoch), ..old(self)@ }),
    {
        self.latest_started_epoch = Some(epoch);
        assert forall|i: int| 0 <= i < self@.sessions.len() implies reached(
            self@.latest_started_epoch,
            #[trigger] self@.sessions[i],
        ) by {
            assert(reached(old(self)@.latest_started_epoch, old(self)@.sessions[i]));
        }
    }

    /// Notes that the session of an epoch runs. Returns the epoch whose session
    /// ends: the previous protocol may still be finishing, the one before may not.
    pub fn session_started(&mut self, epoch: Epoch, party_count: usize, recovery_block: SeqNum) -> (retired:
        Option<Epoch>)
        requires
            old(self).wf(),
            !reached(old(self)@.latest_started_epoch, epoch),
        ensures
            final(self).wf(),
            final(self)@ == old(self)@.with_session(epoch, party_count, recovery_block),
            retired == rotated(old(self)@.sessions, epoch).1,
    {
        let ghost before = self@;
        self.latest_started_epoch = Some(epoch);
        self.sessions.push(epoch);
        proof {
            let all = before.sessions.push(epoch);
            assert forall|i: int, j: int| 0 <= i < j < all.len() implies crate::order::Key::before(
                #[trigger] all[i],
                #[trigger] all[j],
            ) by {
                if j < before.sessions.len() {
                    assert(crate::order::Key::before(before.sessions[i], before.sessions[j]));
                } else {
                    assert(reached(before.latest_started_epoch, before.sessions[i]));
                }
            }
            assert forall|i: int| 0 <= i < all.len() implies reached(Some(epoch), #[trigger] all[i]) by {
                if i < before.sessions.len() {
                    assert(reached(before.latest_started_epoch, before.sessions[i]));
                }
            }
        }
        let mut retired: Option<Epoch> = None;
        if self.sessions.len() > MAX_RETAINED_DKG_SESSIONS {
            let ghost all = self.sessions@;
            let oldest: Epoch = self.sessions.remove(0);
            retired = Some(oldest);
            assert(self.sessions@ =~= all.skip(1));
            assert(crate::order::ascending(self.sessions@));
        }
        proof {
            assert forall|i: int| 0 <= i < self@.sessions.len() implies reached(
                self@.latest_started_epoch,
                #[trigger] self@.sessions[i],
            ) by {
                let all = before.sessions.push(epoch);
                if all.len() > MAX_RETAINED_DKG_SESSIONS {
                    assert(self@.sessions[i] == all[i + 1]);
                } else {
                    assert(self@.sessions[i] == all[i]);
                }
            }
        }
        self.start_chain_session(epoch, party_count, Some(recovery_block));
        retired
    }

    /// Notes that the events of a read are not available.
    pub fn events_unavailable(&mut self)
        requires
            old(self).wf(),
        ensures
            final(self).wf(),
            final(self)@ == (RunnerView { settling: Settling::Settled, ..old(self)@ }),
    {
        self.settling = Settling::Settled;
    }

    /// Takes the events of a read. They go to the session of their epoch, if it is
    /// live.
    pub fn accept_events(&mut self, read: ChainRead, events: Vec<ChainEvent>) -> (result: Result<
        ChainEventBatch,
        DkgError,
    >)
        requires
            old(self).wf(),
            old(self)@.reader.wanted_read() == Some(read),
        ensures
            final(self).wf(),
            ({
                let (scan, complete) = old(self)@.reader.scan->Some_0.advanced(read);
                let epoch = read.of_session().epoch;
                &&& final(self)@ == (RunnerView {
                    reader: ChainEventReader {
                        latest: old(self)@.reader.latest,
                        scan: Some(scan),
                    },
                    ..old(self)@
                })
                &&& if old(self)@.sessions.contains(epoch) {
                    result == Ok::<ChainEventBatch, DkgError>(
                        ChainEventBatch {
                            session: read.of_session(),
                            block: read.at_block(),
                            events,
                            recovery_complete_after: complete,
                        },
                    )
                } else {
                    result == Err::<ChainEventBatch, _>(DkgError::NoActiveSession { epoch: epoch.0 })
                }
            }),
    {
        let batch: ChainEventBatch = self.reader.complete(read, events);
        let epoch: Epoch = batch.session.epoch;
        if self.is_live(epoch) {
            Ok(batch)
        } else {
            Err(DkgError::NoActiveSession { epoch: epoch.0 })
        }
    }

    /// Hands the calls of a session to the submitter.
    pub fn submit_chain_calls(&mut self, epoch: Epoch, calls: Vec<ChainCall>)
        requires
            old(self).wf(),
        ensures
            final(self).wf(),
            final(self)@ == (RunnerView {
                submitter: with_calls(old(self)@.submitter, epoch, calls@),
                attempts: old(self)@.attempts + call_attempts(old(self)@.submitter, epoch, calls@),
                ..old(self)@
            }),
    {
        let ghost before = self@;
        let mut calls: Vec<ChainCall> = calls;
        let ghost whole = calls@;
        proof {
            assert(whole.take(0) =~= Seq::empty());
            assert(self@ =~= (RunnerView {
                submitter: with_calls(before.submitter, epoch, whole.take(0)),
                attempts: before.attempts + call_attempts(before.submitter, epoch, whole.take(0)),
                ..before
            }));
        }
        while calls.len() > 0
            invariant
                self.wf(),
                calls@.len() <= whole.len(),
                calls@ == whole.skip(whole.len() - calls@.len()),
                self@ == (RunnerView {
                    submitter: with_calls(
                        before.submitter,
                        epoch,
                        whole.take(whole.len() - calls@.len()),
                    ),
                    attempts: before.attempts + call_attempts(
                        before.submitter,
                        epoch,
                        whole.take(whole.len() - calls@.len()),
                    ),
                    ..before
                }),
            decreases calls@.len(),
        {
            let ghost done = whole.len() - calls@.len();
            let ghost earlier = self@;
            let call: ChainCall = calls.remove(0);
            proof {
                assert(call == whole[done]);
                assert(calls@ =~= whole.skip(done + 1));
                assert(whole.take(done + 1).drop_last() =~= whole.take(done));
                assert(whole.take(done + 1).last() == call);
            }
            let keys: Vec<TxKey> = self.submitter.submit(epoch, call);
            let ghost listed = keys@;
            self.push_attempt(keys);
            proof {
                assert(self@.attempts =~= before.attempts + call_attempts(
                    before.submitter,
                    epoch,
                    whole.take(done + 1),
                ));
            }
        }
        assert(whole.take(whole.len() as int) =~= whole);
    }

    /// Notes the events that a session took and hands its calls to the submitter:
    /// a call whose event the same block holds is not submitted. Where the session
    /// failed to take an event, the submitter is not told of any.
    pub fn settle_batch(&mut self, run: &BatchRun, calls: Vec<ChainCall>) -> (result: Result<(), DkgError>)
        requires
            old(self).wf(),
            run.ended(),
        ensures
            final(self).wf(),
            match run.stage() {
                BatchStage::Failed(error) => {
                    &&& result == Err::<(), _>(error)
                    &&& final(self)@ == old(self)@
                },
                _ => {
                    &&& result is Ok
                    &&& notes_batch(old(self)@, final(self)@, run.batch(), calls@)
                },
            },
    {
        let batch: &ChainEventBatch = match run.outcome() {
            Ok(batch) => batch,
            Err(error) => {
                return Err(error);
            },
        };
        let epoch: Epoch = batch.session.epoch;
        let ghost before = self@.submitter;
        let keys: Vec<TxKey> = self.submitter.finalized_block(
            epoch,
            batch.block,
            &batch.events,
            batch.recovery_complete_after,
        );
        let ghost listed = keys@;
        self.push_attempt(keys);
        proof {
            assert(self@.submitter == noted_batch(before, *batch));
            assert(block_attempt(before, noted_batch(before, *batch), epoch, listed));
        }
        self.submit_chain_calls(epoch, calls);
        Ok(())
    }

    /// Hands out the submissions to attempt, one list after the other.
    pub fn take_attempts(&mut self) -> (attempts: Vec<Vec<TxKey>>)
        requires
            old(self).wf(),
        ensures
            final(self).wf(),
            attempt_views(attempts@) == old(self)@.attempts,
            final(self)@ == (RunnerView { attempts: Seq::empty(), ..old(self)@ }),
    {
        let mut attempts: Vec<Vec<TxKey>> = Vec::new();
        std::mem::swap(&mut attempts, &mut self.attempts);
        assert(self@.attempts =~= Seq::empty());
        attempts
    }

    /// The submitter, for the attempts.
    pub fn submitter(&mut self) -> (submitter: &mut TxSubmitter)
        requires
            old(self).wf(),
        ensures
            *submitter == old(self).inner_submitter(),
            submitter.wf(),
            final(submitter).wf() ==> final(self).wf(),
            final(self)@ == (RunnerView { submitter: final(submitter)@, ..old(self)@ }),
    {
        &mut self.submitter
    }

    pub closed spec fn inner_submitter(self) -> TxSubmitter {
        self.submitter
    }

    /// The delivery in a network message, if it is for a live session.
    pub fn route_message(&self, message: &Vec<u8>) -> (delivery: Option<(Epoch, DeliveryMessage)>)
        ensures
            match read_envelope(message@) {
                Ok((epoch, inner)) => if self@.sessions.contains(epoch) {
                    delivery matches Some((to, routed)) && to == epoch && routed@ == inner
                } else {
                    delivery is None
                },
                Err(_) => delivery is None,
            },
    {
        match DeliveryEnvelope::decode(message) {
            Ok(envelope) => {
                if self.is_live(envelope.epoch) {
                    Some((envelope.epoch, envelope.message))
                } else {
                    None
                }
            },
            Err(_) => None,
        }
    }
}

/// Whether `after` is `ready` once the action for the local registration is done.
pub open spec fn performs(ready: RunnerView, after: RunnerView, action: LocalRegistrationAction) -> bool {
    match action {
        LocalRegistrationAction::Ignore => after == ready,
        LocalRegistrationAction::Confirm { epoch, registration } => after == (RunnerView {
            submitter: TxSubmitterView {
                submissions: ready.submitter.submissions.settled(
                    (epoch, crate::chain::submitter::registration_tx_id(registration)),
                ),
                ..ready.submitter
            },
            ..ready
        }),
        LocalRegistrationAction::Submit { epoch, block, registration } => {
            let call = ChainCall::PostRegistration {
                registration,
                dkg: ready.submitter.config.contract,
            };
            let noted = ready.submitter.with_context(epoch, block);
            after == (RunnerView {
                submitter: noted.with_call(epoch, call),
                attempts: ready.attempts.push(noted.attempts_call(epoch, call)),
                ..ready
            })
        },
        LocalRegistrationAction::Retry { epoch, block } => exists|keys: Seq<TxKey>| #[trigger]
            lists_pending(keys, ready.submitter.submissions, epoch_registrations(epoch)) && after == (
            RunnerView {
                submitter: ready.submitter.with_context(epoch, block),
                attempts: ready.attempts.push(keys),
                ..ready
            }),
    }
}

/// What follows from a read of the local registration, with the registration of this
/// node from the recovery log.
pub open spec fn takes_local_read(
    before: RunnerView,
    after: RunnerView,
    read: LocalRegistrationRead,
    observed: Option<RegistrationCall>,
    local: Option<RegistrationCall>,
    result: Result<(), DkgError>,
) -> bool {
    let stays = result is Ok && read.block.0 < before.latest_finalized->Some_0.0;
    let settling = if stays {
        before.settling
    } else {
        Settling::PendingSession
    };
    match local {
        None => {
            &&& result == Err::<(), _>(
                DkgError::Operation { operation: "load local DKG registration" },
            )
            &&& after == (RunnerView {
                registration: before.registration.with_state(
                    crate::dkg::local_registration::LocalRegistrationState::Done {
                        epoch: read.epoch,
                    },
                ),
                settling,
                ..before
            })
        },
        Some(local) => {
            let (registration, action) = before.registration.observed(
                read,
                observed,
                local,
            );
            match action {
                Err(_) => {
                    &&& result == Err::<(), _>(
                        DkgError::FinalizedRegistrationConflict { address: read.address },
                    )
                    &&& after == (RunnerView {
                        registration,
                        settling,
                        ..before
                    })
                },
                Ok(action) => {
                    &&& result is Ok
                    &&& performs(
                        (RunnerView { registration, settling, ..before }),
                        after,
                        action,
                    )
                },
            }
        },
    }
}

/// The events of a batch are noted, what can be submitted then is attempted, and the
/// calls of the session are handed in.
pub open spec fn notes_batch(
    before: RunnerView,
    after: RunnerView,
    batch: ChainEventBatch,
    calls: Seq<ChainCall>,
) -> bool {
    let epoch = batch.session.epoch;
    let submitter = noted_batch(before.submitter, batch);
    exists|keys: Seq<TxKey>| #[trigger]
        block_attempt(before.submitter, submitter, epoch, keys) && after == (RunnerView {
            submitter: with_calls(submitter, epoch, calls),
            attempts: before.attempts.push(keys) + call_attempts(submitter, epoch, calls),
            ..before
        })
}

/// The submitter once the events of a batch are noted, if their epoch is live.
pub open spec fn noted_batch(submitter: TxSubmitterView, batch: ChainEventBatch) -> TxSubmitterView {
    if submitter.active.contains(batch.session.epoch) {
        submitter.with_block(
            batch.session.epoch,
            batch.block,
            event_views(batch.events@),
            batch.recovery_complete_after,
        )
    } else {
        submitter
    }
}

/// Whether `keys` are what is attempted after a finalized block: the submissions
/// of the epoch once it is recovered.
pub open spec fn block_attempt(
    before: TxSubmitterView,
    after: TxSubmitterView,
    epoch: Epoch,
    keys: Seq<TxKey>,
) -> bool {
    if before.active.contains(epoch) && after.recovered.contains(epoch) {
        lists_pending(keys, after.submissions, epoch_txs(epoch))
    } else {
        keys.len() == 0
    }
}

fn validator_addresses(validators: &Vec<DkgValidator>) -> (addresses: Vec<Address>)
    ensures
        addresses@ == addresses_of(validators@),
{
    let mut addresses: Vec<Address> = Vec::new();
    let mut i: usize = 0;
    while i < validators.len()
        invariant
            i <= validators@.len(),
            addresses@ == addresses_of(validators@).take(i as int),
        decreases validators@.len() - i,
    {
        addresses.push(validators[i].address);
        assert(addresses_of(validators@).take(i + 1) =~= addresses_of(validators@).take(
            i as int,
        ).push(validators@[i as int].address));
        i += 1;
    }
    assert(addresses@ =~= addresses_of(validators@));
    addresses
}

/// The earliest of some deadlines.
pub open spec fn earliest(timers: Seq<Option<u64>>) -> Option<u64>
    decreases timers.len(),
{
    if timers.len() == 0 {
        None
    } else {
        match (earliest(timers.drop_last()), timers.last()) {
            (Some(a), Some(b)) => Some(
                if a <= b {
                    a
                } else {
                    b
                },
            ),
            (Some(a), None) => Some(a),
            (None, last) => last,
        }
    }
}

/// When the next of the sessions is due.
pub fn next_timer(timers: &Vec<Option<u64>>) -> (timer: Option<u64>)
    ensures
        timer == earliest(timers@),
{
    let mut timer: Option<u64> = None;
    let mut i: usize = 0;
    assert(timers@.take(0) =~= Seq::empty());
    while i < timers.len()
        invariant
            i <= timers@.len(),
            timer == earliest(timers@.take(i as int)),
        decreases timers@.len() - i,
    {
        assert(timers@.take(i + 1).drop_last() =~= timers@.take(i as int));
        timer =
        match (timer, timers[i]) {
            (Some(a), Some(b)) => if a <= b {
                Some(a)
            } else {
                Some(b)
            },
            (Some(a), None) => Some(a),
            (None, last) => last,
        };
        i += 1;
    }
    assert(timers@.take(i as int) =~= timers@);
    timer
}

/// The deliveries among the effects of a session.
pub open spec fn effect_deliveries(effects: Seq<EffectView>) -> Seq<OutboundView>
    decreases effects.len(),
{
    if effects.len() == 0 {
        Seq::empty()
    } else {
        let earlier = effect_deliveries(effects.drop_last());
        match effects.last() {
            EffectView::Network(delivery) => earlier.push(delivery),
            EffectView::Acknowledgement(delivery) => earlier.push(delivery),
            EffectView::Chain(_) => earlier,
        }
    }
}

/// The chain calls among the effects of a session.
pub open spec fn effect_calls(effects: Seq<EffectView>) -> Seq<ChainCall>
    decreases effects.len(),
{
    if effects.len() == 0 {
        Seq::empty()
    } else {
        let earlier = effect_calls(effects.drop_last());
        match effects.last() {
            EffectView::Chain(call) => earlier.push(call),
            _ => earlier,
        }
    }
}

/// Parts the effects of a session into deliveries and chain calls.
pub fn split_effects(effects: Vec<SessionEffect>) -> (parts: (Vec<DeliveryOutbound>, Vec<ChainCall>))
    ensures
        deliveries_view(parts.0@) == effect_deliveries(
            crate::dkg::session::effect_views(effects@),
        ),
        parts.1@ == effect_calls(crate::dkg::session::effect_views(effects@)),
{
    let mut effects: Vec<SessionEffect> = effects;
    let ghost whole = effects@;
    let ghost views = crate::dkg::session::effect_views(whole);
    let mut deliveries: Vec<DeliveryOutbound> = Vec::new();
    let mut calls: Vec<ChainCall> = Vec::new();
    proof {
        assert(views.take(0) =~= Seq::empty());
        assert(deliveries_view(deliveries@) =~= Seq::empty());
    }
    while effects.len() > 0
        invariant
            effects@.len() <= whole.len(),
            effects@ == whole.skip(whole.len() - effects@.len()),
            views == crate::dkg::session::effect_views(whole),
            deliveries_view(deliveries@) == effect_deliveries(
                views.take(whole.len() - effects@.len()),
            ),
            calls@ == effect_calls(views.take(whole.len() - effects@.len())),
        decreases effects@.len(),
    {
        let ghost done = whole.len() - effects@.len();
        let effect: SessionEffect = effects.remove(0);
        proof {
            assert(effect == whole[done]);
            assert(effects@ =~= whole.skip(done + 1));
            assert(views.take(done + 1).drop_last() =~= views.take(done));
            assert(views.take(done + 1).last() == effect@);
        }
        let ghost earlier = deliveries@;
        match effect {
            SessionEffect::Network { to, payload } => {
                deliveries.push(DeliveryOutbound { to, payload });
                assert(deliveries_view(deliveries@) =~= deliveries_view(earlier).push(
                    OutboundView { to, payload: payload@ },
                ));
            },
            SessionEffect::Acknowledgement { to, payload } => {
                deliveries.push(DeliveryOutbound { to, payload });
                assert(deliveries_view(deliveries@) =~= deliveries_view(earlier).push(
                    OutboundView { to, payload: payload@ },
                ));
            },
            SessionEffect::Chain(call) => {
                calls.push(call);
            },
        }
    }
    assert(views.take(whole.len() as int) =~= views);
    (deliveries, calls)
}

/// The epoch to register for, with the chain in `epoch`.
pub fn next_epoch(epoch: Epoch) -> (next: Epoch)
    requires
        epoch.0 < u64::MAX,
    ensures
        next.0 == epoch.0 + 1,
{
    Epoch(epoch.0 + 1)
}

/// The boundary of the recovery only moves forward, and finalized blocks never
/// move it.
pub proof fn law_sync_boundary_is_monotone(runner: RunnerView, block: SeqNum)
    ensures
        runner.with_finalized(block).sync_block == runner.sync_block,
        runner.with_sync(block).sync_block matches Some(after) && after.0 >= block.0,
        runner.sync_block matches Some(before) ==> runner.with_sync(block).sync_block->Some_0.0
            >= before.0,
{
}

/// Opening the registration makes the larger of the two epochs the one to register
/// for. Opening it for an epoch again changes nothing, and an older epoch never takes
/// the place of a newer one.
pub proof fn law_registration_epoch_is_monotone(runner: RunnerView, epoch: Epoch, earlier: Epoch)
    requires
        earlier.0 <= epoch.0,
    ensures
        runner.with_registration(epoch).with_registration(earlier) == runner.with_registration(epoch),
        runner.with_registration(epoch).registration.state.of_epoch() == (
        match runner.registration.state.of_epoch() {
            Some(current) if current.0 >= epoch.0 => Some(current),
            _ => Some(epoch),
        }),
{
}

/// A wanted session is started at most once: an epoch that started is never
/// wanted again.
pub proof fn law_started_epoch_is_not_wanted(
    runner: RunnerView,
    epoch: Epoch,
    validators: Seq<DkgValidator>,
)
    requires
        reached(runner.latest_started_epoch, epoch),
    ensures
        runner.with_wanted(epoch, validators).pending == runner.pending,
        runner.with_wanted(epoch, validators).sessions == runner.sessions,
{
}

/// Nothing is read of the chain state before execution is in sync, but for the
/// events of a session that runs.
pub proof fn law_reads_wait_for_sync(runner: RunnerView)
    requires
        runner.sync_block is None,
    ensures
        runner.local_read() is None,
        runner.session_read() is None,
{
}

/// A call whose event is in the same batch is not submitted: the events are noted
/// before the calls that they led to.
pub proof fn law_finalized_effect_is_not_resubmitted(
    submitter: TxSubmitterView,
    batch: ChainEventBatch,
    place: int,
    call: ChainCall,
)
    requires
        submitter.active.contains(batch.session.epoch),
        0 <= place < batch.events@.len(),
        crate::chain::submitter::call_tx_id(call) == crate::chain::tx::event_tx_id(
            batch.events@[place]@,
        ),
    ensures
        noted_batch(submitter, batch).attempts_call(batch.session.epoch, call).len() == 0,
        noted_batch(submitter, batch).with_call(batch.session.epoch, call) == noted_batch(
            submitter,
            batch,
        ),
{
    crate::chain::submitter::law_reported_artifact_is_not_submitted_again(
        submitter,
        batch.session.epoch,
        batch.block,
        event_views(batch.events@),
        place,
        batch.recovery_complete_after,
        call,
    );
}

/// The newest finalized block never goes back; a session that waits for its first
/// block takes it, and keeps the block that it has.
pub proof fn law_head_never_goes_back(runner: RunnerView, block: SeqNum)
    ensures
        ({
            let after = runner.with_finalized(block);
            let newer = runner.latest_finalized is None || block.0 > runner.latest_finalized->Some_0.0;
            &&& after.latest_finalized == (if newer {
                Some(block)
            } else {
                runner.latest_finalized
            })
            &&& runner.pending matches Some(pending) ==> (after.pending matches Some(waiting)
                && waiting.epoch == pending.epoch && waiting.validators == pending.validators && (
            pending.registration_block is Some ==> waiting.registration_block
                == pending.registration_block) && (pending.registration_block is None && newer
                ==> waiting.registration_block == Some(block)))
            &&& runner.pending is None ==> after.pending is None
            &&& after.reader.latest matches Some(known) && known.0 >= block.0
            &&& after.settling == Settling::LocalRegistration
            &&& after.submitter == runner.submitter
            &&& after.sessions == runner.sessions
        }),
{
}

/// The registration for a new epoch opens and drops the registrations of the epoch
/// before that still wait.
pub proof fn law_new_epoch_opens_its_registration(runner: RunnerView, epoch: Epoch, key: TxKey)
    requires
        runner.registration.state.of_epoch() matches Some(current) ==> current.0 < epoch.0,
    ensures
        ({
            let after = runner.with_registration(epoch);
            let previous = runner.registration.state.of_epoch();
            &&& after.registration.state == (
            crate::dkg::local_registration::LocalRegistrationState::Open {
                epoch,
                unavailable_block: None,
            })
            &&& after.registration.address == runner.registration.address
            &&& after.submitter.submissions.pending.contains_key(key)
                <==> runner.submitter.submissions.pending.contains_key(key) && !(previous == Some(key.0)
                && key.1 is Registration)
            &&& after.settling == Settling::LocalRegistration
        }),
{
}

/// A later boundary of the synced state becomes the boundary, and the newest session
/// is read again from there.
pub proof fn law_new_boundary_rereads_the_session(runner: RunnerView, block: SeqNum)
    requires
        runner.sync_block matches Some(current) ==> current.0 < block.0,
    ensures
        ({
            let after = runner.with_sync(block);
            &&& after.sync_block == Some(block)
            &&& after.latest_finalized matches Some(latest) && latest.0 >= block.0
            &&& after.reader.latest matches Some(known) && known.0 >= block.0
            &&& runner.chain_session matches Some((epoch, party_count)) ==> after.reader.wanted_read()
                == Some(
                ChainRead::Snapshot(ChainEventSession { epoch, party_count, recovery_block: block }),
            )
            &&& runner.chain_session is None ==> after.reader.scan == runner.reader.scan
            &&& after.settling == Settling::LocalRegistration
        }),
{
}

/// A session that is wanted waits with its validators for the newest finalized
/// block, and the window for registering in its epoch closes: a registration that
/// still waits is dropped.
pub proof fn law_wanted_session_waits_for_its_block(
    runner: RunnerView,
    epoch: Epoch,
    validators: Seq<DkgValidator>,
    key: TxKey,
)
    requires
        runner.latest_started_epoch matches Some(started) ==> started.0 < epoch.0,
        runner.pending matches Some(pending) ==> pending.epoch.0 < epoch.0,
    ensures
        ({
            let after = runner.with_wanted(epoch, validators);
            let own = runner.registration.state.of_epoch() == Some(epoch);
            &&& after.pending == Some(
                PendingSessionView {
                    epoch,
                    validators,
                    registration_block: runner.latest_finalized,
                },
            )
            &&& own ==> after.registration.state == (
            crate::dkg::local_registration::LocalRegistrationState::Done { epoch })
            &&& !own ==> after.registration == runner.registration
            &&& after.submitter.submissions.pending.contains_key(key)
                <==> runner.submitter.submissions.pending.contains_key(key) && !(own && key.0 == epoch
                && key.1 is Registration)
            &&& after.settling == Settling::LocalRegistration
        }),
{
}

/// The own registration is read first, then the registrations of the waiting
/// session, then chain events; a read that is over is not named again before
/// something changes.
pub proof fn law_reads_come_in_their_order(runner: RunnerView)
    ensures
        runner.settling == Settling::LocalRegistration && runner.local_read() is Some ==> runner.due_stage()
            == Settling::LocalRegistration,
        runner.settling == Settling::LocalRegistration && runner.local_read() is None
            && runner.session_read() is Some ==> runner.due_stage() == Settling::PendingSession,
        runner.settling == Settling::PendingSession && runner.session_read() is Some
            ==> runner.due_stage() == Settling::PendingSession,
        runner.settling == Settling::Events && runner.reader.wanted_read() is Some ==> runner.due_stage()
            == Settling::Events,
        runner.settling != Settling::Settled && runner.local_read() is None && runner.session_read() is None
            && runner.reader.wanted_read() is Some ==> runner.due_stage() == Settling::Events,
        runner.settling == Settling::Settled ==> runner.due_stage() == Settling::Settled,
        runner.due_stage() == Settling::LocalRegistration ==> runner.local_read() is Some,
        runner.due_stage() == Settling::PendingSession ==> runner.session_read() is Some,
        runner.due_stage() == Settling::Events ==> runner.reader.wanted_read() is Some,
{
}

/// A waiting session is read at the block that it waits for, once the state is
/// synced and the block is known.
pub proof fn law_waiting_session_is_read_at_its_block(runner: RunnerView)
    ensures
        runner.session_read() matches Some((epoch, block)) ==> runner.pending is Some
            && runner.pending->Some_0.epoch == epoch && runner.pending->Some_0.registration_block == Some(
            block,
        ),
        runner.session_read() is Some <==> runner.sync_block is Some && runner.pending is Some
            && runner.pending->Some_0.registration_block is Some,
        runner.local_read() is Some ==> runner.sync_block is Some && runner.latest_finalized is Some,
{
}

/// A started session is live and the newest one; the oldest one retires where there
/// are more than may be kept. Its chain events are read from its boundary.
pub proof fn law_started_session_is_live(
    runner: RunnerView,
    epoch: Epoch,
    party_count: usize,
    recovery_block: SeqNum,
)
    requires
        runner.sessions.len() <= MAX_RETAINED_DKG_SESSIONS,
    ensures
        ({
            let after = runner.with_session(epoch, party_count, recovery_block);
            &&& after.latest_started_epoch == Some(epoch)
            &&& after.sessions.last() == epoch
            &&& after.chain_session == Some((epoch, party_count))
            &&& after.submitter == runner.submitter.with_session(epoch)
            &&& after.reader.wanted_read() == Some(
                ChainRead::Snapshot(ChainEventSession { epoch, party_count, recovery_block }),
            )
            &&& runner.sessions.len() < MAX_RETAINED_DKG_SESSIONS ==> after.sessions
                == runner.sessions.push(epoch) && rotated(runner.sessions, epoch).1 is None
            &&& runner.sessions.len() == MAX_RETAINED_DKG_SESSIONS ==> rotated(
                runner.sessions,
                epoch,
            ).1 == Some(runner.sessions[0]) && seq![runner.sessions[0]] + after.sessions
                == runner.sessions.push(epoch)
        }),
{
    let after = runner.with_session(epoch, party_count, recovery_block);
    if runner.sessions.len() == MAX_RETAINED_DKG_SESSIONS {
        assert(seq![runner.sessions[0]] + after.sessions =~= runner.sessions.push(epoch));
    }
}

/// What the finalized state says of the own registration is done: a confirmed one is
/// settled, a missing one is submitted at the configured contract and attempted, and
/// one that waits is attempted again.
pub proof fn law_registration_action_is_done(
    ready: RunnerView,
    after: RunnerView,
    action: LocalRegistrationAction,
    key: TxKey,
)
    requires
        performs(ready, after, action),
    ensures
        action is Ignore ==> after == ready,
        action matches LocalRegistrationAction::Confirm { epoch, registration } ==> {
            let settled = (epoch, crate::chain::submitter::registration_tx_id(registration));
            &&& !after.submitter.submissions.pending.contains_key(settled)
            &&& after.submitter.submissions.finalized.contains(settled)
            &&& after.attempts == ready.attempts
        },
        action matches LocalRegistrationAction::Submit { epoch, block, registration } ==> {
            let call = ChainCall::PostRegistration {
                registration,
                dkg: ready.submitter.config.contract,
            };
            let own = (epoch, crate::chain::submitter::call_tx_id(call));
            &&& after.submitter.contexts.contains_key(epoch) && after.submitter.contexts[epoch] == block
            &&& !ready.submitter.submissions.finalized.contains(own)
                && !ready.submitter.submissions.pending.contains_key(own) ==> {
                &&& after.submitter.submissions.pending.contains_key(own)
                &&& after.submitter.submissions.pending[own] == call
                &&& after.attempts == ready.attempts.push(seq![own])
            }
        },
        action matches LocalRegistrationAction::Retry { epoch, block } ==> {
            &&& after.submitter.contexts.contains_key(epoch) && after.submitter.contexts[epoch] == block
            &&& after.submitter.submissions == ready.submitter.submissions
            &&& after.attempts.len() == ready.attempts.len() + 1
            &&& after.attempts.last().contains(key) <==> ready.submitter.submissions.pending.contains_key(
                key,
            ) && key.0 == epoch && key.1 is Registration
        },
{
}

/// A batch of chain events settles what it reports, and once its epoch is recovered
/// every pending submission of that epoch is attempted.
pub proof fn law_batch_attempts_what_is_left(
    before: TxSubmitterView,
    batch: ChainEventBatch,
    keys: Seq<TxKey>,
    key: TxKey,
)
    requires
        block_attempt(before, noted_batch(before, batch), batch.session.epoch, keys),
    ensures
        ({
            let after = noted_batch(before, batch);
            let epoch = batch.session.epoch;
            &&& !before.active.contains(epoch) ==> after == before && keys.len() == 0
            &&& before.active.contains(epoch) ==> after.contexts[epoch] == batch.block
            &&& before.active.contains(epoch) ==> (after.recovered.contains(epoch)
                <==> batch.recovery_complete_after || before.recovered.contains(epoch))
            &&& before.active.contains(epoch) && after.recovered.contains(epoch) ==> (keys.contains(key)
                <==> after.submissions.pending.contains_key(key) && key.0 == epoch)
            &&& !after.recovered.contains(epoch) ==> keys.len() == 0
        }),
{
}

/// Calls of a live epoch are all taken, and there is one attempt for each of them.
pub proof fn law_every_call_is_taken(
    submitter: TxSubmitterView,
    epoch: Epoch,
    calls: Seq<ChainCall>,
    i: int,
)
    requires
        submitter.active.contains(epoch),
        0 <= i < calls.len(),
    ensures
        call_attempts(submitter, epoch, calls).len() == calls.len(),
        with_calls(submitter, epoch, calls).active == submitter.active,
        with_calls(submitter, epoch, calls).submissions.finalized == submitter.submissions.finalized,
        ({
            let key = (epoch, crate::chain::submitter::call_tx_id(calls[i]));
            with_calls(submitter, epoch, calls).submissions.pending.contains_key(key)
                || submitter.submissions.finalized.contains(key)
        }),
    decreases calls.len(),
{
    let fewer = calls.drop_last();
    lemma_calls_keep(submitter, epoch, calls);
    lemma_calls_keep(submitter, epoch, fewer);
    if i < fewer.len() {
        assert(fewer[i] == calls[i]);
        law_every_call_is_taken(submitter, epoch, fewer, i);
    }
}

proof fn lemma_calls_keep(submitter: TxSubmitterView, epoch: Epoch, calls: Seq<ChainCall>)
    ensures
        call_attempts(submitter, epoch, calls).len() == calls.len(),
        with_calls(submitter, epoch, calls).active == submitter.active,
        with_calls(submitter, epoch, calls).submissions.finalized == submitter.submissions.finalized,
    decreases calls.len(),
{
    if calls.len() > 0 {
        lemma_calls_keep(submitter, epoch, calls.drop_last());
    }
}

/// The next timer is the earliest one that is set.
pub proof fn law_next_timer_is_the_earliest(timers: Seq<Option<u64>>, i: int)
    requires
        0 <= i < timers.len(),
    ensures
        timers[i] matches Some(timer) ==> earliest(timers) is Some && earliest(timers)->Some_0 <= timer,
        earliest(timers) is Some ==> timers.contains(earliest(timers)),
    decreases timers.len(),
{
    let fewer = timers.drop_last();
    if i < fewer.len() {
        assert(fewer[i] == timers[i]);
        law_next_timer_is_the_earliest(fewer, i);
    }
    lemma_earliest_is_set(timers);
}

proof fn lemma_earliest_is_set(timers: Seq<Option<u64>>)
    ensures
        earliest(timers) is Some ==> timers.contains(earliest(timers)),
    decreases timers.len(),
{
    if timers.len() > 0 {
        let fewer = timers.drop_last();
        lemma_earliest_is_set(fewer);
        assert(timers[timers.len() - 1] == timers.last());
        if earliest(fewer) is Some && earliest(timers) == earliest(fewer) {
            let k = choose|k: int| 0 <= k < fewer.len() && fewer[k] == earliest(fewer);
            assert(timers[k] == fewer[k]);
        }
    }
}

/// What leaves a session is parted into deliveries and calls: a delivery or an
/// acknowledgement is delivered, a call goes to the chain, and nothing is lost.
pub proof fn law_effects_are_parted(effects: Seq<EffectView>, i: int)
    requires
        0 <= i < effects.len(),
    ensures
        effects[i] matches EffectView::Network(delivery) ==> effect_deliveries(effects).contains(delivery),
        effects[i] matches EffectView::Acknowledgement(delivery) ==> effect_deliveries(effects).contains(
            delivery,
        ),
        effects[i] matches EffectView::Chain(call) ==> effect_calls(effects).contains(call),
        effect_deliveries(effects).len() + effect_calls(effects).len() == effects.len(),
    decreases effects.len(),
{
    let fewer = effects.drop_last();
    let deliveries = effect_deliveries(effects);
    let calls = effect_calls(effects);
    let earlier = effect_deliveries(fewer);
    let before = effect_calls(fewer);
    lemma_effects_add_up(effects);
    if i < fewer.len() {
        law_effects_are_parted(fewer, i);
        assert(fewer[i] == effects[i]);
        match effects[i] {
            EffectView::Network(delivery) => {
                let k = choose|k: int| 0 <= k < earlier.len() && earlier[k] == delivery;
                assert(deliveries[k] == delivery);
            },
            EffectView::Acknowledgement(delivery) => {
                let k = choose|k: int| 0 <= k < earlier.len() && earlier[k] == delivery;
                assert(deliveries[k] == delivery);
            },
            EffectView::Chain(call) => {
                let k = choose|k: int| 0 <= k < before.len() && before[k] == call;
                assert(calls[k] == call);
            },
        }
    } else {
        match effects[i] {
            EffectView::Chain(call) => {
                assert(calls[calls.len() - 1] == call);
            },
            EffectView::Network(delivery) => {
                assert(deliveries[deliveries.len() - 1] == delivery);
            },
            EffectView::Acknowledgement(delivery) => {
                assert(deliveries[deliveries.len() - 1] == delivery);
            },
        }
    }
}

proof fn lemma_effects_add_up(effects: Seq<EffectView>)
    ensures
        effect_deliveries(effects).len() + effect_calls(effects).len() == effects.len(),
    decreases effects.len(),
{
    if effects.len() > 0 {
        lemma_effects_add_up(effects.drop_last());
    }
}

/// Where the local registration cannot be loaded, or the chain holds another one, the
/// registration is given up; otherwise nothing fails.
pub proof fn law_local_read_gives_up_on_conflict(
    before: RunnerView,
    after: RunnerView,
    read: LocalRegistrationRead,
    observed: Option<RegistrationCall>,
    local: Option<RegistrationCall>,
    result: Result<(), DkgError>,
)
    requires
        takes_local_read(before, after, read, observed, local, result),
        before.registration.state.of_epoch() == Some(read.epoch),
    ensures
        result is Err <==> local is None || (observed is Some && observed != local),
        result is Err ==> after.registration.state == (
        crate::dkg::local_registration::LocalRegistrationState::Done { epoch: read.epoch })
            && after.submitter == before.submitter && after.attempts == before.attempts,
        result is Err ==> after.settling == Settling::PendingSession,
        result is Ok && read.block.0 >= before.latest_finalized->Some_0.0 ==> after.settling
            == Settling::PendingSession,
{
}

} // verus!
