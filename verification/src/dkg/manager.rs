//! The runtime across epochs, with or without a chain.
//!
//! A manager keeps a list of reads of the finalized chain. Every change puts the
//! reads that it calls for on the list; [`DkgManager::next_task`] names the next
//! one that is due, and its outcome is handed back. A manager without a chain
//! runs sessions but reads nothing.

use crate::chain::batch::{BatchRun, BatchStage};
use crate::chain::scan::{ChainEventBatch, ChainEventReader, ChainEventSession, ChainRead};
use crate::chain::submitter::{
    epoch_registrations, lists_pending, TxKey, TxSubmitter, TxSubmitterView,
};
use crate::chain::types::{ChainCall, ChainEvent, RegistrationCall};
use crate::dkg::error::DkgError;
use crate::dkg::ids::{Epoch, NodeId, SeqNum};
use crate::dkg::local_registration::{
    LocalRegistration, LocalRegistrationAction, LocalRegistrationRead, LocalRegistrationState,
    RegistrationStart,
};
use crate::dkg::registration::{
    assemble_registered_session, assembled, by_address, registrations_of, repeated_address,
    CheckedRegistration, DkgValidator, LocalPublicKeys,
};
use crate::dkg::runner::{
    attempt_views, block_attempt, noted_batch, reached, rotated, PendingRegisteredSession,
    PendingSessionView, RegisteredStart,
};
use crate::order::Key;
use crate::MAX_RETAINED_DKG_SESSIONS;
use vstd::prelude::*;

verus! {

/// A kind of read of the finalized chain, or a step between two reads.
#[derive(Clone, Copy, Debug, PartialEq, Eq, Structural)]
pub enum ScheduledRead {
    LocalRegistration,
    /// The registrations of the parties of a wanted session.
    Registrations,
    Events,
    /// No read: the cursor learns of a finalized block.
    Cursor(SeqNum),
}

/// A read of the finalized chain.
pub enum ManagerTask {
    Idle,
    ReadLocalRegistration(LocalRegistrationRead),
    ReadRegisteredParties { epoch: Epoch, block: SeqNum },
    ReadEvents(ChainRead),
}

/// What a manager keeps for its chain.
struct ManagedChain {
    submitter: TxSubmitter,
    reader: ChainEventReader,
    registration: LocalRegistration,
}

#[verifier::ext_equal]
pub struct ManagedView {
    pub submitter: TxSubmitterView,
    pub reader: ChainEventReader,
    pub registration: LocalRegistration,
}

impl View for ManagedChain {
    type V = ManagedView;

    closed spec fn view(&self) -> ManagedView {
        ManagedView {
            submitter: self.submitter@,
            reader: self.reader,
            registration: self.registration,
        }
    }
}

/// The runtime of one node.
pub struct DkgManager {
    self_id: NodeId,
    chain: Option<ManagedChain>,
    sessions: Vec<Epoch>,
    latest_started_epoch: Option<Epoch>,
    pending: Option<PendingRegisteredSession>,
    chain_session: Option<(Epoch, usize)>,
    sync_block: Option<SeqNum>,
    latest_finalized: Option<SeqNum>,
    schedule: Vec<ScheduledRead>,
    attempts: Vec<Vec<TxKey>>,
}

/// The model of a manager.
#[verifier::ext_equal]
pub struct ManagerView {
    pub self_id: NodeId,
    pub chain: Option<ManagedView>,
    /// The live epochs, the oldest first.
    pub sessions: Seq<Epoch>,
    pub latest_started_epoch: Option<Epoch>,
    pub pending: Option<PendingSessionView>,
    pub chain_session: Option<(Epoch, usize)>,
    pub sync_block: Option<SeqNum>,
    pub latest_finalized: Option<SeqNum>,
    /// The reads to make, the next one first.
    pub schedule: Seq<ScheduledRead>,
    /// The submissions to attempt, one list after the other.
    pub attempts: Seq<Seq<TxKey>>,
}

impl ManagerView {
    /// The manager of a node that has seen nothing.
    pub open spec fn idle(self_id: NodeId, chain: Option<ManagedView>) -> ManagerView {
        ManagerView {
            self_id,
            chain,
            sessions: Seq::empty(),
            latest_started_epoch: None,
            pending: None,
            chain_session: None,
            sync_block: None,
            latest_finalized: None,
            schedule: Seq::empty(),
            attempts: Seq::empty(),
        }
    }

    /// The manager with one more read at the end of its list.
    pub open spec fn scheduled(self, read: ScheduledRead) -> ManagerView {
        ManagerView { schedule: self.schedule.push(read), ..self }
    }

    /// The manager with another chain state.
    pub open spec fn with_chain(self, chain: ManagedView) -> ManagerView {
        ManagerView { chain: Some(chain), ..self }
    }

    /// The manager with one more list of submissions to attempt.
    pub open spec fn attempting(self, keys: Seq<TxKey>) -> ManagerView {
        ManagerView { attempts: self.attempts.push(keys), ..self }
    }

    /// Whether the chain was not known to be final up to `block`.
    pub open spec fn is_new_head(self, block: SeqNum) -> bool {
        !(self.latest_finalized matches Some(latest) && block.0 <= latest.0)
    }

    /// The manager once the chain is final up to `block`. A session whose
    /// registrations wait for a block reads them there.
    pub open spec fn with_head(self, block: SeqNum) -> ManagerView {
        if !self.is_new_head(block) {
            self
        } else {
            ManagerView {
                latest_finalized: Some(block),
                pending: match self.pending {
                    Some(pending) => Some(
                        PendingSessionView {
                            registration_block: match pending.registration_block {
                                Some(earlier) => Some(earlier),
                                None => Some(block),
                            },
                            ..pending
                        },
                    ),
                    None => None,
                },
                ..self
            }
        }
    }

    /// The manager once local registration is open for `epoch`. The transaction
    /// of an older epoch is abandoned.
    pub open spec fn with_registration(self, epoch: Epoch) -> ManagerView {
        match self.chain {
            Some(chain) if !chain.registration.reached(epoch) => self.with_chain(
                ManagedView {
                    registration: chain.registration.with_state(
                        LocalRegistrationState::Open { epoch, unavailable_block: None },
                    ),
                    submitter: match chain.registration.state.of_epoch() {
                        Some(previous) => chain.submitter.without_registrations(previous),
                        None => chain.submitter,
                    },
                    ..chain
                },
            ).scheduled(ScheduledRead::LocalRegistration),
            _ => self,
        }
    }

    /// The manager once its cursor knows of a finalized block.
    pub open spec fn with_cursor(self, block: SeqNum) -> ManagerView {
        match self.chain {
            Some(chain) => self.with_chain(
                ManagedView { reader: chain.reader.with_finalized(block), ..chain },
            ),
            None => self,
        }
    }

    /// The manager once one more block is final. The cursor learns of it after the
    /// reads of registrations. The boundary of the recovery stays.
    pub open spec fn with_finalized(self, block: SeqNum) -> ManagerView {
        let headed = if self.is_new_head(block) {
            self.with_head(block).scheduled(ScheduledRead::Registrations).scheduled(
                ScheduledRead::LocalRegistration,
            )
        } else {
            self
        };
        headed.scheduled(ScheduledRead::Cursor(block)).scheduled(ScheduledRead::Events)
    }

    /// The manager once the events of `epoch` are followed, from the boundary
    /// `recovery_block` on if there is one.
    pub open spec fn following(
        self,
        epoch: Epoch,
        party_count: usize,
        recovery_block: Option<SeqNum>,
    ) -> ManagerView {
        match self.chain {
            Some(chain) => self.with_chain(
                ManagedView {
                    submitter: chain.submitter.with_session(epoch),
                    reader: match recovery_block {
                        Some(recovery_block) => chain.reader.with_session(
                            ChainEventSession { epoch, party_count, recovery_block },
                        ),
                        None => chain.reader,
                    },
                    ..chain
                },
            ),
            None => self,
        }
    }

    /// The manager once execution is in sync at `block`: the boundary of the
    /// recovery, which only moves forward.
    pub open spec fn with_sync(self, block: SeqNum) -> ManagerView {
        if self.sync_block matches Some(current) && current.0 >= block.0 {
            self
        } else {
            let known = ManagerView { sync_block: Some(block), ..self }.with_head(block).with_cursor(
                block,
            );
            let followed = match known.chain_session {
                Some((epoch, party_count)) => known.following(epoch, party_count, Some(block)),
                None => known,
            };
            followed.scheduled(ScheduledRead::Events).scheduled(
                ScheduledRead::Registrations,
            ).scheduled(ScheduledRead::LocalRegistration)
        }
    }

    /// The manager once the registration window of `epoch` is closed.
    pub open spec fn without_window(self, epoch: Epoch) -> ManagerView {
        match self.chain {
            Some(chain) if chain.registration.state.of_epoch() == Some(epoch) => self.with_chain(
                ManagedView {
                    submitter: chain.submitter.without_registrations(epoch),
                    registration: chain.registration.with_state(
                        LocalRegistrationState::Done { epoch },
                    ),
                    ..chain
                },
            ),
            _ => self,
        }
    }

    /// Whether the session of `epoch` has started, or a later one is wanted.
    pub open spec fn overtook(self, epoch: Epoch) -> bool {
        reached(self.latest_started_epoch, epoch) || (self.pending matches Some(pending)
            && pending.epoch.0 >= epoch.0)
    }

    /// The manager once the session of `epoch` is wanted. An epoch that started
    /// or that a later one overtook is ignored.
    pub open spec fn with_wanted(self, epoch: Epoch, validators: Seq<DkgValidator>) -> ManagerView {
        let closed = self.without_window(epoch);
        if self.overtook(epoch) || self.chain is None {
            closed
        } else {
            ManagerView {
                pending: Some(
                    PendingSessionView {
                        epoch,
                        validators,
                        registration_block: self.latest_finalized,
                    },
                ),
                ..closed
            }.scheduled(ScheduledRead::Registrations)
        }
    }

    /// The read of the local registration that is due.
    pub open spec fn local_read(self) -> Option<LocalRegistrationRead> {
        match (self.chain, self.latest_finalized) {
            (Some(chain), Some(latest)) if self.sync_block is Some => chain.registration.wanted_read(
                latest,
            ),
            _ => None,
        }
    }

    /// The read of registrations that is due.
    pub open spec fn session_read(self) -> Option<(Epoch, SeqNum)> {
        match self.pending {
            Some(pending) if self.sync_block is Some && self.chain is Some
                && pending.registration_block is Some => Some(
                (pending.epoch, pending.registration_block->Some_0),
            ),
            _ => None,
        }
    }

    /// The read of chain events that is due.
    pub open spec fn event_read(self) -> Option<ChainRead> {
        match self.chain {
            Some(chain) => chain.reader.wanted_read(),
            None => None,
        }
    }

    /// Whether there is something to read.
    pub open spec fn is_due(self, read: ScheduledRead) -> bool {
        match read {
            ScheduledRead::LocalRegistration => self.local_read() is Some,
            ScheduledRead::Registrations => self.session_read() is Some,
            ScheduledRead::Events => self.event_read() is Some,
            ScheduledRead::Cursor(_) => false,
        }
    }

    /// Whether `task` is the read of kind `read` that is due.
    pub open spec fn names(self, task: ManagerTask, read: ScheduledRead) -> bool {
        match read {
            ScheduledRead::LocalRegistration => task matches ManagerTask::ReadLocalRegistration(named)
                && self.local_read() == Some(named),
            ScheduledRead::Registrations => task matches ManagerTask::ReadRegisteredParties {
                epoch,
                block,
            } && self.session_read() == Some((epoch, block)),
            ScheduledRead::Events => task matches ManagerTask::ReadEvents(named)
                && self.event_read() == Some(named),
            ScheduledRead::Cursor(_) => false,
        }
    }

    /// The manager without what comes before the first read that is due. What is not
    /// due is passed over, and the cursor learns of the blocks before it.
    pub open spec fn settled(self) -> ManagerView
        decreases self.schedule.len(),
    {
        if self.schedule.len() == 0 || self.is_due(self.schedule[0]) {
            self
        } else {
            self.passed_over().settled()
        }
    }

    /// The manager without the first entry of its list, which is no read that is due.
    pub open spec fn passed_over(self) -> ManagerView {
        match self.schedule[0] {
            ScheduledRead::Cursor(block) => self.read_over().with_cursor(block),
            _ => self.read_over(),
        }
    }

    /// Whether a read of kind `read` is the first of the list.
    pub open spec fn reading(self, read: ScheduledRead) -> bool {
        self.schedule.len() > 0 && self.schedule[0] == read
    }

    /// The manager once the first read of its list is over.
    pub open spec fn read_over(self) -> ManagerView {
        ManagerView { schedule: self.schedule.skip(1), ..self }
    }

    /// The manager after a look at the local registration: the registrations of a
    /// wanted session come next, and then a look at the finalized head where this
    /// one was behind it.
    pub open spec fn after_local_read(self, read: LocalRegistrationRead) -> ManagerView {
        let left = if self.latest_finalized matches Some(latest) && read.block.0 < latest.0 {
            self.schedule
        } else {
            self.schedule.skip(1)
        };
        ManagerView { schedule: seq![ScheduledRead::Registrations] + left, ..self }
    }

    /// The manager once the session of `epoch` runs.
    pub open spec fn with_session(
        self,
        epoch: Epoch,
        party_count: usize,
        recovery_block: Option<SeqNum>,
    ) -> ManagerView {
        let started = ManagerView {
            latest_started_epoch: Some(epoch),
            sessions: rotated(self.sessions, epoch).0,
            ..self
        };
        started.with_chain_session(epoch, party_count, recovery_block)
    }

    /// The manager once the chain events of a session are wanted. They are read
    /// before anything else.
    pub open spec fn with_chain_session(
        self,
        epoch: Epoch,
        party_count: usize,
        recovery_block: Option<SeqNum>,
    ) -> ManagerView {
        let followed = ManagerView { chain_session: Some((epoch, party_count)), ..self }.following(
            epoch,
            party_count,
            recovery_block,
        );
        if self.chain is None {
            followed
        } else {
            ManagerView { schedule: seq![ScheduledRead::Events] + self.schedule, ..followed }
        }
    }
}

/// Whether `after` is `ready` once the action for the local registration is done.
pub open spec fn manager_performs(
    ready: ManagerView,
    chain: ManagedView,
    after: ManagerView,
    action: LocalRegistrationAction,
) -> bool {
    match action {
        LocalRegistrationAction::Ignore => after == ready.with_chain(chain),
        LocalRegistrationAction::Confirm { epoch, registration } => after == ready.with_chain(
            ManagedView {
                submitter: TxSubmitterView {
                    submissions: chain.submitter.submissions.settled(
                        (epoch, crate::chain::submitter::registration_tx_id(registration)),
                    ),
                    ..chain.submitter
                },
                ..chain
            },
        ),
        LocalRegistrationAction::Submit { epoch, block, registration } => {
            let call = ChainCall::PostRegistration {
                registration,
                dkg: chain.submitter.config.contract,
            };
            let noted = chain.submitter.with_context(epoch, block);
            after == ready.with_chain(
                ManagedView { submitter: noted.with_call(epoch, call), ..chain },
            ).attempting(noted.attempts_call(epoch, call))
        },
        LocalRegistrationAction::Retry { epoch, block } => exists|keys: Seq<TxKey>| #[trigger]
            lists_pending(keys, chain.submitter.submissions, epoch_registrations(epoch)) && after
                == ready.with_chain(
                ManagedView { submitter: chain.submitter.with_context(epoch, block), ..chain },
            ).attempting(keys),
    }
}

/// What follows from a read of the local registration, with the registration of this
/// node from the recovery log.
pub open spec fn takes_local_read(
    before: ManagerView,
    after: ManagerView,
    read: LocalRegistrationRead,
    observed: Option<RegistrationCall>,
    local: Option<RegistrationCall>,
    result: Result<(), DkgError>,
) -> bool {
    let chain = before.chain->Some_0;
    match local {
        None => {
            &&& result == Err::<(), _>(
                DkgError::Operation { operation: "load local DKG registration" },
            )
            &&& after == before.read_over().with_chain(
                ManagedView {
                    registration: chain.registration.with_state(
                        LocalRegistrationState::Done { epoch: read.epoch },
                    ),
                    ..chain
                },
            )
        },
        Some(local) => {
            let (registration, action) = chain.registration.observed(
                read,
                observed,
                local,
            );
            let chain = ManagedView { registration, ..chain };
            match action {
                Err(_) => {
                    &&& result == Err::<(), _>(
                        DkgError::FinalizedRegistrationConflict { address: read.address },
                    )
                    &&& after == before.read_over().with_chain(chain)
                },
                Ok(action) => {
                    &&& result is Ok
                    &&& manager_performs(
                        before.after_local_read(read),
                        chain,
                        after,
                        action,
                    )
                },
            }
        },
    }
}

/// The events of a batch are noted, and what can be submitted then is attempted.
pub open spec fn notes_batch(before: ManagerView, after: ManagerView, batch: ChainEventBatch) -> bool {
    match before.chain {
        None => after == before,
        Some(chain) => {
            let submitter = noted_batch(chain.submitter, batch);
            exists|keys: Seq<TxKey>| #[trigger]
                block_attempt(chain.submitter, submitter, batch.session.epoch, keys)
                    && after == before.with_chain(
                    ManagedView { submitter, ..chain },
                ).attempting(keys)
        },
    }
}

impl View for DkgManager {
    type V = ManagerView;

    closed spec fn view(&self) -> ManagerView {
        ManagerView {
            self_id: self.self_id,
            chain: match self.chain {
                Some(chain) => Some(chain@),
                None => None,
            },
            sessions: self.sessions@,
            latest_started_epoch: self.latest_started_epoch,
            pending: match self.pending {
                Some(pending) => Some(pending@),
                None => None,
            },
            chain_session: self.chain_session,
            sync_block: self.sync_block,
            latest_finalized: self.latest_finalized,
            schedule: self.schedule@,
            attempts: attempt_views(self.attempts@),
        }
    }
}

impl DkgManager {
    pub closed spec fn submitter_wf(self) -> bool {
        self.chain matches Some(chain) ==> chain.submitter.wf()
    }

    /// Few sessions are live, in ascending order, and none is newer than the
    /// latest that started.
    pub open spec fn wf(self) -> bool {
        &&& self.submitter_wf()
        &&& crate::order::ascending(self@.sessions)
        &&& self@.sessions.len() <= MAX_RETAINED_DKG_SESSIONS
        &&& forall|i: int|
            0 <= i < self@.sessions.len() ==> reached(
                self@.latest_started_epoch,
                #[trigger] self@.sessions[i],
            )
    }

    /// A manager without a chain.
    pub fn new(self_id: NodeId) -> (manager: Self)
        ensures
            manager.wf(),
            manager@ == ManagerView::idle(self_id, None),
    {
        let manager = DkgManager {
            self_id,
            chain: None,
            sessions: Vec::new(),
            latest_started_epoch: None,
            pending: None,
            chain_session: None,
            sync_block: None,
            latest_finalized: None,
            schedule: Vec::new(),
            attempts: Vec::new(),
        };
        assert(manager@.attempts =~= Seq::empty());
        manager
    }

    /// A manager with a chain, whose calls `submitter` sends.
    pub fn new_with_chain(self_id: NodeId, submitter: TxSubmitter) -> (manager: Self)
        requires
            submitter.wf(),
        ensures
            manager.wf(),
            manager@ == ManagerView::idle(
                self_id,
                Some(
                    ManagedView {
                        submitter: submitter@,
                        reader: ChainEventReader { latest: None, scan: None },
                        registration: LocalRegistration {
                            address: submitter@.signer,
                            state: LocalRegistrationState::Idle,
                        },
                    },
                ),
            ),
    {
        let mut manager: DkgManager = DkgManager::new(self_id);
        let registration: LocalRegistration = LocalRegistration::new(submitter.signer_address());
        manager.chain =
        Some(ManagedChain { submitter, reader: ChainEventReader::new(), registration });
        manager
    }

    pub fn sync_block(&self) -> (block: Option<SeqNum>)
        ensures
            block == self@.sync_block,
    {
        self.sync_block
    }

    pub fn latest_started_epoch(&self) -> (epoch: Option<Epoch>)
        ensures
            epoch == self@.latest_started_epoch,
    {
        self.latest_started_epoch
    }

    /// The wanted session, and the block to read its registrations at.
    pub fn pending_session(&self) -> (pending: Option<(Epoch, Option<SeqNum>)>)
        ensures
            pending == (match self@.pending {
                Some(pending) => Some((pending.epoch, pending.registration_block)),
                None => None,
            }),
    {
        match &self.pending {
            Some(pending) => Some((pending.epoch, pending.registration_block)),
            None => None,
        }
    }

    /// Whether the session of an epoch is live.
    pub fn is_live(&self, epoch: Epoch) -> (live: bool)
        ensures
            live == self@.sessions.contains(epoch),
    {
        let mut i: usize = 0;
        while i < self.sessions.len()
            invariant
                i <= self.sessions@.len(),
                forall|j: int| 0 <= j < i ==> self.sessions@[j] != epoch,
            decreases self.sessions@.len() - i,
        {
            if self.sessions[i] == epoch {
                assert(self.sessions@[i as int] == epoch);
                return true;
            }
            i += 1;
        }
        false
    }

    /// Opens local registration for the next validator epoch.
    ///
    /// Calls are monotone and idempotent. Advancing the target abandons any
    /// unfinalized registration transaction for the older epoch.
    pub fn prepare_registration(&mut self, epoch: Epoch)
        requires
            old(self).wf(),
        ensures
            final(self).wf(),
            final(self)@ == old(self)@.with_registration(epoch),
    {
        let mut managed: Option<ManagedChain> = None;
        std::mem::swap(&mut managed, &mut self.chain);
        match managed {
            None => {},
            Some(managed) => {
                let mut managed: ManagedChain = managed;
                match managed.registration.start_epoch(epoch) {
                    RegistrationStart::Ignored => {},
                    RegistrationStart::Started { previous } => {
                        match previous {
                            Some(previous) => {
                                managed.submitter.cancel_registration(previous);
                            },
                            None => {},
                        }
                        self.schedule.push(ScheduledRead::LocalRegistration);
                    },
                }
                self.chain = Some(managed);
            },
        }
    }

    fn record_finalized_head(&mut self, block: SeqNum) -> (recorded: bool)
        requires
            old(self).wf(),
        ensures
            final(self).wf(),
            final(self)@ == old(self)@.with_head(block),
            recorded == old(self)@.is_new_head(block),
    {
        match self.latest_finalized {
            Some(latest) => {
                if block.0 <= latest.0 {
                    return false;
                }
            },
            None => {},
        }
        self.latest_finalized = Some(block);
        let mut pending: Option<PendingRegisteredSession> = None;
        std::mem::swap(&mut pending, &mut self.pending);
        self.pending =
        match pending {
            Some(pending) => {
                let registration_block: Option<SeqNum> = match pending.registration_block {
                    Some(earlier) => Some(earlier),
                    None => Some(block),
                };
                Some(
                    PendingRegisteredSession {
                        epoch: pending.epoch,
                        validators: pending.validators,
                        registration_block,
                    },
                )
            },
            None => None,
        };
        true
    }

    fn advance_cursor(&mut self, block: SeqNum)
        requires
            old(self).wf(),
        ensures
            final(self).wf(),
            final(self)@ == old(self)@.with_cursor(block),
    {
        let mut managed: Option<ManagedChain> = None;
        std::mem::swap(&mut managed, &mut self.chain);
        match managed {
            None => {},
            Some(managed) => {
                let mut managed: ManagedChain = managed;
                managed.reader.notify_finalized(block);
                self.chain = Some(managed);
            },
        }
    }

    fn follow(&mut self, epoch: Epoch, party_count: usize, recovery_block: Option<SeqNum>)
        requires
            old(self).wf(),
        ensures
            final(self).wf(),
            final(self)@ == old(self)@.following(epoch, party_count, recovery_block),
    {
        let mut managed: Option<ManagedChain> = None;
        std::mem::swap(&mut managed, &mut self.chain);
        match managed {
            None => {},
            Some(managed) => {
                let mut managed: ManagedChain = managed;
                managed.submitter.start_session(epoch);
                match recovery_block {
                    Some(recovery_block) => {
                        managed.reader.start_session(
                            ChainEventSession { epoch, party_count, recovery_block },
                        );
                    },
                    None => {},
                }
                self.chain = Some(managed);
            },
        }
    }

    /// Makes one more finalized block available to the active chain cursor. This
    /// never establishes or changes the recovery snapshot boundary.
    pub fn notify_finalized(&mut self, block: SeqNum)
        requires
            old(self).wf(),
        ensures
            final(self).wf(),
            final(self)@ == old(self)@.with_finalized(block),
    {
        if self.record_finalized_head(block) {
            self.schedule.push(ScheduledRead::Registrations);
            self.schedule.push(ScheduledRead::LocalRegistration);
        }
        self.schedule.push(ScheduledRead::Cursor(block));
        self.schedule.push(ScheduledRead::Events);
    }

    /// Establishes the exact chain-state boundary used for recovery.
    ///
    /// Once a session is known, the manager reads a snapshot at `block` and then
    /// scans every subsequently finalized block in order.
    pub fn notify_sync_complete(&mut self, block: SeqNum)
        requires
            old(self).wf(),
        ensures
            final(self).wf(),
            final(self)@ == old(self)@.with_sync(block),
    {
        match self.sync_block {
            Some(current) => {
                if current.0 >= block.0 {
                    return;
                }
            },
            None => {},
        }
        self.sync_block = Some(block);
        let _ = self.record_finalized_head(block);
        self.advance_cursor(block);
        match self.chain_session {
            Some((epoch, party_count)) => {
                self.follow(epoch, party_count, Some(block));
            },
            None => {},
        }
        self.schedule.push(ScheduledRead::Events);
        self.schedule.push(ScheduledRead::Registrations);
        self.schedule.push(ScheduledRead::LocalRegistration);
    }

    fn close_registration_window(&mut self, epoch: Epoch)
        requires
            old(self).wf(),
        ensures
            final(self).wf(),
            final(self)@ == old(self)@.without_window(epoch),
    {
        let mut managed: Option<ManagedChain> = None;
        std::mem::swap(&mut managed, &mut self.chain);
        match managed {
            None => {},
            Some(managed) => {
                let mut managed: ManagedChain = managed;
                if managed.registration.close(epoch) {
                    managed.submitter.cancel_registration(epoch);
                }
                self.chain = Some(managed);
            },
        }
    }

    /// Begins a session whose public key material is loaded from the finalized
    /// registration contract before the engine is constructed. Without a chain
    /// there is nothing to load it from.
    pub fn start_chain_registered_session(&mut self, epoch: Epoch, validators: Vec<DkgValidator>) -> (result:
        Result<(), DkgError>)
        requires
            old(self).wf(),
        ensures
            final(self).wf(),
            final(self)@ == old(self)@.with_wanted(epoch, validators@),
            result == (if old(self)@.chain is None && !old(self)@.overtook(epoch) {
                Err::<(), DkgError>(DkgError::Unsupported("DKG registration reads"))
            } else {
                Ok(())
            }),
    {
        self.close_registration_window(epoch);
        match self.latest_started_epoch {
            Some(started) => {
                if started.0 >= epoch.0 {
                    return Ok(());
                }
            },
            None => {},
        }
        match &self.pending {
            Some(pending) => {
                if pending.epoch.0 >= epoch.0 {
                    return Ok(());
                }
            },
            None => {},
        }
        if self.chain.is_none() {
            return Err(DkgError::Unsupported("DKG registration reads"));
        }
        self.pending =
        Some(
            PendingRegisteredSession {
                epoch,
                validators,
                registration_block: self.latest_finalized,
            },
        );
        self.schedule.push(ScheduledRead::Registrations);
        Ok(())
    }

    /// Reads the events of a session from the next boundary on.
    pub fn start_chain_session(
        &mut self,
        epoch: Epoch,
        party_count: usize,
        recovery_block: Option<SeqNum>,
    )
        requires
            old(self).wf(),
        ensures
            final(self).wf(),
            final(self)@ == old(self)@.with_chain_session(epoch, party_count, recovery_block),
    {
        self.chain_session = Some((epoch, party_count));
        self.follow(epoch, party_count, recovery_block);
        if self.chain.is_some() {
            let ghost earlier = self.schedule@;
            self.schedule.insert(0, ScheduledRead::Events);
            assert(self.schedule@ =~= seq![ScheduledRead::Events] + earlier);
        }
    }

    fn due_task(&self, read: ScheduledRead) -> (task: Option<ManagerTask>)
        ensures
            task is Some <==> self@.is_due(read),
            task matches Some(task) ==> self@.names(task, read),
    {
        let managed: &ManagedChain = match &self.chain {
            Some(managed) => managed,
            None => {
                return None;
            },
        };
        match read {
            ScheduledRead::LocalRegistration => {
                if self.sync_block.is_none() {
                    return None;
                }
                match self.latest_finalized {
                    Some(latest) => match managed.registration.next_read(latest) {
                        Some(read) => Some(ManagerTask::ReadLocalRegistration(read)),
                        None => None,
                    },
                    None => None,
                }
            },
            ScheduledRead::Registrations => {
                if self.sync_block.is_none() {
                    return None;
                }
                match &self.pending {
                    Some(pending) => match pending.registration_block {
                        Some(block) => Some(
                            ManagerTask::ReadRegisteredParties { epoch: pending.epoch, block },
                        ),
                        None => None,
                    },
                    None => None,
                }
            },
            ScheduledRead::Events => match managed.reader.next_read() {
                Some(read) => Some(ManagerTask::ReadEvents(read)),
                None => None,
            },
            ScheduledRead::Cursor(_) => None,
        }
    }

    /// Names the next read of the finalized chain: the first of the list that is
    /// due. It stays on the list until its outcome is handed in.
    pub fn next_task(&mut self) -> (task: ManagerTask)
        requires
            old(self).wf(),
        ensures
            final(self).wf(),
            final(self)@ == old(self)@.settled(),
            if final(self)@.schedule.len() == 0 {
                task is Idle
            } else {
                final(self)@.names(task, final(self)@.schedule[0])
            },
    {
        let ghost before = self@;
        let mut task: Option<ManagerTask> = None;
        while task.is_none() && self.schedule.len() > 0
            invariant
                self.wf(),
                self@.settled() == before.settled(),
                task matches Some(task) ==> self@.schedule.len() > 0 && self@.is_due(
                    self@.schedule[0],
                ) && self@.names(task, self@.schedule[0]),
            decreases
                self@.schedule.len(),
                if task is None {
                    1int
                } else {
                    0int
                },
        {
            let ghost earlier = self@;
            let first: ScheduledRead = self.schedule[0];
            task = self.due_task(first);
            if task.is_none() {
                self.finish_read();
                match first {
                    ScheduledRead::Cursor(block) => {
                        self.advance_cursor(block);
                    },
                    _ => {},
                }
                assert(self@ == earlier.passed_over());
            }
        }
        match task {
            Some(task) => task,
            None => ManagerTask::Idle,
        }
    }

    /// Takes the read that is over from the list.
    fn finish_read(&mut self)
        requires
            old(self).wf(),
            old(self)@.schedule.len() > 0,
        ensures
            final(self).wf(),
            final(self)@ == old(self)@.read_over(),
    {
        let ghost earlier = self@.schedule;
        let _ = self.schedule.remove(0);
        assert(self@.schedule =~= earlier.skip(1));
    }

    fn push_attempt(&mut self, keys: Vec<TxKey>)
        requires
            old(self).wf(),
        ensures
            final(self).wf(),
            final(self)@ == old(self)@.attempting(keys@),
    {
        let ghost before = self.attempts@;
        self.attempts.push(keys);
        assert(attempt_views(self.attempts@) =~= attempt_views(before).push(keys@));
    }

    /// Notes that the local registration could not be read.
    pub fn local_registration_unavailable(&mut self, read: LocalRegistrationRead)
        requires
            old(self).wf(),
            old(self)@.reading(ScheduledRead::LocalRegistration),
            old(self)@.local_read() == Some(read),
        ensures
            final(self).wf(),
            ({
                let chain = old(self)@.chain->Some_0;
                final(self)@ == old(self)@.read_over().with_chain(
                    ManagedView {
                        registration: chain.registration.with_state(
                            chain.registration.state.with_unavailable_block(Some(read.block)),
                        ),
                        ..chain
                    },
                )
            }),
    {
        self.finish_read();
        let mut managed: Option<ManagedChain> = None;
        std::mem::swap(&mut managed, &mut self.chain);
        match managed {
            None => {},
            Some(managed) => {
                let mut managed: ManagedChain = managed;
                managed.registration.read_failed(read);
                self.chain = Some(managed);
            },
        }
    }

    /// Takes a read of the local registration, together with the registration of
    /// this node from the recovery log. A read of a block behind the finalized
    /// head is repeated at the head; before that, the registrations of a wanted
    /// session are read.
    pub fn accept_local_registration(
        &mut self,
        read: LocalRegistrationRead,
        observed: Option<RegistrationCall>,
        local: Option<RegistrationCall>,
    ) -> (result: Result<(), DkgError>)
        requires
            old(self).wf(),
            old(self)@.reading(ScheduledRead::LocalRegistration),
            old(self)@.local_read() == Some(read),
        ensures
            final(self).wf(),
            takes_local_read(old(self)@, final(self)@, read, observed, local, result),
    {
        let ghost before = self@;
        let mut managed: Option<ManagedChain> = None;
        std::mem::swap(&mut managed, &mut self.chain);
        let managed: ManagedChain = match managed {
            Some(managed) => managed,
            None => {
                return Ok(());
            },
        };
        let mut managed: ManagedChain = managed;
        let local: RegistrationCall = match local {
            Some(local) => local,
            None => {
                managed.registration.abandon();
                self.chain = Some(managed);
                self.finish_read();
                return Err(DkgError::operation("load local DKG registration"));
            },
        };
        let action: LocalRegistrationAction = match managed.registration.observe(
            read,
            observed,
            local,
        ) {
            Ok(action) => action,
            Err(_) => {
                self.chain = Some(managed);
                self.finish_read();
                return Err(DkgError::FinalizedRegistrationConflict { address: read.address });
            },
        };
        let ghost chain = managed@;
        let mut keys: Option<Vec<TxKey>> = None;
        match action {
            LocalRegistrationAction::Ignore => {},
            LocalRegistrationAction::Confirm { epoch, registration } => {
                managed.submitter.confirm_registration(epoch, &registration);
            },
            LocalRegistrationAction::Submit { epoch, block, registration } => {
                keys = Some(managed.submitter.submit_registration(epoch, block, registration));
            },
            LocalRegistrationAction::Retry { epoch, block } => {
                keys = Some(managed.submitter.retry_registration(epoch, block));
            },
        }
        self.chain = Some(managed);
        let over: bool = match self.latest_finalized {
            Some(latest) => read.block.0 >= latest.0,
            None => true,
        };
        if over {
            self.finish_read();
        }
        let ghost left = self.schedule@;
        self.schedule.insert(0, ScheduledRead::Registrations);
        assert(self.schedule@ =~= seq![ScheduledRead::Registrations] + left);
        let ghost listed = keys->Some_0@;
        match keys {
            Some(keys) => {
                self.push_attempt(keys);
            },
            None => {},
        }
        proof {
            let ready = before.after_local_read(read);
            assert(self@ =~= ManagerView {
                chain: self@.chain,
                attempts: self@.attempts,
                ..ready
            });
            assert(manager_performs(ready, chain, self@, action));
        }
        Ok(())
    }

    /// Notes that the registrations of a wanted session could not be read.
    pub fn registrations_unavailable(&mut self)
        requires
            old(self).wf(),
            old(self)@.reading(ScheduledRead::Registrations),
        ensures
            final(self).wf(),
            final(self)@ == old(self)@.read_over(),
    {
        self.finish_read();
    }

    /// Takes the registrations of the wanted session. It is wanted no longer; the
    /// session can start, unless that epoch has started, or it cannot.
    pub fn accept_registrations(
        &mut self,
        registrations: &Vec<CheckedRegistration>,
        local: Result<LocalPublicKeys, DkgError>,
    ) -> (result: Result<Option<RegisteredStart>, DkgError>)
        requires
            old(self).wf(),
            old(self)@.reading(ScheduledRead::Registrations),
            old(self)@.session_read() is Some,
        ensures
            final(self).wf(),
            final(self)@ == (ManagerView { pending: None, ..old(self)@.read_over() }),
            ({
                let pending = old(self)@.pending->Some_0;
                let ranked = by_address(pending.validators);
                let refused = Err::<Option<RegisteredStart>, _>(
                    DkgError::Operation { operation: "assemble registered DKG session" },
                );
                if repeated_address(pending.validators) is Some {
                    result == refused
                } else {
                    match assembled(
                        pending.epoch,
                        old(self)@.self_id,
                        ranked,
                        local,
                        registrations_of(ranked, registrations@),
                    ) {
                        Err(_) => result == refused,
                        Ok(parties) => if reached(old(self)@.latest_started_epoch, pending.epoch) {
                            result matches Ok(None)
                        } else {
                            result matches Ok(Some(start)) && start.epoch == pending.epoch
                                && start.recovery_block == pending.registration_block->Some_0
                                && start.parties@ == parties
                        },
                    }
                }
            }),
    {
        self.finish_read();
        let mut pending: Option<PendingRegisteredSession> = None;
        std::mem::swap(&mut pending, &mut self.pending);
        let (epoch, validators, block) = match pending {
            Some(pending) => (pending.epoch, pending.validators, pending.registration_block),
            None => {
                return Ok(None);
            },
        };
        match assemble_registered_session(epoch, &self.self_id, &validators, local, registrations) {
            Err(_) => Err(DkgError::operation("assemble registered DKG session")),
            Ok(parties) => {
                match self.latest_started_epoch {
                    Some(started) => {
                        if started.0 >= epoch.0 {
                            return Ok(None);
                        }
                    },
                    None => {},
                }
                match block {
                    Some(recovery_block) => Ok(
                        Some(RegisteredStart { epoch, recovery_block, parties }),
                    ),
                    None => Ok(None),
                }
            },
        }
    }

    /// Notes that an epoch started in which this node is no party.
    pub fn session_skipped(&mut self, epoch: Epoch)
        requires
            old(self).wf(),
            !reached(old(self)@.latest_started_epoch, epoch),
        ensures
            final(self).wf(),
            final(self)@ == (ManagerView { latest_started_epoch: Some(epoch), ..old(self)@ }),
    {
        self.latest_started_epoch = Some(epoch);
        assert forall|i: int| 0 <= i < self@.sessions.len() implies reached(
            self@.latest_started_epoch,
            #[trigger] self@.sessions[i],
        ) by {
            assert(reached(old(self)@.latest_started_epoch, old(self)@.sessions[i]));
        }
    }

    /// Notes that the session of an epoch runs. Returns the epoch whose session
    /// ends: only so many are retained.
    pub fn session_started(
        &mut self,
        epoch: Epoch,
        party_count: usize,
        recovery_block: Option<SeqNum>,
    ) -> (retired: Option<Epoch>)
        requires
            old(self).wf(),
            !reached(old(self)@.latest_started_epoch, epoch),
        ensures
            final(self).wf(),
            final(self)@ == old(self)@.with_session(epoch, party_count, recovery_block),
            retired == rotated(old(self)@.sessions, epoch).1,
    {
        let ghost before = self@;
        self.latest_started_epoch = Some(epoch);
        self.sessions.push(epoch);
        proof {
            let all = before.sessions.push(epoch);
            assert(self.sessions@ == all);
            assert forall|i: int, j: int| 0 <= i < j < all.len() implies Key::before(
                #[trigger] all[i],
                #[trigger] all[j],
            ) by {
                if j < before.sessions.len() {
                    assert(Key::before(before.sessions[i], before.sessions[j]));
                } else {
                    assert(reached(before.latest_started_epoch, before.sessions[i]));
                }
            }
            assert forall|i: int| 0 <= i < all.len() implies reached(
                Some(epoch),
                #[trigger] all[i],
            ) by {
                if i < before.sessions.len() {
                    assert(reached(before.latest_started_epoch, before.sessions[i]));
                }
            }
        }
        let mut retired: Option<Epoch> = None;
        if self.sessions.len() > MAX_RETAINED_DKG_SESSIONS {
            let ghost all = self.sessions@;
            let oldest: Epoch = self.sessions.remove(0);
            retired = Some(oldest);
            assert(self.sessions@ =~= all.skip(1));
        }
        proof {
            let all = before.sessions.push(epoch);
            assert forall|i: int| 0 <= i < self@.sessions.len() implies reached(
                self@.latest_started_epoch,
                #[trigger] self@.sessions[i],
            ) by {
                if all.len() > MAX_RETAINED_DKG_SESSIONS {
                    assert(reached(Some(epoch), all[i + 1]));
                } else {
                    assert(reached(Some(epoch), all[i]));
                }
            }
        }
        self.start_chain_session(epoch, party_count, recovery_block);
        retired
    }

    /// Notes that the events of a read are not available.
    pub fn events_unavailable(&mut self)
        requires
            old(self).wf(),
            old(self)@.reading(ScheduledRead::Events),
        ensures
            final(self).wf(),
            final(self)@ == old(self)@.read_over(),
    {
        self.finish_read();
    }

    /// Takes the events of a read. They go to the session of their epoch, if it is
    /// live; reading goes on until nothing is due.
    pub fn accept_events(&mut self, read: ChainRead, events: Vec<ChainEvent>) -> (result: Result<
        ChainEventBatch,
        DkgError,
    >)
        requires
            old(self).wf(),
            old(self)@.event_read() == Some(read),
        ensures
            final(self).wf(),
            ({
                let chain = old(self)@.chain->Some_0;
                let (scan, complete) = chain.reader.scan->Some_0.advanced(read);
                let epoch = read.of_session().epoch;
                &&& final(self)@ == old(self)@.with_chain(
                    ManagedView {
                        reader: ChainEventReader { latest: chain.reader.latest, scan: Some(scan) },
                        ..chain
                    },
                )
                &&& if old(self)@.sessions.contains(epoch) {
                    result == Ok::<ChainEventBatch, DkgError>(
                        ChainEventBatch {
                            session: read.of_session(),
                            block: read.at_block(),
                            events,
                            recovery_complete_after: complete,
                        },
                    )
                } else {
                    result == Err::<ChainEventBatch, _>(DkgError::NoActiveSession { epoch: epoch.0 })
                }
            }),
    {
        let mut managed: Option<ManagedChain> = None;
        std::mem::swap(&mut managed, &mut self.chain);
        let managed: ManagedChain = match managed {
            Some(managed) => managed,
            None => {
                return Err(DkgError::NoActiveSession { epoch: read.session().epoch.0 });
            },
        };
        let mut managed: ManagedChain = managed;
        let batch: ChainEventBatch = managed.reader.complete(read, events);
        self.chain = Some(managed);
        let epoch: Epoch = batch.session.epoch;
        if self.is_live(epoch) {
            Ok(batch)
        } else {
            Err(DkgError::NoActiveSession { epoch: epoch.0 })
        }
    }

    /// Notes the events that a session took. Where it failed to take one, the
    /// submitter is not told of any.
    pub fn settle_batch(&mut self, run: &BatchRun) -> (result: Result<(), DkgError>)
        requires
            old(self).wf(),
            run.ended(),
        ensures
            final(self).wf(),
            match run.stage() {
                BatchStage::Failed(error) => {
                    &&& result == Err::<(), _>(error)
                    &&& final(self)@ == old(self)@
                },
                _ => {
                    let batch = run.batch();
                    &&& result is Ok
                    &&& notes_batch(old(self)@, final(self)@, batch)
                },
            },
    {
        let batch: &ChainEventBatch = match run.outcome() {
            Ok(batch) => batch,
            Err(error) => {
                return Err(error);
            },
        };
        let mut managed: Option<ManagedChain> = None;
        std::mem::swap(&mut managed, &mut self.chain);
        match managed {
            None => {},
            Some(managed) => {
                let mut managed: ManagedChain = managed;
                let ghost earlier = managed@.submitter;
                let keys: Vec<TxKey> = managed.submitter.finalized_block(
                    batch.session.epoch,
                    batch.block,
                    &batch.events,
                    batch.recovery_complete_after,
                );
                let ghost listed = keys@;
                self.chain = Some(managed);
                self.push_attempt(keys);
                assert(block_attempt(
                    earlier,
                    noted_batch(earlier, *batch),
                    batch.session.epoch,
                    listed,
                ));
            },
        }
        Ok(())
    }

    /// Hands a call of a session to the submitter, if there is a chain.
    pub fn handle_command(&mut self, epoch: Epoch, call: ChainCall)
        requires
            old(self).wf(),
        ensures
            final(self).wf(),
            final(self)@ == (match old(self)@.chain {
                None => old(self)@,
                Some(chain) => old(self)@.with_chain(
                    ManagedView { submitter: chain.submitter.with_call(epoch, call), ..chain },
                ).attempting(chain.submitter.attempts_call(epoch, call)),
            }),
    {
        let mut managed: Option<ManagedChain> = None;
        std::mem::swap(&mut managed, &mut self.chain);
        match managed {
            None => {},
            Some(managed) => {
                let mut managed: ManagedChain = managed;
                let keys: Vec<TxKey> = managed.submitter.submit(epoch, call);
                self.chain = Some(managed);
                self.push_attempt(keys);
            },
        }
    }

    /// Hands out the submissions to attempt, one list after the other.
    pub fn take_attempts(&mut self) -> (attempts: Vec<Vec<TxKey>>)
        requires
            old(self).wf(),
        ensures
            final(self).wf(),
            attempt_views(attempts@) == old(self)@.attempts,
            final(self)@ == (ManagerView { attempts: Seq::empty(), ..old(self)@ }),
    {
        let mut attempts: Vec<Vec<TxKey>> = Vec::new();
        std::mem::swap(&mut attempts, &mut self.attempts);
        assert(self@.attempts =~= Seq::empty());
        attempts
    }

    pub closed spec fn inner_submitter(self) -> Option<TxSubmitter> {
        match self.chain {
            Some(chain) => Some(chain.submitter),
            None => None,
        }
    }

    /// The submitter, for the attempts, if there is a chain.
    pub fn submitter(&mut self) -> (submitter: Option<&mut TxSubmitter>)
        requires
            old(self).wf(),
        ensures
            match submitter {
                None => old(self)@.chain is None && final(self).wf() && final(self)@ == old(self)@,
                Some(submitter) => {
                    &&& old(self)@.chain is Some
                    &&& Some(*submitter) == old(self).inner_submitter()
                    &&& submitter@ == old(self)@.chain->Some_0.submitter
                    &&& submitter.wf()
                    &&& final(submitter).wf() ==> final(self).wf()
                    &&& final(self)@ == old(self)@.with_chain(
                        ManagedView {
                            submitter: final(submitter)@,
                            ..old(self)@.chain->Some_0
                        },
                    )
                },
            },
    {
        match &mut self.chain {
            Some(managed) => Some(&mut managed.submitter),
            None => None,
        }
    }
}

/// The boundary of the recovery only moves forward, and finalized blocks never
/// move it.
pub proof fn law_manager_boundary_is_monotone(manager: ManagerView, block: SeqNum)
    ensures
        manager.with_finalized(block).sync_block == manager.sync_block,
        manager.with_sync(block).sync_block matches Some(after) && after.0 >= block.0,
        manager.sync_block matches Some(before) ==> manager.with_sync(block).sync_block->Some_0.0
            >= before.0,
{
}

/// Opening the registration makes the larger of the two epochs the one to register
/// for. Opening it for an epoch again changes nothing, and an older epoch never takes
/// the place of a newer one.
pub proof fn law_manager_registration_is_monotone(
    manager: ManagerView,
    epoch: Epoch,
    earlier: Epoch,
)
    requires
        earlier.0 <= epoch.0,
    ensures
        manager.with_registration(epoch).with_registration(earlier) == manager.with_registration(
            epoch,
        ),
        manager.chain matches Some(chain) ==> {
            &&& manager.with_registration(epoch).chain matches Some(after)
            &&& after.registration.state.of_epoch() == (match chain.registration.state.of_epoch() {
                Some(current) if current.0 >= epoch.0 => Some(current),
                _ => Some(epoch),
            })
        },
{
}

/// A newer wanted session takes the place of one whose registrations were not
/// read yet; an older one does not.
pub proof fn law_newest_session_is_wanted(
    manager: ManagerView,
    epoch: Epoch,
    validators: Seq<DkgValidator>,
    other: Epoch,
    others: Seq<DkgValidator>,
)
    requires
        manager.chain is Some,
        !manager.overtook(epoch),
    ensures
        manager.with_wanted(epoch, validators).pending matches Some(pending) && pending.epoch == epoch,
        manager.with_wanted(epoch, validators).with_wanted(other, others).pending matches Some(pending)
            && pending.epoch == (if other.0 > epoch.0 {
            other
        } else {
            epoch
        }),
{
}

/// A manager without a chain reads nothing, whatever is on its list.
pub proof fn law_without_chain_nothing_is_read(manager: ManagerView)
    requires
        manager.chain is None,
    ensures
        manager.settled().schedule.len() == 0,
{
    lemma_nothing_due(manager);
}

proof fn lemma_nothing_due(manager: ManagerView)
    requires
        manager.chain is None,
    ensures
        manager.settled().schedule.len() == 0,
    decreases manager.schedule.len(),
{
    if manager.schedule.len() > 0 {
        lemma_nothing_due(manager.passed_over());
    }
}

/// A new block comes to the cursor after the reads of registrations: until they are
/// over, the events of the block are not read.
pub proof fn law_registrations_come_before_the_cursor(manager: ManagerView, block: SeqNum)
    requires
        manager.is_new_head(block),
    ensures
        manager.with_finalized(block).chain == manager.chain,
        manager.with_finalized(block).event_read() == manager.event_read(),
        manager.with_finalized(block).schedule == manager.schedule + seq![
            ScheduledRead::Registrations,
            ScheduledRead::LocalRegistration,
            ScheduledRead::Cursor(block),
            ScheduledRead::Events,
        ],
{
    assert(manager.with_finalized(block).schedule =~= manager.schedule + seq![
        ScheduledRead::Registrations,
        ScheduledRead::LocalRegistration,
        ScheduledRead::Cursor(block),
        ScheduledRead::Events,
    ]);
}

/// No registration is read before execution is in sync.
pub proof fn law_manager_reads_wait_for_sync(manager: ManagerView)
    requires
        manager.sync_block is None,
    ensures
        !manager.is_due(ScheduledRead::LocalRegistration),
        !manager.is_due(ScheduledRead::Registrations),
{
}

/// Once execution is in sync, everything that can be read is on the list: if
/// nothing is left to read, nothing is due.
pub proof fn law_sync_schedules_every_read(manager: ManagerView, block: SeqNum)
    requires
        manager.with_sync(block) != manager,
        manager.with_sync(block).settled().schedule.len() == 0,
    ensures
        forall|read: ScheduledRead| !#[trigger] manager.with_sync(block).settled().is_due(read),
{
    lemma_every_read_passed_over(manager.with_sync(block));
}

/// Where a list that ends with every read is passed over, nothing is due.
proof fn lemma_every_read_passed_over(manager: ManagerView)
    requires
        manager.settled().schedule.len() == 0,
        manager.schedule.len() >= 3,
        manager.schedule[manager.schedule.len() - 3] == ScheduledRead::Events,
        manager.schedule[manager.schedule.len() - 2] == ScheduledRead::Registrations,
        manager.schedule[manager.schedule.len() - 1] == ScheduledRead::LocalRegistration,
    ensures
        forall|read: ScheduledRead| !#[trigger] manager.settled().is_due(read),
    decreases manager.schedule.len(),
{
    if manager.schedule.len() > 3 {
        lemma_every_read_passed_over(manager.passed_over());
    } else {
        let second = manager.passed_over();
        let third = second.passed_over();
        let last = third.passed_over();
        assert(manager.settled() == second.settled());
        assert(second.settled() == third.settled());
        assert(third.settled() == last.settled());
        assert(last.schedule.len() == 0);
        assert(last.settled() == last);
        assert forall|read: ScheduledRead| !#[trigger] last.is_due(read) by {
            assert(manager.is_due(read) == last.is_due(read));
            assert(second.is_due(read) == last.is_due(read));
            assert(third.is_due(read) == last.is_due(read));
        }
    }
}

/// The newest finalized block never goes back; a session that waits for its first
/// block takes it, and keeps the block that it has.
pub proof fn law_manager_head_never_goes_back(manager: ManagerView, block: SeqNum)
    ensures
        ({
            let after = manager.with_finalized(block);
            let newer = manager.latest_finalized is None || block.0
                > manager.latest_finalized->Some_0.0;
            &&& after.latest_finalized == (if newer {
                Some(block)
            } else {
                manager.latest_finalized
            })
            &&& manager.pending matches Some(pending) ==> (after.pending matches Some(waiting)
                && waiting.epoch == pending.epoch && waiting.validators == pending.validators && (
            pending.registration_block is Some ==> waiting.registration_block
                == pending.registration_block) && (pending.registration_block is None && newer
                ==> waiting.registration_block == Some(block)))
            &&& manager.pending is None ==> after.pending is None
            &&& after.sessions == manager.sessions
            &&& after.attempts == manager.attempts
            &&& !newer ==> after.schedule == manager.schedule + seq![
                ScheduledRead::Cursor(block),
                ScheduledRead::Events,
            ]
        }),
{
    let newer = manager.is_new_head(block);
    if !newer {
        assert(manager.with_finalized(block).schedule =~= manager.schedule + seq![
            ScheduledRead::Cursor(block),
            ScheduledRead::Events,
        ]);
    }
}

/// The registration for a new epoch opens, drops the registrations of the epoch
/// before that still wait, and is read next.
pub proof fn law_manager_opens_a_registration(
    manager: ManagerView,
    chain: ManagedView,
    epoch: Epoch,
    key: TxKey,
)
    requires
        manager.chain == Some(chain),
        chain.registration.state.of_epoch() matches Some(current) ==> current.0 < epoch.0,
    ensures
        ({
            let after = manager.with_registration(epoch);
            let previous = chain.registration.state.of_epoch();
            &&& after.chain is Some
            &&& after.chain->Some_0.registration.state == (LocalRegistrationState::Open {
                epoch,
                unavailable_block: None,
            })
            &&& after.chain->Some_0.registration.address == chain.registration.address
            &&& after.chain->Some_0.submitter.submissions.pending.contains_key(key)
                <==> chain.submitter.submissions.pending.contains_key(key) && !(previous == Some(key.0)
                && key.1 is Registration)
            &&& after.chain->Some_0.reader == chain.reader
            &&& after.schedule == manager.schedule.push(ScheduledRead::LocalRegistration)
        }),
{
}

/// A later boundary of the synced state becomes the boundary, and the newest session
/// is followed again from there.
pub proof fn law_manager_rereads_from_a_new_boundary(
    manager: ManagerView,
    chain: ManagedView,
    block: SeqNum,
)
    requires
        manager.chain == Some(chain),
        manager.sync_block matches Some(current) ==> current.0 < block.0,
    ensures
        ({
            let after = manager.with_sync(block);
            &&& after.sync_block == Some(block)
            &&& after.latest_finalized matches Some(latest) && latest.0 >= block.0
            &&& after.chain is Some
            &&& after.chain->Some_0.reader.latest matches Some(known) && known.0 >= block.0
            &&& manager.chain_session matches Some((epoch, party_count)) ==> after.event_read() == Some(
                ChainRead::Snapshot(ChainEventSession { epoch, party_count, recovery_block: block }),
            ) && after.chain->Some_0.submitter == chain.submitter.with_session(epoch)
            &&& manager.chain_session is None ==> after.chain->Some_0.reader.scan == chain.reader.scan
                && after.chain->Some_0.submitter == chain.submitter
        }),
{
}

/// A session that is wanted waits with its validators for the newest finalized
/// block, and the window for registering in its epoch closes.
pub proof fn law_manager_waits_for_a_wanted_session(
    manager: ManagerView,
    chain: ManagedView,
    epoch: Epoch,
    validators: Seq<DkgValidator>,
    key: TxKey,
)
    requires
        manager.chain == Some(chain),
        manager.latest_started_epoch matches Some(started) ==> started.0 < epoch.0,
        manager.pending matches Some(pending) ==> pending.epoch.0 < epoch.0,
    ensures
        ({
            let after = manager.with_wanted(epoch, validators);
            let own = chain.registration.state.of_epoch() == Some(epoch);
            &&& after.pending == Some(
                PendingSessionView {
                    epoch,
                    validators,
                    registration_block: manager.latest_finalized,
                },
            )
            &&& after.chain is Some
            &&& own ==> after.chain->Some_0.registration.state == (LocalRegistrationState::Done { epoch })
            &&& !own ==> after.chain->Some_0.registration == chain.registration
            &&& after.chain->Some_0.submitter.submissions.pending.contains_key(key)
                <==> chain.submitter.submissions.pending.contains_key(key) && !(own && key.0 == epoch
                && key.1 is Registration)
            &&& after.schedule == manager.schedule.push(ScheduledRead::Registrations)
        }),
{
}

/// A scheduled read is due where there is something to read, and the task that is
/// named reads exactly that.
pub proof fn law_task_reads_what_is_due(manager: ManagerView, task: ManagerTask, read: ScheduledRead)
    requires
        manager.names(task, read),
    ensures
        manager.is_due(read),
        task matches ManagerTask::ReadRegisteredParties { epoch, block } ==> {
            &&& read == ScheduledRead::Registrations
            &&& manager.sync_block is Some
            &&& manager.pending matches Some(pending) && pending.epoch == epoch
                && pending.registration_block == Some(block)
        },
        task matches ManagerTask::ReadLocalRegistration(named) ==> {
            &&& read == ScheduledRead::LocalRegistration
            &&& manager.sync_block is Some
            &&& manager.chain matches Some(chain) && chain.registration.wanted_read(
                manager.latest_finalized->Some_0,
            ) == Some(named)
        },
        task matches ManagerTask::ReadEvents(named) ==> {
            &&& read == ScheduledRead::Events
            &&& manager.chain matches Some(chain) && chain.reader.wanted_read() == Some(named)
        },
        !(task is Idle),
{
}

/// The schedule is worked off from its front: what is passed over was not due, and
/// what is left starts with a read that is due.
pub proof fn law_schedule_is_worked_off_in_order(manager: ManagerView)
    ensures
        manager.settled().schedule.len() <= manager.schedule.len(),
        manager.settled().schedule.len() > 0 ==> manager.settled().is_due(manager.settled().schedule[0]),
        manager.settled().schedule == manager.schedule.skip(
            manager.schedule.len() - manager.settled().schedule.len(),
        ),
        manager.settled().pending == manager.pending,
        manager.settled().sessions == manager.sessions,
        manager.schedule.len() > 0 && manager.is_due(manager.schedule[0]) ==> manager.settled() == manager,
    decreases manager.schedule.len(),
{
    if manager.schedule.len() == 0 || manager.is_due(manager.schedule[0]) {
        assert(manager.schedule.skip(0) =~= manager.schedule);
    } else {
        let next = manager.passed_over();
        law_schedule_is_worked_off_in_order(next);
        assert(next.schedule =~= manager.schedule.skip(1));
        let left = manager.settled().schedule;
        assert(next.schedule.skip(next.schedule.len() - left.len()) =~= manager.schedule.skip(
            manager.schedule.len() - left.len(),
        ));
    }
}

/// A block that a scheduled cursor names is known to the reader once the schedule
/// has passed it.
pub proof fn law_passed_cursor_is_known(manager: ManagerView, chain: ManagedView, block: SeqNum)
    requires
        manager.chain == Some(chain),
        manager.schedule.len() > 0,
        manager.schedule[0] == ScheduledRead::Cursor(block),
    ensures
        manager.passed_over().chain matches Some(after) && after.reader
            == chain.reader.with_finalized(block) && after.submitter == chain.submitter
            && after.registration == chain.registration,
        manager.passed_over().schedule == manager.schedule.skip(1),
{
}

/// After the own registration is read the registrations of the waiting session are
/// read next; the own one is read again only where the read was behind the head.
pub proof fn law_registrations_follow_the_local_read(manager: ManagerView, read: LocalRegistrationRead)
    requires
        manager.schedule.len() > 0,
        manager.schedule[0] == ScheduledRead::LocalRegistration,
    ensures
        ({
            let after = manager.after_local_read(read);
            let behind = manager.latest_finalized is Some && read.block.0
                < manager.latest_finalized->Some_0.0;
            &&& after.schedule[0] == ScheduledRead::Registrations
            &&& behind ==> after.schedule.skip(1) == manager.schedule
            &&& !behind ==> after.schedule.skip(1) == manager.schedule.skip(1)
        }),
{
    let after = manager.after_local_read(read);
    let behind = manager.latest_finalized is Some && read.block.0 < manager.latest_finalized->Some_0.0;
    if behind {
        assert(after.schedule.skip(1) =~= manager.schedule);
    } else {
        assert(after.schedule.skip(1) =~= manager.schedule.skip(1));
    }
}

/// A started session is live and the newest one, retires the oldest one where there
/// are more than may be kept, and is followed from its boundary before anything
/// else is read.
pub proof fn law_manager_follows_a_started_session(
    manager: ManagerView,
    chain: ManagedView,
    epoch: Epoch,
    party_count: usize,
    recovery_block: SeqNum,
)
    requires
        manager.chain == Some(chain),
        manager.sessions.len() <= MAX_RETAINED_DKG_SESSIONS,
    ensures
        ({
            let after = manager.with_session(epoch, party_count, Some(recovery_block));
            &&& after.latest_started_epoch == Some(epoch)
            &&& after.sessions.last() == epoch
            &&& manager.sessions.len() < MAX_RETAINED_DKG_SESSIONS ==> after.sessions
                == manager.sessions.push(epoch)
            &&& manager.sessions.len() == MAX_RETAINED_DKG_SESSIONS ==> seq![manager.sessions[0]]
                + after.sessions == manager.sessions.push(epoch)
            &&& after.chain_session == Some((epoch, party_count))
            &&& after.event_read() == Some(
                ChainRead::Snapshot(ChainEventSession { epoch, party_count, recovery_block }),
            )
            &&& after.chain->Some_0.submitter == chain.submitter.with_session(epoch)
            &&& after.schedule == seq![ScheduledRead::Events] + manager.schedule
        }),
{
    let after = manager.with_session(epoch, party_count, Some(recovery_block));
    if manager.sessions.len() == MAX_RETAINED_DKG_SESSIONS {
        assert(seq![manager.sessions[0]] + after.sessions =~= manager.sessions.push(epoch));
    }
}

/// What the finalized state says of the own registration is done: a confirmed one is
/// settled, a missing one is submitted at the configured contract and attempted, and
/// one that waits is attempted again.
pub proof fn law_manager_does_the_registration_action(
    ready: ManagerView,
    chain: ManagedView,
    after: ManagerView,
    action: LocalRegistrationAction,
    key: TxKey,
)
    requires
        manager_performs(ready, chain, after, action),
    ensures
        after.chain is Some,
        after.chain->Some_0.registration == chain.registration,
        after.chain->Some_0.reader == chain.reader,
        after.schedule == ready.schedule,
        action is Ignore ==> after.chain == Some(chain) && after.attempts == ready.attempts,
        action matches LocalRegistrationAction::Confirm { epoch, registration } ==> {
            let settled = (epoch, crate::chain::submitter::registration_tx_id(registration));
            &&& !after.chain->Some_0.submitter.submissions.pending.contains_key(settled)
            &&& after.chain->Some_0.submitter.submissions.finalized.contains(settled)
            &&& after.attempts == ready.attempts
        },
        action matches LocalRegistrationAction::Submit { epoch, block, registration } ==> {
            let call = ChainCall::PostRegistration {
                registration,
                dkg: chain.submitter.config.contract,
            };
            let own = (epoch, crate::chain::submitter::call_tx_id(call));
            &&& after.chain->Some_0.submitter.contexts[epoch] == block
            &&& !chain.submitter.submissions.finalized.contains(own)
                && !chain.submitter.submissions.pending.contains_key(own) ==> {
                &&& after.chain->Some_0.submitter.submissions.pending.contains_key(own)
                &&& after.chain->Some_0.submitter.submissions.pending[own] == call
                &&& after.attempts == ready.attempts.push(seq![own])
            }
        },
        action matches LocalRegistrationAction::Retry { epoch, block } ==> {
            &&& after.chain->Some_0.submitter.contexts[epoch] == block
            &&& after.chain->Some_0.submitter.submissions == chain.submitter.submissions
            &&& after.attempts.len() == ready.attempts.len() + 1
            &&& after.attempts.last().contains(key) <==> chain.submitter.submissions.pending.contains_key(
                key,
            ) && key.0 == epoch && key.1 is Registration
        },
{
}

/// Where the local registration cannot be loaded, or the chain holds another one, the
/// registration is given up; otherwise nothing fails.
pub proof fn law_manager_gives_up_on_conflict(
    before: ManagerView,
    after: ManagerView,
    read: LocalRegistrationRead,
    observed: Option<RegistrationCall>,
    local: Option<RegistrationCall>,
    result: Result<(), DkgError>,
)
    requires
        before.chain is Some,
        before.schedule.len() > 0,
        takes_local_read(before, after, read, observed, local, result),
        before.chain->Some_0.registration.state.of_epoch() == Some(read.epoch),
    ensures
        result is Err <==> local is None || (observed is Some && observed != local),
        result is Err ==> after.chain is Some && after.chain->Some_0.registration.state == (
        LocalRegistrationState::Done { epoch: read.epoch }) && after.chain->Some_0.submitter
            == before.chain->Some_0.submitter && after.attempts == before.attempts && after.schedule
            == before.schedule.skip(1),
{
}

/// A batch of chain events is noted with the submitter, and once its epoch is
/// recovered every pending submission of that epoch is attempted.
pub proof fn law_manager_notes_a_batch(
    before: ManagerView,
    after: ManagerView,
    chain: ManagedView,
    batch: ChainEventBatch,
    key: TxKey,
)
    requires
        before.chain == Some(chain),
        notes_batch(before, after, batch),
    ensures
        after.chain is Some,
        after.chain->Some_0.submitter == noted_batch(chain.submitter, batch),
        after.chain->Some_0.reader == chain.reader,
        after.chain->Some_0.registration == chain.registration,
        after.attempts.len() == before.attempts.len() + 1,
        ({
            let epoch = batch.session.epoch;
            let submitter = after.chain->Some_0.submitter;
            if chain.submitter.active.contains(epoch) && submitter.recovered.contains(epoch) {
                after.attempts.last().contains(key) <==> submitter.submissions.pending.contains_key(key)
                    && key.0 == epoch
            } else {
                after.attempts.last().len() == 0
            }
        }),
{
}

/// A new manager has started no session, reads nothing, and attempts nothing.
pub proof fn law_new_manager_is_idle(self_id: NodeId, chain: Option<ManagedView>)
    ensures
        ({
            let manager = ManagerView::idle(self_id, chain);
            &&& manager.self_id == self_id
            &&& manager.chain == chain
            &&& manager.sessions.len() == 0
            &&& manager.latest_started_epoch is None
            &&& manager.pending is None
            &&& manager.chain_session is None
            &&& manager.sync_block is None
            &&& manager.latest_finalized is None
            &&& manager.schedule.len() == 0
            &&& manager.attempts.len() == 0
        }),
{
}

/// Reads are made in the order of their list: a manager makes the first of it.
pub proof fn law_manager_makes_its_first_read(manager: ManagerView, read: ScheduledRead)
    requires
        manager.reading(read),
    ensures
        manager.schedule.len() > 0,
        manager.schedule.first() == read,
{
}

/// Where the recovery log holds no registration of this node, a read of it is an error,
/// the registration is left alone for the epoch, and the other reads follow.
pub proof fn law_missing_local_registration_is_an_error(
    before: ManagerView,
    after: ManagerView,
    read: LocalRegistrationRead,
    observed: Option<RegistrationCall>,
    result: Result<(), DkgError>,
)
    requires
        before.chain is Some,
        takes_local_read(before, after, read, observed, None, result),
    ensures
        result == Err::<(), _>(DkgError::Operation { operation: "load local DKG registration" }),
        after.schedule == before.schedule.skip(1),
        after.chain is Some,
        after.chain->Some_0.registration.state == (LocalRegistrationState::Done { epoch: read.epoch }),
        after.chain->Some_0.submitter == before.chain->Some_0.submitter,
        after.sessions == before.sessions,
        after.pending == before.pending,
{
}

/// A registration on the chain that contradicts the one of this node is an error, and
/// the reads that follow go on without a submission.
pub proof fn law_contradicted_registration_is_an_error(
    before: ManagerView,
    after: ManagerView,
    read: LocalRegistrationRead,
    observed: Option<RegistrationCall>,
    local: RegistrationCall,
    result: Result<(), DkgError>,
)
    requires
        before.chain is Some,
        before.chain->Some_0.registration.observed(read, observed, local).1 is Err,
        takes_local_read(before, after, read, observed, Some(local), result),
    ensures
        result == Err::<(), _>(DkgError::FinalizedRegistrationConflict { address: read.address }),
        after.schedule == before.schedule.skip(1),
        after.attempts == before.attempts,
        after.sessions == before.sessions,
        after.pending == before.pending,
        after.chain is Some,
        after.chain->Some_0.submitter == before.chain->Some_0.submitter,
{
}

} // verus!
