//! Recovery policy layered on the append-only log.

use crate::dkg::ids::{DkgMessageId, Epoch, PartyId};
use crate::dkg::record::EngineSeed;
use crate::octets::{copy_bytes, same_bytes};
use crate::order::{Key, Rank};
use crate::ordered_map::{sort_set, sorted_set, OrderedMap};
use crate::reliable::message::{
    copy_keys, same_key, IncomingRecord, IncomingView, OutgoingRecord, OutgoingView,
};
use vstd::prelude::*;

verus! {

pub const DEFAULT_MAX_EPOCHS: usize = 2;

/// The largest record payload: 64 MiB and a kind byte.
pub const MAX_RECOVERY_RECORD_BYTES: u32 = 67108865;

pub const WAL_PREALLOCATE_ALIGNMENT: u64 = 4096;

/// The space for one record of the largest size and its frame header, in whole
/// alignment units.
pub const DEFAULT_RECOVERY_WAL_PREALLOCATE_BYTES: u64 = (67108865u64 + 24u64 + 4095u64) / 4096u64 * 4096u64;

/// How a recovery log is opened.
#[derive(Clone, Copy, Debug, PartialEq, Eq, Structural)]
pub struct RecoveryWalConfig {
    pub preallocate_bytes: u64,
    pub max_epochs: usize,
}

impl Default for RecoveryWalConfig {
    fn default() -> (config: Self)
        ensures
            config == (RecoveryWalConfig {
                preallocate_bytes: DEFAULT_RECOVERY_WAL_PREALLOCATE_BYTES,
                max_epochs: DEFAULT_MAX_EPOCHS,
            }),
    {
        RecoveryWalConfig::with_override(None)
    }
}

impl RecoveryWalConfig {
    /// The default configuration, with the preallocation size overridden where
    /// the environment states one.
    pub fn with_override(preallocate_bytes: Option<u64>) -> (config: Self)
        ensures
            config.max_epochs == DEFAULT_MAX_EPOCHS,
            config.preallocate_bytes == (match preallocate_bytes {
                Some(bytes) => bytes,
                None => DEFAULT_RECOVERY_WAL_PREALLOCATE_BYTES,
            }),
    {
        RecoveryWalConfig {
            preallocate_bytes: match preallocate_bytes {
                Some(bytes) => bytes,
                None => DEFAULT_RECOVERY_WAL_PREALLOCATE_BYTES,
            },
            max_epochs: DEFAULT_MAX_EPOCHS,
        }
    }
}

/// The default preallocation holds one record of the largest size, is aligned,
/// and wastes less than one alignment unit.
pub proof fn law_default_preallocation_covers_one_record()
    ensures
        DEFAULT_RECOVERY_WAL_PREALLOCATE_BYTES >= MAX_RECOVERY_RECORD_BYTES
            + crate::wal::FRAME_HEADER_LEN,
        DEFAULT_RECOVERY_WAL_PREALLOCATE_BYTES % WAL_PREALLOCATE_ALIGNMENT == 0,
        DEFAULT_RECOVERY_WAL_PREALLOCATE_BYTES < MAX_RECOVERY_RECORD_BYTES
            + crate::wal::FRAME_HEADER_LEN + WAL_PREALLOCATE_ALIGNMENT,
{
}

/// Why recovered records are refused.
#[derive(Debug)]
pub enum RecoveryWalError {
    Random,
    MissingSeed,
    ConflictingSeed,
    ConflictingRegistration,
    EmptyRegistration,
    ConflictingOutbox(DkgMessageId),
}

/// A recovered record with the identity of its message.
pub enum RecoveredRecord {
    Seed(EngineSeed),
    Registration(Vec<u8>),
    Outgoing(OutgoingRecord<PartyId, DkgMessageId>),
    Incoming(IncomingRecord<PartyId, DkgMessageId>),
    Completion { message_id: DkgMessageId, target: PartyId },
}

#[verifier::ext_equal]
pub enum RecoveredView {
    Seed([u8; 32]),
    Registration(Seq<u8>),
    Outgoing(OutgoingView<PartyId, DkgMessageId>),
    Incoming(IncomingView<PartyId, DkgMessageId>),
    Completion { message_id: DkgMessageId, target: PartyId },
}

impl View for RecoveredRecord {
    type V = RecoveredView;

    open spec fn view(&self) -> RecoveredView {
        match self {
            RecoveredRecord::Seed(seed) => RecoveredView::Seed(seed.spec_bytes()),
            RecoveredRecord::Registration(bytes) => RecoveredView::Registration(bytes@),
            RecoveredRecord::Outgoing(record) => RecoveredView::Outgoing(record@),
            RecoveredRecord::Incoming(record) => RecoveredView::Incoming(record@),
            RecoveredRecord::Completion { message_id, target } => RecoveredView::Completion {
                message_id: *message_id,
                target: *target,
            },
        }
    }
}

/// What a recovery log says: one seed, one registration, the messages to send
/// again, the messages that were accepted, and the deliveries that were completed.
pub struct RecoveryState {
    engine_seed: Option<EngineSeed>,
    registration: Option<Vec<u8>>,
    outbox: OrderedMap<DkgMessageId, OutgoingRecord<PartyId, DkgMessageId>>,
    incoming: Vec<IncomingRecord<PartyId, DkgMessageId>>,
    completions: OrderedMap<(DkgMessageId, PartyId), ()>,
}

#[verifier::ext_equal]
pub struct RecoveryView {
    pub engine_seed: Option<[u8; 32]>,
    pub registration: Option<Seq<u8>>,
    pub outbox: Map<DkgMessageId, OutgoingView<PartyId, DkgMessageId>>,
    pub incoming: Seq<IncomingView<PartyId, DkgMessageId>>,
    pub completions: Set<(DkgMessageId, PartyId)>,
}

impl RecoveryView {
    pub open spec fn empty() -> Self {
        RecoveryView {
            engine_seed: None,
            registration: None,
            outbox: Map::empty(),
            incoming: Seq::empty(),
            completions: Set::empty(),
        }
    }

    /// Whether the log holds anything that only an engine with a seed produces.
    pub open spec fn has_protocol_records(self) -> bool {
        self.outbox.dom() != Set::<DkgMessageId>::empty() || self.incoming.len() > 0 || self.completions
            != Set::<(DkgMessageId, PartyId)>::empty()
    }

    /// The state after one more record.
    pub open spec fn with_record(self, record: RecoveredView) -> Result<Self, RecoveryWalError> {
        match record {
            RecoveredView::Seed(seed) => match self.engine_seed {
                Some(existing) => if existing != seed {
                    Err(RecoveryWalError::ConflictingSeed)
                } else {
                    Ok(self)
                },
                None => Ok(RecoveryView { engine_seed: Some(seed), ..self }),
            },
            RecoveredView::Registration(bytes) => match self.registration {
                Some(existing) => if existing != bytes {
                    Err(RecoveryWalError::ConflictingRegistration)
                } else {
                    Ok(self)
                },
                None => if bytes.len() == 0 {
                    Err(RecoveryWalError::EmptyRegistration)
                } else {
                    Ok(RecoveryView { registration: Some(bytes), ..self })
                },
            },
            RecoveredView::Outgoing(record) => {
                let id = record.message_id;
                if !self.outbox.contains_key(id) {
                    Ok(
                        RecoveryView {
                            outbox: self.outbox.insert(
                                id,
                                OutgoingView { recipients: sorted_set(record.recipients), ..record },
                            ),
                            ..self
                        },
                    )
                } else if self.outbox[id].payload != record.payload {
                    Err(RecoveryWalError::ConflictingOutbox(id))
                } else {
                    Ok(
                        RecoveryView {
                            outbox: self.outbox.insert(
                                id,
                                OutgoingView {
                                    recipients: sorted_set(self.outbox[id].recipients + record.recipients),
                                    ..record
                                },
                            ),
                            ..self
                        },
                    )
                }
            },
            RecoveredView::Incoming(record) => if self.incoming.contains(record) {
                Ok(self)
            } else {
                Ok(RecoveryView { incoming: self.incoming.push(record), ..self })
            },
            RecoveredView::Completion { message_id, target } => Ok(
                RecoveryView { completions: self.completions.insert((message_id, target)), ..self },
            ),
        }
    }

    /// The state after `records`, or the first refusal.
    pub open spec fn with_records(self, records: Seq<RecoveredView>) -> Result<Self, RecoveryWalError>
        decreases records.len(),
    {
        if records.len() == 0 {
            Ok(self)
        } else {
            match self.with_records(records.drop_last()) {
                Err(error) => Err(error),
                Ok(state) => state.with_record(records.last()),
            }
        }
    }
}

/// How the engine seed is obtained.
pub enum SeedPlan {
    /// The log holds the seed.
    Reuse(EngineSeed),
    /// A new seed, to be appended to the log before it is used.
    Append(EngineSeed),
}

/// How the local registration is obtained.
pub enum RegistrationPlan {
    /// The log holds the registration.
    Reuse(Vec<u8>),
    /// A new registration, to be appended to the log before it is used.
    Append(Vec<u8>),
}

/// Calls `getrandom::getrandom` for a seed. Nothing is claimed of the bytes, nor
/// that the operating system has any.
#[verifier::external_body]
fn draw_seed() -> (seed: Option<[u8; 32]>) {
    let mut seed = [0u8; 32];
    match getrandom::getrandom(&mut seed) {
        Ok(()) => Some(seed),
        Err(_) => None,
    }
}

/// Whether two incoming records are the same.
fn same_incoming(
    left: &IncomingRecord<PartyId, DkgMessageId>,
    right: &IncomingRecord<PartyId, DkgMessageId>,
) -> (same: bool)
    ensures
        same == (left@ == right@),
{
    left.source == right.source && same_key(&left.message_id, &right.message_id) && same_bytes(
        &left.payload,
        &right.payload,
    )
}

impl View for RecoveryState {
    type V = RecoveryView;

    closed spec fn view(&self) -> RecoveryView {
        RecoveryView {
            engine_seed: match self.engine_seed {
                Some(seed) => Some(seed.spec_bytes()),
                None => None,
            },
            registration: match self.registration {
                Some(bytes) => Some(bytes@),
                None => None,
            },
            outbox: self.outbox@.map_values(
                |record: OutgoingRecord<PartyId, DkgMessageId>| record@,
            ),
            incoming: self.incoming@.map_values(
                |record: IncomingRecord<PartyId, DkgMessageId>| record@,
            ),
            completions: self.completions@.dom(),
        }
    }
}

impl RecoveryState {
    pub closed spec fn wf(self) -> bool {
        &&& self.outbox.wf()
        &&& self.completions.wf()
    }

    /// The state of an empty log.
    pub fn new() -> (state: Self)
        ensures
            state.wf(),
            state@ == RecoveryView::empty(),
    {
        let state = RecoveryState {
            engine_seed: None,
            registration: None,
            outbox: OrderedMap::new(),
            incoming: Vec::new(),
            completions: OrderedMap::new(),
        };
        proof {
            assert(state@.outbox =~= Map::<DkgMessageId, OutgoingView<PartyId, DkgMessageId>>::empty());
            assert(state@.incoming =~= Seq::<IncomingView<PartyId, DkgMessageId>>::empty());
            assert(state@.completions =~= Set::<(DkgMessageId, PartyId)>::empty());
        }
        state
    }

    /// Folds the records of a log, in the order they were appended.
    pub fn from_records(records: Vec<RecoveredRecord>) -> (result: Result<Self, RecoveryWalError>)
        ensures
            match RecoveryView::empty().with_records(crate::wal::models(records@)) {
                Ok(view) => result is Ok && result->Ok_0.wf() && result->Ok_0@ == view,
                Err(error) => result == Err::<RecoveryState, _>(error),
            },
    {
        let ghost all = crate::wal::models(records@);
        let mut state = RecoveryState::new();
        let mut remaining = records;
        let ghost mut done: int = 0;
        let ghost whole = remaining@;
        // Records are taken from the back of the reversed list, that is, in order.
        let mut reversed: Vec<RecoveredRecord> = Vec::new();
        while remaining.len() > 0
            invariant
                remaining@ == whole.take(remaining@.len() as int),
                remaining@.len() <= whole.len(),
                reversed@ == whole.skip(remaining@.len() as int).reverse(),
            decreases remaining@.len(),
        {
            let ghost before = remaining@;
            match remaining.pop() {
                Some(record) => {
                    let ghost earlier = reversed@;
                    reversed.push(record);
                    proof {
                        let n = remaining@.len() as int;
                        assert(whole.skip(n) =~= seq![whole[n]] + whole.skip(n + 1));
                        assert(whole.skip(n).reverse() =~= whole.skip(n + 1).reverse().push(whole[n]));
                        assert(remaining@ =~= whole.take(n));
                    }
                },
                None => {},
            }
        }
        proof {
            assert(whole.skip(0) =~= whole);
            assert(all.take(0) =~= Seq::<RecoveredView>::empty());
        }
        while reversed.len() > 0
            invariant
                state.wf(),
                0 <= done,
                done + reversed@.len() == whole.len(),
                whole == records@,
                all == crate::wal::models(whole),
                reversed@ == whole.skip(done).reverse(),
                RecoveryView::empty().with_records(all.take(done)) == Ok::<
                    RecoveryView,
                    RecoveryWalError,
                >(state@),
            decreases reversed@.len(),
        {
            match reversed.pop() {
                Some(record) => {
                    proof {
                        let rest = whole.skip(done);
                        assert(rest.reverse()[rest.len() - 1] == rest[0]);
                        assert(record == whole[done]);
                        assert(reversed@ =~= whole.skip(done + 1).reverse());
                        assert(all.take(done + 1).drop_last() =~= all.take(done));
                        assert(all.take(done + 1).last() == record@);
                        if state@.with_record(record@) is Err {
                            lemma_first_refusal(all, (done + 1) as nat);
                        }
                    }
                    match state.apply(record) {
                        Ok(()) => {},
                        Err(error) => return Err(error),
                    }
                    proof {
                        done = done + 1;
                    }
                },
                None => {},
            }
        }
        assert(all.take(done) =~= all);
        Ok(state)
    }

    /// Applies one record.
    pub fn apply(&mut self, record: RecoveredRecord) -> (result: Result<(), RecoveryWalError>)
        requires
            old(self).wf(),
        ensures
            final(self).wf(),
            match old(self)@.with_record(record@) {
                Ok(view) => result is Ok && final(self)@ == view,
                Err(error) => result == Err::<(), _>(error) && final(self)@ == old(self)@,
            },
    {
        match record {
            RecoveredRecord::Seed(seed) => self.insert_engine_seed(seed),
            RecoveredRecord::Registration(bytes) => self.insert_registration(bytes),
            RecoveredRecord::Outgoing(record) => self.insert_outbox(record),
            RecoveredRecord::Incoming(record) => {
                self.insert_incoming(record);
                Ok(())
            },
            RecoveredRecord::Completion { message_id, target } => {
                let ghost before = *self;
                let ghost delivery = (message_id, target);
                self.completions.insert((message_id, target), ());
                assert(self@.completions =~= before@.completions.insert(delivery));
                Ok(())
            },
        }
    }

    fn insert_engine_seed(&mut self, seed: EngineSeed) -> (result: Result<(), RecoveryWalError>)
        requires
            old(self).wf(),
        ensures
            final(self).wf(),
            match old(self)@.with_record(RecoveredView::Seed(seed.spec_bytes())) {
                Ok(view) => result is Ok && final(self)@ == view,
                Err(error) => result == Err::<(), _>(error) && final(self)@ == old(self)@,
            },
    {
        match &self.engine_seed {
            Some(existing) => {
                if same_key(&existing.to_bytes(), &seed.to_bytes()) {
                    Ok(())
                } else {
                    Err(RecoveryWalError::ConflictingSeed)
                }
            },
            None => {
                self.engine_seed = Some(seed);
                Ok(())
            },
        }
    }

    fn insert_registration(&mut self, registration: Vec<u8>) -> (result: Result<(), RecoveryWalError>)
        requires
            old(self).wf(),
        ensures
            final(self).wf(),
            match old(self)@.with_record(RecoveredView::Registration(registration@)) {
                Ok(view) => result is Ok && final(self)@ == view,
                Err(error) => result == Err::<(), _>(error) && final(self)@ == old(self)@,
            },
    {
        match &self.registration {
            Some(existing) => {
                return if same_bytes(existing, &registration) {
                    Ok(())
                } else {
                    Err(RecoveryWalError::ConflictingRegistration)
                };
            },
            None => {},
        }
        if registration.len() == 0 {
            return Err(RecoveryWalError::EmptyRegistration);
        }
        self.registration = Some(registration);
        Ok(())
    }

    fn insert_outbox(&mut self, record: OutgoingRecord<PartyId, DkgMessageId>) -> (result: Result<
        (),
        RecoveryWalError,
    >)
        requires
            old(self).wf(),
        ensures
            final(self).wf(),
            match old(self)@.with_record(RecoveredView::Outgoing(record@)) {
                Ok(view) => result is Ok && final(self)@ == view,
                Err(error) => result == Err::<(), _>(error) && final(self)@ == old(self)@,
            },
    {
        let ghost before = self@;
        let mut recipients: Vec<PartyId> = Vec::new();
        match self.outbox.get(&record.message_id) {
            None => {},
            Some(existing) => {
                if !same_bytes(&existing.payload, &record.payload) {
                    return Err(RecoveryWalError::ConflictingOutbox(record.message_id));
                }
                recipients = copy_keys(&existing.recipients);
            },
        }
        let mut added: Vec<PartyId> = copy_keys(&record.recipients);
        recipients.append(&mut added);
        proof {
            if !before.outbox.contains_key(record.message_id) {
                assert(recipients@ =~= record.recipients@);
            } else {
                assert(recipients@ =~= before.outbox[record.message_id].recipients + record.recipients@);
            }
        }
        let merged = OutgoingRecord {
            message_id: record.message_id.duplicate(),
            recipients: sort_set(&recipients),
            payload: record.payload,
        };
        let ghost view = merged@;
        self.outbox.insert(record.message_id, merged);
        proof {
            assert(self@.outbox =~= before.outbox.insert(record.message_id, view));
        }
        Ok(())
    }

    fn insert_incoming(&mut self, record: IncomingRecord<PartyId, DkgMessageId>)
        requires
            old(self).wf(),
        ensures
            final(self).wf(),
            old(self)@.with_record(RecoveredView::Incoming(record@)) == Ok::<
                RecoveryView,
                RecoveryWalError,
            >(final(self)@),
    {
        let ghost before = self@;
        let mut i: usize = 0;
        while i < self.incoming.len()
            invariant
                self@ == before,
                self.wf(),
                i <= self.incoming@.len(),
                forall|j: int| 0 <= j < i ==> (#[trigger] before.incoming[j]) != record@,
            decreases self.incoming@.len() - i,
        {
            assert(before.incoming[i as int] == self.incoming@[i as int]@);
            if same_incoming(&self.incoming[i], &record) {
                assert(before.incoming.contains(record@));
                return ;
            }
            i += 1;
        }
        let ghost view = record@;
        self.incoming.push(record);
        assert(self@.incoming =~= before.incoming.push(view));
    }

    /// How to obtain the engine seed: reuse the one in the log, or draw one. A log
    /// with protocol records but no seed is refused.
    pub fn plan_engine_seed(&self) -> (plan: Result<SeedPlan, RecoveryWalError>)
        requires
            self.wf(),
        ensures
            match self@.engine_seed {
                Some(bytes) => plan matches Ok(SeedPlan::Reuse(seed)) && seed.spec_bytes() == bytes,
                None => if self@.has_protocol_records() {
                    plan == Err::<SeedPlan, _>(RecoveryWalError::MissingSeed)
                } else {
                    plan matches Ok(SeedPlan::Append(_)) || plan == Err::<SeedPlan, _>(
                        RecoveryWalError::Random,
                    )
                },
            },
    {
        match &self.engine_seed {
            Some(seed) => return Ok(SeedPlan::Reuse(seed.duplicate())),
            None => {},
        }
        if self.has_protocol_records() {
            return Err(RecoveryWalError::MissingSeed);
        }
        RecoveryState::seed_plan(draw_seed())
    }

    /// What becomes of a drawn seed.
    pub fn seed_plan(drawn: Option<[u8; 32]>) -> (plan: Result<SeedPlan, RecoveryWalError>)
        ensures
            match drawn {
                Some(bytes) => plan matches Ok(SeedPlan::Append(seed)) && seed.spec_bytes() == bytes,
                None => plan == Err::<SeedPlan, _>(RecoveryWalError::Random),
            },
    {
        match drawn {
            Some(bytes) => Ok(SeedPlan::Append(EngineSeed::new(bytes))),
            None => Err(RecoveryWalError::Random),
        }
    }

    /// Whether the log holds anything that only an engine with a seed produces.
    pub fn has_protocol_records(&self) -> (found: bool)
        requires
            self.wf(),
        ensures
            found == self@.has_protocol_records(),
    {
        proof {
            assert(self@.outbox.dom() =~= self.outbox@.dom());
            if self.outbox@.dom().len() == 0 && self.outbox@.dom().finite() {
                assert(self@.outbox.dom() =~= Set::<DkgMessageId>::empty());
            }
            if self.completions@.dom().len() == 0 && self.completions@.dom().finite() {
                assert(self@.completions =~= Set::<(DkgMessageId, PartyId)>::empty());
            }
        }
        self.outbox.len() > 0 || self.incoming.len() > 0 || self.completions.len() > 0
    }

    /// Whether a registration has to be created.
    pub fn needs_registration(&self) -> (needed: bool)
        ensures
            needed == self@.registration is None,
    {
        self.registration.is_none()
    }

    /// How to obtain the local registration: reuse the one in the log, or take the
    /// `created` one, which must not be empty.
    pub fn plan_registration(&self, created: Vec<u8>) -> (plan: Result<RegistrationPlan, RecoveryWalError>)
        ensures
            match self@.registration {
                Some(bytes) => plan matches Ok(RegistrationPlan::Reuse(reused)) && reused@ == bytes,
                None => if created@.len() == 0 {
                    plan == Err::<RegistrationPlan, _>(RecoveryWalError::EmptyRegistration)
                } else {
                    plan matches Ok(RegistrationPlan::Append(added)) && added@ == created@
                },
            },
    {
        match &self.registration {
            Some(bytes) => Ok(RegistrationPlan::Reuse(copy_bytes(bytes))),
            None => {
                if created.len() == 0 {
                    Err(RecoveryWalError::EmptyRegistration)
                } else {
                    Ok(RegistrationPlan::Append(created))
                }
            },
        }
    }

    /// The number of recovered messages to send.
    pub fn outbox_len(&self) -> (len: usize)
        requires
            self.wf(),
        ensures
            self@.outbox.dom().finite(),
            len == self@.outbox.dom().len(),
    {
        assert(self@.outbox.dom() =~= self.outbox@.dom());
        self.outbox.len()
    }

    /// The identities of the recovered messages to send, in order.
    pub fn outbox_ids(&self) -> (ids: Vec<DkgMessageId>)
        requires
            self.wf(),
        ensures
            crate::order::ascending(ids@),
            ids@.to_set() == self@.outbox.dom(),
    {
        assert(self@.outbox.dom() =~= self.outbox@.dom());
        self.outbox.key_list()
    }

    /// The recovered message with `message_id`.
    pub fn outgoing(&self, message_id: &DkgMessageId) -> (record: Option<
        &OutgoingRecord<PartyId, DkgMessageId>,
    >)
        requires
            self.wf(),
        ensures
            match record {
                Some(record) => self@.outbox.contains_key(*message_id) && record@
                    == self@.outbox[*message_id],
                None => !self@.outbox.contains_key(*message_id),
            },
    {
        self.outbox.get(message_id)
    }

    /// The accepted messages, in the order they were first journaled.
    pub fn incoming(&self) -> (records: &Vec<IncomingRecord<PartyId, DkgMessageId>>)
        ensures
            crate::wal::models(records@) == self@.incoming,
    {
        assert(crate::wal::models(self.incoming@) =~= self@.incoming);
        &self.incoming
    }

    /// The accepted messages as a set: by source, then by identity, then by payload.
    pub fn incoming_set(&self) -> (records: Vec<IncomingRecord<PartyId, DkgMessageId>>)
        ensures
            in_record_order(crate::wal::models(records@)),
            crate::wal::models(records@).to_set() == self@.incoming.to_set(),
    {
        let mut records: Vec<IncomingRecord<PartyId, DkgMessageId>> = Vec::new();
        let mut i: usize = 0;
        proof {
            assert(crate::wal::models(records@) =~= Seq::empty());
            assert(self@.incoming.take(0) =~= Seq::empty());
        }
        while i < self.incoming.len()
            invariant
                i <= self.incoming@.len(),
                in_record_order(crate::wal::models(records@)),
                crate::wal::models(records@).to_set() == self@.incoming.take(i as int).to_set(),
            decreases self.incoming@.len() - i,
        {
            let ghost earlier = crate::wal::models(records@);
            let ghost added = self.incoming@[i as int]@;
            insert_record(&mut records, &self.incoming[i]);
            proof {
                let upto = self@.incoming.take(i + 1);
                assert(self@.incoming[i as int] == added);
                assert(upto =~= self@.incoming.take(i as int).push(added));
                assert(upto.to_set() =~= self@.incoming.take(i as int).to_set().insert(added)) by {
                    assert forall|view: IncomingView<PartyId, DkgMessageId>|
                        upto.contains(view) <==> self@.incoming.take(i as int).contains(view) || view
                            == added by {
                        if self@.incoming.take(i as int).contains(view) {
                            let j = choose|j: int|
                                0 <= j < i && self@.incoming.take(i as int)[j] == view;
                            assert(upto[j] == view);
                        }
                        if view == added {
                            assert(upto[i as int] == view);
                        }
                    }
                }
            }
            i += 1;
        }
        assert(self@.incoming.take(i as int) =~= self@.incoming);
        records
    }

    /// The completed deliveries of the log, in order.
    pub fn completions(&self) -> (list: Vec<(DkgMessageId, PartyId)>)
        requires
            self.wf(),
        ensures
            crate::order::ascending(list@),
            list@.to_set() == self@.completions,
    {
        self.completions.key_list()
    }

    /// The registration of the log.
    pub fn registration(&self) -> (registration: Option<Vec<u8>>)
        ensures
            match registration {
                Some(bytes) => self@.registration == Some(bytes@),
                None => self@.registration is None,
            },
    {
        match &self.registration {
            Some(bytes) => Some(copy_bytes(bytes)),
            None => None,
        }
    }
}

/// Byte strings compare byte by byte; a string comes before its extensions.
pub open spec fn bytes_before(left: Seq<u8>, right: Seq<u8>) -> bool
    decreases left.len(),
{
    if right.len() == 0 {
        false
    } else if left.len() == 0 {
        true
    } else if left[0] != right[0] {
        left[0] < right[0]
    } else {
        bytes_before(left.skip(1), right.skip(1))
    }
}

/// Accepted messages compare by source, then by identity, then by payload.
pub open spec fn record_before(
    left: IncomingView<PartyId, DkgMessageId>,
    right: IncomingView<PartyId, DkgMessageId>,
) -> bool {
    if left.source != right.source {
        left.source.before(right.source)
    } else if left.message_id != right.message_id {
        left.message_id.before(right.message_id)
    } else {
        bytes_before(left.payload, right.payload)
    }
}

/// Whether accepted messages stand in order, each once.
pub open spec fn in_record_order(records: Seq<IncomingView<PartyId, DkgMessageId>>) -> bool {
    forall|i: int, j: int|
        0 <= i < j < records.len() ==> record_before(#[trigger] records[i], #[trigger] records[j])
}

proof fn lemma_bytes_order(a: Seq<u8>, b: Seq<u8>, c: Seq<u8>)
    ensures
        !bytes_before(a, a),
        bytes_before(a, b) && bytes_before(b, c) ==> bytes_before(a, c),
        a == b || bytes_before(a, b) || bytes_before(b, a),
    decreases a.len() + b.len() + c.len(),
{
    if a.len() > 0 && b.len() > 0 && c.len() > 0 {
        lemma_bytes_order(a.skip(1), b.skip(1), c.skip(1));
    } else if a.len() > 0 && b.len() > 0 {
        lemma_bytes_order(a.skip(1), b.skip(1), c);
    } else if a.len() > 0 {
        lemma_bytes_order(a.skip(1), b, c);
    }
    if a.len() > 0 && b.len() > 0 && a[0] == b[0] && a.skip(1) == b.skip(1) {
        assert(a =~= b) by {
            assert forall|i: int| 0 <= i < a.len() implies a[i] == b[i] by {
                if i > 0 {
                    assert(a.skip(1)[i - 1] == b.skip(1)[i - 1]);
                }
            }
            assert(a.skip(1).len() == b.skip(1).len());
        }
    }
    if a.len() == 0 && b.len() == 0 {
        assert(a =~= b);
    }
}

proof fn lemma_record_order(
    a: IncomingView<PartyId, DkgMessageId>,
    b: IncomingView<PartyId, DkgMessageId>,
    c: IncomingView<PartyId, DkgMessageId>,
)
    ensures
        !record_before(a, a),
        record_before(a, b) && record_before(b, c) ==> record_before(a, c),
        a == b || record_before(a, b) || record_before(b, a),
{
    lemma_bytes_order(a.payload, b.payload, c.payload);
    PartyId::irreflexive(a.source);
    PartyId::total(a.source, b.source);
    DkgMessageId::irreflexive(a.message_id);
    DkgMessageId::total(a.message_id, b.message_id);
    if a.source.before(b.source) && b.source.before(c.source) {
        PartyId::transitive(a.source, b.source, c.source);
    }
    if a.message_id.before(b.message_id) && b.message_id.before(c.message_id) {
        DkgMessageId::transitive(a.message_id, b.message_id, c.message_id);
    }
    if a.source.before(b.source) && b.source.before(a.source) {
        PartyId::transitive(a.source, b.source, a.source);
    }
    if a.message_id.before(b.message_id) && b.message_id.before(a.message_id) {
        DkgMessageId::transitive(a.message_id, b.message_id, a.message_id);
    }
}

/// How two byte strings compare.
fn rank_bytes(left: &Vec<u8>, right: &Vec<u8>) -> (rank: Rank)
    ensures
        match rank {
            Rank::Less => bytes_before(left@, right@),
            Rank::Equal => left@ == right@,
            Rank::Greater => bytes_before(right@, left@),
        },
{
    let mut i: usize = 0;
    proof {
        assert(left@.skip(0) =~= left@);
        assert(right@.skip(0) =~= right@);
    }
    while i < left.len() && i < right.len() && left[i] == right[i]
        invariant
            i <= left@.len(),
            i <= right@.len(),
            left@.take(i as int) == right@.take(i as int),
            bytes_before(left@, right@) == bytes_before(left@.skip(i as int), right@.skip(i as int)),
            bytes_before(right@, left@) == bytes_before(right@.skip(i as int), left@.skip(i as int)),
        decreases left@.len() - i,
    {
        proof {
            assert(left@.skip(i as int).skip(1) =~= left@.skip(i + 1));
            assert(right@.skip(i as int).skip(1) =~= right@.skip(i + 1));
            assert(left@.take(i + 1) =~= left@.take(i as int).push(left@[i as int]));
            assert(right@.take(i + 1) =~= right@.take(i as int).push(right@[i as int]));
        }
        i += 1;
    }
    if i < left.len() && i < right.len() {
        assert(left@.skip(i as int)[0] == left@[i as int]);
        assert(right@.skip(i as int)[0] == right@[i as int]);
        if left[i] < right[i] {
            Rank::Less
        } else {
            Rank::Greater
        }
    } else if i < right.len() {
        Rank::Less
    } else if i < left.len() {
        Rank::Greater
    } else {
        proof {
            assert(left@.take(i as int) =~= left@);
            assert(right@.take(i as int) =~= right@);
        }
        Rank::Equal
    }
}

/// How two accepted messages compare.
fn rank_records(
    left: &IncomingRecord<PartyId, DkgMessageId>,
    right: &IncomingRecord<PartyId, DkgMessageId>,
) -> (rank: Rank)
    ensures
        match rank {
            Rank::Less => record_before(left@, right@),
            Rank::Equal => left@ == right@,
            Rank::Greater => record_before(right@, left@),
        },
{
    proof {
        PartyId::irreflexive(left.source);
        DkgMessageId::irreflexive(left.message_id);
    }
    match left.source.rank(&right.source) {
        Rank::Less => Rank::Less,
        Rank::Greater => Rank::Greater,
        Rank::Equal => match left.message_id.rank(&right.message_id) {
            Rank::Less => Rank::Less,
            Rank::Greater => Rank::Greater,
            Rank::Equal => rank_bytes(&left.payload, &right.payload),
        },
    }
}

/// Puts a message into its place, unless it is there.
fn insert_record(
    records: &mut Vec<IncomingRecord<PartyId, DkgMessageId>>,
    record: &IncomingRecord<PartyId, DkgMessageId>,
)
    requires
        in_record_order(crate::wal::models(old(records)@)),
    ensures
        in_record_order(crate::wal::models(final(records)@)),
        crate::wal::models(final(records)@).to_set() == crate::wal::models(
            old(records)@,
        ).to_set().insert(record@),
{
    let ghost before = crate::wal::models(records@);
    let mut i: usize = 0;
    while i < records.len()
        invariant
            i <= records@.len(),
            before == crate::wal::models(records@),
            in_record_order(before),
            forall|j: int| 0 <= j < i ==> record_before(#[trigger] before[j], record@),
        ensures
            i <= records@.len(),
            forall|j: int| 0 <= j < i ==> record_before(#[trigger] before[j], record@),
            i < records@.len() ==> record_before(record@, before[i as int]),
        decreases records@.len() - i,
    {
        assert(before[i as int] == records@[i as int]@);
        match rank_records(&records[i], record) {
            Rank::Less => {
                i += 1;
            },
            Rank::Equal => {
                proof {
                    assert(before.contains(record@));
                    assert(before.to_set().insert(record@) =~= before.to_set());
                }
                return;
            },
            Rank::Greater => {
                break;
            },
        }
    }
    records.insert(i, record.duplicate());
    proof {
        let after = crate::wal::models(records@);
        assert(after =~= before.insert(i as int, record@));
        assert forall|m: int, n: int| 0 <= m < n < after.len() implies record_before(
            #[trigger] after[m],
            #[trigger] after[n],
        ) by {
            if m < i && n < i {
                assert(record_before(before[m], before[n]));
            } else if m < i && n == i {
                assert(record_before(before[m], record@));
            } else if m < i {
                assert(record_before(before[m], before[n - 1]));
            } else if m == i {
                if n - 1 > i {
                    assert(record_before(before[i as int], before[n - 1]));
                    lemma_record_order(record@, before[i as int], before[n - 1]);
                }
            } else {
                assert(record_before(before[m - 1], before[n - 1]));
            }
        }
        assert(after.to_set() =~= before.to_set().insert(record@)) by {
            assert forall|view: IncomingView<PartyId, DkgMessageId>|
                after.contains(view) <==> before.contains(view) || view == record@ by {
                if before.contains(view) {
                    let k = choose|k: int| 0 <= k < before.len() && before[k] == view;
                    if k < i {
                        assert(after[k] == view);
                    } else {
                        assert(after[k + 1] == view);
                    }
                }
                if view == record@ {
                    assert(after[i as int] == view);
                }
                if after.contains(view) {
                    let k = choose|k: int| 0 <= k < after.len() && after[k] == view;
                    if k < i {
                        assert(before[k] == view);
                    } else if k > i {
                        assert(before[k - 1] == view);
                    }
                }
            }
        }
    }
}

/// A refusal among the first records is the refusal of all of them.
proof fn lemma_first_refusal(records: Seq<RecoveredView>, count: nat)
    requires
        count <= records.len(),
        RecoveryView::empty().with_records(records.take(count as int)) is Err,
    ensures
        RecoveryView::empty().with_records(records) == RecoveryView::empty().with_records(
            records.take(count as int),
        ),
    decreases records.len(),
{
    if count == records.len() {
        assert(records.take(count as int) =~= records);
    } else {
        assert(records.drop_last().take(count as int) =~= records.take(count as int));
        lemma_first_refusal(records.drop_last(), count);
    }
}

/// Reading the same log again gives the same seed: a log that starts with the
/// seed in use keeps it whatever is appended.
pub proof fn law_seed_is_kept(state: RecoveryView, records: Seq<RecoveredView>)
    requires
        state.engine_seed is Some,
        state.with_records(records) is Ok,
    ensures
        state.with_records(records)->Ok_0.engine_seed == state.engine_seed,
    decreases records.len(),
{
    if records.len() > 0 {
        law_seed_is_kept(state, records.drop_last());
    }
}

/// A registration in the log stays the registration whatever is appended.
pub proof fn law_registration_is_kept(state: RecoveryView, records: Seq<RecoveredView>)
    requires
        state.registration is Some,
        state.with_records(records) is Ok,
    ensures
        state.with_records(records)->Ok_0.registration == state.registration,
    decreases records.len(),
{
    if records.len() > 0 {
        law_registration_is_kept(state, records.drop_last());
    }
}

/// The epochs of `epochs` before `current`.
pub open spec fn previous_epochs(epochs: Seq<Epoch>, current: Epoch) -> Seq<Epoch> {
    epochs.filter(|epoch: Epoch| epoch.0 < current.0)
}

/// How many epochs of `epochs` come after `current`.
pub open spec fn newer_count(epochs: Seq<Epoch>, current: Epoch) -> nat {
    epochs.filter(|epoch: Epoch| epoch.0 > current.0).len()
}

/// How many previous epochs keep their logs.
pub open spec fn previous_to_keep(epochs: Seq<Epoch>, current: Epoch, max_epochs: usize) -> nat {
    if 1 + newer_count(epochs, current) <= max_epochs {
        (max_epochs - 1 - newer_count(epochs, current)) as nat
    } else {
        0
    }
}

/// The epochs whose logs are removed when the log of `current` is opened, newest
/// first: all previous epochs but the newest ones that are kept. Logs of newer
/// epochs stay and count against the number of logs kept.
pub open spec fn expired(epochs: Seq<Epoch>, current: Epoch, max_epochs: usize) -> Seq<Epoch> {
    let previous = previous_epochs(epochs, current);
    let keep = previous_to_keep(epochs, current, max_epochs);
    if max_epochs == 0 || previous.len() <= keep {
        Seq::empty()
    } else {
        previous.take(previous.len() - keep).reverse()
    }
}

/// The epochs whose logs are removed when the log of `current` is opened. `epochs`
/// are those that have a log, in ascending order.
pub fn expired_epochs(epochs: &Vec<Epoch>, current: Epoch, max_epochs: usize) -> (result: Vec<Epoch>)
    ensures
        result@ == expired(epochs@, current, max_epochs),
{
    if max_epochs == 0 {
        return Vec::new();
    }
    let mut previous: Vec<Epoch> = Vec::new();
    let mut newer: usize = 0;
    let mut i: usize = 0;
    let ghost is_previous = |epoch: Epoch| epoch.0 < current.0;
    let ghost is_newer = |epoch: Epoch| epoch.0 > current.0;
    proof {
        reveal(Seq::filter);
        assert(epochs@.take(0).filter(is_previous) =~= Seq::<Epoch>::empty());
        assert(epochs@.take(0).filter(is_newer).len() == 0);
    }
    while i < epochs.len()
        invariant
            i <= epochs@.len(),
            is_previous == (|epoch: Epoch| epoch.0 < current.0),
            is_newer == (|epoch: Epoch| epoch.0 > current.0),
            previous@ == epochs@.take(i as int).filter(is_previous),
            newer == epochs@.take(i as int).filter(is_newer).len(),
            newer <= i,
        decreases epochs@.len() - i,
    {
        proof {
            reveal(Seq::filter);
            assert(epochs@.take(i + 1).drop_last() =~= epochs@.take(i as int));
            assert(epochs@.take(i + 1).last() == epochs@[i as int]);
        }
        let epoch: Epoch = epochs[i];
        if epoch.0 < current.0 {
            previous.push(epoch);
        }
        if epoch.0 > current.0 {
            newer += 1;
        }
        i += 1;
    }
    assert(epochs@.take(epochs@.len() as int) =~= epochs@);
    let keep: usize = if newer < max_epochs {
        max_epochs - 1 - newer
    } else {
        0
    };
    let mut result: Vec<Epoch> = Vec::new();
    if previous.len() <= keep {
        return result;
    }
    let mut left: usize = previous.len() - keep;
    let ghost dropped = previous@.take(left as int);
    assert(dropped.skip(left as int).reverse() =~= Seq::<Epoch>::empty());
    while left > 0
        invariant
            left <= dropped.len(),
            dropped.len() <= previous@.len(),
            dropped == previous@.take(dropped.len() as int),
            result@ == dropped.skip(left as int).reverse(),
        decreases left,
    {
        left -= 1;
        result.push(previous[left]);
        assert(dropped.skip(left as int).reverse() =~= dropped.skip(left + 1).reverse().push(
            dropped[left as int],
        ));
    }
    assert(dropped.skip(0) =~= dropped);
    result
}

/// Opening a log never removes that log or a newer one.
pub proof fn law_expiry_spares_current_and_newer(epochs: Seq<Epoch>, current: Epoch, max_epochs: usize)
    ensures
        forall|i: int|
            0 <= i < expired(epochs, current, max_epochs).len() ==> (#[trigger] expired(
                epochs,
                current,
                max_epochs,
            )[i]).0 < current.0,
{
    let is_previous = |epoch: Epoch| epoch.0 < current.0;
    let previous = previous_epochs(epochs, current);
    let result = expired(epochs, current, max_epochs);
    assert forall|i: int| 0 <= i < result.len() implies (#[trigger] result[i]).0 < current.0 by {
        let kept = result.len();
        assert(result[i] == previous[kept - 1 - i]);
        epochs.lemma_filter_pred(is_previous, kept - 1 - i);
    }
}

/// A message of the log goes to the outbox with all of its recipients; the same
/// message again adds recipients, and other contents under its identity are refused.
pub proof fn law_outbox_gathers_recipients(
    state: RecoveryView,
    record: OutgoingView<PartyId, DkgMessageId>,
    party: PartyId,
    other: DkgMessageId,
)
    ensures
        ({
            let id = record.message_id;
            let known = state.outbox.contains_key(id);
            let result = state.with_record(RecoveredView::Outgoing(record));
            &&& result is Err <==> known && state.outbox[id].payload != record.payload
            &&& result matches Ok(after) ==> {
                &&& after.outbox.contains_key(id)
                &&& after.outbox[id].payload == record.payload
                &&& after.outbox[id].message_id == id
                &&& after.outbox[id].recipients.contains(party) <==> record.recipients.contains(party) || (
                known && state.outbox[id].recipients.contains(party))
                &&& crate::order::ascending(after.outbox[id].recipients)
                &&& other != id ==> (after.outbox.contains_key(other) <==> state.outbox.contains_key(
                    other,
                ))
                &&& after.incoming == state.incoming
                &&& after.completions == state.completions
                &&& after.engine_seed == state.engine_seed
                &&& after.registration == state.registration
            }
        }),
{
    let id = record.message_id;
    let all = if state.outbox.contains_key(id) {
        state.outbox[id].recipients + record.recipients
    } else {
        record.recipients
    };
    crate::ordered_map::lemma_sorted_set(all);
    assert(sorted_set(all).to_set().contains(party) <==> all.to_set().contains(party));
    if state.outbox.contains_key(id) {
        let before = state.outbox[id].recipients;
        if before.contains(party) {
            let k = choose|k: int| 0 <= k < before.len() && before[k] == party;
            assert(all[k] == party);
        }
        if record.recipients.contains(party) {
            let k = choose|k: int| 0 <= k < record.recipients.len() && record.recipients[k] == party;
            assert(all[before.len() + k] == party);
        }
    }
}

/// An incoming message of the log is kept once, behind those that came before it.
pub proof fn law_incoming_message_is_kept_once(
    state: RecoveryView,
    record: IncomingView<PartyId, DkgMessageId>,
)
    ensures
        state.with_record(RecoveredView::Incoming(record)) is Ok,
        ({
            let after = state.with_record(RecoveredView::Incoming(record))->Ok_0;
            &&& after.incoming.contains(record)
            &&& state.incoming.contains(record) ==> after == state
            &&& !state.incoming.contains(record) ==> after.incoming == state.incoming.push(record)
            &&& after.outbox == state.outbox
            &&& after.completions == state.completions
        }),
{
    let after = state.with_record(RecoveredView::Incoming(record))->Ok_0;
    if !state.incoming.contains(record) {
        assert(after.incoming[after.incoming.len() - 1] == record);
    }
}

/// The seed and the registration of a log are those of its first such records;
/// others are refused, and so is a registration without contents.
pub proof fn law_first_seed_and_registration_stand(
    state: RecoveryView,
    seed: [u8; 32],
    registration: Seq<u8>,
)
    ensures
        state.with_record(RecoveredView::Seed(seed)) is Err <==> state.engine_seed is Some
            && state.engine_seed != Some(seed),
        state.with_record(RecoveredView::Seed(seed)) matches Ok(after) ==> after.engine_seed == Some(seed)
            && after.outbox == state.outbox && after.incoming == state.incoming && after.registration
            == state.registration,
        state.with_record(RecoveredView::Registration(registration)) is Err <==> (state.registration is Some
            && state.registration != Some(registration)) || (state.registration is None
            && registration.len() == 0),
        state.with_record(RecoveredView::Registration(registration)) matches Ok(after)
            ==> after.registration == Some(registration) && after.engine_seed == state.engine_seed
            && after.outbox == state.outbox && after.incoming == state.incoming,
{
}

/// Every incoming message and every recipient that a log names is there once the
/// whole log is read.
pub proof fn law_whole_log_is_recovered(
    state: RecoveryView,
    records: Seq<RecoveredView>,
    place: int,
    party: PartyId,
)
    requires
        0 <= place < records.len(),
        state.with_records(records) is Ok,
    ensures
        ({
            let after = state.with_records(records)->Ok_0;
            &&& records[place] matches RecoveredView::Incoming(record) ==> after.incoming.contains(record)
            &&& records[place] matches RecoveredView::Outgoing(record) ==> after.outbox.contains_key(
                record.message_id,
            ) && after.outbox[record.message_id].payload == record.payload && (
            record.recipients.contains(party)
                ==> after.outbox[record.message_id].recipients.contains(party))
            &&& records[place] matches RecoveredView::Completion { message_id, target }
                ==> after.completions.contains((message_id, target))
            &&& records[place] matches RecoveredView::Seed(seed) ==> after.engine_seed == Some(seed)
            &&& records[place] matches RecoveredView::Registration(bytes) ==> after.registration == Some(
                bytes,
            )
        }),
    decreases records.len(),
{
    let fewer = records.drop_last();
    let before = state.with_records(fewer)->Ok_0;
    let after = state.with_records(records)->Ok_0;
    let last = records.last();
    match last {
        RecoveredView::Incoming(record) => {
            law_incoming_message_is_kept_once(before, record);
        },
        RecoveredView::Outgoing(record) => {
            law_outbox_gathers_recipients(before, record, party, record.message_id);
            if place < fewer.len() {
                assert(fewer[place] == records[place]);
                if records[place] is Outgoing {
                    let other = records[place]->Outgoing_0.message_id;
                    law_outbox_gathers_recipients(before, record, party, other);
                }
            }
        },
        _ => {},
    }
    if place < fewer.len() {
        assert(fewer[place] == records[place]);
        law_whole_log_is_recovered(state, fewer, place, party);
        if records[place] is Incoming {
            let record = records[place]->Incoming_0;
            let k = choose|k: int| 0 <= k < before.incoming.len() && before.incoming[k] == record;
            assert(after.incoming[k] == record);
        }
    }
}

/// Protocol records are those of messages and of deliveries that ended.
pub proof fn law_messages_are_protocol_records(
    state: RecoveryView,
    id: DkgMessageId,
    delivery: (DkgMessageId, PartyId),
)
    ensures
        state.outbox.contains_key(id) ==> state.has_protocol_records(),
        state.incoming.len() > 0 ==> state.has_protocol_records(),
        state.completions.contains(delivery) ==> state.has_protocol_records(),
        RecoveryView::empty().has_protocol_records() == false,
{
    if state.outbox.contains_key(id) {
        assert(state.outbox.dom().contains(id));
    }
    assert(RecoveryView::empty().outbox.dom() =~= Set::<DkgMessageId>::empty());
}

/// Logs of earlier epochs expire from the oldest on: where epochs ascend, everything
/// that expires is older than every earlier epoch that stays, and of those as many
/// stay as the current and the newer epochs leave room for.
pub proof fn law_oldest_epochs_expire(epochs: Seq<Epoch>, current: Epoch, max_epochs: usize)
    requires
        max_epochs > 0,
    ensures
        ({
            let previous = epochs.filter(|epoch: Epoch| epoch.0 < current.0);
            let newer = epochs.filter(|epoch: Epoch| epoch.0 > current.0).len() as int;
            let room = if max_epochs > 1 + newer {
                max_epochs - 1 - newer
            } else {
                0
            };
            let gone = expired(epochs, current, max_epochs);
            let count = if previous.len() > room {
                previous.len() - room
            } else {
                0
            };
            &&& gone.len() == count
            &&& forall|i: int| 0 <= i < count ==> #[trigger] gone[i] == previous[count - 1 - i]
        }),
{
}

/// Accepted messages stand by their source first, then by their identity, and then by
/// the first byte in which their payloads differ.
pub proof fn law_accepted_messages_are_ordered(
    left: IncomingView<PartyId, DkgMessageId>,
    right: IncomingView<PartyId, DkgMessageId>,
    i: int,
)
    ensures
        left.source.0 < right.source.0 ==> record_before(left, right) && !record_before(right, left),
        left.source == right.source && left.message_id.before(right.message_id) ==> record_before(
            left,
            right,
        ),
        left.source == right.source && left.message_id == right.message_id && 0 <= i
            < left.payload.len() && i < right.payload.len() && left.payload.take(i)
            == right.payload.take(i) && left.payload[i] < right.payload[i] ==> record_before(left, right),
{
    if left.source == right.source && left.message_id.before(right.message_id) {
        crate::order::lemma_before_asymmetric(left.message_id, right.message_id);
    }
    if 0 <= i < left.payload.len() && i < right.payload.len() && left.payload.take(i)
        == right.payload.take(i) && left.payload[i] < right.payload[i] {
        lemma_first_byte_decides(left.payload, right.payload, i);
    }
}

proof fn lemma_first_byte_decides(left: Seq<u8>, right: Seq<u8>, i: int)
    requires
        0 <= i < left.len(),
        i < right.len(),
        left.take(i) == right.take(i),
        left[i] < right[i],
    ensures
        bytes_before(left, right),
    decreases left.len(),
{
    if i > 0 {
        assert(left[0] == right[0]) by {
            assert(left.take(i)[0] == left[0]);
            assert(right.take(i)[0] == right[0]);
        }
        assert(left.skip(1).take(i - 1) =~= left.take(i).skip(1));
        assert(right.skip(1).take(i - 1) =~= right.take(i).skip(1));
        lemma_first_byte_decides(left.skip(1), right.skip(1), i - 1);
    }
}

/// Recovered messages stand in order, and none of them twice.
pub proof fn law_recovered_messages_are_distinct(
    records: Seq<IncomingView<PartyId, DkgMessageId>>,
    i: int,
    j: int,
)
    requires
        in_record_order(records),
        0 <= i < j < records.len(),
    ensures
        records[i].source.0 <= records[j].source.0,
        records[i] != records[j],
{
    assert(record_before(records[i], records[j]));
    if records[i] == records[j] {
        lemma_bytes_not_before_themselves(records[i].payload);
    }
}

proof fn lemma_bytes_not_before_themselves(bytes: Seq<u8>)
    ensures
        !bytes_before(bytes, bytes),
    decreases bytes.len(),
{
    if bytes.len() > 0 {
        lemma_bytes_not_before_themselves(bytes.skip(1));
    }
}

} // verus!
