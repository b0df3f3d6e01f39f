//! The protocol runtime that keeps every accepted and sent message by its
//! semantic slot.
//!
//! Like [`crate::dkg::session::DkgSession`], a [`Runner`] decides and leaves the
//! engine and the recovery log to its caller. It also knows what it accepted: a
//! message that fills a filled slot is acknowledged again where it is the same and
//! dropped where it is not, a message of the engine goes out only into open slots,
//! and a message that answers one of its own ends that delivery.

use crate::chain::records::ChainRecords;
use crate::chain::types::{ChainCall, ChainEvent, ChainEventView};
use crate::dkg::delivery::{
    call_group, delivery_abort_group_for_chain_call, delivery_abort_group_for_chain_event,
    delivery_abort_group_for_peer_payload, dkg_backoff, dkg_retry, event_group, payload_group,
    DeliveryAbortGroup,
};
use crate::dkg::envelope::{envelope_bytes, DeliveryEnvelope, DeliveryView};
use crate::dkg::ids::{DkgMessageId, DkgMessageKey, DkgMessageKind, Epoch, NodeId, PartyId, RecordId};
use crate::dkg::message::{DkgMessage, DkgMessageView};
use crate::dkg::message_store::{
    accepts_outgoing, completion_news, needs_record, outgoing_slots, transport_ack_key,
    AcceptedOutgoing, DkgMessageStore, IdentityError, RecipientIdentity, StoreError,
};
use crate::dkg::peers::{others, party_at, DkgPeerMap};
use crate::dkg::record::{RecordView, RecoveryRecord};
use crate::dkg::recovery::{RecoveredView, RecoveryView};
use crate::dkg::runner_record::{RunnerRecord, RunnerRecordView};
use crate::dkg::session::{
    acknowledges, append_effects, data_wire, effect_views, find_nodes, is_next_timer,
    lemma_repeats_after, nodes_of, observe_group, observes, phase_evidence, repeat_due, repeats,
    schedule, scheduled, time_fits, unknown_party, DkgEnginePhase, EffectView, EngineAction,
    SessionEffect, SessionError, SessionRetries,
};
use crate::dkg::transport::OutboundView;
use crate::octets::copy_bytes;
use crate::order::Key;
use crate::reliable::message::{
    any_filled, fill_slots, IncomingRecord, IncomingStatus, IncomingView, MessageIdentity, MessagePersistence,
    MessageStoreError,
};
use crate::reliable::retry::{rescheduled, MessageView, PendingRecipient, RetryScheduler};
use vstd::prelude::*;

verus! {

/// What was to be done for a party.
#[derive(Clone, Copy, Debug, PartialEq, Eq, Structural)]
pub enum DeliveryAction {
    FinishInbound,
    CompleteOutbound,
    SendTo,
}

/// Why a runner could not go on.
#[allow(inconsistent_fields)]
#[derive(Clone, Copy, Debug, PartialEq, Eq, Structural)]
pub enum RunnerError {
    /// The recovery log took no record.
    RecoveryWal,
    /// A message has no identity.
    Identity(IdentityError),
    RetrievalMustBeUnicast,
    /// Two messages have one identifier.
    DeliveryIdCollision,
    Engine { action: EngineAction },
    UnknownParty { action: DeliveryAction, party: u32 },
    /// An accepted message does not agree with the recovery log.
    DurableIngressConflict,
    /// A message of the engine to itself does not agree with the recovery log.
    SelfGeneratedMessageConflict,
    ConflictingChainRecord { record_id: u64 },
    TransportAckKeyCount { actual: usize },
}

/// What a message is to this party.
pub struct PeerIdentity {
    pub slots: MessageIdentity<DkgMessageId, DkgMessageKey>,
    pub requires_transport_ack: bool,
    /// The slots of own messages that it answers, and who answers.
    pub completes: Vec<(DkgMessageKey, PartyId)>,
}

/// What a delivered payload is to the protocol.
pub enum PeerPayload {
    Malformed,
    /// It is a message that the sender cannot send to this party.
    InvalidIdentity,
    Message(DkgMessage, PeerIdentity),
}

/// What a peer delivered.
pub enum RunnerDelivery {
    Data(PeerPayload),
    /// It has the message that fills this slot.
    TransportAck(DkgMessageKey),
}

/// A peer message that waits for the engine.
pub struct RunnerPeerInput {
    pub source: PartyId,
    pub message: DkgMessage,
    pub identity: PeerIdentity,
    /// Whether it is kept once the engine took it.
    pub record: bool,
    /// Whether its delivery is answered.
    pub acknowledge: bool,
}

/// An input that waits for the engine.
pub enum RunnerInput {
    Peer(RunnerPeerInput),
    Chain(ChainEvent),
}

#[verifier::ext_equal]
pub struct RunnerPeerView {
    pub source: PartyId,
    pub message: DkgMessageView,
    pub identity: PeerIdentity,
    pub record: bool,
    pub acknowledge: bool,
}

#[verifier::ext_equal]
pub enum RunnerInputView {
    Peer(RunnerPeerView),
    Chain(ChainEvent),
}

impl View for RunnerPeerInput {
    type V = RunnerPeerView;

    open spec fn view(&self) -> RunnerPeerView {
        RunnerPeerView {
            source: self.source,
            message: self.message@,
            identity: self.identity,
            record: self.record,
            acknowledge: self.acknowledge,
        }
    }
}

impl View for RunnerInput {
    type V = RunnerInputView;

    open spec fn view(&self) -> RunnerInputView {
        match self {
            RunnerInput::Peer(peer) => RunnerInputView::Peer(peer@),
            RunnerInput::Chain(event) => RunnerInputView::Chain(*event),
        }
    }
}

/// The views of inputs.
pub open spec fn runner_inputs(inputs: Seq<RunnerInput>) -> Seq<RunnerInputView> {
    inputs.map_values(|input: RunnerInput| input@)
}

/// What the engine asks for. `identities` says what a message is to each of its
/// recipients, and `local` what it is to this party.
#[allow(inconsistent_fields)]
pub enum RunnerEffect {
    Unicast { to: PartyId, message: DkgMessage, identities: Vec<Option<RecipientIdentity>> },
    Multicast {
        message: DkgMessage,
        identities: Vec<Option<RecipientIdentity>>,
        local: Option<PeerIdentity>,
    },
    PostToChain(ChainCall),
}

/// A message of the recovery log that is sent again.
pub struct DeferredSend {
    pub message_id: DkgMessageId,
    pub to: PartyId,
    pub kind: DkgMessageKind,
    pub payload: Vec<u8>,
}

/// What is left to do for one input.
pub struct RunnerWork {
    pub effects: Vec<RunnerEffect>,
    /// The peer message to finish.
    pub input: Option<RunnerPeerInput>,
    /// The phase of the engine after the input.
    pub phase: Option<DkgEnginePhase>,
}

/// A message that is being sent.
pub struct Dispatch {
    pub message: DkgMessage,
    pub recipients: Vec<PartyId>,
    pub identities: Vec<Option<RecipientIdentity>>,
    pub group: Option<DeliveryAbortGroup>,
}

/// A completed delivery: `target` has the message that fills the slot of `key`.
pub struct Completion {
    pub message_id: DkgMessageId,
    pub key: DkgMessageKey,
    pub target: PartyId,
    /// The slots that the same message answers and that come next.
    pub rest: Vec<(DkgMessageKey, PartyId)>,
    /// The phase of the engine to note after the last of them.
    pub phase: Option<DkgEnginePhase>,
}

/// What has to be in the recovery log.
pub enum Unlogged {
    Incoming(RunnerWork),
    Outgoing(Dispatch, RunnerWork),
    Completion(Completion),
}

/// What a runner is doing.
pub enum RunnerStage {
    /// It can take the next input.
    Ready,
    /// The engine has a peer message.
    Applying(RunnerPeerInput),
    /// The engine has a chain event.
    ApplyingChain,
    /// The engine starts.
    Starting,
    /// The engine tells its phase.
    Noting,
    /// A record has to be in the log.
    Persist(Unlogged),
    /// The log has that record.
    Journaling(Unlogged),
    /// What the engine asked for is being done.
    Working(RunnerWork),
}

/// How far a runner has come with its start.
pub enum RunnerProgress {
    /// The chain state is being read.
    AwaitingChain,
    /// Chain events are applied; peer messages wait.
    ApplyingChain { peers: Vec<RunnerInput> },
    /// The engine starts at once.
    StartingEngine,
    /// The engine started at once: what waited is applied, the messages of the
    /// recovery log are sent, and the phase of the engine is noted.
    Initializing,
    /// The engine has started; peer messages come next.
    Started { peers: Vec<RunnerInput> },
    /// What waited is applied, then the messages of the recovery log are sent.
    Replaying,
    Running,
}

/// What is to be done outside for a runner.
pub enum RunnerTask {
    Idle,
    /// There is more to decide.
    Continue,
    ApplyPeer { source: PartyId, message: DkgMessage },
    ApplyChain(ChainEvent),
    StartEngine,
    /// The phase of the engine is wanted.
    TellPhase,
    Append(RunnerRecord),
}

/// What the engine made of a peer message.
pub enum RunnerOutcome {
    Applied { effects: Vec<RunnerEffect>, phase: DkgEnginePhase },
    Rejected,
    Failed,
}

/// A runner's record of a peer message.
pub open spec fn kept_record(input: RunnerPeerView) -> IncomingView<PartyId, DkgMessageId> {
    IncomingView {
        source: input.source,
        message_id: input.identity.slots.message_id,
        payload: input.message.bytes,
    }
}

/// What the message store knows about an input.
pub open spec fn input_status(store: DkgMessageStore, input: RunnerPeerView) -> IncomingStatus {
    store.messages().status(kept_record(input), input.identity.slots)
}

fn record_of(input: &RunnerPeerInput) -> (record: IncomingRecord<PartyId, DkgMessageId>)
    ensures
        record@ == kept_record(input@),
{
    IncomingRecord {
        source: input.source,
        message_id: input.identity.slots.message_id.duplicate(),
        payload: copy_bytes(&input.message.bytes),
    }
}

/// Whether `after` is `before` with an accepted message.
pub open spec fn keeps_incoming(
    before: DkgMessageStore,
    after: DkgMessageStore,
    input: RunnerPeerView,
) -> bool {
    let record = kept_record(input);
    &&& after.wf()
    &&& after.completed() == before.completed()
    &&& after.messages().same_outgoing(before.messages())
    &&& after.messages().incoming() == before.messages().incoming().insert(record.message_id, record)
    &&& after.messages().incoming_slots() == fill_slots(
        before.messages().incoming_slots(),
        input.identity.slots.keys@,
        record.message_id,
    )
}

/// The slot by which a message is acknowledged, or the number of its slots where
/// there is not exactly one.
pub open spec fn ack_slot(identity: PeerIdentity) -> Result<Option<DkgMessageKey>, RunnerError> {
    if !identity.requires_transport_ack {
        Ok(None)
    } else if identity.slots.keys@.len() == 1 {
        Ok(Some(identity.slots.keys@[0]))
    } else {
        Err(RunnerError::TransportAckKeyCount { actual: identity.slots.keys@.len() as usize })
    }
}

fn find_ack_slot(identity: &PeerIdentity) -> (result: Result<Option<DkgMessageKey>, RunnerError>)
    ensures
        result == ack_slot(*identity),
{
    match transport_ack_key(&identity.slots.keys, identity.requires_transport_ack) {
        Ok(key) => Ok(key),
        Err(count) => Err(RunnerError::TransportAckKeyCount { actual: count.actual }),
    }
}

/// What answers a delivery from a party: an acknowledgement of a slot, if there
/// is one.
pub open spec fn answered(
    epoch: Epoch,
    members: Seq<NodeId>,
    source: PartyId,
    slot: Option<DkgMessageKey>,
) -> Result<Seq<EffectView>, RunnerError> {
    if source.0 >= members.len() {
        Err(RunnerError::UnknownParty { action: DeliveryAction::FinishInbound, party: source.0 })
    } else {
        match slot {
            Some(key) => Ok(
                seq![
                    EffectView::Acknowledgement(
                        OutboundView {
                            to: members[source.0 as int],
                            payload: envelope_bytes(epoch, DeliveryView::Ack(seq![key])),
                        },
                    ),
                ],
            ),
            None => Ok(Seq::empty()),
        }
    }
}

/// What is left of a list of answered slots from the first one whose answer is
/// news.
pub open spec fn unnoted(store: DkgMessageStore, completes: Seq<(DkgMessageKey, PartyId)>) -> Seq<
    (DkgMessageKey, PartyId),
>
    decreases completes.len(),
{
    if completes.len() == 0 || completion_news(store, completes[0].0, completes[0].1) is Some {
        completes
    } else {
        unnoted(store, completes.skip(1))
    }
}

/// A runner that is ready goes on with the slots that a message answers: the first
/// answer that is news has to be in the recovery log. After the last one the phase of
/// the engine is noted.
pub open spec fn completes_next(
    before: RunnerView,
    after: RunnerView,
    completes: Seq<(DkgMessageKey, PartyId)>,
    phase: Option<DkgEnginePhase>,
) -> bool {
    let left = unnoted(before.store, completes);
    if left.len() == 0 {
        notes_engine_phase(before, after, phase)
    } else {
        &&& after == RunnerView { stage: after.stage, ..before }
        &&& after.stage matches RunnerStage::Persist(Unlogged::Completion(completion))
            && completion_news(before.store, left[0].0, left[0].1) == Some(completion.message_id)
            && completion.key == left[0].0 && completion.target == left[0].1 && completion.rest@
            == left.skip(1) && completion.phase == phase
    }
}

/// Whether `after` is `before` once `target` has the message: the delivery is
/// complete, and is not repeated any more.
pub open spec fn ends_delivery(
    before: RunnerView,
    after: RunnerView,
    message_id: DkgMessageId,
    target: PartyId,
) -> bool {
    &&& after == RunnerView { store: after.store, retries: after.retries, ..before }
    &&& after.store.messages() == before.store.messages()
    &&& after.store.completed() == before.store.completed().insert((message_id, target))
    &&& if target.0 < before.members.len() {
        acknowledges(before.retries, after.retries, message_id, before.members[target.0 as int])
    } else {
        after.retries == before.retries
    }
}

/// A runner that is ready ends a delivery whose completion was written, or not.
pub open spec fn completes_logged(
    before: RunnerView,
    after: RunnerView,
    completion: Completion,
    written: bool,
    result: Result<(), RunnerError>,
) -> bool {
    if !written {
        result == Err::<(), _>(RunnerError::RecoveryWal) && after == before.failed()
    } else {
        exists|ended: RunnerView| #[trigger]
            ends_delivery(before, ended, completion.message_id, completion.target) && if completion.target.0
                < before.members.len() {
                &&& result is Ok
                &&& completes_next(ended, after, completion.rest@, completion.phase)
            } else {
                &&& result == Err::<(), _>(
                    RunnerError::UnknownParty {
                        action: DeliveryAction::CompleteOutbound,
                        party: completion.target.0,
                    },
                )
                &&& after == ended.failed()
            }
    }
}

/// The protocol runtime of one epoch.
pub struct Runner {
    epoch: Epoch,
    self_party: PartyId,
    peers: DkgPeerMap,
    retries: SessionRetries,
    effects: Vec<SessionEffect>,
    inputs: Vec<RunnerInput>,
    deferred: Vec<DeferredSend>,
    store: DkgMessageStore,
    records: ChainRecords,
    last_phase: DkgEnginePhase,
    progress: RunnerProgress,
    engine_started: bool,
    stage: RunnerStage,
}

#[verifier::ext_equal]
pub struct RunnerView {
    pub epoch: Epoch,
    pub self_party: PartyId,
    /// The nodes of the session, in the order of their party numbers.
    pub members: Seq<NodeId>,
    pub retries: SessionRetries,
    /// What is to leave the runner.
    pub effects: Seq<EffectView>,
    /// What waits for the engine.
    pub inputs: Seq<RunnerInputView>,
    /// The messages of the recovery log that are still to be sent.
    pub deferred: Seq<DeferredSend>,
    pub store: DkgMessageStore,
    pub records: Map<RecordId, ChainEventView>,
    pub last_phase: DkgEnginePhase,
    pub progress: RunnerProgress,
    pub engine_started: bool,
    pub stage: RunnerStage,
}

impl View for Runner {
    type V = RunnerView;

    closed spec fn view(&self) -> RunnerView {
        RunnerView {
            epoch: self.epoch,
            self_party: self.self_party,
            members: self.peers.members(),
            retries: self.retries,
            effects: effect_views(self.effects@),
            inputs: runner_inputs(self.inputs@),
            deferred: self.deferred@,
            store: self.store,
            records: self.records@,
            last_phase: self.last_phase,
            progress: self.progress,
            engine_started: self.engine_started,
            stage: self.stage,
        }
    }
}

impl RunnerView {
    /// The progress after a failure: a start that failed waits for the chain again.
    pub open spec fn failed_progress(self) -> RunnerProgress {
        match self.progress {
            RunnerProgress::Running => RunnerProgress::Running,
            _ => RunnerProgress::AwaitingChain,
        }
    }

    /// The runner after a failure.
    pub open spec fn failed(self) -> RunnerView {
        RunnerView { progress: self.failed_progress(), stage: RunnerStage::Ready, ..self }
    }
}

/// The inputs that messages of the recovery log make, unless their source is
/// unknown.
pub open spec fn replayed_peers(
    incoming: Seq<(PartyId, DkgMessage, PeerIdentity)>,
    self_party: PartyId,
    party_count: nat,
) -> Seq<RunnerInputView>
    decreases incoming.len(),
{
    if incoming.len() == 0 {
        Seq::empty()
    } else {
        let (source, message, identity) = incoming.last();
        let earlier = replayed_peers(incoming.drop_last(), self_party, party_count);
        if source.0 < party_count {
            earlier.push(
                RunnerInputView::Peer(
                    RunnerPeerView {
                        source,
                        message: message@,
                        identity,
                        record: false,
                        acknowledge: source != self_party,
                    },
                ),
            )
        } else {
            earlier
        }
    }
}

impl Runner {
    pub closed spec fn parts_wf(self) -> bool {
        self.peers.wf() && self.records.wf()
    }

    pub open spec fn wf(self) -> bool {
        &&& self.parts_wf()
        &&& self@.retries.wf()
        &&& self@.retries.config() == dkg_backoff()
        &&& self@.store.wf()
        &&& stage_wf(self@.stage, self@.members, self@.store)
    }

    /// A runner with the messages that the recovery log holds. Where it does not
    /// wait for the chain, the engine starts first.
    pub fn new(
        epoch: Epoch,
        self_party: PartyId,
        peers: DkgPeerMap,
        store: DkgMessageStore,
        incoming: Vec<(PartyId, DkgMessage, PeerIdentity)>,
        deferred: Vec<DeferredSend>,
        phase: DkgEnginePhase,
        wait_for_chain_recovery: bool,
    ) -> (runner: Self)
        requires
            peers.wf(),
            store.wf(),
        ensures
            runner.wf(),
            runner@.epoch == epoch,
            runner@.self_party == self_party,
            runner@.members == peers.members(),
            runner@.retries.pending() == Map::<DkgMessageId, MessageView<DeliveryAbortGroup>>::empty(),
            runner@.retries.deliveries() == Map::<(DkgMessageId, NodeId), PendingRecipient>::empty(),
            runner@.retries.observed() == Set::<DeliveryAbortGroup>::empty(),
            runner@.effects == Seq::<EffectView>::empty(),
            runner@.inputs == replayed_peers(incoming@, self_party, peers.members().len()),
            runner@.deferred == deferred@,
            runner@.store == store,
            runner@.records == Map::<RecordId, ChainEventView>::empty(),
            runner@.last_phase == phase,
            runner@.progress == (if wait_for_chain_recovery {
                RunnerProgress::AwaitingChain
            } else {
                RunnerProgress::StartingEngine
            }),
            !runner@.engine_started,
            runner@.stage is Ready,
    {
        let mut inputs: Vec<RunnerInput> = Vec::new();
        let mut incoming: Vec<(PartyId, DkgMessage, PeerIdentity)> = incoming;
        let ghost whole = incoming@;
        let ghost count = peers.members().len();
        assert(whole.take(0) =~= Seq::empty());
        assert(runner_inputs(inputs@) =~= Seq::empty());
        while incoming.len() > 0
            invariant
                incoming@.len() <= whole.len(),
                incoming@ == whole.skip(whole.len() - incoming@.len()),
                count == peers.members().len(),
                runner_inputs(inputs@) == replayed_peers(
                    whole.take(whole.len() - incoming@.len()),
                    self_party,
                    count,
                ),
            decreases incoming@.len(),
        {
            let ghost done = whole.len() - incoming@.len();
            let (source, message, identity) = incoming.remove(0);
            proof {
                assert((source, message, identity) == whole[done]);
                assert(incoming@ =~= whole.skip(done + 1));
                assert(whole.take(done + 1).drop_last() =~= whole.take(done));
                assert(whole.take(done + 1).last() == whole[done]);
            }
            if peers.member_id(source).is_some() {
                let ghost earlier = inputs@;
                let acknowledge: bool = source != self_party;
                inputs.push(
                    RunnerInput::Peer(
                        RunnerPeerInput { source, message, identity, record: false, acknowledge },
                    ),
                );
                assert(runner_inputs(inputs@) =~= runner_inputs(earlier).push(inputs@.last()@));
            }
        }
        assert(whole.take(whole.len() as int) =~= whole);
        let progress: RunnerProgress = if wait_for_chain_recovery {
            RunnerProgress::AwaitingChain
        } else {
            RunnerProgress::StartingEngine
        };
        let runner = Runner {
            epoch,
            self_party,
            peers,
            retries: RetryScheduler::new(dkg_retry()),
            effects: Vec::new(),
            inputs,
            deferred,
            store,
            records: ChainRecords::new(),
            last_phase: phase,
            progress,
            engine_started: false,
            stage: RunnerStage::Ready,
        };
        assert(runner@.effects =~= Seq::<EffectView>::empty());
        runner
    }

    /// Whether the runner can take what a peer delivered.
    pub fn is_ready(&self) -> (ready: bool)
        ensures
            ready == (self@.stage is Ready),
    {
        match &self.stage {
            RunnerStage::Ready => true,
            _ => false,
        }
    }

    /// When a message is due next.
    pub fn next_timer(&self) -> (timer: Option<u64>)
        requires
            self.wf(),
        ensures
            is_next_timer(self@.retries, timer),
    {
        self.retries.next_timer()
    }

    /// Hands out what is to leave the runner.
    pub fn take_effects(&mut self) -> (effects: Vec<SessionEffect>)
        requires
            old(self).wf(),
        ensures
            final(self).wf(),
            effect_views(effects@) == old(self)@.effects,
            final(self)@ == (RunnerView { effects: Seq::empty(), ..old(self)@ }),
    {
        let mut effects: Vec<SessionEffect> = Vec::new();
        std::mem::swap(&mut effects, &mut self.effects);
        assert(self@.effects =~= Seq::<EffectView>::empty());
        effects
    }

    /// Answers a delivery from a party.
    fn finish_inbound_delivery(&mut self, source: PartyId, slot: Option<DkgMessageKey>) -> (result: Result<
        (),
        RunnerError,
    >)
        requires
            old(self).wf(),
        ensures
            final(self).wf(),
            match answered(old(self)@.epoch, old(self)@.members, source, slot) {
                Ok(effects) => {
                    &&& result is Ok
                    &&& final(self)@ == (RunnerView {
                        effects: old(self)@.effects + effects,
                        ..old(self)@
                    })
                },
                Err(error) => result == Err::<(), _>(error) && final(self)@ == old(self)@,
            },
    {
        let ghost before = self@;
        let to: NodeId = match self.peers.member_id(source) {
            Some(to) => to,
            None => {
                return Err(
                    RunnerError::UnknownParty {
                        action: DeliveryAction::FinishInbound,
                        party: source.0,
                    },
                );
            },
        };
        match slot {
            Some(key) => {
                let ghost earlier = self.effects@;
                let id: DkgMessageId = DkgMessageId::single(key);
                assert(id.keys() =~= seq![key]);
                let payload: Vec<u8> = DeliveryEnvelope::ack(self.epoch, id).encode();
                self.effects.push(SessionEffect::Acknowledgement { to, payload });
                assert(effect_views(self.effects@) =~= effect_views(earlier) + answered(
                    before.epoch,
                    before.members,
                    source,
                    slot,
                )->Ok_0);
            },
            None => {
                assert(before.effects + Seq::<EffectView>::empty() =~= before.effects);
            },
        }
        assert(self@ =~= RunnerView {
            effects: before.effects + answered(before.epoch, before.members, source, slot)->Ok_0,
            ..before
        });
        Ok(())
    }

    /// Goes on with the slots that a message answers.
    fn complete_from_application(
        &mut self,
        completes: Vec<(DkgMessageKey, PartyId)>,
        phase: Option<DkgEnginePhase>,
    )
        requires
            old(self).wf(),
            old(self)@.stage is Ready,
        ensures
            final(self).wf(),
            completes_next(old(self)@, final(self)@, completes@, phase),
    {
        let ghost before = self@;
        let ghost whole = completes@;
        let mut rest: Vec<(DkgMessageKey, PartyId)> = completes;
        while rest.len() > 0
            invariant
                self.wf(),
                self@ == before,
                before == old(self)@,
                before.stage is Ready,
                whole == completes@,
                unnoted(before.store, rest@) == unnoted(before.store, whole),
            decreases rest@.len(),
        {
            let ghost left = rest@;
            let (key, target) = rest.remove(0);
            assert(left[0] == (key, target));
            assert(rest@ =~= left.skip(1));
            match self.store.must_journal_completion(&key, target) {
                Some(message_id) => {
                    self.stage =
                    RunnerStage::Persist(
                        Unlogged::Completion(Completion { message_id, key, target, rest, phase }),
                    );
                    assert(self@ =~= RunnerView { stage: self@.stage, ..before });
                    return;
                },
                None => {},
            }
        }
        match phase {
            Some(phase) => {
                self.log_phase_change(phase);
            },
            None => {},
        }
    }
}

/// What a message from `from` makes, once its identity is known: an input, or an
/// answer to what was accepted before.
pub open spec fn receives(
    before: RunnerView,
    after: RunnerView,
    from: PartyId,
    message: DkgMessageView,
    identity: PeerIdentity,
    result: Result<(), RunnerError>,
) -> bool {
    let input = RunnerPeerView { source: from, message, identity, record: true, acknowledge: true };
    match ack_slot(identity) {
        Err(error) => result == Err::<(), _>(error) && after == before,
        Ok(slot) => match input_status(before.store, input) {
            IncomingStatus::New => {
                &&& result is Ok
                &&& after == (RunnerView {
                    inputs: before.inputs.push(RunnerInputView::Peer(input)),
                    ..before
                })
            },
            IncomingStatus::Conflict => result is Ok && after == before,
            IncomingStatus::Duplicate => {
                &&& result is Ok
                &&& completes_next(
                    RunnerView {
                        effects: before.effects + answered(before.epoch, before.members, from, slot)->Ok_0,
                        ..before
                    },
                    after,
                    identity.completes@,
                    None,
                )
            },
        },
    }
}

/// The chain events among inputs.
pub open spec fn chain_part(inputs: Seq<RunnerInputView>) -> Seq<RunnerInputView> {
    inputs.filter(|input: RunnerInputView| input is Chain)
}

/// The peer messages among inputs.
pub open spec fn peer_part(inputs: Seq<RunnerInputView>) -> Seq<RunnerInputView> {
    inputs.filter(|input: RunnerInputView| !(input is Chain))
}

fn split_inputs(inputs: Vec<RunnerInput>) -> (parts: (Vec<RunnerInput>, Vec<RunnerInput>))
    ensures
        runner_inputs(parts.0@) == chain_part(runner_inputs(inputs@)),
        runner_inputs(parts.1@) == peer_part(runner_inputs(inputs@)),
{
    let mut inputs: Vec<RunnerInput> = inputs;
    let ghost whole = inputs@;
    let ghost views = runner_inputs(whole);
    let mut chain: Vec<RunnerInput> = Vec::new();
    let mut peers: Vec<RunnerInput> = Vec::new();
    proof {
        reveal(Seq::filter);
        assert(views.take(0) =~= Seq::empty());
        assert(runner_inputs(chain@) =~= chain_part(views.take(0)));
        assert(runner_inputs(peers@) =~= peer_part(views.take(0)));
    }
    while inputs.len() > 0
        invariant
            inputs@.len() <= whole.len(),
            inputs@ == whole.skip(whole.len() - inputs@.len()),
            views == runner_inputs(whole),
            runner_inputs(chain@) == chain_part(views.take(whole.len() - inputs@.len())),
            runner_inputs(peers@) == peer_part(views.take(whole.len() - inputs@.len())),
        decreases inputs@.len(),
    {
        let ghost done = whole.len() - inputs@.len();
        let input: RunnerInput = inputs.remove(0);
        let ghost added = input@;
        proof {
            reveal(Seq::filter);
            assert(input == whole[done]);
            assert(inputs@ =~= whole.skip(done + 1));
            assert(views.take(done + 1).drop_last() =~= views.take(done));
            assert(views.take(done + 1).last() == added);
        }
        let ghost earlier_chain = chain@;
        let ghost earlier_peers = peers@;
        match input {
            RunnerInput::Chain(event) => {
                chain.push(RunnerInput::Chain(event));
                assert(runner_inputs(chain@) =~= runner_inputs(earlier_chain).push(added));
            },
            RunnerInput::Peer(peer) => {
                peers.push(RunnerInput::Peer(peer));
                assert(runner_inputs(peers@) =~= runner_inputs(earlier_peers).push(added));
            },
        }
    }
    assert(views.take(whole.len() as int) =~= views);
    (chain, peers)
}

impl Runner {
    /// Takes what `sender` delivered. Where it answers an own message, that goes to
    /// the recovery log first.
    pub fn handle_network_message(&mut self, sender: &NodeId, delivery: RunnerDelivery) -> (result: Result<
        (),
        RunnerError,
    >)
        requires
            old(self).wf(),
            old(self)@.stage is Ready,
        ensures
            final(self).wf(),
            match party_at(old(self)@.members, *sender) {
                None => result is Ok && final(self)@ == old(self)@,
                Some(from) => match delivery {
                    RunnerDelivery::TransportAck(key) => {
                        &&& result is Ok
                        &&& completes_next(old(self)@, final(self)@, seq![(key, from)], None)
                    },
                    RunnerDelivery::Data(payload) => match payload {
                        PeerPayload::Message(message, identity) => receives(
                            old(self)@,
                            final(self)@,
                            from,
                            message@,
                            identity,
                            result,
                        ),
                        _ => result is Ok && final(self)@ == old(self)@,
                    },
                },
            },
    {
        let from: PartyId = match self.peers.party_id(sender) {
            Some(from) => from,
            None => {
                return Ok(());
            },
        };
        match delivery {
            RunnerDelivery::TransportAck(key) => {
                let mut completes: Vec<(DkgMessageKey, PartyId)> = Vec::new();
                completes.push((key, from));
                assert(completes@ =~= seq![(key, from)]);
                self.complete_from_application(completes, None);
                Ok(())
            },
            RunnerDelivery::Data(payload) => match payload {
                PeerPayload::Message(message, identity) => self.handle_data_payload(
                    from,
                    message,
                    identity,
                ),
                _ => Ok(()),
            },
        }
    }

    fn handle_data_payload(&mut self, from: PartyId, message: DkgMessage, identity: PeerIdentity) -> (result:
        Result<(), RunnerError>)
        requires
            old(self).wf(),
            old(self)@.stage is Ready,
            from.0 < old(self)@.members.len(),
        ensures
            final(self).wf(),
            receives(old(self)@, final(self)@, from, message@, identity, result),
    {
        let ghost before = self@;
        let slot: Option<DkgMessageKey> = match find_ack_slot(&identity) {
            Ok(slot) => slot,
            Err(error) => {
                return Err(error);
            },
        };
        let input = RunnerPeerInput { source: from, message, identity, record: true, acknowledge: true };
        let record: IncomingRecord<PartyId, DkgMessageId> = record_of(&input);
        match self.store.incoming_status(&record, &input.identity.slots) {
            IncomingStatus::New => {
                let ghost earlier = self.inputs@;
                let ghost view = input@;
                self.inputs.push(RunnerInput::Peer(input));
                assert(runner_inputs(self.inputs@) =~= runner_inputs(earlier).push(
                    RunnerInputView::Peer(view),
                ));
                Ok(())
            },
            IncomingStatus::Conflict => Ok(()),
            IncomingStatus::Duplicate => match self.finish_inbound_delivery(from, slot) {
                Ok(()) => {
                    self.complete_from_application(input.identity.completes, None);
                    Ok(())
                },
                Err(error) => Err(error),
            },
        }
    }

    /// Repeats what is due. Returns how many messages were repeated.
    pub fn handle_timer(&mut self, now: u64) -> (count: usize)
        requires
            old(self).wf(),
            time_fits(now),
        ensures
            final(self).wf(),
            final(self)@ == (RunnerView {
                retries: final(self)@.retries,
                effects: final(self)@.effects,
                ..old(self)@
            }),
            final(self)@.retries.pending() == old(self)@.retries.pending(),
            final(self)@.retries.observed() == old(self)@.retries.observed(),
            rescheduled(
                dkg_backoff(),
                old(self)@.retries.deliveries(),
                final(self)@.retries.deliveries(),
                now,
            ),
            repeats(old(self)@.retries, now, old(self)@.effects, final(self)@.effects, count as nat),
    {
        let ghost before = self@;
        let (effects, count) = repeat_due(&mut self.retries, now);
        let ghost more = effect_views(effects@);
        append_effects(&mut self.effects, effects);
        proof {
            lemma_repeats_after(before.retries, now, before.effects, more, count as nat);
        }
        count
    }

    /// Takes a finalized chain event. The same event again changes nothing, and
    /// another one with its number is refused.
    pub fn handle_chain_event(&mut self, event: ChainEvent) -> (result: Result<(), RunnerError>)
        requires
            old(self).wf(),
        ensures
            final(self).wf(),
            ({
                let id = event@.id();
                let records = old(self)@.records;
                if !records.contains_key(id) {
                    &&& result is Ok
                    &&& observes(
                        old(self)@.retries,
                        final(self)@.retries,
                        Some(event_group(event)),
                    )
                    &&& final(self)@ == (RunnerView {
                        retries: final(self)@.retries,
                        records: records.insert(id, event@),
                        inputs: old(self)@.inputs.push(RunnerInputView::Chain(event)),
                        ..old(self)@
                    })
                } else {
                    &&& final(self)@ == old(self)@
                    &&& result == (if records[id] == event@ {
                        Ok::<(), RunnerError>(())
                    } else {
                        Err(RunnerError::ConflictingChainRecord { record_id: id.0 })
                    })
                }
            }),
    {
        match self.records.accept(&event) {
            Ok(true) => {
                let group: DeliveryAbortGroup = delivery_abort_group_for_chain_event(&event);
                observe_group(&mut self.retries, Some(group));
                let ghost earlier = self.inputs@;
                self.inputs.push(RunnerInput::Chain(event));
                assert(runner_inputs(self.inputs@) =~= runner_inputs(earlier).push(
                    RunnerInputView::Chain(event),
                ));
                Ok(())
            },
            Ok(false) => Ok(()),
            Err(conflict) => Err(
                RunnerError::ConflictingChainRecord { record_id: conflict.record_id.0 },
            ),
        }
    }

    /// Takes the call that the engine posts.
    pub fn handle_chain_call(&mut self, call: ChainCall)
        requires
            old(self).wf(),
        ensures
            final(self).wf(),
            observes(old(self)@.retries, final(self)@.retries, call_group(call)),
            final(self)@ == (RunnerView {
                retries: final(self)@.retries,
                effects: old(self)@.effects.push(EffectView::Chain(call)),
                ..old(self)@
            }),
    {
        let group: Option<DeliveryAbortGroup> = delivery_abort_group_for_chain_call(&call);
        observe_group(&mut self.retries, group);
        let ghost earlier = self.effects@;
        self.effects.push(SessionEffect::Chain(call));
        assert(effect_views(self.effects@) =~= effect_views(earlier).push(EffectView::Chain(call)));
    }

    /// Notes that the chain state up to the runner's start was read. Peer inputs
    /// wait until the chain events are applied.
    pub fn finish_chain_recovery(&mut self)
        requires
            old(self).wf(),
        ensures
            final(self).wf(),
            match old(self)@.progress {
                RunnerProgress::AwaitingChain => {
                    &&& final(self)@ == (RunnerView {
                        inputs: chain_part(old(self)@.inputs),
                        progress: final(self)@.progress,
                        ..old(self)@
                    })
                    &&& final(self)@.progress matches RunnerProgress::ApplyingChain { peers }
                        && runner_inputs(peers@) == peer_part(old(self)@.inputs)
                },
                _ => final(self)@ == old(self)@,
            },
    {
        match &self.progress {
            RunnerProgress::AwaitingChain => {
                let mut inputs: Vec<RunnerInput> = Vec::new();
                std::mem::swap(&mut inputs, &mut self.inputs);
                let (chain, peers) = split_inputs(inputs);
                self.inputs = chain;
                self.progress = RunnerProgress::ApplyingChain { peers };
            },
            _ => {},
        }
    }
}

/// What is left of work once its first effect is taken.
pub open spec fn rest_of_work(before: RunnerWork, after: RunnerWork) -> bool {
    &&& after.effects@ == before.effects@.skip(1)
    &&& after.input == before.input
    &&& after.phase == before.phase
}

/// The failure that a refused outgoing message is.
pub open spec fn refused_outgoing(error: StoreError<()>) -> RunnerError {
    match error {
        StoreError::Identity(error) => RunnerError::Identity(error),
        StoreError::RetrievalMustBeUnicast => RunnerError::RetrievalMustBeUnicast,
        StoreError::Reliable(MessageStoreError::MessageIdCollision(_)) => {
            RunnerError::DeliveryIdCollision
        },
        StoreError::Reliable(MessageStoreError::Journal(_)) => RunnerError::RecoveryWal,
    }
}

/// What becomes of a message for known recipients: it is refused, its slots are
/// filled already, or its delivery starts.
pub open spec fn delivers(
    before: RunnerView,
    after: RunnerView,
    dispatch: Dispatch,
    rest: RunnerWork,
    journal: Result<(), ()>,
    now: u64,
    result: Result<(), RunnerError>,
) -> bool {
    exists|outcome: Result<AcceptedOutgoing, StoreError<()>>| #[trigger]
        accepts_outgoing(
            before.store,
            after.store,
            dispatch.recipients@,
            dispatch.identities@,
            dispatch.message.bytes@,
            journal,
            outcome,
        ) && match outcome {
            Err(error) => {
                &&& result == Err::<(), _>(refused_outgoing(error))
                &&& after == RunnerView { store: after.store, ..before.failed() }
            },
            Ok(accepted) => {
                &&& result is Ok
                &&& if accepted.accepted {
                    exists|sends: Result<Seq<EffectView>, SessionError>| #[trigger]
                        scheduled(
                            before.retries,
                            after.retries,
                            accepted.message_id,
                            nodes_of(before.members, dispatch.recipients@),
                            data_wire(
                                before.epoch,
                                accepted.message_id.keys(),
                                dispatch.message.bytes@,
                            ),
                            dispatch.group,
                            now,
                            sends,
                        ) && after == (RunnerView {
                            store: after.store,
                            retries: after.retries,
                            effects: before.effects + sent_effects(sends),
                            stage: RunnerStage::Working(rest),
                            ..before
                        })
                } else {
                    after == RunnerView {
                        store: after.store,
                        stage: RunnerStage::Working(rest),
                        ..before
                    }
                }
            },
        }
}

/// What leaves where a delivery starts; one that cannot start is dropped.
pub open spec fn sent_effects(sends: Result<Seq<EffectView>, SessionError>) -> Seq<EffectView> {
    match sends {
        Ok(effects) => effects,
        Err(_) => Seq::empty(),
    }
}

/// What becomes of a message of the engine.
pub open spec fn sends_message(
    before: RunnerView,
    after: RunnerView,
    dispatch: Dispatch,
    rest: RunnerWork,
    now: u64,
    result: Result<(), RunnerError>,
) -> bool {
    let unknown = unknown_party(before.members, dispatch.recipients@);
    if dispatch.recipients@.len() == 0 {
        result is Ok && after == RunnerView { stage: RunnerStage::Working(rest), ..before }
    } else if unknown is Some {
        &&& result == Err::<(), _>(
            RunnerError::UnknownParty { action: DeliveryAction::SendTo, party: unknown->Some_0.0 },
        )
        &&& after == before.failed()
    } else if needs_record(before.store.messages(), dispatch.identities@) {
        &&& result is Ok
        &&& after == RunnerView {
            stage: RunnerStage::Persist(Unlogged::Outgoing(dispatch, rest)),
            ..before
        }
    } else {
        delivers(before, after, dispatch, rest, Ok(()), now, result)
    }
}

/// Whether a multicast message comes back to the engine that sent it.
pub open spec fn comes_back(kind: DkgMessageKind) -> bool {
    kind == DkgMessageKind::LowerConversion || kind == DkgMessageKind::OpenPower
}

/// The inputs once a multicast message came back to its sender, unless it is
/// known; one that does not agree with what is known is a failure.
pub open spec fn looped_back(
    before: RunnerView,
    message: DkgMessageView,
    local: Option<PeerIdentity>,
) -> Result<Seq<RunnerInputView>, RunnerError> {
    if !comes_back(message.kind) {
        Ok(before.inputs)
    } else {
        match local {
            None => Err(RunnerError::Identity(IdentityError::Classification)),
            Some(identity) => {
                let input = RunnerPeerView {
                    source: before.self_party,
                    message,
                    identity,
                    record: true,
                    acknowledge: false,
                };
                match input_status(before.store, input) {
                    IncomingStatus::New => Ok(before.inputs.push(RunnerInputView::Peer(input))),
                    IncomingStatus::Duplicate => Ok(before.inputs),
                    IncomingStatus::Conflict => Err(RunnerError::SelfGeneratedMessageConflict),
                }
            },
        }
    }
}

/// Whether `dispatch` sends a message to `recipients`.
pub open spec fn is_dispatch(
    dispatch: Dispatch,
    message: DkgMessage,
    recipients: Seq<PartyId>,
    identities: Vec<Option<RecipientIdentity>>,
    group: Option<DeliveryAbortGroup>,
) -> bool {
    &&& dispatch.message == message
    &&& dispatch.recipients@ == recipients
    &&& dispatch.identities == identities
    &&& dispatch.group == group
}

/// A runner that is ready does what the engine asked for first.
pub open spec fn dispatches_effect(
    before: RunnerView,
    after: RunnerView,
    work: RunnerWork,
    now: u64,
    result: Result<(), RunnerError>,
) -> bool {
    exists|rest: RunnerWork| #[trigger]
        rest_of_work(work, rest) && match work.effects@[0] {
            RunnerEffect::PostToChain(call) => {
                &&& result is Ok
                &&& observes(before.retries, after.retries, call_group(call))
                &&& after == (RunnerView {
                    retries: after.retries,
                    effects: before.effects.push(EffectView::Chain(call)),
                    stage: RunnerStage::Working(rest),
                    ..before
                })
            },
            RunnerEffect::Unicast { to, message, identities } => exists|dispatch: Dispatch| #[trigger]
                is_dispatch(
                    dispatch,
                    message,
                    seq![to],
                    identities,
                    payload_group(message.kind, before.self_party, to),
                ) && sends_message(before, after, dispatch, rest, now, result),
            RunnerEffect::Multicast { message, identities, local } => match looped_back(
                before,
                message@,
                local,
            ) {
                Err(error) => result == Err::<(), _>(error) && after == before.failed(),
                Ok(inputs) => exists|dispatch: Dispatch| #[trigger]
                    is_dispatch(
                        dispatch,
                        message,
                        others(before.members.len(), before.self_party),
                        identities,
                        payload_group(message.kind, before.self_party, before.self_party),
                    ) && sends_message(
                        RunnerView { inputs, ..before },
                        after,
                        dispatch,
                        rest,
                        now,
                        result,
                    ),
            },
        }
}

impl Runner {
    fn fail(&mut self)
        requires
            old(self).wf(),
        ensures
            final(self).wf(),
            final(self)@ == old(self)@.failed(),
    {
        self.stage = RunnerStage::Ready;
        let running: bool = match &self.progress {
            RunnerProgress::Running => true,
            _ => false,
        };
        if !running {
            self.progress = RunnerProgress::AwaitingChain;
        }
    }

    /// Starts the delivery of a message, unless its slots are filled.
    fn deliver(&mut self, dispatch: Dispatch, rest: RunnerWork, journal: Result<(), ()>, now: u64) -> (result:
        Result<(), RunnerError>)
        requires
            old(self).wf(),
            time_fits(now),
            unknown_party(old(self)@.members, dispatch.recipients@) is None,
        ensures
            final(self).wf(),
            delivers(old(self)@, final(self)@, dispatch, rest, journal, now, result),
    {
        let ghost before = self@;
        let ghost whole = dispatch;
        let nodes: Vec<NodeId> = match find_nodes(&self.peers, &dispatch.recipients) {
            Ok(nodes) => nodes,
            Err(_) => Vec::new(),
        };
        let bytes: Vec<u8> = copy_bytes(&dispatch.message.bytes);
        let accepted: Result<AcceptedOutgoing, StoreError<()>> = self.store.accept_outgoing(
            dispatch.recipients,
            &dispatch.identities,
            dispatch.message.bytes,
            journal,
        );
        let ghost outcome = accepted;
        let ghost stored = self.store;
        assert(accepts_outgoing(
            before.store,
            stored,
            whole.recipients@,
            whole.identities@,
            whole.message.bytes@,
            journal,
            outcome,
        ));
        match accepted {
            Err(error) => {
                self.fail();
                Err(
                    match error {
                        StoreError::Identity(error) => RunnerError::Identity(error),
                        StoreError::RetrievalMustBeUnicast => RunnerError::RetrievalMustBeUnicast,
                        StoreError::Reliable(error) => match error {
                            MessageStoreError::MessageIdCollision(_) => RunnerError::DeliveryIdCollision,
                            MessageStoreError::Journal(_) => RunnerError::RecoveryWal,
                        },
                    },
                )
            },
            Ok(accepted) => {
                if !accepted.accepted {
                    self.stage = RunnerStage::Working(rest);
                    return Ok(());
                }
                let wire: Vec<u8> = DeliveryEnvelope::data(
                    self.epoch,
                    accepted.message_id.duplicate(),
                    bytes,
                ).encode();
                let sent: Result<Vec<SessionEffect>, SessionError> = schedule(
                    &mut self.retries,
                    accepted.message_id,
                    nodes,
                    wire,
                    dispatch.group,
                    now,
                );
                let ghost sends = match &sent {
                    Ok(effects) => Ok(effect_views(effects@)),
                    Err(error) => Err(*error),
                };
                let ghost retries = self.retries;
                match sent {
                    Ok(effects) => {
                        append_effects(&mut self.effects, effects);
                    },
                    Err(_) => {
                        assert(before.effects + Seq::<EffectView>::empty() =~= before.effects);
                    },
                }
                self.stage = RunnerStage::Working(rest);
                proof {
                    assert(scheduled(
                        before.retries,
                        retries,
                        outcome->Ok_0.message_id,
                        nodes_of(before.members, whole.recipients@),
                        data_wire(
                            before.epoch,
                            outcome->Ok_0.message_id.keys(),
                            whole.message.bytes@,
                        ),
                        whole.group,
                        now,
                        sends,
                    ));
                    assert(self@ =~= RunnerView {
                        store: self@.store,
                        retries: self@.retries,
                        effects: before.effects + sent_effects(sends),
                        stage: RunnerStage::Working(rest),
                        ..before
                    });
                }
                Ok(())
            },
        }
    }

    /// Sends a message of the engine.
    fn send_message(&mut self, dispatch: Dispatch, rest: RunnerWork, now: u64) -> (result: Result<
        (),
        RunnerError,
    >)
        requires
            old(self).wf(),
            time_fits(now),
        ensures
            final(self).wf(),
            sends_message(old(self)@, final(self)@, dispatch, rest, now, result),
    {
        if dispatch.recipients.len() == 0 {
            self.stage = RunnerStage::Working(rest);
            return Ok(());
        }
        match find_nodes(&self.peers, &dispatch.recipients) {
            Ok(_) => {},
            Err(party) => {
                self.fail();
                return Err(
                    RunnerError::UnknownParty { action: DeliveryAction::SendTo, party: party.0 },
                );
            },
        }
        if self.store.must_journal_outgoing(&dispatch.identities) {
            self.stage = RunnerStage::Persist(Unlogged::Outgoing(dispatch, rest));
            return Ok(());
        }
        self.deliver(dispatch, rest, Ok(()), now)
    }
}

/// What answers the delivery of a peer message that the engine took.
pub open spec fn reply(
    epoch: Epoch,
    members: Seq<NodeId>,
    peer: RunnerPeerInput,
) -> Result<Seq<EffectView>, RunnerError> {
    if !peer.acknowledge {
        Ok(Seq::empty())
    } else {
        match ack_slot(peer.identity) {
            Err(error) => Err(error),
            Ok(slot) => answered(epoch, members, peer.source, slot),
        }
    }
}

/// Whether `after` is `before` without what does not survive a restart.
pub open spec fn cleared(before: DkgMessageStore, after: DkgMessageStore) -> bool {
    &&& after.completed() == before.completed()
    &&& after.messages().same_incoming(before.messages())
    &&& after.messages().outgoing() == before.messages().outgoing().restrict(
        Set::new(
            |id: DkgMessageId|
                before.messages().outgoing().contains_key(id) && before.messages().outgoing()[id] is Some,
        ),
    )
    &&& after.messages().outgoing_slots() == before.messages().outgoing_slots().restrict(
        Set::new(
            |key: DkgMessageKey|
                before.messages().outgoing_slots().contains_key(key)
                    && before.messages().outgoing()[before.messages().outgoing_slots()[key]] is Some,
        ),
    )
}

/// The phase of the engine is noted: the end of secret sharing and of extraction
/// is evidence, and with extraction the retrievals are forgotten.
pub open spec fn notes_engine_phase(
    before: RunnerView,
    after: RunnerView,
    phase: Option<DkgEnginePhase>,
) -> bool {
    match phase {
        None => after == before,
        Some(phase) => {
            &&& after == (RunnerView {
                retries: after.retries,
                store: after.store,
                last_phase: phase,
                ..before
            })
            &&& observes(before.retries, after.retries, phase_evidence(before.last_phase, phase))
            &&& if before.last_phase == DkgEnginePhase::Extraction && phase != before.last_phase {
                cleared(before.store, after.store)
            } else {
                after.store == before.store
            }
        },
    }
}

/// A runner that is ready ends the work on an input: its delivery is answered, then
/// the own messages that it answers are complete, then the phase is noted.
pub open spec fn finishes_work(
    before: RunnerView,
    after: RunnerView,
    work: RunnerWork,
    result: Result<(), RunnerError>,
) -> bool {
    match work.input {
        None => result is Ok && notes_engine_phase(before, after, work.phase),
        Some(peer) => match reply(before.epoch, before.members, peer) {
            Err(error) => result == Err::<(), _>(error) && after == before.failed(),
            Ok(effects) => {
                &&& result is Ok
                &&& completes_next(
                    RunnerView { effects: before.effects + effects, ..before },
                    after,
                    peer.identity.completes@,
                    work.phase,
                )
            },
        },
    }
}

/// A runner that is ready hands its next input to the engine.
pub open spec fn takes_next(before: RunnerView, after: RunnerView, task: RunnerTask) -> bool {
    match before.inputs[0] {
        RunnerInputView::Peer(input) => {
            &&& after == (RunnerView {
                inputs: before.inputs.skip(1),
                stage: after.stage,
                ..before
            })
            &&& after.stage matches RunnerStage::Applying(applying) && applying@ == input
            &&& task matches RunnerTask::ApplyPeer { source, message } && source == input.source
                && message@ == input.message
        },
        RunnerInputView::Chain(event) => {
            &&& after == (RunnerView {
                inputs: before.inputs.skip(1),
                stage: RunnerStage::ApplyingChain,
                ..before
            })
            &&& task == RunnerTask::ApplyChain(event)
        },
    }
}

/// A runner sends the first message of the recovery log again, unless its
/// recipient has it or is unknown.
pub open spec fn replays_next(before: RunnerView, after: RunnerView, now: u64) -> bool {
    let send = before.deferred[0];
    let left = before.deferred.skip(1);
    if before.store.completed().contains((send.message_id, send.to)) || send.to.0
        >= before.members.len() {
        after == RunnerView { deferred: left, ..before }
    } else {
        exists|sends: Result<Seq<EffectView>, SessionError>| #[trigger]
            scheduled(
                before.retries,
                after.retries,
                send.message_id,
                seq![before.members[send.to.0 as int]],
                data_wire(before.epoch, send.message_id.keys(), send.payload@),
                payload_group(send.kind, before.self_party, send.to),
                now,
                sends,
            ) && after == (RunnerView {
                deferred: left,
                retries: after.retries,
                effects: before.effects + sent_effects(sends),
                ..before
            })
    }
}

/// What a runner that is ready does next.
pub open spec fn advances(before: RunnerView, after: RunnerView, now: u64, task: RunnerTask) -> bool {
    match before.progress {
        RunnerProgress::AwaitingChain => after == before && task == RunnerTask::Idle,
        RunnerProgress::StartingEngine => if before.engine_started {
            &&& after == RunnerView { progress: RunnerProgress::Initializing, ..before }
            &&& task == RunnerTask::Continue
        } else {
            &&& after == RunnerView { stage: RunnerStage::Starting, ..before }
            &&& task == RunnerTask::StartEngine
        },
        RunnerProgress::ApplyingChain { peers } => if before.inputs.len() > 0 {
            takes_next(before, after, task)
        } else if before.engine_started {
            &&& after == RunnerView { progress: RunnerProgress::Started { peers }, ..before }
            &&& task == RunnerTask::Continue
        } else {
            &&& after == RunnerView { stage: RunnerStage::Starting, ..before }
            &&& task == RunnerTask::StartEngine
        },
        RunnerProgress::Started { peers } => {
            &&& after == (RunnerView {
                inputs: before.inputs + runner_inputs(peers@),
                progress: RunnerProgress::Replaying,
                ..before
            })
            &&& task == RunnerTask::Continue
        },
        RunnerProgress::Initializing => if before.inputs.len() > 0 {
            takes_next(before, after, task)
        } else if before.deferred.len() > 0 {
            replays_next(before, after, now) && task == RunnerTask::Continue
        } else {
            &&& after == RunnerView { stage: RunnerStage::Noting, ..before }
            &&& task == RunnerTask::TellPhase
        },
        RunnerProgress::Replaying => if before.inputs.len() > 0 {
            takes_next(before, after, task)
        } else if before.deferred.len() > 0 {
            replays_next(before, after, now) && task == RunnerTask::Continue
        } else {
            &&& after == RunnerView { progress: RunnerProgress::Running, ..before }
            &&& task == RunnerTask::Continue
        },
        RunnerProgress::Running => if before.inputs.len() > 0 {
            takes_next(before, after, task)
        } else {
            after == before && task == RunnerTask::Idle
        },
    }
}

/// The record that has to be in the recovery log.
pub open spec fn wanted_record(unlogged: Unlogged) -> RunnerRecordView {
    match unlogged {
        Unlogged::Incoming(work) => RunnerRecordView::Session(
            RecordView::Incoming {
                source: work.input->Some_0.source,
                payload: work.input->Some_0.message.bytes@,
            },
        ),
        Unlogged::Outgoing(dispatch, _) => RunnerRecordView::Session(
            RecordView::Outgoing {
                recipients: dispatch.recipients@,
                payload: dispatch.message.bytes@,
            },
        ),
        Unlogged::Completion(completion) => RunnerRecordView::Completion {
            keys: completion.message_id.keys(),
            target: completion.target,
        },
    }
}

/// What one step does.
pub open spec fn runner_steps(
    before: RunnerView,
    after: RunnerView,
    now: u64,
    result: Result<RunnerTask, RunnerError>,
) -> bool {
    let ready = RunnerView { stage: RunnerStage::Ready, ..before };
    match before.stage {
        RunnerStage::Ready => result is Ok && advances(before, after, now, result->Ok_0),
        RunnerStage::Persist(unlogged) => {
            &&& after == RunnerView { stage: RunnerStage::Journaling(unlogged), ..before }
            &&& result matches Ok(RunnerTask::Append(record)) && record@ == wanted_record(unlogged)
        },
        RunnerStage::Working(work) => match result {
            Ok(task) => {
                &&& task == RunnerTask::Continue
                &&& if work.effects@.len() > 0 {
                    dispatches_effect(ready, after, work, now, Ok(()))
                } else {
                    finishes_work(ready, after, work, Ok(()))
                }
            },
            Err(error) => if work.effects@.len() > 0 {
                dispatches_effect(ready, after, work, now, Err(error))
            } else {
                finishes_work(ready, after, work, Err(error))
            },
        },
        _ => true,
    }
}

/// Whether a runner waits for the outcome of a task.
pub open spec fn awaits_outcome(stage: RunnerStage) -> bool {
    stage is Applying || stage is ApplyingChain || stage is Starting || stage is Noting
        || stage is Journaling
}

/// Whether what waits for the recovery log can go on: an accepted message has an
/// input, a message to send has known recipients, and a completion is news.
pub open spec fn can_go_on(unlogged: Unlogged, members: Seq<NodeId>, store: DkgMessageStore) -> bool {
    match unlogged {
        Unlogged::Incoming(work) => work.input is Some,
        Unlogged::Outgoing(dispatch, _) => unknown_party(members, dispatch.recipients@) is None,
        Unlogged::Completion(completion) => completion_news(store, completion.key, completion.target)
            == Some(completion.message_id),
    }
}

/// Whether a stage is consistent.
pub open spec fn stage_wf(stage: RunnerStage, members: Seq<NodeId>, store: DkgMessageStore) -> bool {
    match stage {
        RunnerStage::Persist(unlogged) => can_go_on(unlogged, members, store),
        RunnerStage::Journaling(unlogged) => can_go_on(unlogged, members, store),
        _ => true,
    }
}

impl Runner {
    /// Does what the engine asked for first.
    fn dispatch_effects(&mut self, work: RunnerWork, now: u64) -> (result: Result<(), RunnerError>)
        requires
            old(self).wf(),
            time_fits(now),
            work.effects@.len() > 0,
        ensures
            final(self).wf(),
            dispatches_effect(old(self)@, final(self)@, work, now, result),
    {
        let ghost before = self@;
        let ghost whole = work;
        let mut rest: RunnerWork = work;
        let effect: RunnerEffect = rest.effects.remove(0);
        proof {
            assert(rest.effects@ =~= whole.effects@.skip(1));
            assert(rest_of_work(whole, rest));
        }
        match effect {
            RunnerEffect::Unicast { to, message, identities } => {
                let group: Option<DeliveryAbortGroup> = delivery_abort_group_for_peer_payload(
                    message.kind,
                    self.self_party,
                    to,
                );
                let mut recipients: Vec<PartyId> = Vec::new();
                recipients.push(to);
                assert(recipients@ =~= seq![to]);
                let dispatch = Dispatch { message, recipients, identities, group };
                assert(is_dispatch(
                    dispatch,
                    message,
                    seq![to],
                    identities,
                    payload_group(message.kind, before.self_party, to),
                ));
                self.send_message(dispatch, rest, now)
            },
            RunnerEffect::Multicast { message, identities, local } => {
                let ghost looped = looped_back(before, message@, local);
                match self.loop_back(&message, local) {
                    Ok(()) => {},
                    Err(error) => {
                        self.fail();
                        return Err(error);
                    },
                }
                let group: Option<DeliveryAbortGroup> = delivery_abort_group_for_peer_payload(
                    message.kind,
                    self.self_party,
                    self.self_party,
                );
                let recipients: Vec<PartyId> = self.peers.other_parties(self.self_party);
                let dispatch = Dispatch { message, recipients, identities, group };
                assert(is_dispatch(
                    dispatch,
                    message,
                    others(before.members.len(), before.self_party),
                    identities,
                    payload_group(message.kind, before.self_party, before.self_party),
                ));
                assert(self@ =~= RunnerView { inputs: looped->Ok_0, ..before });
                self.send_message(dispatch, rest, now)
            },
            RunnerEffect::PostToChain(call) => {
                self.handle_chain_call(call);
                self.stage = RunnerStage::Working(rest);
                Ok(())
            },
        }
    }

    /// Hands a multicast message back to the engine that sent it, where it has to
    /// see it.
    fn loop_back(&mut self, message: &DkgMessage, local: Option<PeerIdentity>) -> (result: Result<
        (),
        RunnerError,
    >)
        requires
            old(self).wf(),
        ensures
            final(self).wf(),
            match looped_back(old(self)@, message@, local) {
                Ok(inputs) => result is Ok && final(self)@ == (RunnerView { inputs, ..old(self)@ }),
                Err(error) => result == Err::<(), _>(error) && final(self)@ == old(self)@,
            },
    {
        let back: bool = match message.kind {
            DkgMessageKind::LowerConversion => true,
            DkgMessageKind::OpenPower => true,
            _ => false,
        };
        if !back {
            return Ok(());
        }
        let identity: PeerIdentity = match local {
            Some(identity) => identity,
            None => {
                return Err(RunnerError::Identity(IdentityError::Classification));
            },
        };
        let input = RunnerPeerInput {
            source: self.self_party,
            message: message.duplicate(),
            identity,
            record: true,
            acknowledge: false,
        };
        let record: IncomingRecord<PartyId, DkgMessageId> = record_of(&input);
        match self.store.incoming_status(&record, &input.identity.slots) {
            IncomingStatus::New => {
                let ghost earlier = self.inputs@;
                let ghost view = input@;
                self.inputs.push(RunnerInput::Peer(input));
                assert(runner_inputs(self.inputs@) =~= runner_inputs(earlier).push(
                    RunnerInputView::Peer(view),
                ));
                Ok(())
            },
            IncomingStatus::Duplicate => Ok(()),
            IncomingStatus::Conflict => Err(RunnerError::SelfGeneratedMessageConflict),
        }
    }

    /// Answers the delivery of a peer message.
    fn answer(&mut self, peer: &RunnerPeerInput) -> (result: Result<(), RunnerError>)
        requires
            old(self).wf(),
        ensures
            final(self).wf(),
            match reply(old(self)@.epoch, old(self)@.members, *peer) {
                Ok(effects) => {
                    &&& result is Ok
                    &&& final(self)@ == (RunnerView {
                        effects: old(self)@.effects + effects,
                        ..old(self)@
                    })
                },
                Err(error) => result == Err::<(), _>(error) && final(self)@ == old(self)@,
            },
    {
        let ghost before = self@;
        if !peer.acknowledge {
            assert(before.effects + Seq::<EffectView>::empty() =~= before.effects);
            return Ok(());
        }
        match find_ack_slot(&peer.identity) {
            Ok(slot) => self.finish_inbound_delivery(peer.source, slot),
            Err(error) => Err(error),
        }
    }

    /// Notes the phase of the engine.
    fn log_phase_change(&mut self, phase: DkgEnginePhase)
        requires
            old(self).wf(),
            old(self)@.stage is Ready,
        ensures
            final(self).wf(),
            notes_engine_phase(old(self)@, final(self)@, Some(phase)),
    {
        if phase == self.last_phase {
            return;
        }
        match self.last_phase {
            DkgEnginePhase::Vss => {
                observe_group(&mut self.retries, Some(DeliveryAbortGroup::Vss));
            },
            DkgEnginePhase::Extraction => {
                observe_group(&mut self.retries, Some(DeliveryAbortGroup::Extraction));
                self.store.clear_ephemeral();
            },
            _ => {},
        }
        self.last_phase = phase;
    }

    /// Ends the work on an input.
    fn finish_work(&mut self, work: RunnerWork) -> (result: Result<(), RunnerError>)
        requires
            old(self).wf(),
            old(self)@.stage is Ready,
        ensures
            final(self).wf(),
            finishes_work(old(self)@, final(self)@, work, result),
    {
        match work.input {
            Some(peer) => match self.answer(&peer) {
                Ok(()) => {
                    self.complete_from_application(peer.identity.completes, work.phase);
                    Ok(())
                },
                Err(error) => {
                    self.fail();
                    Err(error)
                },
            },
            None => {
                match work.phase {
                    Some(phase) => {
                        self.log_phase_change(phase);
                    },
                    None => {},
                }
                Ok(())
            },
        }
    }

    /// Hands the next input to the engine.
    fn take_input(&mut self) -> (task: RunnerTask)
        requires
            old(self).wf(),
            old(self)@.inputs.len() > 0,
        ensures
            final(self).wf(),
            takes_next(old(self)@, final(self)@, task),
    {
        let ghost before = self.inputs@;
        let input: RunnerInput = self.inputs.remove(0);
        assert(runner_inputs(self.inputs@) =~= runner_inputs(before).skip(1));
        match input {
            RunnerInput::Peer(peer) => {
                let source: PartyId = peer.source;
                let message: DkgMessage = peer.message.duplicate();
                self.stage = RunnerStage::Applying(peer);
                RunnerTask::ApplyPeer { source, message }
            },
            RunnerInput::Chain(event) => {
                self.stage = RunnerStage::ApplyingChain;
                RunnerTask::ApplyChain(event)
            },
        }
    }

    /// Sends the first message of the recovery log again.
    fn replay_outgoing(&mut self, now: u64)
        requires
            old(self).wf(),
            time_fits(now),
            old(self)@.deferred.len() > 0,
        ensures
            final(self).wf(),
            replays_next(old(self)@, final(self)@, now),
    {
        let ghost before = self@;
        let send: DeferredSend = self.deferred.remove(0);
        assert(self.deferred@ =~= before.deferred.skip(1));
        if self.store.is_complete(&send.message_id, send.to) {
            return;
        }
        let node: NodeId = match self.peers.member_id(send.to) {
            Some(node) => node,
            None => {
                return;
            },
        };
        let group: Option<DeliveryAbortGroup> = delivery_abort_group_for_peer_payload(
            send.kind,
            self.self_party,
            send.to,
        );
        let mut nodes: Vec<NodeId> = Vec::new();
        nodes.push(node);
        assert(nodes@ =~= seq![before.members[send.to.0 as int]]);
        let wire: Vec<u8> = DeliveryEnvelope::data(
            self.epoch,
            send.message_id.duplicate(),
            copy_bytes(&send.payload),
        ).encode();
        let ghost payload = send.payload@;
        let sent: Result<Vec<SessionEffect>, SessionError> = schedule(
            &mut self.retries,
            send.message_id,
            nodes,
            wire,
            group,
            now,
        );
        let ghost sends = match &sent {
            Ok(effects) => Ok(effect_views(effects@)),
            Err(error) => Err(*error),
        };
        let ghost retries = self.retries;
        match sent {
            Ok(effects) => {
                append_effects(&mut self.effects, effects);
            },
            Err(_) => {
                assert(before.effects + Seq::<EffectView>::empty() =~= before.effects);
            },
        }
        proof {
            let first = before.deferred[0];
            assert(scheduled(
                before.retries,
                retries,
                first.message_id,
                seq![before.members[first.to.0 as int]],
                data_wire(before.epoch, first.message_id.keys(), first.payload@),
                payload_group(first.kind, before.self_party, first.to),
                now,
                sends,
            ));
            assert(self@ =~= RunnerView {
                deferred: before.deferred.skip(1),
                retries: self@.retries,
                effects: before.effects + sent_effects(sends),
                ..before
            });
        }
    }
}

/// What an accepted peer message becomes: it is kept, known already, or does not
/// agree with what is known.
pub open spec fn takes_accepted(
    before: RunnerView,
    after: RunnerView,
    work: RunnerWork,
    result: Result<(), RunnerError>,
) -> bool {
    let input = work.input->Some_0@;
    match input_status(before.store, input) {
        IncomingStatus::Conflict => {
            &&& result == Err::<(), _>(RunnerError::DurableIngressConflict)
            &&& after == before.failed()
        },
        IncomingStatus::Duplicate => {
            result is Ok && after == RunnerView { stage: RunnerStage::Working(work), ..before }
        },
        IncomingStatus::New => {
            &&& result is Ok
            &&& if input.identity.slots.persistence == MessagePersistence::Durable {
                &&& keeps_incoming(before.store, after.store, input)
                &&& after == RunnerView {
                    store: after.store,
                    stage: RunnerStage::Working(work),
                    ..before
                }
            } else {
                after == RunnerView { stage: RunnerStage::Working(work), ..before }
            }
        },
    }
}

/// The work that follows a peer message.
pub open spec fn is_peer_work(
    work: RunnerWork,
    effects: Vec<RunnerEffect>,
    input: RunnerPeerView,
    phase: DkgEnginePhase,
) -> bool {
    &&& work.effects == effects
    &&& work.input matches Some(peer) && peer@ == input
    &&& work.phase == Some(phase)
}

/// What a runner that is ready does with what the engine made of `input`.
pub open spec fn applies_peer(
    before: RunnerView,
    after: RunnerView,
    input: RunnerPeerView,
    outcome: RunnerOutcome,
    result: Result<(), RunnerError>,
) -> bool {
    match outcome {
        RunnerOutcome::Failed => {
            &&& result == Err::<(), _>(RunnerError::Engine { action: EngineAction::HandlePeerInput })
            &&& after == before.failed()
        },
        RunnerOutcome::Rejected => if input.acknowledge && input.source.0 >= before.members.len() {
            &&& result == Err::<(), _>(
                RunnerError::UnknownParty {
                    action: DeliveryAction::FinishInbound,
                    party: input.source.0,
                },
            )
            &&& after == before.failed()
        } else {
            result is Ok && after == before
        },
        RunnerOutcome::Applied { effects, phase } => {
            let status = input_status(before.store, input);
            if input.record && status == IncomingStatus::Conflict {
                &&& result == Err::<(), _>(RunnerError::DurableIngressConflict)
                &&& after == before.failed()
            } else {
                let durable = input.identity.slots.persistence == MessagePersistence::Durable;
                &&& result is Ok
                &&& after == RunnerView { stage: after.stage, ..before }
                &&& if input.record && status == IncomingStatus::New && durable {
                    after.stage matches RunnerStage::Persist(Unlogged::Incoming(work))
                        && is_peer_work(work, effects, input, phase)
                } else {
                    after.stage matches RunnerStage::Working(work) && is_peer_work(
                        work,
                        effects,
                        input,
                        phase,
                    )
                }
            }
        },
    }
}

impl Runner {
    /// Decides what a runner that is ready does next.
    fn advance(&mut self, now: u64) -> (task: RunnerTask)
        requires
            old(self).wf(),
            old(self)@.stage is Ready,
            time_fits(now),
        ensures
            final(self).wf(),
            advances(old(self)@, final(self)@, now, task),
    {
        let ghost before = self@;
        let waiting: bool = self.inputs.len() > 0;
        assert(before.inputs.len() == self.inputs@.len());
        let mut progress: RunnerProgress = RunnerProgress::Running;
        std::mem::swap(&mut progress, &mut self.progress);
        match progress {
            RunnerProgress::AwaitingChain => {
                self.progress = RunnerProgress::AwaitingChain;
                RunnerTask::Idle
            },
            RunnerProgress::StartingEngine => {
                if self.engine_started {
                    self.progress = RunnerProgress::Initializing;
                    RunnerTask::Continue
                } else {
                    self.progress = RunnerProgress::StartingEngine;
                    self.stage = RunnerStage::Starting;
                    RunnerTask::StartEngine
                }
            },
            RunnerProgress::ApplyingChain { peers } => {
                if waiting {
                    self.progress = RunnerProgress::ApplyingChain { peers };
                    assert(self@ == before);
                    self.take_input()
                } else if self.engine_started {
                    self.progress = RunnerProgress::Started { peers };
                    RunnerTask::Continue
                } else {
                    self.progress = RunnerProgress::ApplyingChain { peers };
                    self.stage = RunnerStage::Starting;
                    RunnerTask::StartEngine
                }
            },
            RunnerProgress::Started { peers } => {
                let ghost earlier = self.inputs@;
                let ghost held = peers@;
                let mut peers: Vec<RunnerInput> = peers;
                self.inputs.append(&mut peers);
                assert(self.inputs@ =~= earlier + held);
                assert(runner_inputs(self.inputs@) =~= runner_inputs(earlier) + runner_inputs(held));
                self.progress = RunnerProgress::Replaying;
                RunnerTask::Continue
            },
            RunnerProgress::Initializing => {
                self.progress = RunnerProgress::Initializing;
                assert(self@ == before);
                if waiting {
                    self.take_input()
                } else if self.deferred.len() > 0 {
                    self.replay_outgoing(now);
                    RunnerTask::Continue
                } else {
                    self.stage = RunnerStage::Noting;
                    RunnerTask::TellPhase
                }
            },
            RunnerProgress::Replaying => {
                if waiting {
                    self.progress = RunnerProgress::Replaying;
                    assert(self@ == before);
                    self.take_input()
                } else if self.deferred.len() > 0 {
                    self.progress = RunnerProgress::Replaying;
                    assert(self@ == before);
                    self.replay_outgoing(now);
                    RunnerTask::Continue
                } else {
                    self.progress = RunnerProgress::Running;
                    RunnerTask::Continue
                }
            },
            RunnerProgress::Running => {
                if waiting {
                    assert(self@ == before);
                    self.take_input()
                } else {
                    RunnerTask::Idle
                }
            },
        }
    }

    /// Decides what is to be done next.
    pub fn step(&mut self, now: u64) -> (result: Result<RunnerTask, RunnerError>)
        requires
            old(self).wf(),
            !awaits_outcome(old(self)@.stage),
            time_fits(now),
        ensures
            final(self).wf(),
            runner_steps(old(self)@, final(self)@, now, result),
    {
        let ghost before = self@;
        let mut stage: RunnerStage = RunnerStage::Ready;
        std::mem::swap(&mut stage, &mut self.stage);
        let ghost ready = RunnerView { stage: RunnerStage::Ready, ..before };
        assert(self@ =~= ready);
        match stage {
            RunnerStage::Ready => {
                assert(ready =~= before);
                Ok(self.advance(now))
            },
            RunnerStage::Persist(unlogged) => {
                let record: RunnerRecord = record_for(&unlogged);
                self.stage = RunnerStage::Journaling(unlogged);
                Ok(RunnerTask::Append(record))
            },
            RunnerStage::Working(work) => {
                let done: Result<(), RunnerError> = if work.effects.len() > 0 {
                    self.dispatch_effects(work, now)
                } else {
                    self.finish_work(work)
                };
                match done {
                    Ok(unit) => {
                        assert(unit == ());
                        Ok(RunnerTask::Continue)
                    },
                    Err(error) => Err(error),
                }
            },
            other => {
                self.stage = other;
                Ok(RunnerTask::Continue)
            },
        }
    }

    /// Takes what the engine made of a peer message. Before anything else leaves
    /// the node, an accepted message goes to the recovery log.
    pub fn peer_applied(&mut self, outcome: RunnerOutcome) -> (result: Result<(), RunnerError>)
        requires
            old(self).wf(),
            old(self)@.stage is Applying,
        ensures
            final(self).wf(),
            applies_peer(
                RunnerView { stage: RunnerStage::Ready, ..old(self)@ },
                final(self)@,
                old(self)@.stage->Applying_0@,
                outcome,
                result,
            ),
    {
        let ghost before = self@;
        let mut stage: RunnerStage = RunnerStage::Ready;
        std::mem::swap(&mut stage, &mut self.stage);
        assert(self@ =~= RunnerView { stage: RunnerStage::Ready, ..before });
        let input: RunnerPeerInput = match stage {
            RunnerStage::Applying(input) => input,
            _ => {
                return Ok(());
            },
        };
        match outcome {
            RunnerOutcome::Failed => {
                self.fail();
                Err(RunnerError::Engine { action: EngineAction::HandlePeerInput })
            },
            RunnerOutcome::Rejected => {
                if input.acknowledge && self.peers.member_id(input.source).is_none() {
                    self.fail();
                    Err(
                        RunnerError::UnknownParty {
                            action: DeliveryAction::FinishInbound,
                            party: input.source.0,
                        },
                    )
                } else {
                    Ok(())
                }
            },
            RunnerOutcome::Applied { effects, phase } => {
                let record: IncomingRecord<PartyId, DkgMessageId> = record_of(&input);
                let status: IncomingStatus = self.store.incoming_status(&record, &input.identity.slots);
                if input.record && status == IncomingStatus::Conflict {
                    self.fail();
                    return Err(RunnerError::DurableIngressConflict);
                }
                let unlogged: bool = input.record && status == IncomingStatus::New
                    && input.identity.slots.persistence == MessagePersistence::Durable;
                let work = RunnerWork { effects, input: Some(input), phase: Some(phase) };
                if unlogged {
                    self.stage = RunnerStage::Persist(Unlogged::Incoming(work));
                } else {
                    self.stage = RunnerStage::Working(work);
                }
                Ok(())
            },
        }
    }

    /// Takes what the engine made of a chain event, or its failure.
    pub fn chain_applied(&mut self, outcome: Option<(Vec<RunnerEffect>, DkgEnginePhase)>) -> (result:
        Result<(), RunnerError>)
        requires
            old(self).wf(),
            old(self)@.stage is ApplyingChain,
        ensures
            final(self).wf(),
            match outcome {
                Some((effects, phase)) => {
                    &&& result is Ok
                    &&& final(self)@ == (RunnerView {
                        stage: RunnerStage::Working(
                            RunnerWork { effects, input: None, phase: Some(phase) },
                        ),
                        ..old(self)@
                    })
                },
                None => {
                    &&& result == Err::<(), _>(
                        RunnerError::Engine { action: EngineAction::HandleChainInput },
                    )
                    &&& final(self)@ == old(self)@.failed()
                },
            },
    {
        match outcome {
            Some((effects, phase)) => {
                self.stage =
                RunnerStage::Working(RunnerWork { effects, input: None, phase: Some(phase) });
                Ok(())
            },
            None => {
                self.fail();
                Err(RunnerError::Engine { action: EngineAction::HandleChainInput })
            },
        }
    }

    /// Takes what the engine does at its start, or its failure.
    pub fn engine_started(&mut self, outcome: Option<Vec<RunnerEffect>>) -> (result: Result<
        (),
        RunnerError,
    >)
        requires
            old(self).wf(),
            old(self)@.stage is Starting,
        ensures
            final(self).wf(),
            match outcome {
                Some(effects) => {
                    &&& result is Ok
                    &&& final(self)@ == (RunnerView {
                        engine_started: true,
                        progress: (match old(self)@.progress {
                            RunnerProgress::ApplyingChain { peers } => RunnerProgress::Started { peers },
                            RunnerProgress::StartingEngine => RunnerProgress::Initializing,
                            progress => progress,
                        }),
                        stage: RunnerStage::Working(
                            RunnerWork { effects, input: None, phase: None },
                        ),
                        ..old(self)@
                    })
                },
                None => {
                    &&& result == Err::<(), _>(RunnerError::Engine { action: EngineAction::Start })
                    &&& final(self)@ == old(self)@.failed()
                },
            },
    {
        match outcome {
            Some(effects) => {
                let mut progress: RunnerProgress = RunnerProgress::Running;
                std::mem::swap(&mut progress, &mut self.progress);
                self.progress =
                match progress {
                    RunnerProgress::ApplyingChain { peers } => RunnerProgress::Started { peers },
                    RunnerProgress::StartingEngine => RunnerProgress::Initializing,
                    progress => progress,
                };
                self.engine_started = true;
                self.stage =
                RunnerStage::Working(RunnerWork { effects, input: None, phase: None });
                Ok(())
            },
            None => {
                self.fail();
                Err(RunnerError::Engine { action: EngineAction::Start })
            },
        }
    }

    /// Takes the phase that the engine is in at the end of a start that did not wait
    /// for the chain: a phase that ended meanwhile is evidence.
    pub fn phase_told(&mut self, phase: DkgEnginePhase)
        requires
            old(self).wf(),
            old(self)@.stage is Noting,
        ensures
            final(self).wf(),
            notes_engine_phase(
                RunnerView {
                    progress: RunnerProgress::Running,
                    stage: RunnerStage::Ready,
                    ..old(self)@
                },
                final(self)@,
                Some(phase),
            ),
    {
        self.progress = RunnerProgress::Running;
        self.stage = RunnerStage::Ready;
        self.log_phase_change(phase);
    }

    /// Takes whether the recovery log has the record. What waited for it goes on
    /// only where it does.
    pub fn journaled(&mut self, written: bool, now: u64) -> (result: Result<(), RunnerError>)
        requires
            old(self).wf(),
            old(self)@.stage is Journaling,
            time_fits(now),
        ensures
            final(self).wf(),
            ({
                let ready = RunnerView { stage: RunnerStage::Ready, ..old(self)@ };
                match old(self)@.stage {
                    RunnerStage::Journaling(Unlogged::Incoming(work)) => if written {
                        takes_accepted(ready, final(self)@, work, result)
                    } else {
                        &&& result == Err::<(), _>(RunnerError::RecoveryWal)
                        &&& final(self)@ == ready.failed()
                    },
                    RunnerStage::Journaling(Unlogged::Outgoing(dispatch, rest)) => delivers(
                        ready,
                        final(self)@,
                        dispatch,
                        rest,
                        (if written {
                            Ok(())
                        } else {
                            Err(())
                        }),
                        now,
                        result,
                    ),
                    RunnerStage::Journaling(Unlogged::Completion(completion)) => completes_logged(
                        ready,
                        final(self)@,
                        completion,
                        written,
                        result,
                    ),
                    _ => true,
                }
            }),
    {
        let ghost before = self@;
        let mut stage: RunnerStage = RunnerStage::Ready;
        std::mem::swap(&mut stage, &mut self.stage);
        assert(self@ =~= RunnerView { stage: RunnerStage::Ready, ..before });
        match stage {
            RunnerStage::Journaling(unlogged) => match unlogged {
                Unlogged::Incoming(work) => {
                    if written {
                        self.accept_input(work)
                    } else {
                        self.fail();
                        Err(RunnerError::RecoveryWal)
                    }
                },
                Unlogged::Outgoing(dispatch, rest) => {
                    let journal: Result<(), ()> = if written {
                        Ok(())
                    } else {
                        Err(())
                    };
                    self.deliver(dispatch, rest, journal, now)
                },
                Unlogged::Completion(completion) => self.complete(completion, written),
            },
            other => {
                self.stage = other;
                Ok(())
            },
        }
    }

    /// Ends a delivery whose completion is in the recovery log.
    fn complete(&mut self, completion: Completion, written: bool) -> (result: Result<(), RunnerError>)
        requires
            old(self).wf(),
            old(self)@.stage is Ready,
            completion_news(old(self)@.store, completion.key, completion.target) == Some(
                completion.message_id,
            ),
        ensures
            final(self).wf(),
            completes_logged(old(self)@, final(self)@, completion, written, result),
    {
        let ghost before = self@;
        let journal: Result<(), ()> = if written {
            Ok(())
        } else {
            Err(())
        };
        match self.store.complete_key(&completion.key, completion.target, journal) {
            Ok(_) => {},
            Err(_) => {
                self.fail();
                return Err(RunnerError::RecoveryWal);
            },
        }
        match self.peers.member_id(completion.target) {
            Some(peer) => {
                self.retries.acknowledge(&completion.message_id, peer);
                assert(ends_delivery(before, self@, completion.message_id, completion.target));
                self.complete_from_application(completion.rest, completion.phase);
                Ok(())
            },
            None => {
                assert(ends_delivery(before, self@, completion.message_id, completion.target));
                self.fail();
                Err(
                    RunnerError::UnknownParty {
                        action: DeliveryAction::CompleteOutbound,
                        party: completion.target.0,
                    },
                )
            },
        }
    }

    /// Keeps an accepted peer message whose record is in the recovery log.
    fn accept_input(&mut self, work: RunnerWork) -> (result: Result<(), RunnerError>)
        requires
            old(self).wf(),
            work.input is Some,
        ensures
            final(self).wf(),
            takes_accepted(old(self)@, final(self)@, work, result),
    {
        let mut conflict: bool = false;
        match &work.input {
            Some(input) => {
                let record: IncomingRecord<PartyId, DkgMessageId> = record_of(input);
                let status: IncomingStatus = self.store.incoming_status(&record, &input.identity.slots);
                if status == IncomingStatus::New && input.identity.slots.persistence
                    == MessagePersistence::Durable {
                    let kept: Result<IncomingStatus, StoreError<()>> = self.store.accept_incoming(
                        record,
                        &input.identity.slots,
                        Ok(()),
                    );
                }
                conflict = status == IncomingStatus::Conflict;
            },
            None => {},
        }
        if conflict {
            self.fail();
            return Err(RunnerError::DurableIngressConflict);
        }
        self.stage = RunnerStage::Working(work);
        Ok(())
    }
}

fn record_for(unlogged: &Unlogged) -> (record: RunnerRecord)
    requires
        unlogged matches Unlogged::Incoming(work) ==> work.input is Some,
    ensures
        record@ == wanted_record(*unlogged),
{
    match unlogged {
        Unlogged::Incoming(work) => match &work.input {
            Some(input) => RunnerRecord::Session(
                RecoveryRecord::Incoming {
                    source: input.source,
                    payload: copy_bytes(&input.message.bytes),
                },
            ),
            None => RunnerRecord::Session(
                RecoveryRecord::Incoming { source: PartyId(0), payload: Vec::new() },
            ),
        },
        Unlogged::Outgoing(dispatch, _) => RunnerRecord::Session(
            RecoveryRecord::Outgoing {
                recipients: crate::reliable::message::copy_keys(&dispatch.recipients),
                payload: copy_bytes(&dispatch.message.bytes),
            },
        ),
        Unlogged::Completion(completion) => RunnerRecord::Completion {
            message_id: completion.message_id.duplicate(),
            target: completion.target,
        },
    }
}

/// A runner that waits for the chain does nothing, whatever came in.
pub proof fn law_waiting_runner_is_idle(
    before: RunnerView,
    after: RunnerView,
    now: u64,
    result: Result<RunnerTask, RunnerError>,
)
    requires
        before.progress is AwaitingChain,
        before.stage is Ready,
        runner_steps(before, after, now, result),
    ensures
        after == before,
        result == Ok::<RunnerTask, RunnerError>(RunnerTask::Idle),
{
}

/// A message that the engine rejects leaves no trace: it is not kept, not
/// answered, and changes nothing.
pub proof fn law_rejected_message_leaves_no_trace(
    before: RunnerView,
    after: RunnerView,
    input: RunnerPeerView,
    result: Result<(), RunnerError>,
)
    requires
        input.source.0 < before.members.len(),
        applies_peer(before, after, input, RunnerOutcome::Rejected, result),
    ensures
        result is Ok,
        after == before,
{
}

/// A new durable message that the engine took is logged before it is kept,
/// answered, or anything that it causes leaves the node.
pub proof fn law_accepted_message_is_logged_first(
    before: RunnerView,
    after: RunnerView,
    input: RunnerPeerView,
    effects: Vec<RunnerEffect>,
    phase: DkgEnginePhase,
    result: Result<(), RunnerError>,
)
    requires
        input.record,
        input.identity.slots.persistence == MessagePersistence::Durable,
        input_status(before.store, input) == IncomingStatus::New,
        applies_peer(before, after, input, RunnerOutcome::Applied { effects, phase }, result),
    ensures
        after.stage is Persist,
        after.effects == before.effects,
        after.store == before.store,
        after.retries == before.retries,
{
}

/// Once a durable message is kept, the same message is known, and another one for
/// one of its slots is a conflict.
pub proof fn law_kept_message_is_known(
    before: DkgMessageStore,
    after: DkgMessageStore,
    input: RunnerPeerView,
    again: RunnerPeerView,
)
    requires
        keeps_incoming(before, after, input),
        input.identity.slots.persistence == MessagePersistence::Durable,
        input.identity.slots.keys@.len() > 0,
        again.identity == input.identity,
    ensures
        input_status(after, again) == (if again.message.bytes == input.message.bytes {
            IncomingStatus::Duplicate
        } else {
            IncomingStatus::Conflict
        }),
{
    let keys = input.identity.slots.keys@;
    let slots = after.messages().incoming_slots();
    assert(keys.contains(keys[0]));
    assert(slots.contains_key(keys[0]));
    let place = crate::reliable::message::first_filled(slots, keys);
    assert(0 <= 0 < keys.len() && slots.contains_key(keys[0]) && forall|j: int|
        0 <= j < 0 ==> !slots.contains_key(#[trigger] keys[j]));
    assert(0 <= place < keys.len());
    assert(keys.contains(keys[place]));
    assert(slots[keys[place]] == input.identity.slots.message_id);
}

/// A delivery that a member completes is logged before it counts as complete: until
/// then it is neither forgotten nor ended. What the log did not take is not complete.
pub proof fn law_completion_is_logged_first(
    before: RunnerView,
    asked: RunnerView,
    after: RunnerView,
    key: DkgMessageKey,
    from: PartyId,
    result: Result<(), RunnerError>,
)
    requires
        completion_news(before.store, key, from) is Some,
        completes_next(before, asked, seq![(key, from)], None),
        completes_logged(
            RunnerView { stage: RunnerStage::Ready, ..asked },
            after,
            asked.stage->Persist_0->Completion_0,
            false,
            result,
        ),
    ensures
        asked.stage is Persist,
        wanted_record(asked.stage->Persist_0) == (RunnerRecordView::Completion {
            keys: before.store.messages().outgoing_slots()[key].keys(),
            target: from,
        }),
        asked.store == before.store,
        asked.retries == before.retries,
        result == Err::<(), RunnerError>(RunnerError::RecoveryWal),
        after.store == before.store,
        after.retries == before.retries,
{
    assert(unnoted(before.store, seq![(key, from)]) =~= seq![(key, from)]);
}

proof fn lemma_completion_survives(
    state: RecoveryView,
    records: Seq<RecoveredView>,
    place: int,
    message_id: DkgMessageId,
    target: PartyId,
)
    requires
        0 <= place < records.len(),
        records[place] == (RecoveredView::Completion { message_id, target }),
        state.with_records(records) is Ok,
    ensures
        state.with_records(records)->Ok_0.completions.contains((message_id, target)),
    decreases records.len(),
{
    if place < records.len() - 1 {
        assert(records.drop_last()[place] == records[place]);
        lemma_completion_survives(state, records.drop_last(), place, message_id, target);
    }
}

/// A delivery that the recovery log says is complete is complete in the store that
/// is loaded from it, and is not sent again when the log is replayed.
pub proof fn law_logged_completion_survives_a_restart(
    records: Seq<RecoveredView>,
    place: int,
    message_id: DkgMessageId,
    target: PartyId,
    before: RunnerView,
    after: RunnerView,
    now: u64,
)
    requires
        0 <= place < records.len(),
        records[place] == (RecoveredView::Completion { message_id, target }),
        RecoveryView::empty().with_records(records) is Ok,
        before.store.completed() == RecoveryView::empty().with_records(records)->Ok_0.completions,
        before.deferred.len() > 0,
        before.deferred[0].message_id == message_id,
        before.deferred[0].to == target,
        replays_next(before, after, now),
    ensures
        before.store.completed().contains((message_id, target)),
        after == (RunnerView { deferred: before.deferred.skip(1), ..before }),
{
    lemma_completion_survives(RecoveryView::empty(), records, place, message_id, target);
}

/// A message of the engine whose slots are filled is not sent again.
pub proof fn law_filled_slots_are_not_sent_again(
    before: RunnerView,
    after: RunnerView,
    dispatch: Dispatch,
    rest: RunnerWork,
    now: u64,
    result: Result<(), RunnerError>,
)
    requires
        dispatch.recipients@.len() > 0,
        unknown_party(before.members, dispatch.recipients@) is None,
        outgoing_slots(dispatch.identities@) is Ok,
        outgoing_slots(dispatch.identities@)->Ok_0.1 == MessagePersistence::Durable,
        any_filled(
            before.store.messages().outgoing_slots(),
            outgoing_slots(dispatch.identities@)->Ok_0.0,
        ),
        sends_message(before, after, dispatch, rest, now, result),
    ensures
        result is Ok,
        after.effects == before.effects,
        after.retries == before.retries,
{
    assert(delivers(before, after, dispatch, rest, Ok(()), now, result));
}

/// A runner that multicasts a lower conversion or an opened power that it has not
/// seen yet takes the message itself: it waits for the engine as a message of the
/// runner's own party, goes to the log, and is not acknowledged. A multicast
/// message of any other kind does not come back.
pub proof fn law_runner_sees_its_own_conversions(
    before: RunnerView,
    after: RunnerView,
    work: RunnerWork,
    message: DkgMessage,
    identities: Vec<Option<RecipientIdentity>>,
    identity: PeerIdentity,
    now: u64,
    result: Result<RunnerTask, RunnerError>,
)
    requires
        before.stage == RunnerStage::Working(work),
        work.effects@.len() > 0,
        work.effects@[0] == (RunnerEffect::Multicast { message, identities, local: Some(identity) }),
        !any_filled(before.store.messages().incoming_slots(), identity.slots.keys@),
        runner_steps(before, after, now, result),
    ensures
        message.kind == DkgMessageKind::LowerConversion || message.kind == DkgMessageKind::OpenPower
            ==> after.inputs == before.inputs.push(
            RunnerInputView::Peer(
                RunnerPeerView {
                    source: before.self_party,
                    message: message@,
                    identity,
                    record: true,
                    acknowledge: false,
                },
            ),
        ),
        message.kind != DkgMessageKind::LowerConversion && message.kind != DkgMessageKind::OpenPower
            ==> after.inputs == before.inputs,
{
    assert(message@.kind == message.kind);
}

/// A conversion of the runner itself that the log already holds does not come back
/// again, and one that differs from what the log holds is an error.
pub proof fn law_runner_repeats_no_conversion(
    before: RunnerView,
    after: RunnerView,
    work: RunnerWork,
    message: DkgMessage,
    identities: Vec<Option<RecipientIdentity>>,
    identity: PeerIdentity,
    now: u64,
    result: Result<RunnerTask, RunnerError>,
)
    requires
        before.stage == RunnerStage::Working(work),
        work.effects@.len() > 0,
        work.effects@[0] == (RunnerEffect::Multicast { message, identities, local: Some(identity) }),
        message.kind == DkgMessageKind::LowerConversion || message.kind == DkgMessageKind::OpenPower,
        identity.slots.persistence == MessagePersistence::Durable,
        identity.slots.keys@.len() == 1,
        before.store.messages().incoming_slots().contains_key(identity.slots.keys@[0]),
        runner_steps(before, after, now, result),
    ensures
        after.inputs == before.inputs,
        before.store.messages().incoming()[before.store.messages().incoming_slots()[identity.slots.keys@[0]]].payload
            != message.bytes@ ==> result == Err::<RunnerTask, RunnerError>(
            RunnerError::SelfGeneratedMessageConflict,
        ) && after.effects == before.effects,
{
    let slots = before.store.messages().incoming_slots();
    let keys = identity.slots.keys@;
    assert(any_filled(slots, keys)) by {
        assert(slots.contains_key(keys[0]));
    }
    lemma_single_filled(slots, keys);
    assert(message@.kind == message.kind);
}

/// The first filled one of a single slot is that slot.
proof fn lemma_single_filled(slots: Map<DkgMessageKey, DkgMessageId>, keys: Seq<DkgMessageKey>)
    requires
        keys.len() == 1,
        slots.contains_key(keys[0]),
    ensures
        crate::reliable::message::first_filled(slots, keys) == 0,
{
    assert(0 <= 0 < keys.len() && slots.contains_key(keys[0]) && forall|j: int|
        0 <= j < 0 ==> !slots.contains_key(#[trigger] keys[j]));
}

/// A new step of the protocol leaves only after the log holds it: the runner asks
/// for its record first, for every other party or for the one party it is for.
pub proof fn law_runner_logs_before_it_sends(
    before: RunnerView,
    asked: RunnerView,
    waiting: RunnerView,
    work: RunnerWork,
    now: u64,
    later: u64,
    result: Result<RunnerTask, RunnerError>,
    next: Result<RunnerTask, RunnerError>,
    message: DkgMessage,
    identities: Vec<Option<RecipientIdentity>>,
    local: Option<PeerIdentity>,
    to: PartyId,
)
    requires
        before.stage == RunnerStage::Working(work),
        work.effects@.len() > 0,
        work.effects@[0] == (RunnerEffect::Multicast { message, identities, local }) || work.effects@[0]
            == (RunnerEffect::Unicast { to, message, identities }),
        work.effects@[0] is Multicast ==> 2 <= before.members.len() <= u32::MAX && message.kind
            != DkgMessageKind::LowerConversion && message.kind != DkgMessageKind::OpenPower,
        work.effects@[0] is Unicast ==> to.0 < before.members.len(),
        outgoing_slots(identities@) is Ok,
        outgoing_slots(identities@)->Ok_0.1 == MessagePersistence::Durable,
        forall|id: DkgMessageId| #[trigger]
            before.store.messages().outgoing().contains_key(id) ==> id.keys() != outgoing_slots(
                identities@,
            )->Ok_0.0,
        !any_filled(before.store.messages().outgoing_slots(), outgoing_slots(identities@)->Ok_0.0),
        runner_steps(before, asked, now, result),
        runner_steps(asked, waiting, later, next),
    ensures
        result is Ok,
        asked.effects == before.effects,
        asked.retries == before.retries,
        next matches Ok(RunnerTask::Append(record)) && record@ == RunnerRecordView::Session(
            RecordView::Outgoing {
                recipients: if work.effects@[0] is Multicast {
                    others(before.members.len(), before.self_party)
                } else {
                    seq![to]
                },
                payload: message.bytes@,
            },
        ),
        waiting.effects == before.effects,
        waiting.retries == before.retries,
{
    let ready = RunnerView { stage: RunnerStage::Ready, ..before };
    let recipients = if work.effects@[0] is Multicast {
        others(before.members.len(), before.self_party)
    } else {
        seq![to]
    };
    assert(message@.kind == message.kind);
    if work.effects@[0] is Multicast {
        let other = if before.self_party == PartyId(0) {
            PartyId(1)
        } else {
            PartyId(0)
        };
        crate::dkg::peers::law_others_are_all_but_one(before.members.len(), before.self_party, other);
        assert(recipients.len() > 0);
        assert forall|i: int| 0 <= i < recipients.len() implies (#[trigger] recipients[i]).0
            < before.members.len() by {
            assert(recipients.contains(recipients[i]));
            crate::dkg::peers::law_others_are_all_but_one(
                before.members.len(),
                before.self_party,
                recipients[i],
            );
        }
    }
    lemma_all_known(before.members, recipients);
    assert(needs_record(before.store.messages(), identities@));
    assert(asked.stage is Persist);
}

proof fn lemma_all_known(members: Seq<NodeId>, parties: Seq<PartyId>)
    requires
        forall|i: int| 0 <= i < parties.len() ==> (#[trigger] parties[i]).0 < members.len(),
    ensures
        unknown_party(members, parties) is None,
    decreases parties.len(),
{
    if parties.len() > 0 {
        assert(parties[0].0 < members.len());
        let rest = parties.skip(1);
        assert forall|i: int| 0 <= i < rest.len() implies (#[trigger] rest[i]).0 < members.len() by {
            assert(rest[i] == parties[i + 1]);
        }
        lemma_all_known(members, rest);
    }
}

/// A message whose record the log could not take is not sent, and its slots stay
/// open.
pub proof fn law_unlogged_message_is_not_sent(
    before: RunnerView,
    after: RunnerView,
    dispatch: Dispatch,
    rest: RunnerWork,
    now: u64,
    result: Result<(), RunnerError>,
)
    requires
        outgoing_slots(dispatch.identities@) is Ok,
        outgoing_slots(dispatch.identities@)->Ok_0.1 == MessagePersistence::Durable,
        forall|id: DkgMessageId| #[trigger]
            before.store.messages().outgoing().contains_key(id) ==> id.keys() != outgoing_slots(
                dispatch.identities@,
            )->Ok_0.0,
        !any_filled(
            before.store.messages().outgoing_slots(),
            outgoing_slots(dispatch.identities@)->Ok_0.0,
        ),
        delivers(before, after, dispatch, rest, Err(()), now, result),
    ensures
        result == Err::<(), RunnerError>(RunnerError::RecoveryWal),
        after.effects == before.effects,
        after.retries == before.retries,
        after.store.messages().same_outgoing(before.store.messages()),
        after.stage is Ready,
        !(before.progress is Running) ==> after.progress is AwaitingChain,
{
}

/// A message that the log holds is sent to each of its recipients, with the
/// contents and the slots that the log holds, and its slots are filled from then
/// on.
pub proof fn law_logged_message_reaches_its_recipients(
    before: RunnerView,
    after: RunnerView,
    dispatch: Dispatch,
    rest: RunnerWork,
    now: u64,
    result: Result<(), RunnerError>,
    k: int,
)
    requires
        outgoing_slots(dispatch.identities@) is Ok,
        outgoing_slots(dispatch.identities@)->Ok_0.1 == MessagePersistence::Durable,
        !any_filled(
            before.store.messages().outgoing_slots(),
            outgoing_slots(dispatch.identities@)->Ok_0.0,
        ),
        !before.retries.is_obsolete(dispatch.group),
        forall|id: DkgMessageId| #[trigger]
            before.retries.pending().contains_key(id) ==> id.keys() != outgoing_slots(
                dispatch.identities@,
            )->Ok_0.0,
        before.retries.wf(),
        0 <= k < dispatch.recipients@.len(),
        dispatch.recipients@[k].0 < before.members.len(),
        delivers(before, after, dispatch, rest, Ok(()), now, result),
        result is Ok,
    ensures
        after.stage == RunnerStage::Working(rest),
        exists|id: DkgMessageId|
            {
                let node = before.members[dispatch.recipients@[k].0 as int];
                let wire = envelope_bytes(
                    before.epoch,
                    DeliveryView::Data { keys: id.keys(), payload: dispatch.message.bytes@ },
                );
                &&& #[trigger] after.retries.pending().contains_key(id)
                &&& id.keys() == outgoing_slots(dispatch.identities@)->Ok_0.0
                &&& after.retries.pending()[id].payload == wire
                &&& after.retries.deliveries().contains_key((id, node))
                &&& after.effects.contains(
                    EffectView::Network(OutboundView { to: node, payload: wire }),
                )
                &&& forall|key: DkgMessageKey| #[trigger]
                    id.keys().contains(key) ==> after.store.messages().outgoing_slots().contains_key(key)
                        && after.store.messages().outgoing_slots()[key] == id
            },
{
    let keys = outgoing_slots(dispatch.identities@)->Ok_0.0;
    let bytes = dispatch.message.bytes@;
    let nodes = nodes_of(before.members, dispatch.recipients@);
    let outcome = choose|outcome: Result<AcceptedOutgoing, StoreError<()>>| #[trigger]
        accepts_outgoing(
            before.store,
            after.store,
            dispatch.recipients@,
            dispatch.identities@,
            bytes,
            Ok(()),
            outcome,
        ) && match outcome {
            Err(error) => {
                &&& result == Err::<(), _>(refused_outgoing(error))
                &&& after == RunnerView { store: after.store, ..before.failed() }
            },
            Ok(accepted) => {
                &&& result is Ok
                &&& if accepted.accepted {
                    exists|sends: Result<Seq<EffectView>, SessionError>| #[trigger]
                        scheduled(
                            before.retries,
                            after.retries,
                            accepted.message_id,
                            nodes_of(before.members, dispatch.recipients@),
                            data_wire(before.epoch, accepted.message_id.keys(), bytes),
                            dispatch.group,
                            now,
                            sends,
                        ) && after == (RunnerView {
                            store: after.store,
                            retries: after.retries,
                            effects: before.effects + sent_effects(sends),
                            stage: RunnerStage::Working(rest),
                            ..before
                        })
                } else {
                    after == RunnerView {
                        store: after.store,
                        stage: RunnerStage::Working(rest),
                        ..before
                    }
                }
            },
        };
    let id = outcome->Ok_0.message_id;
    let wire = data_wire(before.epoch, id.keys(), bytes);
    let sends = choose|sends: Result<Seq<EffectView>, SessionError>| #[trigger]
        scheduled(
            before.retries,
            after.retries,
            id,
            nodes,
            wire,
            dispatch.group,
            now,
            sends,
        ) && after == (RunnerView {
            store: after.store,
            retries: after.retries,
            effects: before.effects + sent_effects(sends),
            stage: RunnerStage::Working(rest),
            ..before
        });
    assert(outcome->Ok_0.accepted);
    assert(id.keys() == keys);
    assert(!before.retries.pending().contains_key(id));
    let node = before.members[dispatch.recipients@[k].0 as int];
    before.retries.law_deliveries_are_of_pending_messages();
    assert(!before.retries.deliveries().contains_key((id, node)));
    assert(nodes[k] == node);
    assert(nodes.contains(nodes[k]));
    crate::dkg::session::lemma_scheduled_reaches(
        before.retries,
        after.retries,
        id,
        nodes,
        wire,
        dispatch.group,
        now,
        sends,
    );
    let effect = EffectView::Network(OutboundView { to: node, payload: wire });
    let i = choose|i: int| 0 <= i < sends->Ok_0.len() && sends->Ok_0[i] == effect;
    assert(after.effects[before.effects.len() + i] == effect);
    assert(after.retries.pending().contains_key(id));
}

/// A delivered message whose slots are open waits for the engine, to be logged and
/// acknowledged; one whose slot holds the same contents is acknowledged again; one
/// whose slot holds other contents changes nothing.
pub proof fn law_delivery_is_taken_by_its_slot(
    before: RunnerView,
    after: RunnerView,
    from: PartyId,
    message: DkgMessageView,
    identity: PeerIdentity,
    result: Result<(), RunnerError>,
)
    requires
        receives(before, after, from, message, identity, result),
        from.0 < before.members.len(),
        identity.slots.persistence == MessagePersistence::Durable,
        identity.slots.keys@.len() == 1,
        identity.requires_transport_ack,
        identity.completes@.len() == 0,
    ensures
        ({
            let slot = identity.slots.keys@[0];
            let slots = before.store.messages().incoming_slots();
            let held = before.store.messages().incoming()[slots[slot]].payload;
            &&& result is Ok
            &&& after.retries == before.retries
            &&& after.store == before.store
            &&& !slots.contains_key(slot) ==> {
                &&& after.inputs == before.inputs.push(
                    RunnerInputView::Peer(
                        RunnerPeerView {
                            source: from,
                            message,
                            identity,
                            record: true,
                            acknowledge: true,
                        },
                    ),
                )
                &&& after.effects == before.effects
            }
            &&& slots.contains_key(slot) && held == message.bytes ==> {
                &&& after.inputs == before.inputs
                &&& after.effects == before.effects.push(
                    EffectView::Acknowledgement(
                        OutboundView {
                            to: before.members[from.0 as int],
                            payload: envelope_bytes(before.epoch, DeliveryView::Ack(seq![slot])),
                        },
                    ),
                )
            }
            &&& slots.contains_key(slot) && held != message.bytes ==> after == before
        }),
{
    let slots = before.store.messages().incoming_slots();
    let keys = identity.slots.keys@;
    if slots.contains_key(keys[0]) {
        lemma_single_filled(slots, keys);
        assert(any_filled(slots, keys));
        let effects = answered(before.epoch, before.members, from, Some(keys[0]))->Ok_0;
        assert(before.effects + effects =~= before.effects.push(effects[0]));
    } else {
        assert(!any_filled(slots, keys));
    }
}

/// A runner that is done with a message acknowledges its slot to the sender where
/// the sender waits for that, and is silent otherwise.
pub proof fn law_runner_acknowledges_what_it_accepted(
    before: RunnerView,
    after: RunnerView,
    work: RunnerWork,
    peer: RunnerPeerInput,
    now: u64,
    result: Result<RunnerTask, RunnerError>,
)
    requires
        before.stage == RunnerStage::Working(work),
        work.effects@.len() == 0,
        work.input == Some(peer),
        peer.identity.completes@.len() == 0,
        peer.identity.slots.keys@.len() == 1,
        peer.source.0 < before.members.len(),
        runner_steps(before, after, now, result),
    ensures
        result is Ok,
        peer.acknowledge && peer.identity.requires_transport_ack ==> after.effects
            == before.effects.push(
            EffectView::Acknowledgement(
                OutboundView {
                    to: before.members[peer.source.0 as int],
                    payload: envelope_bytes(
                        before.epoch,
                        DeliveryView::Ack(seq![peer.identity.slots.keys@[0]]),
                    ),
                },
            ),
        ),
        !(peer.acknowledge && peer.identity.requires_transport_ack) ==> after.effects == before.effects,
{
    let made = reply(before.epoch, before.members, peer);
    if peer.acknowledge && peer.identity.requires_transport_ack {
        assert(before.effects + made->Ok_0 =~= before.effects.push(made->Ok_0[0]));
    } else {
        assert(before.effects + made->Ok_0 =~= before.effects);
    }
}

/// What is left to note starts with the first delivery that the store does not
/// know to be complete; everything before it is known to be.
pub proof fn law_open_completion_is_noted_next(
    store: DkgMessageStore,
    completes: Seq<(DkgMessageKey, PartyId)>,
    i: int,
)
    requires
        0 <= i < completes.len(),
        store.messages().outgoing_slots().contains_key(completes[i].0),
        !store.completed().contains(
            (store.messages().outgoing_slots()[completes[i].0], completes[i].1),
        ),
        forall|j: int|
            0 <= j < i ==> !store.messages().outgoing_slots().contains_key(
                (#[trigger] completes[j]).0,
            ) || store.completed().contains(
                (store.messages().outgoing_slots()[completes[j].0], completes[j].1),
            ),
    ensures
        unnoted(store, completes) == completes.skip(i),
    decreases completes.len(),
{
    if i > 0 {
        assert(completion_news(store, completes[0].0, completes[0].1) is None);
        let rest = completes.skip(1);
        assert(rest[i - 1] == completes[i]);
        assert forall|j: int| 0 <= j < i - 1 implies !store.messages().outgoing_slots().contains_key(
            (#[trigger] rest[j]).0,
        ) || store.completed().contains(
            (store.messages().outgoing_slots()[rest[j].0], rest[j].1),
        ) by {
            assert(rest[j] == completes[j + 1]);
        }
        law_open_completion_is_noted_next(store, rest, i - 1);
        assert(rest.skip(i - 1) =~= completes.skip(i));
    } else {
        assert(completes.skip(0) =~= completes);
    }
}

/// A delivery whose end the log holds is complete, is not repeated to its
/// recipient, and leaves the deliveries to others alone.
pub proof fn law_logged_completion_ends_one_delivery(
    before: RunnerView,
    after: RunnerView,
    completion: Completion,
    result: Result<(), RunnerError>,
    other: (DkgMessageId, NodeId),
)
    requires
        completion.target.0 < before.members.len(),
        completion.rest@.len() == 0,
        completion.phase is None,
        completes_logged(before, after, completion, true, result),
    ensures
        result is Ok,
        after.store.completed() == before.store.completed().insert(
            (completion.message_id, completion.target),
        ),
        after.store.messages() == before.store.messages(),
        ({
            let node = before.members[completion.target.0 as int];
            &&& !after.retries.deliveries().contains_key((completion.message_id, node))
            &&& other != (completion.message_id, node) ==> (after.retries.deliveries().contains_key(other)
                <==> before.retries.deliveries().contains_key(other))
        }),
        after.effects == before.effects,
        after.inputs == before.inputs,
{
}

/// Once the engine leaves secret sharing or extraction, the messages of that phase
/// are no longer sent; with extraction the slots of requests open again, and the
/// slots of logged messages stay filled.
pub proof fn law_runner_drops_the_messages_of_a_left_phase(
    before: RunnerView,
    after: RunnerView,
    phase: DkgEnginePhase,
    id: DkgMessageId,
    kind: DkgMessageKind,
    source: PartyId,
    target: PartyId,
    key: DkgMessageKey,
)
    requires
        notes_engine_phase(before, after, Some(phase)),
        before.retries.pending().contains_key(id),
        before.retries.pending()[id].scope == payload_group(kind, source, target),
    ensures
        after.last_phase == phase,
        after.effects == before.effects,
        after.inputs == before.inputs,
        before.last_phase == phase ==> after.retries == before.retries && after.store == before.store,
        ({
            let over = before.last_phase != phase && match before.last_phase {
                DkgEnginePhase::Vss => kind == DkgMessageKind::PcProposal || kind
                    == DkgMessageKind::PcAck || kind == DkgMessageKind::BveProposal || kind
                    == DkgMessageKind::BveApprovalBatch,
                DkgEnginePhase::Extraction => kind == DkgMessageKind::BveRetrievalRequest || kind
                    == DkgMessageKind::PcRetrievalRequest,
                _ => false,
            };
            after.retries.pending().contains_key(id) <==> !over
        }),
        ({
            let slots = before.store.messages().outgoing_slots();
            let logged = slots.contains_key(key) && before.store.messages().outgoing()[slots[key]] is Some;
            if before.last_phase is Extraction && phase != before.last_phase {
                after.store.messages().outgoing_slots().contains_key(key) <==> logged
            } else {
                after.store == before.store
            }
        }),
{
    crate::dkg::delivery::law_phase_ends_its_messages(kind, source, target);
    let evidence = phase_evidence(before.last_phase, phase);
    if evidence is Some {
        assert(before.retries.obsoleted_by(evidence->Some_0).contains(id)
            <==> crate::dkg::delivery::ends_delivery(evidence->Some_0, kind, source, target));
    }
}

/// A call of the engine leaves for the chain and ends the messages that the
/// certificate or the result in it settles.
pub proof fn law_runner_posts_and_drops(
    before: RunnerView,
    after: RunnerView,
    work: RunnerWork,
    call: ChainCall,
    now: u64,
    result: Result<RunnerTask, RunnerError>,
    id: DkgMessageId,
    kind: DkgMessageKind,
    source: PartyId,
    target: PartyId,
)
    requires
        before.stage == RunnerStage::Working(work),
        work.effects@.len() > 0,
        work.effects@[0] == RunnerEffect::PostToChain(call),
        runner_steps(before, after, now, result),
        before.retries.pending().contains_key(id),
        before.retries.pending()[id].scope == payload_group(kind, source, target),
    ensures
        result is Ok,
        after.effects == before.effects.push(EffectView::Chain(call)),
        after.inputs == before.inputs,
        after.stage matches RunnerStage::Working(rest) && rest.effects@ == work.effects@.skip(1)
            && rest.input == work.input && rest.phase == work.phase,
        ({
            let settled = match call {
                ChainCall::PostPcQc(qc) => (kind == DkgMessageKind::PcProposal && source == qc.dealer)
                    || (kind == DkgMessageKind::PcAck && target == qc.dealer),
                ChainCall::PostBveQc(qc) => kind == DkgMessageKind::BveProposal && source == qc.dealer,
                ChainCall::PostDkgResult(_) => kind == DkgMessageKind::Done,
                ChainCall::PostRegistration { .. } => false,
            };
            after.retries.pending().contains_key(id) <==> !settled
        }),
{
    crate::dkg::delivery::law_call_ends_exactly_what_it_settles(call, kind, source, target);
    if call_group(call) is Some {
        let evidence = call_group(call)->Some_0;
        assert(before.retries.obsoleted_by(evidence).contains(id)
            <==> crate::dkg::delivery::ends_delivery(evidence, kind, source, target));
    }
}

/// A runner hands inputs to the engine in the order in which they came, and only
/// while it applies chain events, initializes, replays, or runs.
pub proof fn law_runner_takes_inputs_in_order(
    before: RunnerView,
    after: RunnerView,
    now: u64,
    result: Result<RunnerTask, RunnerError>,
)
    requires
        before.stage is Ready,
        before.inputs.len() > 0,
        runner_steps(before, after, now, result),
        result is Ok,
    ensures
        ({
            let takes = result->Ok_0 is ApplyPeer || result->Ok_0 is ApplyChain;
            &&& takes <==> (before.progress is ApplyingChain || before.progress is Initializing
                || before.progress is Replaying || before.progress is Running)
            &&& takes ==> seq![before.inputs[0]] + after.inputs == before.inputs && after.effects
                == before.effects && after.retries == before.retries
            &&& takes ==> match before.inputs[0] {
                RunnerInputView::Peer(input) => (result->Ok_0 matches RunnerTask::ApplyPeer {
                    source,
                    message,
                } && source == input.source && message@ == input.message) && (
                after.stage matches RunnerStage::Applying(kept) && kept@ == input),
                RunnerInputView::Chain(event) => result->Ok_0 == RunnerTask::ApplyChain(event)
                    && after.stage is ApplyingChain,
            }
        }),
{
    if before.progress is ApplyingChain || before.progress is Initializing || before.progress is Replaying
        || before.progress is Running {
        assert(seq![before.inputs[0]] + after.inputs =~= before.inputs);
    }
}

/// A runner starts its engine once, and not before the chain events that it waits
/// for are applied.
pub proof fn law_runner_starts_its_engine_once(
    before: RunnerView,
    after: RunnerView,
    now: u64,
    result: Result<RunnerTask, RunnerError>,
)
    requires
        before.stage is Ready,
        runner_steps(before, after, now, result),
    ensures
        result == Ok::<RunnerTask, RunnerError>(RunnerTask::StartEngine) <==> !before.engine_started && (
        before.progress is StartingEngine || (before.progress is ApplyingChain && before.inputs.len()
            == 0)),
        result == Ok::<RunnerTask, RunnerError>(RunnerTask::TellPhase) <==> before.progress is Initializing
            && before.inputs.len() == 0 && before.deferred.len() == 0,
        result == Ok::<RunnerTask, RunnerError>(RunnerTask::Idle) <==> before.progress is AwaitingChain
            || (before.progress is Running && before.inputs.len() == 0),
{
}

/// Messages of peers that waited for the chain come behind what is there once the
/// engine has started, and none of them is lost.
pub proof fn law_waiting_messages_follow_the_start(
    before: RunnerView,
    after: RunnerView,
    now: u64,
    result: Result<RunnerTask, RunnerError>,
    peers: Vec<RunnerInput>,
    i: int,
)
    requires
        before.stage is Ready,
        before.progress == (RunnerProgress::Started { peers }),
        runner_steps(before, after, now, result),
        0 <= i < peers@.len(),
    ensures
        after.progress is Replaying,
        after.inputs.len() == before.inputs.len() + peers@.len(),
        after.inputs.take(before.inputs.len() as int) == before.inputs,
        after.inputs[before.inputs.len() + i] == peers@[i]@,
{
    assert(after.inputs.take(before.inputs.len() as int) =~= before.inputs);
}

/// A message of the log that is not complete is sent again to its recipient when
/// the log is replayed, unless evidence ended it; each one is looked at once.
pub proof fn law_deferred_message_is_sent_again(before: RunnerView, after: RunnerView, now: u64)
    requires
        before.deferred.len() > 0,
        replays_next(before, after, now),
        !before.store.completed().contains((before.deferred[0].message_id, before.deferred[0].to)),
        before.deferred[0].to.0 < before.members.len(),
        !before.retries.is_obsolete(
            payload_group(before.deferred[0].kind, before.self_party, before.deferred[0].to),
        ),
        !before.retries.pending().contains_key(before.deferred[0].message_id),
        before.retries.wf(),
    ensures
        seq![before.deferred[0]] + after.deferred == before.deferred,
        ({
            let send = before.deferred[0];
            let node = before.members[send.to.0 as int];
            let wire = envelope_bytes(
                before.epoch,
                DeliveryView::Data { keys: send.message_id.keys(), payload: send.payload@ },
            );
            &&& after.retries.pending().contains_key(send.message_id)
            &&& after.retries.pending()[send.message_id].payload == wire
            &&& after.retries.deliveries().contains_key((send.message_id, node))
            &&& after.effects.contains(EffectView::Network(OutboundView { to: node, payload: wire }))
        }),
{
    let send = before.deferred[0];
    let node = before.members[send.to.0 as int];
    let nodes = seq![node];
    let wire = data_wire(before.epoch, send.message_id.keys(), send.payload@);
    let group = payload_group(send.kind, before.self_party, send.to);
    let left = before.deferred.skip(1);
    let sends = choose|sends: Result<Seq<EffectView>, SessionError>| #[trigger]
        scheduled(
            before.retries,
            after.retries,
            send.message_id,
            seq![before.members[send.to.0 as int]],
            data_wire(before.epoch, send.message_id.keys(), send.payload@),
            payload_group(send.kind, before.self_party, send.to),
            now,
            sends,
        ) && after == (RunnerView {
            deferred: left,
            retries: after.retries,
            effects: before.effects + sent_effects(sends),
            ..before
        });
    before.retries.law_deliveries_are_of_pending_messages();
    assert(!before.retries.deliveries().contains_key((send.message_id, node)));
    assert(nodes[0] == node);
    assert(nodes.contains(node));
    crate::dkg::session::lemma_scheduled_reaches(
        before.retries,
        after.retries,
        send.message_id,
        nodes,
        wire,
        group,
        now,
        sends,
    );
    let effect = EffectView::Network(OutboundView { to: node, payload: wire });
    let i = choose|i: int| 0 <= i < sends->Ok_0.len() && sends->Ok_0[i] == effect;
    assert(after.effects[before.effects.len() + i] == effect);
    assert(seq![before.deferred[0]] + after.deferred =~= before.deferred);
}

/// Whatever fails leaves the effects, inputs and messages of a runner as they are;
/// a runner that was not running yet waits for the chain again.
pub proof fn law_failure_keeps_what_is_there(view: RunnerView)
    ensures
        view.failed().stage is Ready,
        view.failed().effects == view.effects,
        view.failed().inputs == view.inputs,
        view.failed().deferred == view.deferred,
        view.failed().store == view.store,
        view.failed().retries == view.retries,
        view.failed().records == view.records,
        view.failed().engine_started == view.engine_started,
        view.progress is Running ==> view.failed().progress is Running,
        !(view.progress is Running) ==> view.failed().progress is AwaitingChain,
{
}

/// A message of the log whose source takes part waits for the engine; it is not
/// logged again, and it is acknowledged unless it is the runner's own.
pub proof fn law_logged_peer_message_is_replayed(
    incoming: Seq<(PartyId, DkgMessage, PeerIdentity)>,
    self_party: PartyId,
    party_count: nat,
    i: int,
)
    requires
        0 <= i < incoming.len(),
        incoming[i].0.0 < party_count,
    ensures
        replayed_peers(incoming, self_party, party_count).contains(
            RunnerInputView::Peer(
                RunnerPeerView {
                    source: incoming[i].0,
                    message: incoming[i].1@,
                    identity: incoming[i].2,
                    record: false,
                    acknowledge: incoming[i].0 != self_party,
                },
            ),
        ),
        replayed_peers(incoming, self_party, party_count).len() <= incoming.len(),
    decreases incoming.len(),
{
    let wanted = RunnerInputView::Peer(
        RunnerPeerView {
            source: incoming[i].0,
            message: incoming[i].1@,
            identity: incoming[i].2,
            record: false,
            acknowledge: incoming[i].0 != self_party,
        },
    );
    let whole = replayed_peers(incoming, self_party, party_count);
    let earlier = replayed_peers(incoming.drop_last(), self_party, party_count);
    lemma_replayed_length(incoming, self_party, party_count);
    if i == incoming.len() - 1 {
        assert(whole.last() == wanted);
    } else {
        law_logged_peer_message_is_replayed(incoming.drop_last(), self_party, party_count, i);
        let k = choose|k: int| 0 <= k < earlier.len() && earlier[k] == wanted;
        assert(whole[k] == wanted);
    }
}

proof fn lemma_replayed_length(
    incoming: Seq<(PartyId, DkgMessage, PeerIdentity)>,
    self_party: PartyId,
    party_count: nat,
)
    ensures
        replayed_peers(incoming, self_party, party_count).len() <= incoming.len(),
    decreases incoming.len(),
{
    if incoming.len() > 0 {
        lemma_replayed_length(incoming.drop_last(), self_party, party_count);
    }
}

/// While a runner recovers, what waits is parted into chain events and messages of
/// peers, and nothing of it is lost.
pub proof fn law_runner_inputs_are_parted(inputs: Seq<RunnerInputView>, i: int)
    requires
        0 <= i < inputs.len(),
    ensures
        inputs[i] is Chain ==> chain_part(inputs).contains(inputs[i]),
        inputs[i] is Peer ==> peer_part(inputs).contains(inputs[i]),
        chain_part(inputs).len() + peer_part(inputs).len() == inputs.len(),
        forall|k: int| 0 <= k < chain_part(inputs).len() ==> (#[trigger] chain_part(inputs)[k]) is Chain,
        forall|k: int| 0 <= k < peer_part(inputs).len() ==> (#[trigger] peer_part(inputs)[k]) is Peer,
{
    broadcast use vstd::seq_lib::group_filter_ensures;

    lemma_runner_parts_add_up(inputs);
}

proof fn lemma_runner_parts_add_up(inputs: Seq<RunnerInputView>)
    ensures
        chain_part(inputs).len() + peer_part(inputs).len() == inputs.len(),
    decreases inputs.len(),
{
    reveal(Seq::filter);
    if inputs.len() > 0 {
        lemma_runner_parts_add_up(inputs.drop_last());
    }
}

/// A message that the log took is kept with its sender, its slots and its
/// contents, and nothing that was kept before is forgotten.
pub proof fn law_kept_message_keeps_its_sender(
    before: DkgMessageStore,
    after: DkgMessageStore,
    input: RunnerPeerView,
    key: DkgMessageKey,
)
    requires
        keeps_incoming(before, after, input),
    ensures
        ({
            let id = input.identity.slots.message_id;
            let kept = after.messages().incoming()[id];
            &&& after.messages().incoming().contains_key(id)
            &&& kept.source == input.source
            &&& kept.payload == input.message.bytes
            &&& input.identity.slots.keys@.contains(key)
                ==> after.messages().incoming_slots().contains_key(key)
                && after.messages().incoming_slots()[key] == id
            &&& !input.identity.slots.keys@.contains(key) ==> (
            after.messages().incoming_slots().contains_key(key)
                <==> before.messages().incoming_slots().contains_key(key))
            &&& after.messages().outgoing() == before.messages().outgoing()
            &&& after.completed() == before.completed()
        }),
{
}

/// A logged message of a peer is worked on where it is new or known already, and a
/// message that contradicts one that is known ends the runner. Only a durable message
/// that is new is kept, with its sender and its bytes.
pub proof fn law_accepted_message_is_kept_once(
    before: RunnerView,
    after: RunnerView,
    work: RunnerWork,
    result: Result<(), RunnerError>,
)
    requires
        takes_accepted(before, after, work, result),
    ensures
        ({
            let input = work.input->Some_0@;
            let id = input.identity.slots.message_id;
            let status = input_status(before.store, input);
            let durable = input.identity.slots.persistence == MessagePersistence::Durable;
            &&& result is Ok <==> status != IncomingStatus::Conflict
            &&& result is Err ==> result->Err_0 == RunnerError::DurableIngressConflict && after
                == before.failed()
            &&& result is Ok ==> after.stage == RunnerStage::Working(work)
            &&& result is Ok ==> after.retries == before.retries
            &&& status == IncomingStatus::Duplicate || !durable ==> result is Ok ==> after.store
                == before.store
            &&& status == IncomingStatus::New && durable ==> {
                &&& after.store.messages().incoming().contains_key(id)
                &&& after.store.messages().incoming()[id].source == input.source
                &&& after.store.messages().incoming()[id].payload == input.message.bytes
                &&& after.store.completed() == before.store.completed()
            }
        }),
{
}

/// A runner that waits to hear of its engine or its log takes nothing else before.
pub proof fn law_waiting_stages_are_named(stage: RunnerStage)
    ensures
        stage is Applying || stage is ApplyingChain || stage is Starting || stage is Noting
            || stage is Journaling ==> awaits_outcome(stage),
        stage is Ready || stage is Working ==> !awaits_outcome(stage),
{
}

/// What the engine makes of a peer message decides how it goes on: a failure and a
/// contradiction end the runner, an unknown sender of a rejected message does, and an
/// accepted one is worked on with what the engine asked for.
pub proof fn law_peer_message_is_applied(
    before: RunnerView,
    after: RunnerView,
    input: RunnerPeerView,
    outcome: RunnerOutcome,
    result: Result<(), RunnerError>,
)
    requires
        applies_peer(before, after, input, outcome, result),
    ensures
        outcome is Failed ==> result == Err::<(), _>(
            RunnerError::Engine { action: EngineAction::HandlePeerInput },
        ),
        outcome is Rejected ==> (result is Err <==> input.acknowledge && input.source.0
            >= before.members.len()),
        outcome is Rejected && result is Err ==> result->Err_0 == (RunnerError::UnknownParty {
            action: DeliveryAction::FinishInbound,
            party: input.source.0,
        }),
        outcome is Rejected && result is Ok ==> after == before,
        outcome is Applied ==> (result is Err <==> input.record && input_status(before.store, input)
            == IncomingStatus::Conflict),
        outcome is Applied && result is Err ==> result->Err_0 == RunnerError::DurableIngressConflict,
        result is Err ==> after == before.failed(),
        result is Ok ==> after.store == before.store && after.retries == before.retries
            && after.effects == before.effects && after.inputs == before.inputs && after.deferred
            == before.deferred && after.records == before.records && after.last_phase
            == before.last_phase && after.progress == before.progress && after.members
            == before.members,
        outcome matches RunnerOutcome::Applied { effects, phase } ==> (result is Ok ==> {
            let logged = input.record && input_status(before.store, input) == IncomingStatus::New
                && input.identity.slots.persistence == MessagePersistence::Durable;
            &&& after.stage is Persist <==> logged
            &&& after.stage is Working <==> !logged
            &&& after.stage matches RunnerStage::Working(work) ==> work.effects == effects && work.phase
                == Some(phase) && work.input is Some && work.input->Some_0@ == input
            &&& after.stage matches RunnerStage::Persist(unlogged) ==> unlogged is Incoming
                && unlogged->Incoming_0.effects == effects && unlogged->Incoming_0.phase == Some(phase)
                && unlogged->Incoming_0.input is Some && unlogged->Incoming_0.input->Some_0@ == input
        }),
{
}

/// A delivery from a known sender is taken as an input under its own source and bytes
/// where it is new, and where it contradicts one that is known it changes nothing.
pub proof fn law_new_delivery_becomes_an_input(
    before: RunnerView,
    after: RunnerView,
    from: PartyId,
    message: DkgMessageView,
    identity: PeerIdentity,
    result: Result<(), RunnerError>,
)
    requires
        receives(before, after, from, message, identity, result),
        !identity.requires_transport_ack || identity.slots.keys@.len() == 1,
    ensures
        result is Ok,
        ({
            let input = RunnerPeerView {
                source: from,
                message,
                identity,
                record: true,
                acknowledge: true,
            };
            let status = input_status(before.store, input);
            &&& status == IncomingStatus::New ==> after.inputs == before.inputs.push(
                RunnerInputView::Peer(input),
            ) && after.effects == before.effects && after.retries == before.retries && after.store
                == before.store && after.stage == before.stage
            &&& status == IncomingStatus::Conflict ==> after == before
            &&& status == IncomingStatus::Duplicate ==> after.inputs == before.inputs
        }),
{
}

/// A runner asks for the record of what it wants to do next and does nothing else
/// meanwhile.
pub proof fn law_runner_asks_for_its_record(
    before: RunnerView,
    after: RunnerView,
    now: u64,
    result: Result<RunnerTask, RunnerError>,
    unlogged: Unlogged,
)
    requires
        before.stage == RunnerStage::Persist(unlogged),
        runner_steps(before, after, now, result),
    ensures
        result is Ok && result->Ok_0 is Append,
        after.stage == RunnerStage::Journaling(unlogged),
        after.effects == before.effects,
        after.retries == before.retries,
        after.store == before.store,
        after.inputs == before.inputs,
        after.deferred == before.deferred,
        after.last_phase == before.last_phase,
        after.progress == before.progress,
        ({
            let record = result->Ok_0->Append_0@;
            match unlogged {
                Unlogged::Incoming(work) => record is Session && record->Session_0 is Incoming
                    && record->Session_0->Incoming_source == work.input->Some_0.source
                    && record->Session_0->Incoming_payload == work.input->Some_0.message.bytes@,
                Unlogged::Outgoing(dispatch, _) => record is Session && record->Session_0 is Outgoing
                    && record->Session_0->recipients == dispatch.recipients@
                    && record->Session_0->Outgoing_payload == dispatch.message.bytes@,
                Unlogged::Completion(completion) => record is Completion && record->keys
                    == completion.message_id.keys() && record->target == completion.target,
            }
        }),
{
}

/// What the engine asked for is done one by one: a message that waits for its record is
/// the one that was asked for, for the same recipients and in the group of its kind,
/// and what is left of the work is all but the first.
pub proof fn law_runner_sends_what_was_asked_for(
    before: RunnerView,
    after: RunnerView,
    work: RunnerWork,
    now: u64,
    result: Result<RunnerTask, RunnerError>,
)
    requires
        before.stage == RunnerStage::Working(work),
        work.effects@.len() > 0,
        runner_steps(before, after, now, result),
    ensures
        result is Ok ==> result->Ok_0 == RunnerTask::Continue,
        after.last_phase == before.last_phase,
        after.members == before.members,
        after.deferred == before.deferred,
        after.records == before.records,
        after.stage matches RunnerStage::Persist(Unlogged::Outgoing(dispatch, rest)) ==> {
            &&& rest.effects@ == work.effects@.skip(1)
            &&& rest.input == work.input
            &&& rest.phase == work.phase
            &&& after.effects == before.effects
            &&& after.retries == before.retries
            &&& match work.effects@[0] {
                RunnerEffect::PostToChain(_) => false,
                RunnerEffect::Unicast { to, message, identities } => dispatch.message == message
                    && dispatch.recipients@ == seq![to] && dispatch.identities == identities
                    && dispatch.group == payload_group(message.kind, before.self_party, to),
                RunnerEffect::Multicast { message, identities, .. } => dispatch.message == message
                    && dispatch.recipients@ == others(before.members.len(), before.self_party)
                    && dispatch.identities == identities && dispatch.group == payload_group(
                    message.kind,
                    before.self_party,
                    before.self_party,
                ),
            }
        },
        after.stage matches RunnerStage::Working(rest) ==> rest.effects@ == work.effects@.skip(1)
            && rest.input == work.input && rest.phase == work.phase,
{
}

/// A message that is refused ends the runner with its reason and sends nothing, and one
/// whose slots are filled already is not sent again.
pub proof fn law_refused_message_is_not_sent(
    before: RunnerView,
    after: RunnerView,
    dispatch: Dispatch,
    rest: RunnerWork,
    journal: Result<(), ()>,
    now: u64,
    result: Result<(), RunnerError>,
)
    requires
        delivers(before, after, dispatch, rest, journal, now, result),
    ensures
        result is Err ==> after.effects == before.effects && after.retries == before.retries
            && after.inputs == before.inputs && after.stage is Ready && after.progress
            == before.failed().progress,
        result is Ok ==> after.stage == RunnerStage::Working(rest),
        after.inputs == before.inputs,
        after.last_phase == before.last_phase,
        after.members == before.members,
        before.effects.len() <= after.effects.len(),
        after.effects.take(before.effects.len() as int) == before.effects,
{
    assert(before.effects.take(before.effects.len() as int) =~= before.effects);
    if result is Ok {
        let outcome = choose|outcome: Result<AcceptedOutgoing, StoreError<()>>| #[trigger]
            accepts_outgoing(
                before.store,
                after.store,
                dispatch.recipients@,
                dispatch.identities@,
                dispatch.message.bytes@,
                journal,
                outcome,
            ) && match outcome {
                Err(error) => {
                    &&& result == Err::<(), _>(refused_outgoing(error))
                    &&& after == RunnerView { store: after.store, ..before.failed() }
                },
                Ok(accepted) => {
                    &&& result is Ok
                    &&& if accepted.accepted {
                        exists|sends: Result<Seq<EffectView>, SessionError>| #[trigger]
                            scheduled(
                                before.retries,
                                after.retries,
                                accepted.message_id,
                                nodes_of(before.members, dispatch.recipients@),
                                data_wire(
                                    before.epoch,
                                    accepted.message_id.keys(),
                                    dispatch.message.bytes@,
                                ),
                                dispatch.group,
                                now,
                                sends,
                            ) && after == (RunnerView {
                                store: after.store,
                                retries: after.retries,
                                effects: before.effects + sent_effects(sends),
                                stage: RunnerStage::Working(rest),
                                ..before
                            })
                    } else {
                        after == RunnerView {
                            store: after.store,
                            stage: RunnerStage::Working(rest),
                            ..before
                        }
                    }
                },
            };
        if outcome->Ok_0.accepted {
            let sends = choose|sends: Result<Seq<EffectView>, SessionError>| #[trigger]
                scheduled(
                    before.retries,
                    after.retries,
                    outcome->Ok_0.message_id,
                    nodes_of(before.members, dispatch.recipients@),
                    data_wire(
                        before.epoch,
                        outcome->Ok_0.message_id.keys(),
                        dispatch.message.bytes@,
                    ),
                    dispatch.group,
                    now,
                    sends,
                ) && after == (RunnerView {
                    store: after.store,
                    retries: after.retries,
                    effects: before.effects + sent_effects(sends),
                    stage: RunnerStage::Working(rest),
                    ..before
                });
            assert((before.effects + sent_effects(sends)).take(before.effects.len() as int)
                =~= before.effects);
        }
    }
}

/// The end of extraction forgets the messages that are not in the recovery log, and
/// nothing else does; what was accepted and what was completed stays known.
pub proof fn law_retrievals_are_forgotten_with_extraction(
    before: RunnerView,
    after: RunnerView,
    phase: DkgEnginePhase,
    id: DkgMessageId,
)
    requires
        notes_engine_phase(before, after, Some(phase)),
    ensures
        after.last_phase == phase,
        after.effects == before.effects,
        after.inputs == before.inputs,
        after.stage == before.stage,
        after.store.completed() == before.store.completed(),
        after.store.messages().incoming() == before.store.messages().incoming(),
        !(before.last_phase == DkgEnginePhase::Extraction && phase != DkgEnginePhase::Extraction)
            ==> after.store == before.store,
        before.last_phase == DkgEnginePhase::Extraction && phase != DkgEnginePhase::Extraction ==> (
        after.store.messages().outgoing().contains_key(id)
            <==> before.store.messages().outgoing().contains_key(id)
            && before.store.messages().outgoing()[id] is Some),
        after.store.messages().outgoing().contains_key(id) ==> after.store.messages().outgoing()[id]
            == before.store.messages().outgoing()[id],
{
}

/// A logged completion is known, ends one delivery, and leaves everything else as it
/// is; one for an unknown party ends the runner.
pub proof fn law_logged_completion_is_known(
    before: RunnerView,
    after: RunnerView,
    completion: Completion,
    result: Result<(), RunnerError>,
)
    requires
        completes_logged(before, after, completion, true, result),
    ensures
        result is Ok <==> completion.target.0 < before.members.len(),
        result is Err ==> result->Err_0 == (RunnerError::UnknownParty {
            action: DeliveryAction::CompleteOutbound,
            party: completion.target.0,
        }) && after.retries == before.retries && after.stage is Ready && after.store.completed()
            == before.store.completed().insert((completion.message_id, completion.target)),
        after.effects == before.effects,
        after.inputs == before.inputs,
        after.members == before.members,
        after.deferred == before.deferred,
        after.records == before.records,
{
}

/// A message is acknowledged by its one slot; one that has to be acknowledged and fills
/// no slot or several is refused with their number, and one that has not is answered by
/// nothing.
pub proof fn law_acknowledgement_needs_one_slot(identity: PeerIdentity)
    ensures
        !identity.requires_transport_ack ==> ack_slot(identity) == Ok::<
            Option<DkgMessageKey>,
            RunnerError,
        >(None),
        identity.requires_transport_ack && identity.slots.keys@.len() == 1 ==> ack_slot(identity) == Ok::<
            Option<DkgMessageKey>,
            RunnerError,
        >(Some(identity.slots.keys@[0])),
        identity.requires_transport_ack && identity.slots.keys@.len() != 1 ==> (ack_slot(
            identity,
        ) matches Err(RunnerError::TransportAckKeyCount { actual }) && actual
            == identity.slots.keys@.len() as usize),
{
}

/// The reason of a refused message tells a collision, a failed log, a retrieval to
/// several parties, and a bad identity apart.
pub proof fn law_refusal_keeps_its_reason(error: StoreError<()>)
    ensures
        error is RetrievalMustBeUnicast <==> refused_outgoing(error)
            == RunnerError::RetrievalMustBeUnicast,
        error is Identity <==> refused_outgoing(error) is Identity,
        error is Reliable && error->Reliable_0 is MessageIdCollision <==> refused_outgoing(error)
            == RunnerError::DeliveryIdCollision,
        error is Reliable && error->Reliable_0 is Journal <==> refused_outgoing(error)
            == RunnerError::RecoveryWal,
{
}

} // verus!
