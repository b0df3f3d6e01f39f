//! The protocol runtime of one epoch.
//!
//! A session decides what is done with what comes in: which messages are handed
//! to the protocol engine, what has to be in the recovery log before anything
//! leaves the node, what is sent, repeated, and acknowledged. The engine and the
//! log are outside. [`DkgSession::step`] names the next piece of work for them,
//! and the outcome is handed back.
//!
//! A session that starts waits for the finalized chain state. Chain events are
//! then applied first, the messages of the recovery log are sent again unless the
//! chain made them pointless, the engine starts, and the messages of the recovery
//! log are replayed before anything the engine sends to itself.

use crate::chain::types::{ChainCall, ChainEvent};
use crate::dkg::delivery::{
    call_group, delivery_abort_group_for_chain_call, delivery_abort_group_for_chain_event,
    delivery_abort_group_for_peer_payload, dkg_backoff, dkg_retry, event_group, payload_group,
    DeliveryAbortGroup, DkgObsolescence,
};
use crate::dkg::envelope::{envelope_bytes, DeliveryEnvelope, DeliveryMessage, DeliveryView};
use crate::dkg::ids::{DkgDeliveryPolicy, DkgMessageId, DkgMessageKey, DkgMessageKind, Epoch, NodeId, PartyId};
use crate::dkg::message::{
    answered_request, request_completed_by_response, DkgMessage, DkgMessageView, DurableDkgMessage,
    EphemeralMessage, OutgoingMessage,
};
use crate::dkg::peers::{others, party_at, DkgPeerMap};
use crate::dkg::record::{RecordView, RecoveryRecord};
use crate::dkg::transport::{is_new_delivery, DeliveryOutbound, OutboundView};
use crate::octets::copy_bytes;
use crate::order::Key;
use crate::reliable::message::copy_keys;
use crate::reliable::retry::{
    deliveries_of, extended, rescheduled, serves, MessageView, PendingRecipient, RetryScheduler, ScheduledSend,
};
use vstd::prelude::*;

verus! {

/// The phases of the protocol engine that the runtime tells apart.
#[derive(Clone, Copy, Debug, PartialEq, Eq, Structural)]
pub enum DkgEnginePhase {
    Vss,
    Extraction,
    Output,
    Complete,
}

/// Why a session could not go on with a piece of work.
#[allow(inconsistent_fields)]
#[derive(Clone, Copy, Debug, PartialEq, Eq, Structural)]
pub enum SessionError {
    /// The recovery log took no record.
    RecoveryWal,
    /// A message has no identity.
    Message,
    /// The engine failed.
    Engine { action: EngineAction },
    UnknownParty { action: PartyAction, party: u32 },
    /// A retrieval message has more than one recipient.
    SyncMustBeUnicast,
    /// A message identity was used for two messages.
    ReliableDelivery,
}

/// What the engine was asked for.
#[derive(Clone, Copy, Debug, PartialEq, Eq, Structural)]
pub enum EngineAction {
    Start,
    HandleChainInput,
    HandlePeerInput,
}

/// What was to be done for a party.
#[derive(Clone, Copy, Debug, PartialEq, Eq, Structural)]
pub enum PartyAction {
    Acknowledge,
    Restore,
    Send,
}

/// What the engine asks for.
#[allow(inconsistent_fields)]
#[derive(Debug)]
pub enum EngineEffect {
    Unicast { to: PartyId, message: OutgoingMessage },
    Multicast { message: OutgoingMessage },
    PostToChain(ChainCall),
}

/// What leaves a session.
#[derive(Debug)]
pub enum SessionEffect {
    Network { to: NodeId, payload: Vec<u8> },
    Acknowledgement { to: NodeId, payload: Vec<u8> },
    Chain(ChainCall),
}

#[verifier::ext_equal]
pub enum EffectView {
    Network(OutboundView),
    Acknowledgement(OutboundView),
    Chain(ChainCall),
}

impl View for SessionEffect {
    type V = EffectView;

    open spec fn view(&self) -> EffectView {
        match self {
            SessionEffect::Network { to, payload } => EffectView::Network(
                OutboundView { to: *to, payload: payload@ },
            ),
            SessionEffect::Acknowledgement { to, payload } => EffectView::Acknowledgement(
                OutboundView { to: *to, payload: payload@ },
            ),
            SessionEffect::Chain(call) => EffectView::Chain(*call),
        }
    }
}

/// The views of effects.
pub open spec fn effect_views(effects: Seq<SessionEffect>) -> Seq<EffectView> {
    effects.map_values(|effect: SessionEffect| effect@)
}

/// Deliveries as effects.
pub open spec fn network_views(deliveries: Seq<OutboundView>) -> Seq<EffectView> {
    deliveries.map_values(|delivery: OutboundView| EffectView::Network(delivery))
}

/// A peer message that waits for the engine.
#[derive(Debug)]
pub struct PendingPeerInput {
    pub source: PartyId,
    pub message: DkgMessage,
    /// Whether it goes to the recovery log once the engine took it.
    pub persist: bool,
    /// The delivery to acknowledge afterwards.
    pub acknowledgement: Option<DkgMessageId>,
}

/// An input that waits for the engine.
#[derive(Debug)]
pub enum PendingEngineInput {
    Peer(PendingPeerInput),
    Chain(ChainEvent),
}

#[verifier::ext_equal]
pub struct PeerInputView {
    pub source: PartyId,
    pub message: DkgMessageView,
    pub persist: bool,
    pub acknowledgement: Option<DkgMessageId>,
}

#[verifier::ext_equal]
pub enum InputView {
    Peer(PeerInputView),
    Chain(ChainEvent),
}

impl View for PendingPeerInput {
    type V = PeerInputView;

    open spec fn view(&self) -> PeerInputView {
        PeerInputView {
            source: self.source,
            message: self.message@,
            persist: self.persist,
            acknowledgement: self.acknowledgement,
        }
    }
}

impl View for PendingEngineInput {
    type V = InputView;

    open spec fn view(&self) -> InputView {
        match self {
            PendingEngineInput::Peer(peer) => InputView::Peer(peer@),
            PendingEngineInput::Chain(event) => InputView::Chain(*event),
        }
    }
}

/// The views of inputs.
pub open spec fn input_views(inputs: Seq<PendingEngineInput>) -> Seq<InputView> {
    inputs.map_values(|input: PendingEngineInput| input@)
}

/// A message of the recovery log that is sent again.
#[derive(Debug)]
pub struct RestoredMessage {
    pub recipients: Vec<PartyId>,
    pub message: OutgoingMessage,
}

impl RestoredMessage {
    /// Only durable messages are kept in a recovery log.
    pub open spec fn is_durable(self) -> bool {
        self.message.message.kind.policy() == DkgDeliveryPolicy::Durable
    }

    pub fn try_new(recipients: Vec<PartyId>, message: OutgoingMessage) -> (result: Result<
        Self,
        EphemeralMessage,
    >)
        ensures
            match result {
                Ok(restored) => restored.is_durable() && restored.recipients == recipients
                    && restored.message == message,
                Err(error) => message.message.kind.policy() != DkgDeliveryPolicy::Durable && error
                    == EphemeralMessage(message.message.kind),
            },
    {
        let kind: DkgMessageKind = message.message.kind;
        if kind.delivery_policy() != DkgDeliveryPolicy::Durable {
            return Err(EphemeralMessage(kind));
        }
        Ok(RestoredMessage { recipients, message })
    }
}

/// What a delivered payload is to the protocol.
#[allow(inconsistent_fields)]
#[derive(Debug)]
pub enum DecodedPayload {
    Malformed,
    /// It is a message that the sender cannot send to this party.
    InvalidIdentity,
    Message { message: DkgMessage, keys: Vec<DkgMessageKey> },
}

/// How far a session has come with its recovery.
pub enum SessionRecovery {
    /// The chain state is being read.
    AwaitingChain { outgoing: Vec<RestoredMessage> },
    /// Chain events are applied and messages restored.
    Recovering { outgoing: Vec<RestoredMessage>, peers: Vec<PendingEngineInput> },
    Complete,
}

/// What is left to do for one input.
pub struct Work {
    pub effects: Vec<EngineEffect>,
    pub acknowledgement: Option<(PartyId, DkgMessageId)>,
    /// The phase of the engine after the input.
    pub phase: Option<DkgEnginePhase>,
}

/// What a session is doing.
pub enum Stage {
    /// It can take the next input.
    Ready,
    /// The engine has a peer message.
    Applying(PendingPeerInput),
    /// The engine has a chain event.
    ApplyingChain,
    /// The engine starts.
    Starting,
    /// A record has to be in the log before `held` leaves.
    Persist { record: RecoveryRecord, held: Vec<SessionEffect>, work: Work },
    /// The log has that record.
    Journaling { held: Vec<SessionEffect>, work: Work },
    /// What the engine asked for is being done.
    Working(Work),
}

/// What is to be done outside for a session.
pub enum SessionTask {
    Idle,
    /// There is more to decide.
    Continue,
    ApplyPeer { source: PartyId, message: DkgMessage },
    ApplyChain(ChainEvent),
    StartEngine,
    Append(RecoveryRecord),
}

/// What the engine made of a peer message.
pub enum PeerOutcome {
    Applied { effects: Vec<EngineEffect>, phase: DkgEnginePhase },
    Duplicate,
    Rejected,
    Failed,
}

/// The scheduler of a session.
pub type SessionRetries = RetryScheduler<NodeId, DkgMessageId, DkgObsolescence>;

/// Whether deadlines after `now` can be expressed.
pub open spec fn time_fits(now: u64) -> bool {
    now + dkg_backoff().max + dkg_backoff().max_jitter <= u64::MAX
}

/// A message of an epoch that is sent without acknowledgement.
pub open spec fn plain_wire(epoch: Epoch, bytes: Seq<u8>) -> Seq<u8> {
    envelope_bytes(epoch, DeliveryView::Unacknowledged(bytes))
}

/// A message of an epoch that is acknowledged.
pub open spec fn data_wire(epoch: Epoch, keys: Seq<DkgMessageKey>, bytes: Seq<u8>) -> Seq<u8> {
    envelope_bytes(epoch, DeliveryView::Data { keys, payload: bytes })
}

/// The nodes of parties.
pub open spec fn nodes_of(members: Seq<NodeId>, parties: Seq<PartyId>) -> Seq<NodeId> {
    parties.map_values(|party: PartyId| members[party.0 as int])
}

/// The first of `parties` that is not in the session.
pub open spec fn unknown_party(members: Seq<NodeId>, parties: Seq<PartyId>) -> Option<PartyId>
    decreases parties.len(),
{
    if parties.len() == 0 {
        None
    } else if parties[0].0 >= members.len() {
        Some(parties[0])
    } else {
        unknown_party(members, parties.skip(1))
    }
}

/// Finds the nodes of parties, or the first party that is not in the session.
pub(crate) fn find_nodes(peers: &DkgPeerMap, parties: &Vec<PartyId>) -> (result: Result<Vec<NodeId>, PartyId>)
    ensures
        match unknown_party(peers.members(), parties@) {
            Some(party) => result == Err::<Vec<NodeId>, _>(party),
            None => result matches Ok(nodes) && nodes@ == nodes_of(peers.members(), parties@),
        },
{
    let ghost members = peers.members();
    let mut nodes: Vec<NodeId> = Vec::new();
    let mut i: usize = 0;
    assert(parties@.skip(0) =~= parties@);
    while i < parties.len()
        invariant
            i <= parties@.len(),
            members == peers.members(),
            unknown_party(members, parties@) == unknown_party(members, parties@.skip(i as int)),
            nodes@ == nodes_of(members, parties@).take(i as int),
        decreases parties@.len() - i,
    {
        assert(parties@.skip(i as int)[0] == parties@[i as int]);
        assert(parties@.skip(i as int).skip(1) =~= parties@.skip(i + 1));
        match peers.member_id(parties[i]) {
            Some(node) => {
                nodes.push(node);
                assert(nodes_of(members, parties@).take(i + 1) =~= nodes_of(members, parties@).take(
                    i as int,
                ).push(node));
            },
            None => {
                return Err(parties[i]);
            },
        }
        i += 1;
    }
    assert(nodes_of(members, parties@).take(i as int) =~= nodes_of(members, parties@));
    Ok(nodes)
}

/// Hands scheduled sends on as effects.
fn into_effects(sends: Vec<ScheduledSend<NodeId>>) -> (effects: Vec<SessionEffect>)
    ensures
        effect_views(effects@) == network_views(crate::dkg::transport::outbound_views(sends@)),
        effects@.len() == sends@.len(),
{
    let ghost whole = network_views(crate::dkg::transport::outbound_views(sends@));
    let deliveries: Vec<DeliveryOutbound> = crate::dkg::transport::into_outbound(sends);
    let ghost views = crate::dkg::transport::deliveries_view(deliveries@);
    let mut deliveries: Vec<DeliveryOutbound> = deliveries;
    let mut effects: Vec<SessionEffect> = Vec::new();
    let ghost total = deliveries@;
    assert(views.len() == whole.len());
    while deliveries.len() > 0
        invariant
            deliveries@.len() <= total.len(),
            deliveries@ == total.skip(total.len() - deliveries@.len()),
            views == crate::dkg::transport::deliveries_view(total),
            whole == network_views(views),
            effect_views(effects@) == whole.take(total.len() - deliveries@.len()),
        decreases deliveries@.len(),
    {
        let ghost done = total.len() - deliveries@.len();
        let delivery: DeliveryOutbound = deliveries.remove(0);
        proof {
            assert(delivery == total[done]);
            assert(deliveries@ =~= total.skip(done + 1));
            assert(views[done] == delivery@);
        }
        let ghost earlier = effects@;
        effects.push(SessionEffect::Network { to: delivery.to, payload: delivery.payload });
        proof {
            assert(effect_views(effects@) =~= effect_views(earlier).push(whole[done]));
            assert(whole.take(done + 1) =~= whole.take(done).push(whole[done]));
        }
    }
    proof {
        assert(whole.take(total.len() as int) =~= whole);
        assert(effect_views(effects@).len() == effects@.len());
    }
    effects
}

pub(crate) fn append_effects(effects: &mut Vec<SessionEffect>, more: Vec<SessionEffect>)
    ensures
        effect_views(final(effects)@) == effect_views(old(effects)@) + effect_views(more@),
{
    let ghost before = effects@;
    let mut more: Vec<SessionEffect> = more;
    let ghost whole = more@;
    effects.append(&mut more);
    assert(effects@ =~= before + whole);
    assert(effect_views(effects@) =~= effect_views(before) + effect_views(whole));
}

/// What became of a message that was sent.
pub struct Sent {
    /// The deliveries.
    pub sends: Vec<SessionEffect>,
    /// What has to be in the recovery log before they leave.
    pub record: Option<RecoveryRecord>,
}

/// Why a message cannot be sent to `recipients`.
pub open spec fn send_refusal(members: Seq<NodeId>, message: OutgoingMessage, recipients: Seq<PartyId>) -> Option<
    SessionError,
> {
    if message.message.kind.policy() != DkgDeliveryPolicy::Durable && recipients.len() != 1 {
        Some(SessionError::SyncMustBeUnicast)
    } else if message.slots_for(recipients) is None {
        Some(SessionError::Message)
    } else {
        match unknown_party(members, recipients) {
            Some(party) => Some(
                SessionError::UnknownParty { action: PartyAction::Send, party: party.0 },
            ),
            None => None,
        }
    }
}

/// Whether `sends` start the delivery of `wire` to `nodes`, and `after` is the
/// scheduler that repeats it. Nothing is sent where the group is obsolete.
pub open spec fn scheduled(
    before: SessionRetries,
    after: SessionRetries,
    id: DkgMessageId,
    nodes: Seq<NodeId>,
    wire: Seq<u8>,
    group: Option<DeliveryAbortGroup>,
    now: u64,
    result: Result<Seq<EffectView>, SessionError>,
) -> bool {
    &&& after.wf()
    &&& after.config() == before.config()
    &&& after.observed() == before.observed()
    &&& if before.is_obsolete(group) || nodes.len() == 0 {
        &&& result == Ok::<Seq<EffectView>, SessionError>(Seq::empty())
        &&& after.pending() == before.pending()
        &&& after.deliveries() == before.deliveries()
    } else if before.conflicts(id, wire, group) {
        &&& result == Err::<Seq<EffectView>, _>(SessionError::ReliableDelivery)
        &&& after.pending() == before.pending()
        &&& after.deliveries() == before.deliveries()
    } else {
        &&& after.pending() == before.pending().insert(id, MessageView { payload: wire, scope: group })
        &&& extended(
            before.config(),
            before.deliveries(),
            after.deliveries(),
            id,
            before.new_recipients(id, nodes),
            now,
        )
        &&& exists|deliveries: Seq<OutboundView>| #[trigger]
            is_new_delivery(deliveries, before.new_recipients(id, nodes), wire) && result == Ok::<
                Seq<EffectView>,
                SessionError,
            >(network_views(deliveries))
    }
}

/// Starts a delivery.
pub(crate) fn schedule(
    retries: &mut SessionRetries,
    id: DkgMessageId,
    nodes: Vec<NodeId>,
    wire: Vec<u8>,
    group: Option<DeliveryAbortGroup>,
    now: u64,
) -> (result: Result<Vec<SessionEffect>, SessionError>)
    requires
        old(retries).wf(),
        old(retries).config() == dkg_backoff(),
        time_fits(now),
    ensures
        scheduled(
            *old(retries),
            *final(retries),
            id,
            nodes@,
            wire@,
            group,
            now,
            match result {
                Ok(sends) => Ok(effect_views(sends@)),
                Err(error) => Err(error),
            },
        ),
{
    let ghost before = *retries;
    let ghost bytes = wire@;
    let ghost wanted = nodes@;
    match retries.enqueue(id, nodes, wire, group, now) {
        Ok(sends) => {
            let ghost whole = sends@;
            let effects: Vec<SessionEffect> = into_effects(sends);
            proof {
                let deliveries = crate::dkg::transport::outbound_views(whole);
                if before.is_obsolete(group) || wanted.len() == 0 {
                    assert(effect_views(effects@) =~= Seq::empty());
                } else {
                    assert(crate::dkg::transport::outbound_targets(deliveries)
                        =~= crate::reliable::retry::send_targets(whole));
                    assert forall|i: int| 0 <= i < deliveries.len() implies (
                    #[trigger] deliveries[i]).payload == bytes by {
                        assert(whole[i].payload@ == bytes);
                    }
                    assert(is_new_delivery(deliveries, before.new_recipients(id, wanted), bytes));
                }
            }
            Ok(effects)
        },
        Err(_) => Err(SessionError::ReliableDelivery),
    }
}

/// What becomes of a message for `recipients`, in ascending order. A message with
/// no recipients is not sent. A retrieval response is sent once, a retrieval
/// request until extraction ends, and any other message until it is acknowledged
/// or its group is obsolete; such a message is sent only once its record is in
/// the recovery log.
pub open spec fn sending(
    before: SessionRetries,
    after: SessionRetries,
    epoch: Epoch,
    self_party: PartyId,
    members: Seq<NodeId>,
    message: OutgoingMessage,
    recipients: Seq<PartyId>,
    now: u64,
    result: Result<Sent, SessionError>,
) -> bool {
    let nodes = nodes_of(members, recipients);
    let bytes = message.message.bytes@;
    if recipients.len() == 0 {
        &&& after == before
        &&& result matches Ok(sent) && sent.sends@.len() == 0 && sent.record is None
    } else if send_refusal(members, message, recipients) is Some {
        &&& after == before
        &&& result == Err::<Sent, _>(send_refusal(members, message, recipients)->Some_0)
    } else if message.message.kind.policy() == DkgDeliveryPolicy::Once {
        &&& after == before
        &&& result matches Ok(sent) && sent.record is None && effect_views(sent.sends@) == seq![
            EffectView::Network(OutboundView { to: nodes[0], payload: plain_wire(epoch, bytes) }),
        ]
    } else {
        let keys = message.slots_for(recipients)->Some_0;
        let durable = message.message.kind.policy() == DkgDeliveryPolicy::Durable;
        let wire = if durable {
            data_wire(epoch, keys, bytes)
        } else {
            plain_wire(epoch, bytes)
        };
        let group = if durable {
            payload_group(message.message.kind, self_party, recipients[0])
        } else {
            Some(DeliveryAbortGroup::Extraction)
        };
        exists|id: DkgMessageId| #[trigger]
            id.keys() == keys && scheduled(
                before,
                after,
                id,
                nodes,
                wire,
                group,
                now,
                match result {
                    Ok(sent) => Ok(effect_views(sent.sends@)),
                    Err(error) => Err(error),
                },
            ) && (result matches Ok(sent) ==> if durable && sent.sends@.len() > 0 {
                sent.record is Some && sent.record->Some_0@ == (RecordView::Outgoing {
                    recipients,
                    payload: bytes,
                })
            } else {
                sent.record is None
            })
    }
}

/// The protocol runtime of one epoch.
pub struct DkgSession {
    epoch: Epoch,
    self_party: PartyId,
    peers: DkgPeerMap,
    retries: SessionRetries,
    effects: Vec<SessionEffect>,
    inputs: Vec<PendingEngineInput>,
    recovery: SessionRecovery,
    last_phase: DkgEnginePhase,
    stage: Stage,
}

/// Whether `after` is what is left of `before` once its first effect is taken.
pub open spec fn rest_of(before: Work, after: Work) -> bool {
    &&& after.effects@ == before.effects@.skip(1)
    &&& after.acknowledgement == before.acknowledgement
    &&& after.phase == before.phase
}

/// The input that a delivery makes, if it is taken: it is well formed, its sender
/// may send it, it is acknowledged exactly where its policy says so, and what is
/// acknowledged covers the slots of the message.
pub open spec fn taken_input(
    from: PartyId,
    decoded: DecodedPayload,
    acknowledgement: Option<DkgMessageId>,
) -> Option<PeerInputView> {
    match decoded {
        DecodedPayload::Message { message, keys } => {
            let durable = message.kind.policy() == DkgDeliveryPolicy::Durable;
            if durable != acknowledgement is Some {
                None
            } else if acknowledgement matches Some(id) && !(forall|i: int|
                0 <= i < keys@.len() ==> id.keys().contains(#[trigger] keys@[i])) {
                None
            } else {
                Some(
                    PeerInputView {
                        source: from,
                        message: message@,
                        persist: !message.kind.sync(),
                        acknowledgement,
                    },
                )
            }
        },
        _ => None,
    }
}

/// The recovery of a session after a failure.
pub open spec fn failed_recovery(before: SessionRecovery, after: SessionRecovery) -> bool {
    match before {
        SessionRecovery::Recovering { outgoing, .. } => after matches SessionRecovery::AwaitingChain {
            outgoing: left,
        } && left@ == outgoing@,
        _ => after == before,
    }
}

/// The group that ends with a phase change.
pub open spec fn phase_evidence(last: DkgEnginePhase, phase: DkgEnginePhase) -> Option<
    DeliveryAbortGroup,
> {
    if last == phase {
        None
    } else {
        match last {
            DkgEnginePhase::Vss => Some(DeliveryAbortGroup::Vss),
            DkgEnginePhase::Extraction => Some(DeliveryAbortGroup::Extraction),
            _ => None,
        }
    }
}

/// Whether `after` is the scheduler `before` once evidence was observed, if any.
pub open spec fn observes(
    before: SessionRetries,
    after: SessionRetries,
    evidence: Option<DeliveryAbortGroup>,
) -> bool {
    match evidence {
        None => after == before,
        Some(group) => {
            &&& after.wf()
            &&& after.config() == before.config()
            &&& after.observed() == before.observed().insert(group)
            &&& after.pending() == before.pending().remove_keys(before.obsoleted_by(group))
            &&& after.deliveries() == before.deliveries().remove_keys(
                deliveries_of(before.obsoleted_by(group)),
            )
        },
    }
}

pub(crate) fn observe_group(retries: &mut SessionRetries, evidence: Option<DeliveryAbortGroup>)
    requires
        old(retries).wf(),
    ensures
        final(retries).wf(),
        final(retries).config() == old(retries).config(),
        observes(*old(retries), *final(retries), evidence),
{
    match evidence {
        Some(group) => {
            retries.observe(group);
        },
        None => {},
    }
}

impl DkgSession {
    pub closed spec fn epoch(self) -> Epoch {
        self.epoch
    }

    pub closed spec fn self_party(self) -> PartyId {
        self.self_party
    }

    /// The nodes of the session, in the order of their party numbers.
    pub closed spec fn members(self) -> Seq<NodeId> {
        self.peers.members()
    }

    pub closed spec fn retries(self) -> SessionRetries {
        self.retries
    }

    /// What is to leave the session.
    pub closed spec fn effects(self) -> Seq<EffectView> {
        effect_views(self.effects@)
    }

    /// What waits for the engine.
    pub closed spec fn inputs(self) -> Seq<InputView> {
        input_views(self.inputs@)
    }

    pub closed spec fn recovery(self) -> SessionRecovery {
        self.recovery
    }

    pub closed spec fn last_phase(self) -> DkgEnginePhase {
        self.last_phase
    }

    pub closed spec fn stage(self) -> Stage {
        self.stage
    }

    pub closed spec fn peers_wf(self) -> bool {
        self.peers.wf()
    }

    pub open spec fn wf(self) -> bool {
        &&& self.peers_wf()
        &&& self.retries().wf()
        &&& self.retries().config() == dkg_backoff()
    }

    /// The session has not changed whom it runs for.
    pub open spec fn same_session(self, other: Self) -> bool {
        &&& self.epoch() == other.epoch()
        &&& self.self_party() == other.self_party()
        &&& self.members() == other.members()
    }

    /// The session takes inputs.
    pub open spec fn drains(self) -> bool {
        !(self.recovery() is AwaitingChain)
    }

    /// A session that waits for the chain. The `incoming` messages of the
    /// recovery log, all of them durable, are replayed later, unless their source
    /// is unknown.
    pub fn new(
        epoch: Epoch,
        self_party: PartyId,
        peers: DkgPeerMap,
        incoming: Vec<(PartyId, DurableDkgMessage)>,
        outgoing: Vec<RestoredMessage>,
        phase: DkgEnginePhase,
    ) -> (session: Self)
        requires
            peers.wf(),
            forall|i: int| 0 <= i < incoming@.len() ==> (#[trigger] incoming@[i]).1.is_durable(),
            forall|i: int| 0 <= i < outgoing@.len() ==> (#[trigger] outgoing@[i]).is_durable(),
        ensures
            session.wf(),
            session.epoch() == epoch,
            session.self_party() == self_party,
            session.members() == peers.members(),
            session.effects() == Seq::<EffectView>::empty(),
            session.inputs() == replayed(incoming@, peers.members().len()),
            session.recovery() == (SessionRecovery::AwaitingChain { outgoing }),
            session.last_phase() == phase,
            session.stage() is Ready,
            session.retries().pending() == Map::<
                DkgMessageId,
                MessageView<DeliveryAbortGroup>,
            >::empty(),
            session.retries().deliveries() == Map::<(DkgMessageId, NodeId), PendingRecipient>::empty(),
            session.retries().observed() == Set::<DeliveryAbortGroup>::empty(),
    {
        let mut inputs: Vec<PendingEngineInput> = Vec::new();
        let mut incoming: Vec<(PartyId, DurableDkgMessage)> = incoming;
        let ghost whole = incoming@;
        let ghost count = peers.members().len();
        assert(whole.take(0) =~= Seq::empty());
        assert(input_views(inputs@) =~= Seq::empty());
        while incoming.len() > 0
            invariant
                incoming@.len() <= whole.len(),
                incoming@ == whole.skip(whole.len() - incoming@.len()),
                count == peers.members().len(),
                input_views(inputs@) == replayed(whole.take(whole.len() - incoming@.len()), count),
            decreases incoming@.len(),
        {
            let ghost done = whole.len() - incoming@.len();
            let (source, message) = incoming.remove(0);
            proof {
                assert((source, message) == whole[done]);
                assert(incoming@ =~= whole.skip(done + 1));
                assert(whole.take(done + 1).drop_last() =~= whole.take(done));
                assert(whole.take(done + 1).last() == whole[done]);
            }
            if peers.member_id(source).is_some() {
                let ghost earlier = inputs@;
                inputs.push(
                    PendingEngineInput::Peer(
                        PendingPeerInput {
                            source,
                            message: message.into_message(),
                            persist: false,
                            acknowledgement: None,
                        },
                    ),
                );
                assert(input_views(inputs@) =~= input_views(earlier).push(inputs@.last()@));
            }
        }
        assert(whole.take(whole.len() as int) =~= whole);
        let session = DkgSession {
            epoch,
            self_party,
            peers,
            retries: RetryScheduler::new(dkg_retry()),
            effects: Vec::new(),
            inputs,
            recovery: SessionRecovery::AwaitingChain { outgoing },
            last_phase: phase,
            stage: Stage::Ready,
        };
        assert(session.effects() =~= Seq::<EffectView>::empty());
        session
    }

    /// When a message is due next.
    pub fn next_timer(&self) -> (timer: Option<u64>)
        requires
            self.wf(),
        ensures
            is_next_timer(self.retries(), timer),
    {
        self.retries.next_timer()
    }

    /// The number of outstanding deliveries.
    pub fn pending_retry_count(&self) -> (count: usize)
        requires
            self.wf(),
        ensures
            count == self.retries().deliveries().dom().len(),
    {
        self.retries.pending_count()
    }

    /// Hands out what is to leave the session.
    pub fn take_effects(&mut self) -> (effects: Vec<SessionEffect>)
        requires
            old(self).wf(),
        ensures
            final(self).wf(),
            final(self).same_session(*old(self)),
            effect_views(effects@) == old(self).effects(),
            final(self).effects() == Seq::<EffectView>::empty(),
            final(self).retries() == old(self).retries(),
            final(self).inputs() == old(self).inputs(),
            final(self).recovery() == old(self).recovery(),
            final(self).last_phase() == old(self).last_phase(),
            final(self).stage() == old(self).stage(),
    {
        let mut effects: Vec<SessionEffect> = Vec::new();
        std::mem::swap(&mut effects, &mut self.effects);
        assert(self.effects() =~= Seq::<EffectView>::empty());
        effects
    }

    /// Takes a delivery from `sender`, whose payload the protocol decoded.
    pub fn handle_network_message(
        &mut self,
        sender: &NodeId,
        message: DeliveryMessage,
        decoded: DecodedPayload,
    )
        requires
            old(self).wf(),
        ensures
            final(self).wf(),
            final(self).same_session(*old(self)),
            final(self).effects() == old(self).effects(),
            final(self).recovery() == old(self).recovery(),
            final(self).last_phase() == old(self).last_phase(),
            final(self).stage() == old(self).stage(),
            match party_at(old(self).members(), *sender) {
                None => final(self).inputs() == old(self).inputs() && final(self).retries() == old(
                    self,
                ).retries(),
                Some(from) => match message {
                    DeliveryMessage::Ack(id) => {
                        &&& final(self).inputs() == old(self).inputs()
                        &&& acknowledges(old(self).retries(), final(self).retries(), id, *sender)
                    },
                    _ => {
                        let acknowledgement = match message {
                            DeliveryMessage::Data { message_id, .. } => Some(message_id),
                            _ => None,
                        };
                        &&& final(self).retries() == old(self).retries()
                        &&& final(self).inputs() == (match taken_input(from, decoded, acknowledgement) {
                            Some(input) => old(self).inputs().push(InputView::Peer(input)),
                            None => old(self).inputs(),
                        })
                    },
                },
            },
    {
        let from: PartyId = match self.peers.party_id(sender) {
            Some(from) => from,
            None => {
                return;
            },
        };
        match message {
            DeliveryMessage::Data { message_id, .. } => {
                self.handle_data_payload(from, decoded, Some(message_id));
            },
            DeliveryMessage::Unacknowledged(_) => {
                self.handle_data_payload(from, decoded, None);
            },
            DeliveryMessage::Ack(message_id) => {
                self.retries.acknowledge(&message_id, *sender);
            },
        }
    }

    fn handle_data_payload(
        &mut self,
        from: PartyId,
        decoded: DecodedPayload,
        acknowledgement: Option<DkgMessageId>,
    )
        requires
            old(self).wf(),
        ensures
            final(self).wf(),
            final(self).same_session(*old(self)),
            final(self).effects() == old(self).effects(),
            final(self).retries() == old(self).retries(),
            final(self).recovery() == old(self).recovery(),
            final(self).last_phase() == old(self).last_phase(),
            final(self).stage() == old(self).stage(),
            final(self).inputs() == (match taken_input(from, decoded, acknowledgement) {
                Some(input) => old(self).inputs().push(InputView::Peer(input)),
                None => old(self).inputs(),
            }),
    {
        let (message, keys) = match decoded {
            DecodedPayload::Message { message, keys } => (message, keys),
            _ => {
                return;
            },
        };
        let durable: bool = message.kind.delivery_policy() == DkgDeliveryPolicy::Durable;
        if durable != acknowledgement.is_some() {
            return;
        }
        match &acknowledgement {
            Some(id) => {
                if !covers(id, &keys) {
                    return;
                }
            },
            None => {},
        }
        let ghost earlier = self.inputs@;
        let persist: bool = !message.kind.is_sync();
        self.inputs.push(
            PendingEngineInput::Peer(
                PendingPeerInput { source: from, message, persist, acknowledgement },
            ),
        );
        assert(input_views(self.inputs@) =~= input_views(earlier).push(self.inputs@.last()@));
    }

    /// Repeats what is due. Returns how many messages were repeated.
    pub fn handle_timer(&mut self, now: u64) -> (count: usize)
        requires
            old(self).wf(),
            time_fits(now),
        ensures
            final(self).wf(),
            final(self).same_session(*old(self)),
            final(self).inputs() == old(self).inputs(),
            final(self).recovery() == old(self).recovery(),
            final(self).last_phase() == old(self).last_phase(),
            final(self).stage() == old(self).stage(),
            final(self).retries().pending() == old(self).retries().pending(),
            final(self).retries().observed() == old(self).retries().observed(),
            rescheduled(
                dkg_backoff(),
                old(self).retries().deliveries(),
                final(self).retries().deliveries(),
                now,
            ),
            repeats(old(self).retries(), now, old(self).effects(), final(self).effects(), count as nat),
    {
        let ghost before = *self;
        let (effects, count) = repeat_due(&mut self.retries, now);
        let ghost more = effect_views(effects@);
        append_effects(&mut self.effects, effects);
        proof {
            lemma_repeats_after(before.retries(), now, before.effects(), more, count as nat);
        }
        count
    }

    /// Takes a finalized chain event.
    pub fn handle_chain_event(&mut self, event: ChainEvent)
        requires
            old(self).wf(),
        ensures
            final(self).wf(),
            final(self).same_session(*old(self)),
            final(self).effects() == old(self).effects(),
            final(self).recovery() == old(self).recovery(),
            final(self).last_phase() == old(self).last_phase(),
            final(self).stage() == old(self).stage(),
            observes(old(self).retries(), final(self).retries(), Some(event_group(event))),
            final(self).inputs() == old(self).inputs().push(InputView::Chain(event)),
    {
        let group: DeliveryAbortGroup = delivery_abort_group_for_chain_event(&event);
        observe_group(&mut self.retries, Some(group));
        let ghost earlier = self.inputs@;
        self.inputs.push(PendingEngineInput::Chain(event));
        assert(input_views(self.inputs@) =~= input_views(earlier).push(self.inputs@.last()@));
    }

    /// Takes the call that the engine posts.
    pub fn handle_chain_call(&mut self, call: ChainCall)
        requires
            old(self).wf(),
        ensures
            final(self).wf(),
            final(self).same_session(*old(self)),
            final(self).inputs() == old(self).inputs(),
            final(self).recovery() == old(self).recovery(),
            final(self).last_phase() == old(self).last_phase(),
            final(self).stage() == old(self).stage(),
            observes(old(self).retries(), final(self).retries(), call_group(call)),
            final(self).effects() == old(self).effects().push(EffectView::Chain(call)),
    {
        let group: Option<DeliveryAbortGroup> = delivery_abort_group_for_chain_call(&call);
        observe_group(&mut self.retries, group);
        let ghost earlier = self.effects@;
        self.effects.push(SessionEffect::Chain(call));
        assert(effect_views(self.effects@) =~= effect_views(earlier).push(self.effects@.last()@));
    }

    /// Notes that the chain state up to the session's start was read. Peer inputs
    /// wait until the chain events are applied.
    pub fn finish_chain_recovery(&mut self)
        requires
            old(self).wf(),
        ensures
            final(self).wf(),
            final(self).same_session(*old(self)),
            final(self).effects() == old(self).effects(),
            final(self).retries() == old(self).retries(),
            final(self).last_phase() == old(self).last_phase(),
            final(self).stage() == old(self).stage(),
            match old(self).recovery() {
                SessionRecovery::AwaitingChain { outgoing } => {
                    &&& final(self).inputs() == chain_inputs(old(self).inputs())
                    &&& final(self).recovery() matches SessionRecovery::Recovering {
                        outgoing: restored,
                        peers,
                    } && restored@ == outgoing@ && input_views(peers@) == peer_inputs(
                        old(self).inputs(),
                    )
                },
                _ => final(self).inputs() == old(self).inputs() && final(self).recovery() == old(
                    self,
                ).recovery(),
            },
    {
        let mut recovery: SessionRecovery = SessionRecovery::Complete;
        std::mem::swap(&mut recovery, &mut self.recovery);
        match recovery {
            SessionRecovery::AwaitingChain { outgoing } => {
                let mut inputs: Vec<PendingEngineInput> = Vec::new();
                std::mem::swap(&mut inputs, &mut self.inputs);
                let ghost whole = input_views(inputs@);
                let (chain, peers) = partition_inputs(inputs);
                self.inputs = chain;
                self.recovery = SessionRecovery::Recovering { outgoing, peers };
            },
            other => {
                self.recovery = other;
            },
        }
    }

    /// Sends a message to `recipients`, in ascending order.
    fn send(&mut self, message: &OutgoingMessage, recipients: &Vec<PartyId>, now: u64) -> (result: Result<
        Sent,
        SessionError,
    >)
        requires
            old(self).wf(),
            time_fits(now),
        ensures
            final(self).wf(),
            final(self).same_session(*old(self)),
            final(self).effects() == old(self).effects(),
            final(self).inputs() == old(self).inputs(),
            final(self).recovery() == old(self).recovery(),
            final(self).last_phase() == old(self).last_phase(),
            final(self).stage() == old(self).stage(),
            sending(
                old(self).retries(),
                final(self).retries(),
                old(self).epoch(),
                old(self).self_party(),
                old(self).members(),
                *message,
                recipients@,
                now,
                result,
            ),
    {
        let ghost before = *self;
        if recipients.len() == 0 {
            return Ok(Sent { sends: Vec::new(), record: None });
        }
        let policy: DkgDeliveryPolicy = message.message.kind.delivery_policy();
        if policy != DkgDeliveryPolicy::Durable && recipients.len() != 1 {
            return Err(SessionError::SyncMustBeUnicast);
        }
        let id: DkgMessageId = match message.message_id(recipients) {
            Some(id) => id,
            None => {
                return Err(SessionError::Message);
            },
        };
        let nodes: Vec<NodeId> = match find_nodes(&self.peers, recipients) {
            Ok(nodes) => nodes,
            Err(party) => {
                return Err(
                    SessionError::UnknownParty { action: PartyAction::Send, party: party.0 },
                );
            },
        };
        let bytes: Vec<u8> = copy_bytes(&message.message.bytes);
        match policy {
            DkgDeliveryPolicy::Once => {
                let payload: Vec<u8> = DeliveryEnvelope::unacknowledged(self.epoch, bytes).encode();
                let mut sends: Vec<SessionEffect> = Vec::new();
                sends.push(SessionEffect::Network { to: nodes[0], payload });
                let sent = Sent { sends, record: None };
                assert(effect_views(sent.sends@) =~= seq![
                    EffectView::Network(
                        OutboundView {
                            to: nodes_of(before.members(), recipients@)[0],
                            payload: plain_wire(before.epoch(), message.message.bytes@),
                        },
                    ),
                ]);
                Ok(sent)
            },
            DkgDeliveryPolicy::Retry => {
                let payload: Vec<u8> = DeliveryEnvelope::unacknowledged(self.epoch, bytes).encode();
                let ghost own = id;
                assert(own.keys() == message.slots_for(recipients@)->Some_0);
                match schedule(
                    &mut self.retries,
                    id,
                    nodes,
                    payload,
                    Some(DeliveryAbortGroup::Extraction),
                    now,
                ) {
                    Ok(sends) => Ok(Sent { sends, record: None }),
                    Err(error) => Err(error),
                }
            },
            DkgDeliveryPolicy::Durable => {
                let group: Option<DeliveryAbortGroup> = delivery_abort_group_for_peer_payload(
                    message.message.kind,
                    self.self_party,
                    recipients[0],
                );
                let payload: Vec<u8> = DeliveryEnvelope::data(self.epoch, id.duplicate(), bytes).encode();
                let ghost own = id;
                assert(own.keys() == message.slots_for(recipients@)->Some_0);
                match schedule(&mut self.retries, id, nodes, payload, group, now) {
                    Ok(sends) => {
                        let record: Option<RecoveryRecord> = if sends.len() > 0 {
                            Some(
                                RecoveryRecord::Outgoing {
                                    recipients: copy_keys(recipients),
                                    payload: copy_bytes(&message.message.bytes),
                                },
                            )
                        } else {
                            None
                        };
                        Ok(Sent { sends, record })
                    },
                    Err(error) => Err(error),
                }
            },
        }
    }
}

/// What becomes of a message of the recovery log; one without recipients is
/// skipped.
pub open spec fn restoring(
    before: SessionRetries,
    after: SessionRetries,
    epoch: Epoch,
    self_party: PartyId,
    members: Seq<NodeId>,
    first: RestoredMessage,
    now: u64,
    outcome: Result<Seq<EffectView>, SessionError>,
) -> bool {
    let recipients = first.recipients@;
    if recipients.len() == 0 {
        after == before && outcome == Ok::<Seq<EffectView>, SessionError>(Seq::empty())
    } else if first.message.slots_for(recipients) is None {
        after == before && outcome == Err::<Seq<EffectView>, _>(SessionError::Message)
    } else if unknown_party(members, recipients) is Some {
        after == before && outcome == Err::<Seq<EffectView>, _>(
            SessionError::UnknownParty {
                action: PartyAction::Restore,
                party: unknown_party(members, recipients)->Some_0.0,
            },
        )
    } else {
        let keys = first.message.slots_for(recipients)->Some_0;
        exists|id: DkgMessageId| #[trigger]
            id.keys() == keys && scheduled(
                before,
                after,
                id,
                nodes_of(members, recipients),
                data_wire(epoch, keys, first.message.message.bytes@),
                payload_group(first.message.message.kind, self_party, recipients[0]),
                now,
                outcome,
            )
    }
}

/// The request that a response completes, and the scheduler without it.
pub open spec fn completes(
    before: SessionRetries,
    after: SessionRetries,
    request: Option<DkgMessageKey>,
) -> bool {
    match request {
        None => after == before,
        Some(key) => {
            let id = DkgMessageId::Single(key);
            &&& after.wf()
            &&& after.config() == before.config()
            &&& after.observed() == before.observed()
            &&& after.pending() == before.pending().remove(id)
            &&& after.deliveries() == before.deliveries().remove_keys(deliveries_of(set![id]))
        },
    }
}

/// The acknowledgement of a message to a party, or the failure to send one.
pub open spec fn acknowledged(
    epoch: Epoch,
    members: Seq<NodeId>,
    target: PartyId,
    id: DkgMessageId,
) -> Result<EffectView, SessionError> {
    if target.0 < members.len() {
        Ok(
            EffectView::Acknowledgement(
                OutboundView {
                    to: members[target.0 as int],
                    payload: envelope_bytes(epoch, DeliveryView::Ack(id.keys())),
                },
            ),
        )
    } else {
        Err(SessionError::UnknownParty { action: PartyAction::Acknowledge, party: target.0 })
    }
}

/// The local copy of a multicast message that the engine has to see as well.
pub open spec fn loopback(self_party: PartyId, message: DkgMessageView) -> Seq<InputView> {
    if message.kind == DkgMessageKind::LowerConversion || message.kind == DkgMessageKind::OpenPower {
        seq![
            InputView::Peer(
                PeerInputView {
                    source: self_party,
                    message,
                    persist: true,
                    acknowledgement: None,
                },
            ),
        ]
    } else {
        Seq::empty()
    }
}

impl DkgSession {
    /// Everything but the scheduler, the effects, the inputs, and the stage is the same.
    pub open spec fn same_progress(self, other: Self) -> bool {
        &&& self.same_session(other)
        &&& self.recovery() == other.recovery()
        &&& self.last_phase() == other.last_phase()
    }

    /// The session takes the next input and hands it to the engine.
    pub open spec fn takes_input(self, after: Self, result: Result<SessionTask, SessionError>) -> bool {
        &&& after.same_progress(self)
        &&& after.retries() == self.retries()
        &&& after.effects() == self.effects()
        &&& after.inputs() == self.inputs().skip(1)
        &&& match self.inputs()[0] {
            InputView::Peer(input) => {
                &&& after.stage() matches Stage::Applying(applying) && applying@ == input
                &&& result matches Ok(SessionTask::ApplyPeer { source, message }) && source
                    == input.source && message@ == input.message
            },
            InputView::Chain(event) => {
                &&& after.stage() is ApplyingChain
                &&& result == Ok::<SessionTask, SessionError>(SessionTask::ApplyChain(event))
            },
        }
    }

    /// The session sends a message of the recovery log again.
    pub open spec fn restores(
        self,
        after: Self,
        first: RestoredMessage,
        now: u64,
        result: Result<SessionTask, SessionError>,
    ) -> bool {
        &&& after.same_session(self)
        &&& after.last_phase() == self.last_phase()
        &&& after.inputs() == self.inputs()
        &&& after.stage() is Ready
        &&& exists|outcome: Result<Seq<EffectView>, SessionError>| #[trigger]
            restoring(
                self.retries(),
                after.retries(),
                self.epoch(),
                self.self_party(),
                self.members(),
                first,
                now,
                outcome,
            ) && match outcome {
                Ok(sends) => {
                    &&& result == Ok::<SessionTask, SessionError>(SessionTask::Continue)
                    &&& after.effects() == self.effects() + sends
                    &&& self.recovery() matches SessionRecovery::Recovering {
                        outgoing: all,
                        peers: waiting,
                    } && after.recovery() matches SessionRecovery::Recovering { outgoing, peers }
                        && outgoing@ == all@.skip(1) && peers@ == waiting@
                },
                Err(error) => {
                    &&& result == Err::<SessionTask, _>(error)
                    &&& after.effects() == self.effects()
                    &&& after.recovery() matches SessionRecovery::AwaitingChain { outgoing }
                        && outgoing@.len() == 0
                },
            }
    }

    /// The session does what the engine asked for first.
    pub open spec fn dispatches(
        self,
        after: Self,
        work: Work,
        now: u64,
        result: Result<SessionTask, SessionError>,
    ) -> bool {
        let effect = work.effects@[0];
        &&& after.same_session(self)
        &&& after.last_phase() == self.last_phase()
        &&& match effect {
            EngineEffect::PostToChain(call) => {
                &&& after.recovery() == self.recovery()
                &&& after.inputs() == self.inputs()
                &&& observes(self.retries(), after.retries(), call_group(call))
                &&& after.effects() == self.effects().push(EffectView::Chain(call))
                &&& after.stage() matches Stage::Working(rest) && rest_of(work, rest)
                &&& result == Ok::<SessionTask, SessionError>(SessionTask::Continue)
            },
            EngineEffect::Unicast { to, message } => {
                &&& after.inputs() == self.inputs()
                &&& self.sends(after, work, message, seq![to], now, result)
            },
            EngineEffect::Multicast { message } => {
                &&& after.inputs() == self.inputs() + loopback(self.self_party(), message.message@)
                &&& self.sends(
                    after,
                    work,
                    message,
                    others(self.members().len(), self.self_party()),
                    now,
                    result,
                )
            },
        }
    }

    /// The session sends a message: what leaves is exposed at once, or held back
    /// until its record is in the recovery log.
    pub open spec fn sends(
        self,
        after: Self,
        work: Work,
        message: OutgoingMessage,
        recipients: Seq<PartyId>,
        now: u64,
        result: Result<SessionTask, SessionError>,
    ) -> bool {
        exists|outcome: Result<Sent, SessionError>| #[trigger]
            sending(
                self.retries(),
                after.retries(),
                self.epoch(),
                self.self_party(),
                self.members(),
                message,
                recipients,
                now,
                outcome,
            ) && match outcome {
                Err(error) => {
                    &&& result == Err::<SessionTask, _>(error)
                    &&& after.effects() == self.effects()
                    &&& after.stage() is Ready
                    &&& failed_recovery(self.recovery(), after.recovery())
                },
                Ok(sent) => {
                    &&& result == Ok::<SessionTask, SessionError>(SessionTask::Continue)
                    &&& after.recovery() == self.recovery()
                    &&& match sent.record {
                        Some(record) => {
                            &&& after.effects() == self.effects()
                            &&& after.stage() matches Stage::Persist { record: kept, held, work: rest }
                                && kept == record && held == sent.sends && rest_of(work, rest)
                        },
                        None => {
                            &&& after.effects() == self.effects() + effect_views(sent.sends@)
                            &&& after.stage() matches Stage::Working(rest) && rest_of(work, rest)
                        },
                    }
                },
            }
    }

    /// The session is done with an input: it acknowledges it and notes the phase
    /// of the engine.
    pub open spec fn finishes(
        self,
        after: Self,
        work: Work,
        result: Result<SessionTask, SessionError>,
    ) -> bool {
        &&& after.same_session(self)
        &&& after.inputs() == self.inputs()
        &&& after.stage() is Ready
        &&& match work.acknowledgement {
            Some((target, id)) => match acknowledged(self.epoch(), self.members(), target, id) {
                Ok(effect) => after.effects() == self.effects().push(effect) && self.notes_phase(
                    after,
                    work.phase,
                    result,
                ),
                Err(error) => {
                    &&& result == Err::<SessionTask, _>(error)
                    &&& after.effects() == self.effects()
                    &&& after.retries() == self.retries()
                    &&& after.last_phase() == self.last_phase()
                    &&& failed_recovery(self.recovery(), after.recovery())
                },
            },
            None => after.effects() == self.effects() && self.notes_phase(after, work.phase, result),
        }
    }

    /// The session notes the phase of the engine; the end of secret sharing and of
    /// extraction is evidence.
    pub open spec fn notes_phase(
        self,
        after: Self,
        phase: Option<DkgEnginePhase>,
        result: Result<SessionTask, SessionError>,
    ) -> bool {
        &&& result == Ok::<SessionTask, SessionError>(SessionTask::Continue)
        &&& after.recovery() == self.recovery()
        &&& match phase {
            Some(phase) => {
                &&& after.last_phase() == phase
                &&& observes(self.retries(), after.retries(), phase_evidence(self.last_phase(), phase))
            },
            None => after.last_phase() == self.last_phase() && after.retries() == self.retries(),
        }
    }

    /// What one step does.
    pub open spec fn steps(self, after: Self, now: u64, result: Result<SessionTask, SessionError>) -> bool {
        match self.stage() {
            Stage::Ready => if self.drains() && self.inputs().len() > 0 {
                self.takes_input(after, result)
            } else {
                match self.recovery() {
                    SessionRecovery::Recovering { outgoing, .. } => if outgoing@.len() > 0 {
                        self.restores(after, outgoing@[0], now, result)
                    } else {
                        &&& after.same_progress(self)
                        &&& after.retries() == self.retries()
                        &&& after.effects() == self.effects()
                        &&& after.inputs() == self.inputs()
                        &&& after.stage() is Starting
                        &&& result == Ok::<SessionTask, SessionError>(SessionTask::StartEngine)
                    },
                    _ => {
                        &&& after == self
                        &&& result == Ok::<SessionTask, SessionError>(SessionTask::Idle)
                    },
                }
            },
            Stage::Persist { record, held, work } => {
                &&& after.same_progress(self)
                &&& after.retries() == self.retries()
                &&& after.effects() == self.effects()
                &&& after.inputs() == self.inputs()
                &&& after.stage() == (Stage::Journaling { held, work })
                &&& result == Ok::<SessionTask, SessionError>(SessionTask::Append(record))
            },
            Stage::Working(work) => if work.effects@.len() > 0 {
                self.dispatches(after, work, now, result)
            } else {
                self.finishes(after, work, result)
            },
            _ => true,
        }
    }

    /// Whether the session waits for the outcome of a task.
    pub open spec fn waits(self) -> bool {
        self.stage() is Applying || self.stage() is ApplyingChain || self.stage() is Starting
            || self.stage() is Journaling
    }

    /// The recovery after a failure.
    fn fail_recovery(&mut self)
        requires
            old(self).wf(),
        ensures
            final(self).wf(),
            final(self).same_session(*old(self)),
            final(self).effects() == old(self).effects(),
            final(self).retries() == old(self).retries(),
            final(self).inputs() == old(self).inputs(),
            final(self).last_phase() == old(self).last_phase(),
            final(self).stage() == old(self).stage(),
            failed_recovery(old(self).recovery(), final(self).recovery()),
    {
        let mut recovery: SessionRecovery = SessionRecovery::Complete;
        std::mem::swap(&mut recovery, &mut self.recovery);
        match recovery {
            SessionRecovery::Recovering { outgoing, .. } => {
                self.recovery = SessionRecovery::AwaitingChain { outgoing };
            },
            other => {
                self.recovery = other;
            },
        }
    }

    fn take_input(&mut self) -> (result: Result<SessionTask, SessionError>)
        requires
            old(self).wf(),
            old(self).inputs().len() > 0,
        ensures
            final(self).wf(),
            old(self).takes_input(*final(self), result),
    {
        let ghost before = self.inputs@;
        let input: PendingEngineInput = self.inputs.remove(0);
        assert(input_views(self.inputs@) =~= input_views(before).skip(1));
        match input {
            PendingEngineInput::Peer(peer) => {
                let source: PartyId = peer.source;
                let message: DkgMessage = peer.message.duplicate();
                self.stage = Stage::Applying(peer);
                Ok(SessionTask::ApplyPeer { source, message })
            },
            PendingEngineInput::Chain(event) => {
                self.stage = Stage::ApplyingChain;
                Ok(SessionTask::ApplyChain(event))
            },
        }
    }

    /// Schedules a message of the recovery log.
    fn schedule_restored(&mut self, first: &RestoredMessage, now: u64) -> (result: Result<
        Vec<SessionEffect>,
        SessionError,
    >)
        requires
            old(self).wf(),
            time_fits(now),
        ensures
            final(self).wf(),
            final(self).same_progress(*old(self)),
            final(self).effects() == old(self).effects(),
            final(self).inputs() == old(self).inputs(),
            final(self).stage() == old(self).stage(),
            restoring(
                old(self).retries(),
                final(self).retries(),
                old(self).epoch(),
                old(self).self_party(),
                old(self).members(),
                *first,
                now,
                match result {
                    Ok(sends) => Ok(effect_views(sends@)),
                    Err(error) => Err(error),
                },
            ),
    {
        if first.recipients.len() == 0 {
            let none: Vec<SessionEffect> = Vec::new();
            assert(effect_views(none@) =~= Seq::empty());
            return Ok(none);
        }
        let id: DkgMessageId = match first.message.message_id(&first.recipients) {
            Some(id) => id,
            None => {
                return Err(SessionError::Message);
            },
        };
        let nodes: Vec<NodeId> = match find_nodes(&self.peers, &first.recipients) {
            Ok(nodes) => nodes,
            Err(party) => {
                return Err(
                    SessionError::UnknownParty { action: PartyAction::Restore, party: party.0 },
                );
            },
        };
        let group: Option<DeliveryAbortGroup> = delivery_abort_group_for_peer_payload(
            first.message.message.kind,
            self.self_party,
            first.recipients[0],
        );
        let payload: Vec<u8> = DeliveryEnvelope::data(
            self.epoch,
            id.duplicate(),
            copy_bytes(&first.message.message.bytes),
        ).encode();
        let ghost before = *self;
        let ghost own = id;
        let ghost wire = payload@;
        let result: Result<Vec<SessionEffect>, SessionError> = schedule(
            &mut self.retries,
            id,
            nodes,
            payload,
            group,
            now,
        );
        proof {
            let outcome = match &result {
                Ok(sends) => Ok(effect_views(sends@)),
                Err(error) => Err(*error),
            };
            let keys = first.message.slots_for(first.recipients@)->Some_0;
            assert(own.keys() == keys);
            assert(wire == data_wire(before.epoch(), keys, first.message.message.bytes@));
            assert(scheduled(
                before.retries(),
                self.retries(),
                own,
                nodes_of(before.members(), first.recipients@),
                data_wire(before.epoch(), keys, first.message.message.bytes@),
                payload_group(
                    first.message.message.kind,
                    before.self_party(),
                    first.recipients@[0],
                ),
                now,
                outcome,
            ));
        }
        result
    }

    /// Sends the first message of the recovery log again.
    fn restore_next(&mut self, now: u64) -> (result: Result<SessionTask, SessionError>)
        requires
            old(self).wf(),
            time_fits(now),
            old(self).stage() is Ready,
            old(self).recovery() matches SessionRecovery::Recovering { outgoing, .. } && outgoing@.len() > 0,
        ensures
            final(self).wf(),
            old(self).restores(
                *final(self),
                old(self).recovery()->Recovering_outgoing@[0],
                now,
                result,
            ),
    {
        let ghost before = *self;
        let mut recovery: SessionRecovery = SessionRecovery::Complete;
        std::mem::swap(&mut recovery, &mut self.recovery);
        match recovery {
            SessionRecovery::Recovering { outgoing, peers } => {
                let mut outgoing: Vec<RestoredMessage> = outgoing;
                let ghost all = outgoing@;
                let first: RestoredMessage = outgoing.remove(0);
                assert(outgoing@ =~= all.skip(1));
                let restored: Result<Vec<SessionEffect>, SessionError> = self.schedule_restored(
                    &first,
                    now,
                );
                let ghost outcome = match &restored {
                    Ok(sends) => Ok(effect_views(sends@)),
                    Err(error) => Err(*error),
                };
                let ghost after = self.retries();
                assert(restoring(
                    before.retries(),
                    after,
                    before.epoch(),
                    before.self_party(),
                    before.members(),
                    first,
                    now,
                    outcome,
                ));
                match restored {
                    Ok(sends) => {
                        append_effects(&mut self.effects, sends);
                        self.recovery = SessionRecovery::Recovering { outgoing, peers };
                        assert(self.retries() == after);
                        Ok(SessionTask::Continue)
                    },
                    Err(error) => {
                        self.recovery = SessionRecovery::AwaitingChain { outgoing: Vec::new() };
                        assert(self.retries() == after);
                        Err(error)
                    },
                }
            },
            other => {
                self.recovery = other;
                Ok(SessionTask::Continue)
            },
        }
    }

    /// Sends a message that the engine asked for.
    fn send_message(
        &mut self,
        work: Work,
        message: &OutgoingMessage,
        recipients: &Vec<PartyId>,
        now: u64,
    ) -> (result: Result<SessionTask, SessionError>)
        requires
            old(self).wf(),
            time_fits(now),
        ensures
            final(self).wf(),
            final(self).same_session(*old(self)),
            final(self).last_phase() == old(self).last_phase(),
            final(self).inputs() == old(self).inputs(),
            forall|whole: Work| rest_of(whole, work) ==> #[trigger] old(self).sends(
                *final(self),
                whole,
                *message,
                recipients@,
                now,
                result,
            ),
    {
        let ghost before = *self;
        let ghost kept = work;
        match self.send(message, recipients, now) {
            Ok(sent) => {
                let ghost outcome = Ok::<Sent, SessionError>(sent);
                let ghost sends = effect_views(sent.sends@);
                match sent.record {
                    Some(record) => {
                        self.stage = Stage::Persist { record, held: sent.sends, work };
                    },
                    None => {
                        append_effects(&mut self.effects, sent.sends);
                        self.stage = Stage::Working(work);
                    },
                }
                proof {
                    assert(sending(
                        before.retries(),
                        self.retries(),
                        before.epoch(),
                        before.self_party(),
                        before.members(),
                        *message,
                        recipients@,
                        now,
                        outcome,
                    ));
                }
                Ok(SessionTask::Continue)
            },
            Err(error) => {
                let ghost outcome = Err::<Sent, SessionError>(error);
                self.stage = Stage::Ready;
                self.fail_recovery();
                proof {
                    assert(sending(
                        before.retries(),
                        self.retries(),
                        before.epoch(),
                        before.self_party(),
                        before.members(),
                        *message,
                        recipients@,
                        now,
                        outcome,
                    ));
                }
                Err(error)
            },
        }
    }

    /// Does what the engine asked for first.
    fn dispatch_next(&mut self, work: Work, now: u64) -> (result: Result<SessionTask, SessionError>)
        requires
            old(self).wf(),
            time_fits(now),
            work.effects@.len() > 0,
        ensures
            final(self).wf(),
            old(self).dispatches(*final(self), work, now, result),
    {
        let ghost before = *self;
        let ghost whole = work;
        let mut work: Work = work;
        let effect: EngineEffect = work.effects.remove(0);
        proof {
            assert(work.effects@ =~= whole.effects@.skip(1));
            assert(rest_of(whole, work));
        }
        match effect {
            EngineEffect::Unicast { to, message } => {
                let mut recipients: Vec<PartyId> = Vec::new();
                recipients.push(to);
                assert(recipients@ =~= seq![to]);
                self.send_message(work, &message, &recipients, now)
            },
            EngineEffect::Multicast { message } => {
                let ghost earlier = self.inputs@;
                let local: bool = match message.message.kind {
                    DkgMessageKind::LowerConversion => true,
                    DkgMessageKind::OpenPower => true,
                    _ => false,
                };
                if local {
                    self.inputs.push(
                        PendingEngineInput::Peer(
                            PendingPeerInput {
                                source: self.self_party,
                                message: message.message.duplicate(),
                                persist: true,
                                acknowledgement: None,
                            },
                        ),
                    );
                }
                assert(self.inputs() =~= before.inputs() + loopback(
                    before.self_party(),
                    message.message@,
                ));
                let recipients: Vec<PartyId> = self.peers.other_parties(self.self_party);
                let ghost middle = *self;
                let result: Result<SessionTask, SessionError> = self.send_message(
                    work,
                    &message,
                    &recipients,
                    now,
                );
                assert(middle.sends(*self, whole, message, recipients@, now, result));
                result
            },
            EngineEffect::PostToChain(call) => {
                self.handle_chain_call(call);
                self.stage = Stage::Working(work);
                Ok(SessionTask::Continue)
            },
        }
    }

    /// Acknowledges a message to a party.
    fn send_ack(&mut self, target: PartyId, id: DkgMessageId) -> (result: Result<(), SessionError>)
        requires
            old(self).wf(),
        ensures
            final(self).wf(),
            final(self).same_progress(*old(self)),
            final(self).retries() == old(self).retries(),
            final(self).inputs() == old(self).inputs(),
            final(self).stage() == old(self).stage(),
            match acknowledged(old(self).epoch(), old(self).members(), target, id) {
                Ok(effect) => result is Ok && final(self).effects() == old(self).effects().push(effect),
                Err(error) => result == Err::<(), _>(error) && final(self).effects() == old(
                    self,
                ).effects(),
            },
    {
        match self.peers.member_id(target) {
            Some(to) => {
                let ghost earlier = self.effects@;
                let payload: Vec<u8> = DeliveryEnvelope::ack(self.epoch, id).encode();
                self.effects.push(SessionEffect::Acknowledgement { to, payload });
                assert(effect_views(self.effects@) =~= effect_views(earlier).push(
                    self.effects@.last()@,
                ));
                Ok(())
            },
            None => Err(
                SessionError::UnknownParty { action: PartyAction::Acknowledge, party: target.0 },
            ),
        }
    }

    /// Ends the work on an input.
    fn finish_work(&mut self, work: Work) -> (result: Result<SessionTask, SessionError>)
        requires
            old(self).wf(),
        ensures
            final(self).wf(),
            old(self).finishes(*final(self), work, result),
    {
        self.stage = Stage::Ready;
        match work.acknowledgement {
            Some((target, id)) => match self.send_ack(target, id) {
                Ok(()) => {},
                Err(error) => {
                    self.fail_recovery();
                    return Err(error);
                },
            },
            None => {},
        }
        match work.phase {
            Some(phase) => {
                let evidence: Option<DeliveryAbortGroup> = if phase == self.last_phase {
                    None
                } else {
                    match self.last_phase {
                        DkgEnginePhase::Vss => Some(DeliveryAbortGroup::Vss),
                        DkgEnginePhase::Extraction => Some(DeliveryAbortGroup::Extraction),
                        _ => None,
                    }
                };
                observe_group(&mut self.retries, evidence);
                self.last_phase = phase;
            },
            None => {},
        }
        Ok(SessionTask::Continue)
    }

    /// What the engine asked for does not depend on the stage.
    proof fn lemma_stage_is_irrelevant(
        before: Self,
        middle: Self,
        after: Self,
        work: Work,
        now: u64,
        result: Result<SessionTask, SessionError>,
    )
        requires
            middle.same_progress(before),
            middle.retries() == before.retries(),
            middle.effects() == before.effects(),
            middle.inputs() == before.inputs(),
            middle.dispatches(after, work, now, result),
        ensures
            before.dispatches(after, work, now, result),
    {
        let (message, recipients) = match work.effects@[0] {
            EngineEffect::Unicast { to, message } => (message, seq![to]),
            EngineEffect::Multicast { message } => (
                message,
                others(before.members().len(), before.self_party()),
            ),
            EngineEffect::PostToChain(_) => arbitrary(),
        };
        if !(work.effects@[0] is PostToChain) {
            assert(middle.sends(after, work, message, recipients, now, result));
            assert(before.sends(after, work, message, recipients, now, result));
        }
    }

    /// Decides what is to be done next.
    pub fn step(&mut self, now: u64) -> (result: Result<SessionTask, SessionError>)
        requires
            old(self).wf(),
            !old(self).waits(),
            time_fits(now),
        ensures
            final(self).wf(),
            old(self).steps(*final(self), now, result),
    {
        let ghost before = *self;
        let mut stage: Stage = Stage::Ready;
        std::mem::swap(&mut stage, &mut self.stage);
        match stage {
            Stage::Persist { record, held, work } => {
                self.stage = Stage::Journaling { held, work };
                return Ok(SessionTask::Append(record));
            },
            Stage::Working(work) => {
                let ghost middle = *self;
                let ghost whole = work;
                if work.effects.len() > 0 {
                    let result: Result<SessionTask, SessionError> = self.dispatch_next(work, now);
                    proof {
                        Self::lemma_stage_is_irrelevant(before, middle, *self, whole, now, result);
                    }
                    return result;
                }
                return self.finish_work(work);
            },
            _ => {},
        }
        assert(self.stage == before.stage);
        let (drains, restoring, starting): (bool, bool, bool) = match &self.recovery {
            SessionRecovery::AwaitingChain { .. } => (false, false, false),
            SessionRecovery::Recovering { outgoing, .. } => (
                true,
                outgoing.len() > 0,
                outgoing.len() == 0,
            ),
            SessionRecovery::Complete => (true, false, false),
        };
        if drains && self.inputs.len() > 0 {
            assert(self.inputs().len() == self.inputs@.len());
            self.take_input()
        } else if restoring {
            self.restore_next(now)
        } else if starting {
            self.stage = Stage::Starting;
            Ok(SessionTask::StartEngine)
        } else {
            Ok(SessionTask::Idle)
        }
    }

    /// Takes what the engine made of a peer message. Before anything else leaves
    /// the node, an accepted message goes to the recovery log.
    pub fn peer_applied(&mut self, outcome: PeerOutcome) -> (result: Result<(), SessionError>)
        requires
            old(self).wf(),
            old(self).stage() is Applying,
        ensures
            final(self).wf(),
            final(self).same_session(*old(self)),
            final(self).inputs() == old(self).inputs(),
            final(self).last_phase() == old(self).last_phase(),
            ({
                let input = old(self).stage()->Applying_0@;
                match outcome {
                    PeerOutcome::Applied { effects, phase } => {
                        &&& result is Ok
                        &&& final(self).recovery() == old(self).recovery()
                        &&& final(self).effects() == old(self).effects()
                        &&& completes(
                            old(self).retries(),
                            final(self).retries(),
                            answered_request(input.message, old(self).self_party(), input.source),
                        )
                        &&& if input.persist {
                            final(self).stage() matches Stage::Persist { record, held, work } && {
                                &&& record@ == (RecordView::Incoming {
                                    source: input.source,
                                    payload: input.message.bytes,
                                })
                                &&& held@.len() == 0
                                &&& is_work(work, effects, input, phase)
                            }
                        } else {
                            final(self).stage() matches Stage::Working(work) && is_work(
                                work,
                                effects,
                                input,
                                phase,
                            )
                        }
                    },
                    PeerOutcome::Duplicate => {
                        &&& final(self).stage() is Ready
                        &&& final(self).retries() == old(self).retries()
                        &&& match input.acknowledgement {
                            Some(id) => match acknowledged(
                                old(self).epoch(),
                                old(self).members(),
                                input.source,
                                id,
                            ) {
                                Ok(effect) => {
                                    &&& result is Ok
                                    &&& final(self).effects() == old(self).effects().push(effect)
                                    &&& final(self).recovery() == old(self).recovery()
                                },
                                Err(error) => {
                                    &&& result == Err::<(), _>(error)
                                    &&& final(self).effects() == old(self).effects()
                                    &&& failed_recovery(old(self).recovery(), final(self).recovery())
                                },
                            },
                            None => {
                                &&& result is Ok
                                &&& final(self).effects() == old(self).effects()
                                &&& final(self).recovery() == old(self).recovery()
                            },
                        }
                    },
                    PeerOutcome::Rejected => {
                        &&& result is Ok
                        &&& final(self).stage() is Ready
                        &&& final(self).retries() == old(self).retries()
                        &&& final(self).effects() == old(self).effects()
                        &&& final(self).recovery() == old(self).recovery()
                    },
                    PeerOutcome::Failed => {
                        &&& result == Err::<(), _>(
                            SessionError::Engine { action: EngineAction::HandlePeerInput },
                        )
                        &&& final(self).stage() is Ready
                        &&& final(self).retries() == old(self).retries()
                        &&& final(self).effects() == old(self).effects()
                        &&& failed_recovery(old(self).recovery(), final(self).recovery())
                    },
                }
            }),
    {
        let ghost before = *self;
        let mut stage: Stage = Stage::Ready;
        std::mem::swap(&mut stage, &mut self.stage);
        let input: PendingPeerInput = match stage {
            Stage::Applying(input) => input,
            _ => {
                return Ok(());
            },
        };
        let ghost taken = input@;
        match outcome {
            PeerOutcome::Applied { effects, phase } => {
                match request_completed_by_response(&input.message, self.self_party, input.source) {
                    Some(id) => {
                        self.retries.complete(&id);
                        proof {
                            let key = answered_request(taken.message, before.self_party(), taken.source);
                            assert(id == DkgMessageId::Single(key->Some_0));
                            assert(completes(before.retries(), self.retries(), key));
                        }
                    },
                    None => {},
                }
                let acknowledgement: Option<(PartyId, DkgMessageId)> = match input.acknowledgement {
                    Some(id) => Some((input.source, id)),
                    None => None,
                };
                let work = Work { effects, acknowledgement, phase: Some(phase) };
                if input.persist {
                    let record: RecoveryRecord = RecoveryRecord::Incoming {
                        source: input.source,
                        payload: input.message.bytes,
                    };
                    self.stage = Stage::Persist { record, held: Vec::new(), work };
                } else {
                    self.stage = Stage::Working(work);
                }
                Ok(())
            },
            PeerOutcome::Duplicate => match input.acknowledgement {
                Some(id) => match self.send_ack(input.source, id) {
                    Ok(()) => Ok(()),
                    Err(error) => {
                        self.fail_recovery();
                        Err(error)
                    },
                },
                None => Ok(()),
            },
            PeerOutcome::Rejected => Ok(()),
            PeerOutcome::Failed => {
                self.fail_recovery();
                Err(SessionError::Engine { action: EngineAction::HandlePeerInput })
            },
        }
    }

    /// Takes what the engine made of a chain event, or its failure.
    pub fn chain_applied(&mut self, outcome: Option<(Vec<EngineEffect>, DkgEnginePhase)>) -> (result:
        Result<(), SessionError>)
        requires
            old(self).wf(),
            old(self).stage() is ApplyingChain,
        ensures
            final(self).wf(),
            final(self).same_session(*old(self)),
            final(self).inputs() == old(self).inputs(),
            final(self).last_phase() == old(self).last_phase(),
            final(self).retries() == old(self).retries(),
            final(self).effects() == old(self).effects(),
            match outcome {
                Some((effects, phase)) => {
                    &&& result is Ok
                    &&& final(self).recovery() == old(self).recovery()
                    &&& final(self).stage() == Stage::Working(
                        Work { effects, acknowledgement: None, phase: Some(phase) },
                    )
                },
                None => {
                    &&& result == Err::<(), _>(
                        SessionError::Engine { action: EngineAction::HandleChainInput },
                    )
                    &&& final(self).stage() is Ready
                    &&& failed_recovery(old(self).recovery(), final(self).recovery())
                },
            },
    {
        match outcome {
            Some((effects, phase)) => {
                self.stage =
                Stage::Working(Work { effects, acknowledgement: None, phase: Some(phase) });
                Ok(())
            },
            None => {
                self.stage = Stage::Ready;
                self.fail_recovery();
                Err(SessionError::Engine { action: EngineAction::HandleChainInput })
            },
        }
    }

    /// Takes what the engine does at its start, or its failure. Recovered inputs
    /// come before what the engine sends to itself.
    pub fn engine_started(&mut self, outcome: Option<Vec<EngineEffect>>) -> (result: Result<
        (),
        SessionError,
    >)
        requires
            old(self).wf(),
            old(self).stage() is Starting,
            old(self).recovery() is Recovering,
        ensures
            final(self).wf(),
            final(self).same_session(*old(self)),
            final(self).last_phase() == old(self).last_phase(),
            final(self).retries() == old(self).retries(),
            final(self).effects() == old(self).effects(),
            match outcome {
                Some(effects) => {
                    &&& result is Ok
                    &&& final(self).recovery() is Complete
                    &&& final(self).inputs() == old(self).inputs() + input_views(
                        old(self).recovery()->Recovering_peers@,
                    )
                    &&& final(self).stage() == Stage::Working(
                        Work { effects, acknowledgement: None, phase: None },
                    )
                },
                None => {
                    &&& result == Err::<(), _>(SessionError::Engine { action: EngineAction::Start })
                    &&& final(self).inputs() == old(self).inputs()
                    &&& final(self).stage() is Ready
                    &&& failed_recovery(old(self).recovery(), final(self).recovery())
                },
            },
    {
        match outcome {
            Some(effects) => {
                let mut recovery: SessionRecovery = SessionRecovery::Complete;
                std::mem::swap(&mut recovery, &mut self.recovery);
                match recovery {
                    SessionRecovery::Recovering { peers, .. } => {
                        let mut peers: Vec<PendingEngineInput> = peers;
                        let ghost before = self.inputs@;
                        let ghost waiting = peers@;
                        self.inputs.append(&mut peers);
                        assert(self.inputs@ =~= before + waiting);
                        assert(input_views(self.inputs@) =~= input_views(before) + input_views(waiting));
                    },
                    _ => {},
                }
                self.stage = Stage::Working(Work { effects, acknowledgement: None, phase: None });
                Ok(())
            },
            None => {
                self.stage = Stage::Ready;
                self.fail_recovery();
                Err(SessionError::Engine { action: EngineAction::Start })
            },
        }
    }

    /// Takes whether the recovery log has the record. What was held back leaves
    /// only where it does.
    pub fn journaled(&mut self, written: bool) -> (result: Result<(), SessionError>)
        requires
            old(self).wf(),
            old(self).stage() is Journaling,
        ensures
            final(self).wf(),
            final(self).same_session(*old(self)),
            final(self).inputs() == old(self).inputs(),
            final(self).last_phase() == old(self).last_phase(),
            final(self).retries() == old(self).retries(),
            match old(self).stage() {
                Stage::Journaling { held, work } => if written {
                    &&& result is Ok
                    &&& final(self).effects() == old(self).effects() + effect_views(held@)
                    &&& final(self).recovery() == old(self).recovery()
                    &&& final(self).stage() == Stage::Working(work)
                } else {
                    &&& result == Err::<(), _>(SessionError::RecoveryWal)
                    &&& final(self).effects() == old(self).effects()
                    &&& final(self).stage() is Ready
                    &&& failed_recovery(old(self).recovery(), final(self).recovery())
                },
                _ => true,
            },
    {
        let mut stage: Stage = Stage::Ready;
        std::mem::swap(&mut stage, &mut self.stage);
        match stage {
            Stage::Journaling { held, work } => {
                if written {
                    append_effects(&mut self.effects, held);
                    self.stage = Stage::Working(work);
                    Ok(())
                } else {
                    self.fail_recovery();
                    Err(SessionError::RecoveryWal)
                }
            },
            other => {
                self.stage = other;
                Ok(())
            },
        }
    }
}

/// Whether `work` does what the engine asked for after a peer message.
pub open spec fn is_work(
    work: Work,
    effects: Vec<EngineEffect>,
    input: PeerInputView,
    phase: DkgEnginePhase,
) -> bool {
    &&& work.effects == effects
    &&& work.phase == Some(phase)
    &&& work.acknowledgement == (match input.acknowledgement {
        Some(id) => Some((input.source, id)),
        None => None,
    })
}

/// Whether a message fills all slots of `keys`.
fn covers(id: &DkgMessageId, keys: &Vec<DkgMessageKey>) -> (covered: bool)
    ensures
        covered == (forall|i: int| 0 <= i < keys@.len() ==> id.keys().contains(#[trigger] keys@[i])),
{
    let mut i: usize = 0;
    while i < keys.len()
        invariant
            i <= keys@.len(),
            forall|j: int| 0 <= j < i ==> id.keys().contains(#[trigger] keys@[j]),
        decreases keys@.len() - i,
    {
        if !id.contains(&keys[i]) {
            assert(!id.keys().contains(keys@[i as int]));
            return false;
        }
        i += 1;
    }
    true
}

/// Whether `timer` is the earliest deadline of a scheduler.
pub open spec fn is_next_timer(retries: SessionRetries, timer: Option<u64>) -> bool {
    match timer {
        None => retries.deliveries().dom() == Set::<(DkgMessageId, NodeId)>::empty(),
        Some(deadline) => {
            &&& exists|delivery: (DkgMessageId, NodeId)| #[trigger]
                retries.deliveries().contains_key(delivery) && retries.deliveries()[delivery].deadline
                    == deadline
            &&& forall|delivery: (DkgMessageId, NodeId)| #[trigger]
                retries.deliveries().contains_key(delivery) ==> deadline
                    <= retries.deliveries()[delivery].deadline
        },
    }
}

/// Whether `after` is `before` with what was due at `now`, `count` deliveries.
pub open spec fn repeats(
    retries: SessionRetries,
    now: u64,
    before: Seq<EffectView>,
    after: Seq<EffectView>,
    count: nat,
) -> bool {
    exists|served: Seq<(u64, (DkgMessageId, NodeId))>, sends: Seq<ScheduledSend<NodeId>>| #[trigger]
        serves(retries.deliveries(), retries.pending(), now, served, sends) && count == sends.len()
            && after == before + network_views(crate::dkg::transport::outbound_views(sends))
}

/// Repeats what is due at `now`. Returns the sends and their number.
pub(crate) fn repeat_due(retries: &mut SessionRetries, now: u64) -> (due: (Vec<SessionEffect>, usize))
    requires
        old(retries).wf(),
        old(retries).config() == dkg_backoff(),
        time_fits(now),
    ensures
        final(retries).wf(),
        final(retries).config() == dkg_backoff(),
        final(retries).pending() == old(retries).pending(),
        final(retries).observed() == old(retries).observed(),
        rescheduled(dkg_backoff(), old(retries).deliveries(), final(retries).deliveries(), now),
        repeats(*old(retries), now, Seq::empty(), effect_views(due.0@), due.1 as nat),
{
    let ghost before = *retries;
    let sends: Vec<ScheduledSend<NodeId>> = retries.retry_due(now);
    let count: usize = sends.len();
    let ghost whole = sends@;
    let effects: Vec<SessionEffect> = into_effects(sends);
    proof {
        let served = choose|served: Seq<(u64, (DkgMessageId, NodeId))>| #[trigger]
            serves(before.deliveries(), before.pending(), now, served, whole);
        assert(serves(before.deliveries(), before.pending(), now, served, whole));
        assert(effect_views(effects@) =~= Seq::<EffectView>::empty() + network_views(
            crate::dkg::transport::outbound_views(whole),
        ));
    }
    (effects, count)
}

/// What is due comes after what is there.
pub proof fn lemma_repeats_after(
    retries: SessionRetries,
    now: u64,
    before: Seq<EffectView>,
    more: Seq<EffectView>,
    count: nat,
)
    requires
        repeats(retries, now, Seq::empty(), more, count),
    ensures
        repeats(retries, now, before, before + more, count),
{
    let (served, sends) = choose|served: Seq<(u64, (DkgMessageId, NodeId))>, sends: Seq<ScheduledSend<NodeId>>| #[trigger]
        serves(retries.deliveries(), retries.pending(), now, served, sends) && count == sends.len()
            && more == Seq::<EffectView>::empty() + network_views(
            crate::dkg::transport::outbound_views(sends),
        );
    assert(serves(retries.deliveries(), retries.pending(), now, served, sends));
    assert(more =~= network_views(crate::dkg::transport::outbound_views(sends)));
}

/// Whether `after` is `before` once `peer` acknowledged a message.
pub open spec fn acknowledges(
    before: SessionRetries,
    after: SessionRetries,
    id: DkgMessageId,
    peer: NodeId,
) -> bool {
    &&& after.observed() == before.observed()
    &&& after.deliveries() == before.deliveries().remove((id, peer))
    &&& after.pending() == (if before.deliveries().contains_key((id, peer)) && !exists|other: NodeId| #[trigger]
        before.deliveries().contains_key((id, other)) && other != peer {
        before.pending().remove(id)
    } else {
        before.pending()
    })
}

/// The inputs that messages of the recovery log make.
pub open spec fn replayed(incoming: Seq<(PartyId, DurableDkgMessage)>, party_count: nat) -> Seq<
    InputView,
>
    decreases incoming.len(),
{
    if incoming.len() == 0 {
        Seq::empty()
    } else {
        let (source, message) = incoming.last();
        let earlier = replayed(incoming.drop_last(), party_count);
        if source.0 < party_count {
            earlier.push(
                InputView::Peer(
                    PeerInputView {
                        source,
                        message: message.inner()@,
                        persist: false,
                        acknowledgement: None,
                    },
                ),
            )
        } else {
            earlier
        }
    }
}

/// Ephemeral traffic stays out of recovery: every message that a session replays
/// is durable, and comes from a party of the session.
pub proof fn law_replayed_messages_are_durable(
    incoming: Seq<(PartyId, DurableDkgMessage)>,
    party_count: nat,
    i: int,
)
    requires
        forall|k: int| 0 <= k < incoming.len() ==> (#[trigger] incoming[k]).1.is_durable(),
        0 <= i < replayed(incoming, party_count).len(),
    ensures
        replayed(incoming, party_count)[i] matches InputView::Peer(input) && input.message.kind.policy()
            == DkgDeliveryPolicy::Durable && input.source.0 < party_count && !input.persist,
    decreases incoming.len(),
{
    if incoming.len() > 0 {
        let earlier = incoming.drop_last();
        assert(incoming.last().1.is_durable());
        assert forall|k: int| 0 <= k < earlier.len() implies (#[trigger] earlier[k]).1.is_durable() by {
            assert(incoming[k].1.is_durable());
        }
        if i < replayed(earlier, party_count).len() {
            law_replayed_messages_are_durable(earlier, party_count, i);
        }
    }
}

/// The chain events among inputs.
pub open spec fn chain_inputs(inputs: Seq<InputView>) -> Seq<InputView> {
    inputs.filter(|input: InputView| input is Chain)
}

/// The peer messages among inputs.
pub open spec fn peer_inputs(inputs: Seq<InputView>) -> Seq<InputView> {
    inputs.filter(|input: InputView| !(input is Chain))
}

fn partition_inputs(inputs: Vec<PendingEngineInput>) -> (parts: (
    Vec<PendingEngineInput>,
    Vec<PendingEngineInput>,
))
    ensures
        input_views(parts.0@) == chain_inputs(input_views(inputs@)),
        input_views(parts.1@) == peer_inputs(input_views(inputs@)),
{
    let mut inputs: Vec<PendingEngineInput> = inputs;
    let ghost whole = inputs@;
    let ghost views = input_views(whole);
    let mut chain: Vec<PendingEngineInput> = Vec::new();
    let mut peers: Vec<PendingEngineInput> = Vec::new();
    proof {
        reveal(Seq::filter);
        assert(views.take(0) =~= Seq::empty());
        assert(input_views(chain@) =~= chain_inputs(views.take(0)));
        assert(input_views(peers@) =~= peer_inputs(views.take(0)));
    }
    while inputs.len() > 0
        invariant
            inputs@.len() <= whole.len(),
            inputs@ == whole.skip(whole.len() - inputs@.len()),
            views == input_views(whole),
            input_views(chain@) == chain_inputs(views.take(whole.len() - inputs@.len())),
            input_views(peers@) == peer_inputs(views.take(whole.len() - inputs@.len())),
        decreases inputs@.len(),
    {
        let ghost done = whole.len() - inputs@.len();
        let input: PendingEngineInput = inputs.remove(0);
        let ghost added = input@;
        proof {
            reveal(Seq::filter);
            assert(input == whole[done]);
            assert(inputs@ =~= whole.skip(done + 1));
            assert(views.take(done + 1).drop_last() =~= views.take(done));
            assert(views.take(done + 1).last() == added);
        }
        let ghost earlier_chain = chain@;
        let ghost earlier_peers = peers@;
        match input {
            PendingEngineInput::Chain(event) => {
                chain.push(PendingEngineInput::Chain(event));
                assert(input_views(chain@) =~= input_views(earlier_chain).push(added));
            },
            PendingEngineInput::Peer(peer) => {
                peers.push(PendingEngineInput::Peer(peer));
                assert(input_views(peers@) =~= input_views(earlier_peers).push(added));
            },
        }
    }
    assert(views.take(whole.len() as int) =~= views);
    (chain, peers)
}

/// A session that waits for the chain does nothing, whatever came in.
pub proof fn law_waiting_session_is_idle(
    before: DkgSession,
    after: DkgSession,
    now: u64,
    result: Result<SessionTask, SessionError>,
)
    requires
        before.recovery() is AwaitingChain,
        before.stage() is Ready,
        before.steps(after, now, result),
    ensures
        after == before,
        result == Ok::<SessionTask, SessionError>(SessionTask::Idle),
{
}

/// What has to be in the recovery log first is asked for before anything is
/// exposed.
pub proof fn law_record_precedes_effects(
    before: DkgSession,
    after: DkgSession,
    now: u64,
    result: Result<SessionTask, SessionError>,
)
    requires
        before.stage() is Persist,
        before.steps(after, now, result),
    ensures
        after.effects() == before.effects(),
        result == Ok::<SessionTask, SessionError>(
            SessionTask::Append(before.stage()->Persist_record),
        ),
        after.stage() is Journaling,
{
}

/// A message that is acknowledged by its recipients leaves only after its record
/// is in the recovery log: sending it exposes nothing.
pub proof fn law_durable_message_is_held(
    before: DkgSession,
    after: DkgSession,
    work: Work,
    message: OutgoingMessage,
    recipients: Seq<PartyId>,
    now: u64,
    result: Result<SessionTask, SessionError>,
)
    requires
        message.message.kind.policy() == DkgDeliveryPolicy::Durable,
        before.sends(after, work, message, recipients, now, result),
    ensures
        after.effects() == before.effects(),
{
    let outcome = choose|outcome: Result<Sent, SessionError>| #[trigger]
        sending(
            before.retries(),
            after.retries(),
            before.epoch(),
            before.self_party(),
            before.members(),
            message,
            recipients,
            now,
            outcome,
        ) && match outcome {
            Err(error) => {
                &&& result == Err::<SessionTask, _>(error)
                &&& after.effects() == before.effects()
                &&& after.stage() is Ready
                &&& failed_recovery(before.recovery(), after.recovery())
            },
            Ok(sent) => {
                &&& result == Ok::<SessionTask, SessionError>(SessionTask::Continue)
                &&& after.recovery() == before.recovery()
                &&& match sent.record {
                    Some(record) => {
                        &&& after.effects() == before.effects()
                        &&& after.stage() matches Stage::Persist { record: kept, held, work: rest }
                            && kept == record && held == sent.sends && rest_of(work, rest)
                    },
                    None => {
                        &&& after.effects() == before.effects() + effect_views(sent.sends@)
                        &&& after.stage() matches Stage::Working(rest) && rest_of(work, rest)
                    },
                }
            },
        };
    match outcome {
        Ok(sent) => {
            if sent.record is None {
                assert(sent.sends@.len() == 0);
                assert(before.effects() + effect_views(sent.sends@) =~= before.effects());
            }
        },
        Err(_) => {},
    }
}

/// Evidence that ends the group of a message keeps it from being sent.
pub proof fn law_obsolete_message_is_not_sent(
    before: SessionRetries,
    after: SessionRetries,
    epoch: Epoch,
    self_party: PartyId,
    members: Seq<NodeId>,
    message: OutgoingMessage,
    recipients: Seq<PartyId>,
    now: u64,
    result: Result<Sent, SessionError>,
)
    requires
        message.message.kind.policy() == DkgDeliveryPolicy::Durable,
        recipients.len() > 0,
        before.is_obsolete(payload_group(message.message.kind, self_party, recipients[0])),
        sending(before, after, epoch, self_party, members, message, recipients, now, result),
        result is Ok,
    ensures
        result->Ok_0.sends@.len() == 0,
        result->Ok_0.record is None,
        after.pending() == before.pending(),
{
    assert(effect_views(result->Ok_0.sends@).len() == result->Ok_0.sends@.len());
}

/// A party that multicasts a lower conversion or an opened power sees the message
/// too: it waits for the engine as a message of the party itself, is kept in the
/// recovery log, and is not acknowledged. A multicast message of any other kind
/// does not come back.
pub proof fn law_own_conversions_come_back(
    before: DkgSession,
    after: DkgSession,
    work: Work,
    message: OutgoingMessage,
    now: u64,
    result: Result<SessionTask, SessionError>,
)
    requires
        before.stage() == Stage::Working(work),
        work.effects@.len() > 0,
        work.effects@[0] == (EngineEffect::Multicast { message }),
        before.steps(after, now, result),
    ensures
        message.message.kind == DkgMessageKind::LowerConversion || message.message.kind
            == DkgMessageKind::OpenPower ==> {
            &&& after.inputs().len() == before.inputs().len() + 1
            &&& after.inputs().drop_last() == before.inputs()
            &&& after.inputs().last() == InputView::Peer(
                PeerInputView {
                    source: before.self_party(),
                    message: message.message@,
                    persist: true,
                    acknowledgement: None,
                },
            )
        },
        message.message.kind != DkgMessageKind::LowerConversion && message.message.kind
            != DkgMessageKind::OpenPower ==> after.inputs() == before.inputs(),
{
    assert(message.message@.kind == message.message.kind);
    if message.message.kind == DkgMessageKind::LowerConversion || message.message.kind
        == DkgMessageKind::OpenPower {
        assert(after.inputs().drop_last() =~= before.inputs());
    } else {
        assert(after.inputs() =~= before.inputs());
    }
}

/// The outcome of sending a message.
proof fn lemma_sent(
    before: DkgSession,
    after: DkgSession,
    work: Work,
    message: OutgoingMessage,
    recipients: Seq<PartyId>,
    now: u64,
    result: Result<SessionTask, SessionError>,
) -> (outcome: Result<Sent, SessionError>)
    requires
        before.sends(after, work, message, recipients, now, result),
    ensures
        sending(
            before.retries(),
            after.retries(),
            before.epoch(),
            before.self_party(),
            before.members(),
            message,
            recipients,
            now,
            outcome,
        ),
        match outcome {
            Err(error) => {
                &&& result == Err::<SessionTask, _>(error)
                &&& after.effects() == before.effects()
                &&& after.stage() is Ready
                &&& failed_recovery(before.recovery(), after.recovery())
            },
            Ok(sent) => {
                &&& result == Ok::<SessionTask, SessionError>(SessionTask::Continue)
                &&& after.recovery() == before.recovery()
                &&& match sent.record {
                    Some(record) => {
                        &&& after.effects() == before.effects()
                        &&& after.stage() matches Stage::Persist { record: kept, held, work: rest }
                            && kept == record && held == sent.sends && rest_of(work, rest)
                    },
                    None => {
                        &&& after.effects() == before.effects() + effect_views(sent.sends@)
                        &&& after.stage() matches Stage::Working(rest) && rest_of(work, rest)
                    },
                }
            },
        },
{
    let outcome = choose|outcome: Result<Sent, SessionError>| #[trigger]
        sending(
            before.retries(),
            after.retries(),
            before.epoch(),
            before.self_party(),
            before.members(),
            message,
            recipients,
            now,
            outcome,
        ) && match outcome {
            Err(error) => {
                &&& result == Err::<SessionTask, _>(error)
                &&& after.effects() == before.effects()
                &&& after.stage() is Ready
                &&& failed_recovery(before.recovery(), after.recovery())
            },
            Ok(sent) => {
                &&& result == Ok::<SessionTask, SessionError>(SessionTask::Continue)
                &&& after.recovery() == before.recovery()
                &&& match sent.record {
                    Some(record) => {
                        &&& after.effects() == before.effects()
                        &&& after.stage() matches Stage::Persist { record: kept, held, work: rest }
                            && kept == record && held == sent.sends && rest_of(work, rest)
                    },
                    None => {
                        &&& after.effects() == before.effects() + effect_views(sent.sends@)
                        &&& after.stage() matches Stage::Working(rest) && rest_of(work, rest)
                    },
                }
            },
        };
    outcome
}

/// A started delivery goes to each new node, and only there.
proof fn lemma_new_deliveries(deliveries: Seq<OutboundView>, recipients: Set<NodeId>, wire: Seq<u8>)
    requires
        is_new_delivery(deliveries, recipients, wire),
    ensures
        forall|node: NodeId| #[trigger]
            recipients.contains(node) ==> network_views(deliveries).contains(
                EffectView::Network(OutboundView { to: node, payload: wire }),
            ),
        forall|i: int|
            0 <= i < deliveries.len() ==> (#[trigger] network_views(deliveries)[i]) == EffectView::Network(
                OutboundView { to: deliveries[i].to, payload: wire },
            ) && recipients.contains(deliveries[i].to),
{
    let targets = crate::dkg::transport::outbound_targets(deliveries);
    assert forall|node: NodeId| #[trigger] recipients.contains(node) implies network_views(
        deliveries,
    ).contains(EffectView::Network(OutboundView { to: node, payload: wire })) by {
        assert(targets.to_set().contains(node));
        let i = choose|i: int| 0 <= i < targets.len() && targets[i] == node;
        assert(deliveries[i].to == node);
        assert(deliveries[i].payload == wire);
        assert(network_views(deliveries)[i] == EffectView::Network(
            OutboundView { to: node, payload: wire },
        ));
    }
    assert forall|i: int| 0 <= i < deliveries.len() implies (#[trigger] network_views(deliveries)[i])
        == EffectView::Network(OutboundView { to: deliveries[i].to, payload: wire })
        && recipients.contains(deliveries[i].to) by {
        assert(deliveries[i].payload == wire);
        assert(targets[i] == deliveries[i].to);
        assert(targets.to_set().contains(targets[i]));
    }
}

/// Where a message is scheduled and not held back by evidence, each of its nodes
/// is being served, and those that were not served before are sent the message.
pub(crate) proof fn lemma_scheduled_reaches(
    before: SessionRetries,
    after: SessionRetries,
    id: DkgMessageId,
    nodes: Seq<NodeId>,
    wire: Seq<u8>,
    group: Option<DeliveryAbortGroup>,
    now: u64,
    result: Result<Seq<EffectView>, SessionError>,
)
    requires
        scheduled(before, after, id, nodes, wire, group, now, result),
        !before.is_obsolete(group),
        nodes.len() > 0,
        result is Ok,
    ensures
        after.pending().contains_key(id),
        after.pending()[id] == (MessageView { payload: wire, scope: group }),
        forall|node: NodeId| #[trigger]
            nodes.contains(node) ==> after.deliveries().contains_key((id, node)) && (
            before.deliveries().contains_key((id, node)) || result->Ok_0.contains(
                EffectView::Network(OutboundView { to: node, payload: wire }),
            )),
        forall|i: int|
            0 <= i < result->Ok_0.len() ==> (#[trigger] result->Ok_0[i]) is Network
                && result->Ok_0[i]->Network_0.payload == wire && nodes.contains(
                result->Ok_0[i]->Network_0.to,
            ),
{
    let added = before.new_recipients(id, nodes);
    let deliveries = choose|deliveries: Seq<OutboundView>| #[trigger]
        is_new_delivery(deliveries, added, wire) && result == Ok::<Seq<EffectView>, SessionError>(
            network_views(deliveries),
        );
    lemma_new_deliveries(deliveries, added, wire);
    assert forall|node: NodeId| #[trigger] nodes.contains(node) implies after.deliveries().contains_key(
        (id, node),
    ) && (before.deliveries().contains_key((id, node)) || result->Ok_0.contains(
        EffectView::Network(OutboundView { to: node, payload: wire }),
    )) by {
        if before.deliveries().contains_key((id, node)) {
            assert(after.deliveries().dom().contains((id, node)));
        } else {
            assert(added.contains(node));
            assert(after.deliveries().dom().contains((id, node)));
        }
    }
}

/// A message that is neither a retrieval request nor a response.
pub open spec fn is_protocol_step(kind: DkgMessageKind) -> bool {
    kind == DkgMessageKind::PcProposal || kind == DkgMessageKind::PcAck || kind
        == DkgMessageKind::BveProposal || kind == DkgMessageKind::BveApprovalBatch || kind
        == DkgMessageKind::Ladder || kind == DkgMessageKind::LowerConversion || kind
        == DkgMessageKind::OpenPower || kind == DkgMessageKind::Done
}

/// Sending a step of the protocol makes each recipient a pending delivery, and
/// holds what has to leave until the log has the message for its recipients.
proof fn lemma_step_is_sent(
    before: DkgSession,
    after: DkgSession,
    work: Work,
    message: OutgoingMessage,
    recipients: Seq<PartyId>,
    party: PartyId,
    now: u64,
    result: Result<SessionTask, SessionError>,
) -> (id: DkgMessageId)
    requires
        is_protocol_step(message.message.kind),
        recipients.contains(party),
        !before.retries().is_obsolete(
            payload_group(message.message.kind, before.self_party(), recipients[0]),
        ),
        before.sends(after, work, message, recipients, now, result),
        result is Ok,
    ensures
        party.0 < before.members().len(),
        after.retries().pending().contains_key(id),
        after.retries().pending()[id].payload == envelope_bytes(
            before.epoch(),
            DeliveryView::Data { keys: id.keys(), payload: message.message.bytes@ },
        ),
        after.retries().deliveries().contains_key((id, before.members()[party.0 as int])),
        before.retries().deliveries().contains_key((id, before.members()[party.0 as int])) || (
        after.stage() matches Stage::Persist { record, held, .. } && record@ == (RecordView::Outgoing {
            recipients,
            payload: message.message.bytes@,
        }) && effect_views(held@).contains(
            EffectView::Network(
                OutboundView {
                    to: before.members()[party.0 as int],
                    payload: envelope_bytes(
                        before.epoch(),
                        DeliveryView::Data { keys: id.keys(), payload: message.message.bytes@ },
                    ),
                },
            ),
        )),
        after.stage() matches Stage::Persist { held, .. } ==> forall|i: int|
            0 <= i < held@.len() ==> (#[trigger] effect_views(held@)[i]) is Network && nodes_of(
                before.members(),
                recipients,
            ).contains(effect_views(held@)[i]->Network_0.to),
{
    let outcome = lemma_sent(before, after, work, message, recipients, now, result);
    let members = before.members();
    let nodes = nodes_of(members, recipients);
    let keys = message.slots_for(recipients)->Some_0;
    let bytes = message.message.bytes@;
    let wire = data_wire(before.epoch(), keys, bytes);
    let group = payload_group(message.message.kind, before.self_party(), recipients[0]);
    let k = choose|k: int| 0 <= k < recipients.len() && recipients[k] == party;
    lemma_known_parties(members, recipients);
    assert(nodes[k] == members[party.0 as int]);
    let sent = outcome->Ok_0;
    let made = Ok::<Seq<EffectView>, SessionError>(effect_views(sent.sends@));
    let id = choose|id: DkgMessageId| #[trigger]
        id.keys() == keys && scheduled(
            before.retries(),
            after.retries(),
            id,
            nodes,
            wire,
            group,
            now,
            made,
        );
    lemma_scheduled_reaches(before.retries(), after.retries(), id, nodes, wire, group, now, made);
    assert(nodes.contains(nodes[k]));
    assert(effect_views(sent.sends@).len() == sent.sends@.len());
    id
}

/// Exactly the parties below the number of members are known, and the first one
/// that is not is named.
pub proof fn law_unknown_party_is_the_first(members: Seq<NodeId>, parties: Seq<PartyId>, i: int)
    requires
        0 <= i < parties.len(),
        parties[i].0 >= members.len(),
        forall|j: int| 0 <= j < i ==> (#[trigger] parties[j]).0 < members.len(),
    ensures
        unknown_party(members, parties) == Some(parties[i]),
    decreases parties.len(),
{
    if i > 0 {
        assert(parties[0].0 < members.len());
        assert(parties.skip(1)[i - 1] == parties[i]);
        assert forall|j: int| 0 <= j < i - 1 implies (#[trigger] parties.skip(1)[j]).0
            < members.len() by {
            assert(parties.skip(1)[j] == parties[j + 1]);
        }
        law_unknown_party_is_the_first(members, parties.skip(1), i - 1);
    }
}

/// No party is unknown where all of them are members.
proof fn lemma_known_parties(members: Seq<NodeId>, parties: Seq<PartyId>)
    ensures
        unknown_party(members, parties) is None <==> forall|i: int|
            0 <= i < parties.len() ==> (#[trigger] parties[i]).0 < members.len(),
    decreases parties.len(),
{
    if parties.len() > 0 {
        lemma_known_parties(members, parties.skip(1));
        let rest = parties.skip(1);
        if unknown_party(members, parties) is None {
            assert forall|i: int| 0 <= i < parties.len() implies (#[trigger] parties[i]).0
                < members.len() by {
                if i > 0 {
                    assert(rest[i - 1] == parties[i]);
                }
            }
        }
        if forall|i: int| 0 <= i < parties.len() ==> (#[trigger] parties[i]).0 < members.len() {
            assert(parties[0].0 < members.len());
            assert forall|i: int| 0 <= i < rest.len() implies (#[trigger] rest[i]).0 < members.len() by {
                assert(rest[i] == parties[i + 1]);
            }
        }
    }
}

/// A multicast step of the protocol reaches every other party: each is being
/// served with the message of this epoch, and one that was not being served yet
/// is sent it as soon as the log holds the message.
pub proof fn law_multicast_reaches_every_other_party(
    before: DkgSession,
    after: DkgSession,
    work: Work,
    message: OutgoingMessage,
    party: PartyId,
    now: u64,
    result: Result<SessionTask, SessionError>,
)
    requires
        before.wf(),
        before.stage() == Stage::Working(work),
        work.effects@.len() > 0,
        work.effects@[0] == (EngineEffect::Multicast { message }),
        is_protocol_step(message.message.kind),
        party.0 < before.members().len(),
        party != before.self_party(),
        forall|target: PartyId|
            !before.retries().is_obsolete(
                #[trigger] payload_group(message.message.kind, before.self_party(), target),
            ),
        before.steps(after, now, result),
        result is Ok,
    ensures
        exists|id: DkgMessageId|
            {
                let node = before.members()[party.0 as int];
                let wire = envelope_bytes(
                    before.epoch(),
                    DeliveryView::Data { keys: id.keys(), payload: message.message.bytes@ },
                );
                &&& #[trigger] after.retries().pending().contains_key(id)
                &&& after.retries().pending()[id].payload == wire
                &&& after.retries().deliveries().contains_key((id, node))
                &&& before.retries().deliveries().contains_key((id, node)) || (
                after.stage() matches Stage::Persist { held, .. } && effect_views(held@).contains(
                    EffectView::Network(OutboundView { to: node, payload: wire }),
                ))
            },
{
    let recipients = others(before.members().len(), before.self_party());
    crate::dkg::peers::law_others_are_all_but_one(before.members().len(), before.self_party(), party);
    let id = lemma_step_is_sent(before, after, work, message, recipients, party, now, result);
    assert(after.retries().pending().contains_key(id));
}

/// Nothing that a multicast message sends goes to the party itself.
pub proof fn law_multicast_spares_the_sender(
    before: DkgSession,
    after: DkgSession,
    work: Work,
    message: OutgoingMessage,
    party: PartyId,
    now: u64,
    result: Result<SessionTask, SessionError>,
    i: int,
)
    requires
        before.wf(),
        before.stage() == Stage::Working(work),
        work.effects@.len() > 0,
        work.effects@[0] == (EngineEffect::Multicast { message }),
        is_protocol_step(message.message.kind),
        before.self_party().0 < before.members().len(),
        before.steps(after, now, result),
        after.stage() is Persist,
        0 <= i < after.stage()->Persist_held@.len(),
    ensures
        effect_views(after.stage()->Persist_held@)[i] is Network,
        effect_views(after.stage()->Persist_held@)[i]->Network_0.to
            != before.members()[before.self_party().0 as int],
{
    let members = before.members();
    let own = before.self_party();
    let recipients = others(members.len(), own);
    let outcome = lemma_sent(before, after, work, message, recipients, now, result);
    let nodes = nodes_of(members, recipients);
    let keys = message.slots_for(recipients)->Some_0;
    let wire = data_wire(before.epoch(), keys, message.message.bytes@);
    let group = payload_group(message.message.kind, own, recipients[0]);
    let made = Ok::<Seq<EffectView>, SessionError>(effect_views(outcome->Ok_0.sends@));
    let id = choose|id: DkgMessageId| #[trigger]
        id.keys() == keys && scheduled(
            before.retries(),
            after.retries(),
            id,
            nodes,
            wire,
            group,
            now,
            made,
        );
    assert(made->Ok_0.len() > 0);
    lemma_scheduled_reaches(before.retries(), after.retries(), id, nodes, wire, group, now, made);
    assert(made->Ok_0[i] is Network);
    let k = choose|k: int| 0 <= k < nodes.len() && nodes[k] == made->Ok_0[i]->Network_0.to;
    assert(recipients.contains(recipients[k]));
    crate::dkg::peers::law_others_are_all_but_one(members.len(), own, recipients[k]);
    assert(members.no_duplicates());
}

/// A step of the protocol that is sent to one party reaches that party, and the
/// log holds it before it leaves.
pub proof fn law_unicast_reaches_its_party(
    before: DkgSession,
    after: DkgSession,
    work: Work,
    to: PartyId,
    message: OutgoingMessage,
    now: u64,
    result: Result<SessionTask, SessionError>,
)
    requires
        before.wf(),
        before.stage() == Stage::Working(work),
        work.effects@.len() > 0,
        work.effects@[0] == (EngineEffect::Unicast { to, message }),
        is_protocol_step(message.message.kind),
        !before.retries().is_obsolete(payload_group(message.message.kind, before.self_party(), to)),
        before.steps(after, now, result),
        result is Ok,
    ensures
        to.0 < before.members().len(),
        after.inputs() == before.inputs(),
        exists|id: DkgMessageId|
            {
                let node = before.members()[to.0 as int];
                let wire = envelope_bytes(
                    before.epoch(),
                    DeliveryView::Data { keys: id.keys(), payload: message.message.bytes@ },
                );
                &&& #[trigger] after.retries().pending().contains_key(id)
                &&& after.retries().pending()[id].payload == wire
                &&& after.retries().deliveries().contains_key((id, node))
                &&& before.retries().deliveries().contains_key((id, node)) || (
                after.stage() matches Stage::Persist { record, held, .. } && record@ == (
                RecordView::Outgoing { recipients: seq![to], payload: message.message.bytes@ })
                    && effect_views(held@).contains(
                    EffectView::Network(OutboundView { to: node, payload: wire }),
                ))
            },
{
    let recipients = seq![to];
    assert(recipients[0] == to);
    assert(recipients.contains(to));
    let id = lemma_step_is_sent(before, after, work, message, recipients, to, now, result);
    assert(after.retries().pending().contains_key(id));
}

/// A retrieval response leaves at once, is not kept in the log, and is not
/// repeated.
pub proof fn law_response_is_sent_once(
    before: DkgSession,
    after: DkgSession,
    work: Work,
    to: PartyId,
    message: OutgoingMessage,
    now: u64,
    result: Result<SessionTask, SessionError>,
)
    requires
        before.stage() == Stage::Working(work),
        work.effects@.len() > 0,
        work.effects@[0] == (EngineEffect::Unicast { to, message }),
        message.message.kind == DkgMessageKind::BveRetrievalResponse || message.message.kind
            == DkgMessageKind::PcRetrievalResponse,
        before.steps(after, now, result),
        result is Ok,
    ensures
        after.stage() is Working,
        after.retries() == before.retries(),
        after.effects() == before.effects().push(
            EffectView::Network(
                OutboundView {
                    to: before.members()[to.0 as int],
                    payload: envelope_bytes(
                        before.epoch(),
                        DeliveryView::Unacknowledged(message.message.bytes@),
                    ),
                },
            ),
        ),
{
    let outcome = lemma_sent(before, after, work, message, seq![to], now, result);
    assert(nodes_of(before.members(), seq![to])[0] == before.members()[to.0 as int]);
    assert(after.effects() =~= before.effects().push(
        EffectView::Network(
            OutboundView {
                to: before.members()[to.0 as int],
                payload: envelope_bytes(
                    before.epoch(),
                    DeliveryView::Unacknowledged(message.message.bytes@),
                ),
            },
        ),
    ));
}

/// A retrieval request leaves at once, is not kept in the log, and is repeated
/// until extraction ends.
pub proof fn law_request_is_repeated_until_extraction_ends(
    before: DkgSession,
    after: DkgSession,
    work: Work,
    to: PartyId,
    message: OutgoingMessage,
    now: u64,
    result: Result<SessionTask, SessionError>,
)
    requires
        before.stage() == Stage::Working(work),
        work.effects@.len() > 0,
        work.effects@[0] == (EngineEffect::Unicast { to, message }),
        message.message.kind == DkgMessageKind::BveRetrievalRequest || message.message.kind
            == DkgMessageKind::PcRetrievalRequest,
        !before.retries().is_obsolete(Some(DeliveryAbortGroup::Extraction)),
        before.steps(after, now, result),
        result is Ok,
    ensures
        after.stage() is Working,
        exists|id: DkgMessageId|
            {
                let node = before.members()[to.0 as int];
                let wire = envelope_bytes(
                    before.epoch(),
                    DeliveryView::Unacknowledged(message.message.bytes@),
                );
                &&& #[trigger] after.retries().pending().contains_key(id)
                &&& after.retries().pending()[id] == (MessageView {
                    payload: wire,
                    scope: Some(DeliveryAbortGroup::Extraction),
                })
                &&& after.retries().deliveries().contains_key((id, node))
                &&& before.retries().deliveries().contains_key((id, node)) || after.effects().contains(
                    EffectView::Network(OutboundView { to: node, payload: wire }),
                )
            },
{
    let recipients = seq![to];
    let outcome = lemma_sent(before, after, work, message, recipients, now, result);
    let members = before.members();
    let nodes = nodes_of(members, recipients);
    let node = members[to.0 as int];
    assert(nodes[0] == node);
    assert(nodes.contains(nodes[0]));
    let keys = message.slots_for(recipients)->Some_0;
    let wire = plain_wire(before.epoch(), message.message.bytes@);
    let group = Some(DeliveryAbortGroup::Extraction);
    let sent = outcome->Ok_0;
    let made = Ok::<Seq<EffectView>, SessionError>(effect_views(sent.sends@));
    let id = choose|id: DkgMessageId| #[trigger]
        id.keys() == keys && scheduled(
            before.retries(),
            after.retries(),
            id,
            nodes,
            wire,
            group,
            now,
            made,
        );
    lemma_scheduled_reaches(before.retries(), after.retries(), id, nodes, wire, group, now, made);
    let effect = EffectView::Network(OutboundView { to: node, payload: wire });
    if made->Ok_0.contains(effect) {
        let i = choose|i: int| 0 <= i < made->Ok_0.len() && made->Ok_0[i] == effect;
        assert(after.effects()[before.effects().len() + i] == effect);
    }
    assert(after.retries().pending().contains_key(id));
}

/// A retrieval request or response is taken where nobody waits for its
/// acknowledgement, and any other message where the acknowledgement covers all of
/// its slots. What is taken keeps its sender and its contents, and is meant for
/// the log exactly where it is no retrieval message.
pub proof fn law_delivery_is_taken_in_its_form(
    from: PartyId,
    message: DkgMessage,
    keys: Vec<DkgMessageKey>,
    acknowledgement: Option<DkgMessageId>,
)
    ensures
        ({
            let taken = taken_input(
                from,
                DecodedPayload::Message { message, keys },
                acknowledgement,
            );
            &&& is_protocol_step(message.kind) ==> (taken is Some <==> acknowledgement is Some && (
            forall|i: int|
                0 <= i < keys@.len() ==> acknowledgement->Some_0.keys().contains(#[trigger] keys@[i])))
            &&& !is_protocol_step(message.kind) ==> (taken is Some <==> acknowledgement is None)
            &&& taken matches Some(input) ==> {
                &&& input.source == from
                &&& input.message == message@
                &&& input.persist == is_protocol_step(message.kind)
                &&& input.acknowledgement == acknowledgement
            }
        }),
        taken_input(from, DecodedPayload::Malformed, acknowledgement) is None,
        taken_input(from, DecodedPayload::InvalidIdentity, acknowledgement) is None,
{
    let decoded = DecodedPayload::Message { message, keys };
    let taken = taken_input(from, decoded, acknowledgement);
    assert(decoded->keys == keys);
    if acknowledgement is Some && is_protocol_step(message.kind) {
        let id = acknowledgement->Some_0;
        if taken is Some {
            assert forall|i: int| 0 <= i < keys@.len() implies id.keys().contains(#[trigger] keys@[i]) by {
                assert(decoded->keys@[i] == keys@[i]);
            }
        }
    }
}

/// A step that fails exposes nothing, and a session that was recovering waits for
/// the chain again with the messages that were left to restore.
pub proof fn law_failed_step_exposes_nothing(
    before: DkgSession,
    after: DkgSession,
    now: u64,
    result: Result<SessionTask, SessionError>,
)
    requires
        before.stage() is Working,
        before.steps(after, now, result),
        result is Err,
    ensures
        after.effects() == before.effects(),
        after.stage() is Ready,
        before.recovery() matches SessionRecovery::Recovering { outgoing, .. } ==> (
        after.recovery() matches SessionRecovery::AwaitingChain { outgoing: left } && left@ == outgoing@),
        !(before.recovery() is Recovering) ==> after.recovery() == before.recovery(),
{
    let work = before.stage()->Working_0;
    if work.effects@.len() > 0 {
        match work.effects@[0] {
            EngineEffect::PostToChain(_) => {},
            EngineEffect::Unicast { to, message } => {
                let outcome = lemma_sent(before, after, work, message, seq![to], now, result);
            },
            EngineEffect::Multicast { message } => {
                let outcome = lemma_sent(
                    before,
                    after,
                    work,
                    message,
                    others(before.members().len(), before.self_party()),
                    now,
                    result,
                );
            },
        }
    }
}

/// A certificate or the result on the chain ends the pending messages that it
/// settles, refuses them from then on, and leaves all others pending.
pub proof fn law_event_drops_what_it_settles(
    before: SessionRetries,
    after: SessionRetries,
    event: ChainEvent,
    id: DkgMessageId,
    node: NodeId,
    kind: DkgMessageKind,
    source: PartyId,
    target: PartyId,
)
    requires
        observes(before, after, Some(event_group(event))),
        before.pending().contains_key(id),
        before.pending()[id].scope == payload_group(kind, source, target),
    ensures
        ({
            let settled = match event {
                ChainEvent::PcQc { qc, .. } => (kind == DkgMessageKind::PcProposal && source == qc.dealer)
                    || (kind == DkgMessageKind::PcAck && target == qc.dealer),
                ChainEvent::BveQcFinalized { qc, .. } => kind == DkgMessageKind::BveProposal && source
                    == qc.dealer,
                ChainEvent::DkgResultRecorded { .. } => kind == DkgMessageKind::Done,
            };
            &&& after.pending().contains_key(id) <==> !settled
            &&& !settled ==> after.pending()[id] == before.pending()[id]
            &&& after.deliveries().contains_key((id, node)) <==> !settled
                && before.deliveries().contains_key((id, node))
            &&& settled ==> after.is_obsolete(payload_group(kind, source, target))
        }),
{
    crate::dkg::delivery::law_event_ends_exactly_what_it_settles(event, kind, source, target);
    let evidence = event_group(event);
    assert(before.obsoleted_by(evidence).contains(id) <==> crate::dkg::delivery::ends_delivery(
        evidence,
        kind,
        source,
        target,
    ));
    assert(deliveries_of::<DkgMessageId, NodeId>(before.obsoleted_by(evidence)).contains((id, node))
        <==> before.obsoleted_by(evidence).contains(id));
    if before.obsoleted_by(evidence).contains(id) {
        assert(after.observed().contains(evidence));
    }
}

/// A call that the engine makes leaves for the chain, and ends the pending
/// messages that the certificate or the result in it settles.
pub proof fn law_posted_call_drops_what_it_settles(
    before: DkgSession,
    after: DkgSession,
    work: Work,
    call: ChainCall,
    now: u64,
    result: Result<SessionTask, SessionError>,
    id: DkgMessageId,
    kind: DkgMessageKind,
    source: PartyId,
    target: PartyId,
)
    requires
        before.stage() == Stage::Working(work),
        work.effects@.len() > 0,
        work.effects@[0] == EngineEffect::PostToChain(call),
        before.steps(after, now, result),
        before.retries().pending().contains_key(id),
        before.retries().pending()[id].scope == payload_group(kind, source, target),
    ensures
        result == Ok::<SessionTask, SessionError>(SessionTask::Continue),
        after.effects() == before.effects().push(EffectView::Chain(call)),
        after.inputs() == before.inputs(),
        after.stage() matches Stage::Working(rest) && rest.effects@ == work.effects@.skip(1)
            && rest.acknowledgement == work.acknowledgement && rest.phase == work.phase,
        ({
            let settled = match call {
                ChainCall::PostPcQc(qc) => (kind == DkgMessageKind::PcProposal && source == qc.dealer)
                    || (kind == DkgMessageKind::PcAck && target == qc.dealer),
                ChainCall::PostBveQc(qc) => kind == DkgMessageKind::BveProposal && source == qc.dealer,
                ChainCall::PostDkgResult(_) => kind == DkgMessageKind::Done,
                ChainCall::PostRegistration { .. } => false,
            };
            after.retries().pending().contains_key(id) <==> !settled
        }),
{
    crate::dkg::delivery::law_call_ends_exactly_what_it_settles(call, kind, source, target);
    if call_group(call) is Some {
        let evidence = call_group(call)->Some_0;
        assert(before.retries().obsoleted_by(evidence).contains(id)
            <==> crate::dkg::delivery::ends_delivery(evidence, kind, source, target));
    }
}

/// A session that is done with an input acknowledges it to its sender where the
/// sender waits for that, with the slots of the message.
pub proof fn law_finished_input_is_acknowledged(
    before: DkgSession,
    after: DkgSession,
    work: Work,
    now: u64,
    result: Result<SessionTask, SessionError>,
)
    requires
        before.stage() == Stage::Working(work),
        work.effects@.len() == 0,
        before.steps(after, now, result),
    ensures
        after.stage() is Ready,
        after.inputs() == before.inputs(),
        work.acknowledgement is None ==> result is Ok && after.effects() == before.effects(),
        work.acknowledgement matches Some((target, id)) ==> if target.0 < before.members().len() {
            &&& result is Ok
            &&& after.effects() == before.effects().push(
                EffectView::Acknowledgement(
                    OutboundView {
                        to: before.members()[target.0 as int],
                        payload: envelope_bytes(before.epoch(), DeliveryView::Ack(id.keys())),
                    },
                ),
            )
        } else {
            result is Err
        },
{
}

/// Once the engine leaves secret sharing or extraction, the messages of that
/// phase are no longer sent; as long as the phase stays, nothing changes.
pub proof fn law_left_phase_drops_its_messages(
    before: DkgSession,
    after: DkgSession,
    work: Work,
    phase: DkgEnginePhase,
    now: u64,
    result: Result<SessionTask, SessionError>,
    id: DkgMessageId,
    kind: DkgMessageKind,
    source: PartyId,
    target: PartyId,
)
    requires
        before.stage() == Stage::Working(work),
        work.effects@.len() == 0,
        work.phase == Some(phase),
        before.steps(after, now, result),
        result is Ok,
        before.retries().pending().contains_key(id),
        before.retries().pending()[id].scope == payload_group(kind, source, target),
    ensures
        after.last_phase() == phase,
        before.last_phase() == phase ==> after.retries() == before.retries(),
        ({
            let over = before.last_phase() != phase && match before.last_phase() {
                DkgEnginePhase::Vss => kind == DkgMessageKind::PcProposal || kind
                    == DkgMessageKind::PcAck || kind == DkgMessageKind::BveProposal || kind
                    == DkgMessageKind::BveApprovalBatch,
                DkgEnginePhase::Extraction => kind == DkgMessageKind::BveRetrievalRequest || kind
                    == DkgMessageKind::PcRetrievalRequest,
                _ => false,
            };
            after.retries().pending().contains_key(id) <==> !over
        }),
{
    crate::dkg::delivery::law_phase_ends_its_messages(kind, source, target);
    let evidence = phase_evidence(before.last_phase(), phase);
    if evidence is Some {
        assert(before.retries().obsoleted_by(evidence->Some_0).contains(id)
            <==> crate::dkg::delivery::ends_delivery(evidence->Some_0, kind, source, target));
    }
}

/// Inputs are handed to the engine in the order in which they came, with the
/// sender and the contents that they came with.
pub proof fn law_inputs_are_taken_in_order(
    before: DkgSession,
    after: DkgSession,
    now: u64,
    result: Result<SessionTask, SessionError>,
)
    requires
        before.stage() is Ready,
        !(before.recovery() is AwaitingChain),
        before.inputs().len() > 0,
        before.steps(after, now, result),
    ensures
        seq![before.inputs()[0]] + after.inputs() == before.inputs(),
        after.effects() == before.effects(),
        after.retries() == before.retries(),
        before.inputs()[0] matches InputView::Peer(input) ==> (result matches Ok(
            SessionTask::ApplyPeer { source, message },
        ) && source == input.source && message@ == input.message) && (after.stage() matches Stage::Applying(
            kept,
        ) && kept@ == input),
        before.inputs()[0] matches InputView::Chain(event) ==> result == Ok::<SessionTask, SessionError>(
            SessionTask::ApplyChain(event),
        ) && after.stage() is ApplyingChain,
{
    assert(seq![before.inputs()[0]] + after.inputs() =~= before.inputs());
}

/// What an accepted message makes the engine do is done for it: the effects are
/// those of the engine, and the sender is acknowledged where it waits for that.
pub proof fn law_work_is_for_its_input(
    work: Work,
    effects: Vec<EngineEffect>,
    input: PeerInputView,
    phase: DkgEnginePhase,
)
    requires
        is_work(work, effects, input, phase),
    ensures
        work.effects@ == effects@,
        work.phase == Some(phase),
        work.acknowledgement is Some <==> input.acknowledgement is Some,
        work.acknowledgement matches Some((target, id)) ==> target == input.source && Some(id)
            == input.acknowledgement,
{
}

/// A message of the log is sent again to each of its recipients while the session
/// recovers, unless evidence ended it, and is then no longer waiting.
pub proof fn law_restored_message_is_sent_again(
    before: DkgSession,
    after: DkgSession,
    first: RestoredMessage,
    party: PartyId,
    now: u64,
    result: Result<SessionTask, SessionError>,
)
    requires
        before.stage() is Ready,
        before.inputs().len() == 0,
        before.recovery() matches SessionRecovery::Recovering { outgoing, .. } && outgoing@.len() > 0
            && outgoing@[0] == first,
        first.recipients@.contains(party),
        !before.retries().is_obsolete(
            payload_group(first.message.message.kind, before.self_party(), first.recipients@[0]),
        ),
        before.steps(after, now, result),
        result is Ok,
    ensures
        after.stage() is Ready,
        after.recovery() matches SessionRecovery::Recovering { outgoing, .. } && seq![first] + outgoing@
            == before.recovery()->Recovering_outgoing@,
        party.0 < before.members().len(),
        exists|id: DkgMessageId|
            {
                let node = before.members()[party.0 as int];
                let wire = envelope_bytes(
                    before.epoch(),
                    DeliveryView::Data { keys: id.keys(), payload: first.message.message.bytes@ },
                );
                &&& #[trigger] after.retries().pending().contains_key(id)
                &&& after.retries().pending()[id].payload == wire
                &&& after.retries().deliveries().contains_key((id, node))
                &&& before.retries().deliveries().contains_key((id, node)) || after.effects().contains(
                    EffectView::Network(OutboundView { to: node, payload: wire }),
                )
            },
{
    let members = before.members();
    let recipients = first.recipients@;
    let outcome = choose|outcome: Result<Seq<EffectView>, SessionError>| #[trigger]
        restoring(
            before.retries(),
            after.retries(),
            before.epoch(),
            before.self_party(),
            members,
            first,
            now,
            outcome,
        ) && match outcome {
            Ok(sends) => {
                &&& result == Ok::<SessionTask, SessionError>(SessionTask::Continue)
                &&& after.effects() == before.effects() + sends
                &&& before.recovery() matches SessionRecovery::Recovering {
                    outgoing: all,
                    peers: waiting,
                } && after.recovery() matches SessionRecovery::Recovering { outgoing, peers }
                    && outgoing@ == all@.skip(1) && peers@ == waiting@
            },
            Err(error) => {
                &&& result == Err::<SessionTask, _>(error)
                &&& after.effects() == before.effects()
                &&& after.recovery() matches SessionRecovery::AwaitingChain { outgoing }
                    && outgoing@.len() == 0
            },
        };
    let nodes = nodes_of(members, recipients);
    let keys = first.message.slots_for(recipients)->Some_0;
    let wire = data_wire(before.epoch(), keys, first.message.message.bytes@);
    let group = payload_group(first.message.message.kind, before.self_party(), recipients[0]);
    let k = choose|k: int| 0 <= k < recipients.len() && recipients[k] == party;
    lemma_known_parties(members, recipients);
    let node = members[party.0 as int];
    assert(nodes[k] == node);
    assert(nodes.contains(nodes[k]));
    let id = choose|id: DkgMessageId| #[trigger]
        id.keys() == keys && scheduled(
            before.retries(),
            after.retries(),
            id,
            nodes,
            wire,
            group,
            now,
            outcome,
        );
    lemma_scheduled_reaches(before.retries(), after.retries(), id, nodes, wire, group, now, outcome);
    let effect = EffectView::Network(OutboundView { to: node, payload: wire });
    if outcome->Ok_0.contains(effect) {
        let i = choose|i: int| 0 <= i < outcome->Ok_0.len() && outcome->Ok_0[i] == effect;
        assert(after.effects()[before.effects().len() + i] == effect);
    }
    assert(after.retries().pending().contains_key(id));
    assert(seq![first] + after.recovery()->Recovering_outgoing@
        =~= before.recovery()->Recovering_outgoing@);
}

/// The engine starts once the chain events are applied and every message of the
/// log was sent again.
pub proof fn law_engine_starts_last(
    before: DkgSession,
    after: DkgSession,
    now: u64,
    result: Result<SessionTask, SessionError>,
)
    requires
        before.stage() is Ready,
        before.steps(after, now, result),
    ensures
        result == Ok::<SessionTask, SessionError>(SessionTask::StartEngine) <==> (
        before.recovery() matches SessionRecovery::Recovering { outgoing, .. } && outgoing@.len() == 0
            && before.inputs().len() == 0),
{
    match before.recovery() {
        SessionRecovery::Recovering { outgoing, .. } => {
            if before.inputs().len() == 0 && outgoing@.len() > 0 {
                assert(before.restores(after, outgoing@[0], now, result));
            }
        },
        _ => {},
    }
}

/// Whether `effect` sends the message of a delivery that is due to its recipient.
pub open spec fn is_repeat(
    retries: SessionRetries,
    now: u64,
    delivery: (DkgMessageId, NodeId),
    effect: EffectView,
) -> bool {
    &&& retries.deliveries().contains_key(delivery)
    &&& retries.deliveries()[delivery].deadline <= now
    &&& effect == EffectView::Network(
        OutboundView { to: delivery.1, payload: retries.pending()[delivery.0].payload },
    )
}

/// Every delivery whose deadline has passed is repeated, with the contents of its
/// message, nothing else is, and what was to leave before still does.
pub proof fn law_timer_repeats_what_is_due(
    retries: SessionRetries,
    now: u64,
    before: Seq<EffectView>,
    after: Seq<EffectView>,
    count: nat,
    id: DkgMessageId,
    node: NodeId,
    i: int,
)
    requires
        repeats(retries, now, before, after, count),
    ensures
        after.len() == before.len() + count,
        after.take(before.len() as int) == before,
        retries.deliveries().contains_key((id, node)) && retries.deliveries()[(id, node)].deadline
            <= now ==> after.skip(before.len() as int).contains(
            EffectView::Network(OutboundView { to: node, payload: retries.pending()[id].payload }),
        ),
        before.len() <= i < after.len() ==> exists|due: (DkgMessageId, NodeId)| #[trigger]
            is_repeat(retries, now, due, after[i]),
{
    let (served, sends) = choose|served: Seq<(u64, (DkgMessageId, NodeId))>, sends: Seq<ScheduledSend<NodeId>>| #[trigger]
        serves(retries.deliveries(), retries.pending(), now, served, sends) && count == sends.len()
            && after == before + network_views(crate::dkg::transport::outbound_views(sends));
    let views = network_views(crate::dkg::transport::outbound_views(sends));
    assert(after.take(before.len() as int) =~= before);
    let due = crate::reliable::retry::due(retries.deliveries(), now);
    if due.contains((id, node)) {
        let entry = crate::reliable::retry::timer_entry(retries.deliveries(), (id, node));
        assert(served.contains(entry));
        let k = choose|k: int| 0 <= k < served.len() && served[k] == entry;
        assert(sends[k].to == node);
        assert(after.skip(before.len() as int)[k] == views[k]);
    }
    if before.len() <= i < after.len() {
        let j = i - before.len();
        assert(after[i] == views[j]);
        assert(due.contains(served[j].1));
        assert(is_repeat(retries, now, served[j].1, after[i]));
    }
}

/// A message of the log whose source takes part waits for the engine, and is
/// neither logged nor acknowledged again.
pub proof fn law_logged_message_is_replayed(
    incoming: Seq<(PartyId, DurableDkgMessage)>,
    party_count: nat,
    i: int,
)
    requires
        0 <= i < incoming.len(),
        incoming[i].0.0 < party_count,
    ensures
        replayed(incoming, party_count).contains(
            InputView::Peer(
                PeerInputView {
                    source: incoming[i].0,
                    message: incoming[i].1.inner()@,
                    persist: false,
                    acknowledgement: None,
                },
            ),
        ),
    decreases incoming.len(),
{
    let wanted = InputView::Peer(
        PeerInputView {
            source: incoming[i].0,
            message: incoming[i].1.inner()@,
            persist: false,
            acknowledgement: None,
        },
    );
    let whole = replayed(incoming, party_count);
    let earlier = replayed(incoming.drop_last(), party_count);
    if i == incoming.len() - 1 {
        assert(whole.last() == wanted);
    } else {
        law_logged_message_is_replayed(incoming.drop_last(), party_count, i);
        let k = choose|k: int| 0 <= k < earlier.len() && earlier[k] == wanted;
        assert(whole[k] == wanted);
    }
}

/// Where every source takes part, the messages of the log are replayed one for
/// one, in the order of the log.
pub proof fn law_log_is_replayed_in_order(incoming: Seq<(PartyId, DurableDkgMessage)>, party_count: nat)
    requires
        forall|i: int| 0 <= i < incoming.len() ==> (#[trigger] incoming[i]).0.0 < party_count,
    ensures
        replayed(incoming, party_count).len() == incoming.len(),
        forall|i: int|
            0 <= i < incoming.len() ==> (#[trigger] replayed(incoming, party_count)[i]) == InputView::Peer(
                PeerInputView {
                    source: incoming[i].0,
                    message: incoming[i].1.inner()@,
                    persist: false,
                    acknowledgement: None,
                },
            ),
    decreases incoming.len(),
{
    if incoming.len() > 0 {
        let earlier = incoming.drop_last();
        assert forall|i: int| 0 <= i < earlier.len() implies (#[trigger] earlier[i]).0.0 < party_count by {
            assert(earlier[i] == incoming[i]);
        }
        law_log_is_replayed_in_order(earlier, party_count);
        assert(incoming.last().0.0 < party_count);
    }
}

/// While a session recovers, chain events come first: what waits is parted into
/// the chain events and the messages of peers, each in its order.
pub proof fn law_waiting_inputs_are_parted(inputs: Seq<InputView>, i: int)
    requires
        0 <= i < inputs.len(),
    ensures
        inputs[i] is Chain ==> chain_inputs(inputs).contains(inputs[i]),
        inputs[i] is Peer ==> peer_inputs(inputs).contains(inputs[i]),
        chain_inputs(inputs).len() + peer_inputs(inputs).len() == inputs.len(),
        forall|k: int| 0 <= k < chain_inputs(inputs).len() ==> (#[trigger] chain_inputs(inputs)[k]) is Chain,
        forall|k: int| 0 <= k < peer_inputs(inputs).len() ==> (#[trigger] peer_inputs(inputs)[k]) is Peer,
{
    broadcast use vstd::seq_lib::group_filter_ensures;

    lemma_parts_add_up(inputs);
}

proof fn lemma_parts_add_up(inputs: Seq<InputView>)
    ensures
        chain_inputs(inputs).len() + peer_inputs(inputs).len() == inputs.len(),
    decreases inputs.len(),
{
    reveal(Seq::filter);
    if inputs.len() > 0 {
        lemma_parts_add_up(inputs.drop_last());
    }
}

/// An acknowledgement by a node ends the delivery to that node and to no other;
/// the message itself is forgotten with its last recipient.
pub proof fn law_acknowledgement_ends_one_delivery(
    before: SessionRetries,
    after: SessionRetries,
    id: DkgMessageId,
    peer: NodeId,
    other: (DkgMessageId, NodeId),
)
    requires
        acknowledges(before, after, id, peer),
    ensures
        !after.deliveries().contains_key((id, peer)),
        other != (id, peer) ==> (after.deliveries().contains_key(other)
            <==> before.deliveries().contains_key(other)),
        other != (id, peer) && before.deliveries().contains_key(other) ==> after.deliveries()[other]
            == before.deliveries()[other],
        other != (id, peer) && before.deliveries().contains_key(other)
            && before.pending().contains_key(other.0) ==> after.pending().contains_key(other.0),
        after.observed() == before.observed(),
{
    if other.0 == id && other != (id, peer) {
        assert(other == (id, other.1));
    }
}

/// The response of a party to a retrieval request ends that request to that party:
/// requests of the other kind, about other dealers, or to other parties go on.
pub proof fn law_response_ends_its_request(
    before: SessionRetries,
    after: SessionRetries,
    message: DkgMessageView,
    requester: PartyId,
    responder: PartyId,
    key: DkgMessageKey,
    dealer: PartyId,
)
    requires
        completes(before, after, answered_request(message, requester, responder)),
        message.retrieval_dealer == Some(dealer),
        before.pending().contains_key(DkgMessageId::Single(key)),
        key.level == 0,
        key.source == requester,
    ensures
        after.pending().contains_key(DkgMessageId::Single(key)) <==> !(key.dealer == dealer && key.target
            == responder && ((message.kind == DkgMessageKind::BveRetrievalResponse && key.kind
            == DkgMessageKind::BveRetrievalRequest) || (message.kind
            == DkgMessageKind::PcRetrievalResponse && key.kind == DkgMessageKind::PcRetrievalRequest))),
{
}

/// A message that is sent is repeated to a new recipient after two seconds and at
/// most two fifths of a second of jitter.
pub proof fn law_first_repeat_follows_the_send(
    before: SessionRetries,
    after: SessionRetries,
    id: DkgMessageId,
    nodes: Seq<NodeId>,
    wire: Seq<u8>,
    group: Option<DeliveryAbortGroup>,
    now: u64,
    result: Result<Seq<EffectView>, SessionError>,
    node: NodeId,
)
    requires
        scheduled(before, after, id, nodes, wire, group, now, result),
        before.config() == dkg_backoff(),
        nodes.contains(node),
        after.deliveries().contains_key((id, node)),
        !before.deliveries().contains_key((id, node)),
    ensures
        now + 2_000_000_000 <= after.deliveries()[(id, node)].deadline <= now + 2_400_000_000,
{
    let added = before.new_recipients(id, nodes);
    assert(added.contains(node));
    crate::reliable::retry::law_jitter_is_bounded(
        before.config(),
        now,
        before.config().initial,
        after.deliveries()[(id, node)].deadline,
    );
}

/// The next timer is the earliest deadline of the open deliveries, and there is none
/// exactly where nothing is open.
pub proof fn law_next_timer_is_the_earliest(
    retries: SessionRetries,
    timer: Option<u64>,
    delivery: (DkgMessageId, NodeId),
)
    requires
        is_next_timer(retries, timer),
    ensures
        timer is None ==> !retries.deliveries().contains_key(delivery),
        timer is Some && retries.deliveries().contains_key(delivery) ==> timer->Some_0
            <= retries.deliveries()[delivery].deadline,
        timer matches Some(deadline) ==> exists|next: (DkgMessageId, NodeId)| #[trigger]
            retries.deliveries().contains_key(next) && retries.deliveries()[next].deadline == deadline,
{
    assert(timer is None ==> !retries.deliveries().dom().contains(delivery));
}

/// No step changes who takes part, and only the end of an input changes the phase.
pub proof fn law_step_keeps_the_session(
    before: DkgSession,
    after: DkgSession,
    now: u64,
    result: Result<SessionTask, SessionError>,
)
    requires
        before.stage() is Ready || before.stage() is Persist || before.stage() is Working,
        before.steps(after, now, result),
    ensures
        after.epoch() == before.epoch(),
        after.self_party() == before.self_party(),
        after.members() == before.members(),
        !(before.stage() is Working) ==> after.last_phase() == before.last_phase(),
        before.stage() matches Stage::Working(work) ==> (work.effects@.len() > 0 || work.phase is None
            || result is Err ==> after.last_phase() == before.last_phase()),
{
}

/// Taking an input, asking for a record, and starting the engine send nothing and
/// leave the schedule as it is.
pub proof fn law_asking_changes_nothing_else(
    before: DkgSession,
    after: DkgSession,
    now: u64,
    result: Result<SessionTask, SessionError>,
)
    requires
        before.stage() is Ready || before.stage() is Persist,
        before.steps(after, now, result),
        !(result is Ok && result->Ok_0 is Continue),
        result is Ok,
    ensures
        after.retries() == before.retries(),
        after.effects() == before.effects(),
        after.recovery() == before.recovery(),
        after.inputs() == (if result->Ok_0 is ApplyPeer || result->Ok_0 is ApplyChain {
            before.inputs().skip(1)
        } else {
            before.inputs()
        }),
        before.stage() is Persist ==> after.stage() == (Stage::Journaling {
            held: before.stage()->Persist_held,
            work: before.stage()->Persist_work,
        }),
        before.stage() is Ready && before.inputs().len() > 0 && !(
        before.recovery() is AwaitingChain) ==> result->Ok_0 is ApplyPeer || result->Ok_0 is ApplyChain,
{
}

/// What the engine asked for is done one by one: what is left of the work is all but
/// the first, for the same input, and the inputs that wait keep their places.
pub proof fn law_effects_are_done_one_by_one(
    before: DkgSession,
    after: DkgSession,
    work: Work,
    now: u64,
    result: Result<SessionTask, SessionError>,
)
    requires
        before.stage() == Stage::Working(work),
        work.effects@.len() > 0,
        before.steps(after, now, result),
    ensures
        before.inputs().len() <= after.inputs().len(),
        after.inputs().take(before.inputs().len() as int) == before.inputs(),
        !(work.effects@[0] is Multicast) ==> after.inputs() == before.inputs(),
        result is Ok ==> result->Ok_0 is Continue && after.recovery() == before.recovery(),
        result is Ok ==> after.stage() is Working || after.stage() is Persist,
        after.stage() matches Stage::Working(rest) ==> result is Ok ==> rest.effects@
            == work.effects@.skip(1) && rest.acknowledgement == work.acknowledgement && rest.phase
            == work.phase,
        after.stage() matches Stage::Persist { work: rest, .. } ==> rest.effects@ == work.effects@.skip(1)
            && rest.acknowledgement == work.acknowledgement && rest.phase == work.phase,
        after.stage() is Persist ==> after.effects() == before.effects(),
{
    assert(before.inputs().take(before.inputs().len() as int) =~= before.inputs());
    match work.effects@[0] {
        EngineEffect::PostToChain(_) => {},
        EngineEffect::Unicast { to, message } => {
            let outcome = lemma_sent(before, after, work, message, seq![to], now, result);
        },
        EngineEffect::Multicast { message } => {
            let outcome = lemma_sent(
                before,
                after,
                work,
                message,
                others(before.members().len(), before.self_party()),
                now,
                result,
            );
            assert((before.inputs() + loopback(before.self_party(), message.message@)).take(
                before.inputs().len() as int,
            ) =~= before.inputs());
        },
    }
}

/// An input that is done leaves the others waiting and the session ready for the next.
pub proof fn law_finished_input_leaves_the_others(
    before: DkgSession,
    after: DkgSession,
    work: Work,
    now: u64,
    result: Result<SessionTask, SessionError>,
)
    requires
        before.stage() == Stage::Working(work),
        work.effects@.len() == 0,
        before.steps(after, now, result),
    ensures
        after.inputs() == before.inputs(),
        after.stage() is Ready,
        result is Ok ==> result->Ok_0 is Continue && after.recovery() == before.recovery(),
        result is Ok && work.phase is Some ==> after.last_phase() == work.phase->Some_0,
        result is Ok && work.phase is None ==> after.retries() == before.retries(),
        result is Err ==> after.retries() == before.retries(),
        result is Err <==> work.acknowledgement is Some && work.acknowledgement->Some_0.0.0
            >= before.members().len(),
{
}

/// Evidence is remembered, and it ends the messages of its group with their deliveries
/// and nothing else: every other message and every other delivery is as it was.
pub proof fn law_evidence_spares_the_rest(
    before: SessionRetries,
    after: SessionRetries,
    evidence: DeliveryAbortGroup,
    id: DkgMessageId,
    node: NodeId,
)
    requires
        observes(before, after, Some(evidence)),
    ensures
        after.wf(),
        after.config() == before.config(),
        after.observed() == before.observed().insert(evidence),
        ({
            let ended = before.obsoleted_by(evidence).contains(id);
            &&& after.pending().contains_key(id) <==> before.pending().contains_key(id) && !ended
            &&& after.pending().contains_key(id) ==> after.pending()[id] == before.pending()[id]
            &&& after.deliveries().contains_key((id, node)) <==> before.deliveries().contains_key(
                (id, node),
            ) && !ended
            &&& after.deliveries().contains_key((id, node)) ==> after.deliveries()[(id, node)]
                == before.deliveries()[(id, node)]
        }),
{
}

/// An answered request is over, for every node it was sent to, and nothing else is.
pub proof fn law_answer_spares_the_rest(
    before: SessionRetries,
    after: SessionRetries,
    key: DkgMessageKey,
    id: DkgMessageId,
    node: NodeId,
)
    requires
        completes(before, after, Some(key)),
    ensures
        after.wf(),
        after.config() == before.config(),
        after.observed() == before.observed(),
        !after.pending().contains_key(DkgMessageId::Single(key)),
        !after.deliveries().contains_key((DkgMessageId::Single(key), node)),
        id != DkgMessageId::Single(key) ==> (after.pending().contains_key(id)
            <==> before.pending().contains_key(id)) && (after.deliveries().contains_key((id, node))
            <==> before.deliveries().contains_key((id, node))),
        id != DkgMessageId::Single(key) && before.pending().contains_key(id) ==> after.pending()[id]
            == before.pending()[id],
        id != DkgMessageId::Single(key) && before.deliveries().contains_key((id, node))
            ==> after.deliveries()[(id, node)] == before.deliveries()[(id, node)],
{
}

/// Starting a delivery changes the schedule of its own message only, keeps what was
/// observed, and changes nothing where the message is over, has no recipient, or
/// contradicts one under its identity.
pub proof fn law_new_delivery_spares_the_rest(
    before: SessionRetries,
    after: SessionRetries,
    id: DkgMessageId,
    nodes: Seq<NodeId>,
    wire: Seq<u8>,
    group: Option<DeliveryAbortGroup>,
    now: u64,
    result: Result<Seq<EffectView>, SessionError>,
    other: DkgMessageId,
)
    requires
        scheduled(before, after, id, nodes, wire, group, now, result),
    ensures
        after.wf(),
        after.config() == before.config(),
        after.observed() == before.observed(),
        other != id ==> (after.pending().contains_key(other) <==> before.pending().contains_key(other)),
        other != id && before.pending().contains_key(other) ==> after.pending()[other]
            == before.pending()[other],
        before.is_obsolete(group) || nodes.len() == 0 ==> result is Ok && result->Ok_0.len() == 0
            && after.pending() == before.pending() && after.deliveries() == before.deliveries(),
        result is Err ==> after.pending() == before.pending() && after.deliveries()
            == before.deliveries(),
        result is Err <==> !before.is_obsolete(group) && nodes.len() > 0 && before.conflicts(
            id,
            wire,
            group,
        ),
        !before.is_obsolete(group) && nodes.len() > 0 && result is Ok ==> after.pending().contains_key(id)
            && after.pending()[id].payload == wire && after.pending()[id].scope == group,
{
}

} // verus!
