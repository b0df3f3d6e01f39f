//! Which deliveries belong together, and when they are pointless.

use crate::chain::types::{ChainCall, ChainEvent};
use crate::dkg::ids::{DkgDeliveryPolicy, DkgMessageKind, PartyId};
use crate::order::{Key, Rank};
use crate::reliable::retry::{ObsolescencePolicy, RetryConfig, NANOS_PER_MILLI};
use vstd::prelude::*;

verus! {

/// How protocol messages are resent: first after two seconds, then two seconds
/// later each time, up to every thirty seconds, with up to half a second of jitter.
pub const DKG_RETRY_INITIAL_MS: u64 = 2_000;
pub const DKG_RETRY_STEP_MS: u64 = 2_000;
pub const DKG_RETRY_MAX_MS: u64 = 30_000;
pub const DKG_RETRY_JITTER_MS: u64 = 500;

/// The backoff of protocol messages.
pub open spec fn dkg_backoff() -> RetryConfig {
    RetryConfig {
        initial: (DKG_RETRY_INITIAL_MS * NANOS_PER_MILLI) as u64,
        step: (DKG_RETRY_STEP_MS * NANOS_PER_MILLI) as u64,
        max: (DKG_RETRY_MAX_MS * NANOS_PER_MILLI) as u64,
        max_jitter: (DKG_RETRY_JITTER_MS * NANOS_PER_MILLI) as u64,
    }
}

pub fn dkg_retry() -> (config: RetryConfig)
    ensures
        config == dkg_backoff(),
        config.advances(),
{
    RetryConfig::new(
        DKG_RETRY_INITIAL_MS * NANOS_PER_MILLI,
        DKG_RETRY_STEP_MS * NANOS_PER_MILLI,
        DKG_RETRY_MAX_MS * NANOS_PER_MILLI,
        DKG_RETRY_JITTER_MS * NANOS_PER_MILLI,
    )
}

/// Deliveries that one piece of evidence makes pointless.
#[derive(Clone, Copy, Debug, PartialEq, Eq, Structural)]
pub enum DeliveryAbortGroup {
    Vss,
    Extraction,
    CommitmentQc(PartyId),
    BveQc(PartyId),
    DoneQc,
}

impl DeliveryAbortGroup {
    /// Whether evidence for `group` ends the deliveries of this group: that of
    /// the group itself, and the end of secret sharing for certificates.
    pub open spec fn aborted_by(self, group: DeliveryAbortGroup) -> bool {
        self == group || (group is Vss && (self is CommitmentQc || self is BveQc))
    }

    pub fn is_aborted_by(self, group: Self) -> (aborted: bool)
        ensures
            aborted == self.aborted_by(group),
    {
        if self == group {
            return true;
        }
        match (self, group) {
            (DeliveryAbortGroup::CommitmentQc(_), DeliveryAbortGroup::Vss) => true,
            (DeliveryAbortGroup::BveQc(_), DeliveryAbortGroup::Vss) => true,
            _ => false,
        }
    }

    /// The group as a pair of numbers, in the order of groups.
    pub open spec fn parts(self) -> (u8, u32) {
        match self {
            DeliveryAbortGroup::Vss => (0, 0),
            DeliveryAbortGroup::Extraction => (1, 0),
            DeliveryAbortGroup::CommitmentQc(party) => (2, party.0),
            DeliveryAbortGroup::BveQc(party) => (3, party.0),
            DeliveryAbortGroup::DoneQc => (4, 0),
        }
    }

    fn ranked(self) -> (parts: (u8, u32))
        ensures
            parts == self.parts(),
    {
        match self {
            DeliveryAbortGroup::Vss => (0, 0),
            DeliveryAbortGroup::Extraction => (1, 0),
            DeliveryAbortGroup::CommitmentQc(party) => (2, party.0),
            DeliveryAbortGroup::BveQc(party) => (3, party.0),
            DeliveryAbortGroup::DoneQc => (4, 0),
        }
    }
}

impl Key for DeliveryAbortGroup {
    open spec fn before(self, other: Self) -> bool {
        self.parts().before(other.parts())
    }

    proof fn irreflexive(a: Self) {
        <(u8, u32) as Key>::irreflexive(a.parts());
    }

    proof fn transitive(a: Self, b: Self, c: Self) {
        <(u8, u32) as Key>::transitive(a.parts(), b.parts(), c.parts());
    }

    proof fn total(a: Self, b: Self) {
        <(u8, u32) as Key>::total(a.parts(), b.parts());
    }

    fn rank(&self, other: &Self) -> Rank {
        self.ranked().rank(&other.ranked())
    }

    fn duplicate(&self) -> Self {
        *self
    }
}

/// Deliveries end with evidence for their group.
pub struct DkgObsolescence;

impl ObsolescencePolicy for DkgObsolescence {
    type Scope = DeliveryAbortGroup;

    type Evidence = DeliveryAbortGroup;

    open spec fn obsoletes(scope: DeliveryAbortGroup, evidence: DeliveryAbortGroup) -> bool {
        scope.aborted_by(evidence)
    }

    fn obsolete(scope: &DeliveryAbortGroup, evidence: &DeliveryAbortGroup) -> (result: bool) {
        scope.is_aborted_by(*evidence)
    }
}

/// Whether the transport acknowledges messages with this policy. A retrieval
/// request is answered by its response instead, so that a lost response is asked
/// for again.
pub fn requires_transport_ack(policy: DkgDeliveryPolicy) -> (required: bool)
    ensures
        required == (policy == DkgDeliveryPolicy::Durable),
{
    policy == DkgDeliveryPolicy::Durable
}

/// The group of a message from `source` to `target`.
pub open spec fn payload_group(kind: DkgMessageKind, source: PartyId, target: PartyId) -> Option<
    DeliveryAbortGroup,
> {
    match kind {
        DkgMessageKind::PcProposal => Some(DeliveryAbortGroup::CommitmentQc(source)),
        DkgMessageKind::PcAck => Some(DeliveryAbortGroup::CommitmentQc(target)),
        DkgMessageKind::BveProposal => Some(DeliveryAbortGroup::BveQc(source)),
        DkgMessageKind::BveApprovalBatch => Some(DeliveryAbortGroup::Vss),
        DkgMessageKind::BveRetrievalRequest => Some(DeliveryAbortGroup::Extraction),
        DkgMessageKind::PcRetrievalRequest => Some(DeliveryAbortGroup::Extraction),
        DkgMessageKind::Done => Some(DeliveryAbortGroup::DoneQc),
        _ => None,
    }
}

/// One approval batch can cover several dealers, so only the enclosing phase can
/// safely abort the whole delivery.
pub fn delivery_abort_group_for_peer_payload(
    kind: DkgMessageKind,
    source: PartyId,
    target: PartyId,
) -> (group: Option<DeliveryAbortGroup>)
    ensures
        group == payload_group(kind, source, target),
{
    match kind {
        DkgMessageKind::PcProposal => Some(DeliveryAbortGroup::CommitmentQc(source)),
        DkgMessageKind::PcAck => Some(DeliveryAbortGroup::CommitmentQc(target)),
        DkgMessageKind::BveProposal => Some(DeliveryAbortGroup::BveQc(source)),
        DkgMessageKind::BveApprovalBatch => Some(DeliveryAbortGroup::Vss),
        DkgMessageKind::BveRetrievalRequest => Some(DeliveryAbortGroup::Extraction),
        DkgMessageKind::PcRetrievalRequest => Some(DeliveryAbortGroup::Extraction),
        DkgMessageKind::Done => Some(DeliveryAbortGroup::DoneQc),
        _ => None,
    }
}

/// The group that a chain call is evidence for.
pub open spec fn call_group(call: ChainCall) -> Option<DeliveryAbortGroup> {
    match call {
        ChainCall::PostPcQc(qc) => Some(DeliveryAbortGroup::CommitmentQc(qc.dealer)),
        ChainCall::PostBveQc(qc) => Some(DeliveryAbortGroup::BveQc(qc.dealer)),
        ChainCall::PostDkgResult(_) => Some(DeliveryAbortGroup::DoneQc),
        ChainCall::PostRegistration { .. } => None,
    }
}

pub fn delivery_abort_group_for_chain_call(call: &ChainCall) -> (group: Option<DeliveryAbortGroup>)
    ensures
        group == call_group(*call),
{
    match call {
        ChainCall::PostPcQc(qc) => Some(DeliveryAbortGroup::CommitmentQc(qc.dealer)),
        ChainCall::PostBveQc(qc) => Some(DeliveryAbortGroup::BveQc(qc.dealer)),
        ChainCall::PostDkgResult(_) => Some(DeliveryAbortGroup::DoneQc),
        ChainCall::PostRegistration { .. } => None,
    }
}

/// The group that a chain event is evidence for.
pub open spec fn event_group(event: ChainEvent) -> DeliveryAbortGroup {
    match event {
        ChainEvent::PcQc { qc, .. } => DeliveryAbortGroup::CommitmentQc(qc.dealer),
        ChainEvent::BveQcFinalized { qc, .. } => DeliveryAbortGroup::BveQc(qc.dealer),
        ChainEvent::DkgResultRecorded { .. } => DeliveryAbortGroup::DoneQc,
    }
}

pub fn delivery_abort_group_for_chain_event(event: &ChainEvent) -> (group: DeliveryAbortGroup)
    ensures
        group == event_group(*event),
{
    match event {
        ChainEvent::PcQc { qc, .. } => DeliveryAbortGroup::CommitmentQc(qc.dealer),
        ChainEvent::BveQcFinalized { qc, .. } => DeliveryAbortGroup::BveQc(qc.dealer),
        ChainEvent::DkgResultRecorded { .. } => DeliveryAbortGroup::DoneQc,
    }
}

/// A certificate on the chain ends the proposal that asked for it and the
/// acknowledgements of it, as does the end of secret sharing.
pub proof fn law_certificate_ends_its_deliveries(dealer: PartyId, peer: PartyId)
    ensures
        payload_group(DkgMessageKind::PcProposal, dealer, peer)->Some_0.aborted_by(
            DeliveryAbortGroup::CommitmentQc(dealer),
        ),
        payload_group(DkgMessageKind::PcAck, peer, dealer)->Some_0.aborted_by(
            DeliveryAbortGroup::CommitmentQc(dealer),
        ),
        payload_group(DkgMessageKind::BveProposal, dealer, peer)->Some_0.aborted_by(
            DeliveryAbortGroup::BveQc(dealer),
        ),
        payload_group(DkgMessageKind::PcProposal, dealer, peer)->Some_0.aborted_by(
            DeliveryAbortGroup::Vss,
        ),
        payload_group(DkgMessageKind::BveProposal, dealer, peer)->Some_0.aborted_by(
            DeliveryAbortGroup::Vss,
        ),
{
}

/// A certificate of one dealer ends no delivery for another dealer.
pub proof fn law_certificate_spares_other_dealers(
    kind: DkgMessageKind,
    dealer: PartyId,
    other: PartyId,
    peer: PartyId,
)
    requires
        dealer != other,
        kind == DkgMessageKind::PcProposal || kind == DkgMessageKind::BveProposal,
    ensures
        !payload_group(kind, dealer, peer)->Some_0.aborted_by(DeliveryAbortGroup::CommitmentQc(other)),
        !payload_group(kind, dealer, peer)->Some_0.aborted_by(DeliveryAbortGroup::BveQc(other)),
{
}

/// Whether a message of `kind` from `source` to `target` is no longer sent once
/// `evidence` is there.
pub open spec fn ends_delivery(
    evidence: DeliveryAbortGroup,
    kind: DkgMessageKind,
    source: PartyId,
    target: PartyId,
) -> bool {
    payload_group(kind, source, target) is Some && DkgObsolescence::obsoletes(
        payload_group(kind, source, target)->Some_0,
        evidence,
    )
}

/// A commitment certificate on the chain ends the commitment proposals of its
/// dealer and the acknowledgements to that dealer, an encryption certificate ends
/// the encryption proposals of its dealer, the recorded result ends the messages
/// that report it, and none of them ends anything else.
pub proof fn law_event_ends_exactly_what_it_settles(
    event: ChainEvent,
    kind: DkgMessageKind,
    source: PartyId,
    target: PartyId,
)
    ensures
        event matches ChainEvent::PcQc { qc, .. } ==> (ends_delivery(
            event_group(event),
            kind,
            source,
            target,
        ) <==> (kind == DkgMessageKind::PcProposal && source == qc.dealer) || (kind
            == DkgMessageKind::PcAck && target == qc.dealer)),
        event matches ChainEvent::BveQcFinalized { qc, .. } ==> (ends_delivery(
            event_group(event),
            kind,
            source,
            target,
        ) <==> kind == DkgMessageKind::BveProposal && source == qc.dealer),
        event is DkgResultRecorded ==> (ends_delivery(event_group(event), kind, source, target) <==> kind
            == DkgMessageKind::Done),
{
}

/// A certificate of a dealer ends the proposal that it certifies, to every peer,
/// and leaves the other kind of proposal of the same dealer alone.
pub proof fn law_certificate_settles_its_own_proposal(event: ChainEvent, peer: PartyId)
    ensures
        event matches ChainEvent::BveQcFinalized { qc, .. } ==> payload_group(
            DkgMessageKind::BveProposal,
            qc.dealer,
            peer,
        )->Some_0.aborted_by(event_group(event)) && !payload_group(
            DkgMessageKind::PcProposal,
            qc.dealer,
            peer,
        )->Some_0.aborted_by(event_group(event)),
        event matches ChainEvent::PcQc { qc, .. } ==> payload_group(
            DkgMessageKind::PcProposal,
            qc.dealer,
            peer,
        )->Some_0.aborted_by(event_group(event)) && !payload_group(
            DkgMessageKind::BveProposal,
            qc.dealer,
            peer,
        )->Some_0.aborted_by(event_group(event)),
        event is DkgResultRecorded ==> forall|source: PartyId| #[trigger]
            payload_group(DkgMessageKind::Done, source, peer)->Some_0.aborted_by(event_group(event)),
{
}

/// A call that posts a certificate or the result ends what the certificate or the
/// result on the chain would end; a registration ends nothing.
pub proof fn law_call_ends_exactly_what_it_settles(
    call: ChainCall,
    kind: DkgMessageKind,
    source: PartyId,
    target: PartyId,
)
    ensures
        call matches ChainCall::PostPcQc(qc) ==> call_group(call) is Some && (ends_delivery(
            call_group(call)->Some_0,
            kind,
            source,
            target,
        ) <==> (kind == DkgMessageKind::PcProposal && source == qc.dealer) || (kind
            == DkgMessageKind::PcAck && target == qc.dealer)),
        call matches ChainCall::PostBveQc(qc) ==> call_group(call) is Some && (ends_delivery(
            call_group(call)->Some_0,
            kind,
            source,
            target,
        ) <==> kind == DkgMessageKind::BveProposal && source == qc.dealer),
        call is PostDkgResult ==> call_group(call) is Some && (ends_delivery(
            call_group(call)->Some_0,
            kind,
            source,
            target,
        ) <==> kind == DkgMessageKind::Done),
        call is PostRegistration <==> call_group(call) is None,
{
}

/// The end of secret sharing ends proposals, acknowledgements and approvals; the
/// end of extraction ends retrieval requests.
pub proof fn law_phase_ends_its_messages(kind: DkgMessageKind, source: PartyId, target: PartyId)
    ensures
        ends_delivery(DeliveryAbortGroup::Vss, kind, source, target) <==> kind
            == DkgMessageKind::PcProposal || kind == DkgMessageKind::PcAck || kind
            == DkgMessageKind::BveProposal || kind == DkgMessageKind::BveApprovalBatch,
        ends_delivery(DeliveryAbortGroup::Extraction, kind, source, target) <==> kind
            == DkgMessageKind::BveRetrievalRequest || kind == DkgMessageKind::PcRetrievalRequest,
{
}

/// Whatever settles one encryption or commitment does not settle a message that
/// answers, opens or converts: those are sent until they are acknowledged.
pub proof fn law_later_messages_have_no_end(
    evidence: DeliveryAbortGroup,
    kind: DkgMessageKind,
    source: PartyId,
    target: PartyId,
)
    requires
        kind == DkgMessageKind::Ladder || kind == DkgMessageKind::LowerConversion || kind
            == DkgMessageKind::OpenPower || kind == DkgMessageKind::BveRetrievalResponse || kind
            == DkgMessageKind::PcRetrievalResponse,
    ensures
        !ends_delivery(evidence, kind, source, target),
{
}

/// A protocol message is repeated two seconds after it was sent, then each time
/// two seconds later than the time before, but never more than thirty seconds
/// later, and at most half a second of jitter is added.
pub proof fn law_protocol_backoff_is_linear(repeats: u64)
    requires
        1 <= repeats <= 1_000_000,
    ensures
        dkg_backoff().initial == 2_000_000_000,
        repeats < 15 ==> dkg_backoff().next_delay((repeats * 2_000_000_000) as u64) == (repeats + 1)
            * 2_000_000_000,
        repeats >= 15 ==> dkg_backoff().next_delay((repeats * 2_000_000_000) as u64)
            == 30_000_000_000,
        dkg_backoff().max_jitter == 500_000_000,
{
}

} // verus!
