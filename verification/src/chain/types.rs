//! Chain calls, chain events, and their contract representation.

use crate::dkg::ids::{Address, PartyId, RecordId};
use crate::reliable::message::same_key;
use vstd::prelude::*;

verus! {

pub const BLS_G2_SERIALIZED_BYTES: usize = 192;

/// A party's signature over a quorum certificate.
#[derive(Clone, Copy, Debug)]
pub struct QcSignature {
    pub signer: PartyId,
    pub signature: [u8; 64],
}

/// A certified polynomial commitment.
#[derive(Debug)]
pub struct PcQc {
    pub dealer: PartyId,
    pub digest: [u8; 32],
    pub signatures: Vec<QcSignature>,
}

/// A certified encryption of shares.
#[derive(Debug)]
pub struct BveQc {
    pub dealer: PartyId,
    pub digest: [u8; 32],
    pub commitment_digest: [u8; 32],
    pub signatures: Vec<QcSignature>,
}

/// A certified session result.
#[derive(Debug)]
pub struct DkgDoneQc {
    pub epoch: u64,
    pub session_id: [u8; 32],
    pub g2x: [u8; 192],
    pub signatures: Vec<QcSignature>,
}

/// A party's public keys for one epoch.
#[derive(Clone, Copy, Debug)]
pub struct RegistrationCall {
    pub address: Address,
    pub qc_verifier: Address,
    pub receiver_public_key: [u8; 33],
    pub receiver_proof_nonce: u64,
    pub receiver_proof: [u8; 64],
}

impl RegistrationCall {
    /// Whether two registrations are the same.
    pub fn same(&self, other: &Self) -> (same: bool)
        ensures
            same == (*self == *other),
    {
        same_key(&self.address, &other.address) && same_key(&self.qc_verifier, &other.qc_verifier)
            && same_key(&self.receiver_public_key, &other.receiver_public_key)
            && self.receiver_proof_nonce == other.receiver_proof_nonce && same_key(
            &self.receiver_proof,
            &other.receiver_proof,
        )
    }
}

/// A transaction that the protocol asks for.
#[derive(Debug)]
pub enum ChainCall {
    PostPcQc(PcQc),
    PostBveQc(BveQc),
    PostDkgResult(DkgDoneQc),
    PostRegistration { registration: RegistrationCall, dkg: Address },
}

/// A finalized contract record.
#[allow(inconsistent_fields)]
#[derive(Debug)]
pub enum ChainEvent {
    PcQc { record_id: RecordId, qc: PcQc },
    BveQcFinalized { record_id: RecordId, qc: BveQc },
    DkgResultRecorded { record_id: RecordId, qc: DkgDoneQc },
}

#[verifier::ext_equal]
pub struct PcQcView {
    pub dealer: PartyId,
    pub digest: [u8; 32],
    pub signatures: Seq<QcSignature>,
}

#[verifier::ext_equal]
pub struct BveQcView {
    pub dealer: PartyId,
    pub digest: [u8; 32],
    pub commitment_digest: [u8; 32],
    pub signatures: Seq<QcSignature>,
}

#[verifier::ext_equal]
pub struct DoneQcView {
    pub epoch: u64,
    pub session_id: [u8; 32],
    pub g2x: [u8; 192],
    pub signatures: Seq<QcSignature>,
}

#[allow(inconsistent_fields)]
#[verifier::ext_equal]
pub enum ChainEventView {
    PcQc { record_id: RecordId, qc: PcQcView },
    BveQcFinalized { record_id: RecordId, qc: BveQcView },
    DkgResultRecorded { record_id: RecordId, qc: DoneQcView },
}

impl View for PcQc {
    type V = PcQcView;

    open spec fn view(&self) -> PcQcView {
        PcQcView { dealer: self.dealer, digest: self.digest, signatures: self.signatures@ }
    }
}

impl View for BveQc {
    type V = BveQcView;

    open spec fn view(&self) -> BveQcView {
        BveQcView {
            dealer: self.dealer,
            digest: self.digest,
            commitment_digest: self.commitment_digest,
            signatures: self.signatures@,
        }
    }
}

impl View for DkgDoneQc {
    type V = DoneQcView;

    open spec fn view(&self) -> DoneQcView {
        DoneQcView {
            epoch: self.epoch,
            session_id: self.session_id,
            g2x: self.g2x,
            signatures: self.signatures@,
        }
    }
}

impl View for ChainEvent {
    type V = ChainEventView;

    open spec fn view(&self) -> ChainEventView {
        match self {
            ChainEvent::PcQc { record_id, qc } => ChainEventView::PcQc { record_id: *record_id, qc: qc@ },
            ChainEvent::BveQcFinalized { record_id, qc } => ChainEventView::BveQcFinalized {
                record_id: *record_id,
                qc: qc@,
            },
            ChainEvent::DkgResultRecorded { record_id, qc } => ChainEventView::DkgResultRecorded {
                record_id: *record_id,
                qc: qc@,
            },
        }
    }
}

impl ChainEventView {
    /// The number of the contract record.
    pub open spec fn id(self) -> RecordId {
        match self {
            ChainEventView::PcQc { record_id, .. } => record_id,
            ChainEventView::BveQcFinalized { record_id, .. } => record_id,
            ChainEventView::DkgResultRecorded { record_id, .. } => record_id,
        }
    }
}

/// Copies signatures.
pub fn copy_signatures(signatures: &Vec<QcSignature>) -> (copy: Vec<QcSignature>)
    ensures
        copy@ == signatures@,
{
    let mut copy: Vec<QcSignature> = Vec::new();
    let mut i: usize = 0;
    while i < signatures.len()
        invariant
            i <= signatures@.len(),
            copy@ == signatures@.take(i as int),
        decreases signatures@.len() - i,
    {
        copy.push(signatures[i]);
        assert(signatures@.take(i + 1) =~= signatures@.take(i as int).push(signatures@[i as int]));
        i += 1;
    }
    assert(signatures@.take(signatures@.len() as int) =~= signatures@);
    copy
}

/// Whether two lists of signatures are the same.
pub fn same_signatures(left: &Vec<QcSignature>, right: &Vec<QcSignature>) -> (same: bool)
    ensures
        same == (left@ == right@),
{
    if left.len() != right.len() {
        return false;
    }
    let mut i: usize = 0;
    while i < left.len()
        invariant
            i <= left@.len(),
            left@.len() == right@.len(),
            forall|j: int| 0 <= j < i ==> #[trigger] left@[j] == right@[j],
        decreases left@.len() - i,
    {
        if left[i].signer != right[i].signer || !same_key(&left[i].signature, &right[i].signature) {
            assert(left@[i as int] != right@[i as int]);
            return false;
        }
        i += 1;
    }
    assert(left@ =~= right@);
    true
}

impl ChainEvent {
    pub fn record_id(&self) -> (id: RecordId)
        ensures
            id == self@.id(),
    {
        match self {
            ChainEvent::PcQc { record_id, .. } => *record_id,
            ChainEvent::BveQcFinalized { record_id, .. } => *record_id,
            ChainEvent::DkgResultRecorded { record_id, .. } => *record_id,
        }
    }

    /// Whether two events are the same.
    pub fn same(&self, other: &Self) -> (same: bool)
        ensures
            same == (self@ == other@),
    {
        match (self, other) {
            (ChainEvent::PcQc { record_id: a, qc: x }, ChainEvent::PcQc { record_id: b, qc: y }) => {
                *a == *b && x.dealer == y.dealer && same_key(&x.digest, &y.digest) && same_signatures(
                    &x.signatures,
                    &y.signatures,
                )
            },
            (
                ChainEvent::BveQcFinalized { record_id: a, qc: x },
                ChainEvent::BveQcFinalized { record_id: b, qc: y },
            ) => {
                *a == *b && x.dealer == y.dealer && same_key(&x.digest, &y.digest) && same_key(
                    &x.commitment_digest,
                    &y.commitment_digest,
                ) && same_signatures(&x.signatures, &y.signatures)
            },
            (
                ChainEvent::DkgResultRecorded { record_id: a, qc: x },
                ChainEvent::DkgResultRecorded { record_id: b, qc: y },
            ) => {
                *a == *b && x.epoch == y.epoch && same_key(&x.session_id, &y.session_id) && same_key(
                    &x.g2x,
                    &y.g2x,
                ) && same_signatures(&x.signatures, &y.signatures)
            },
            _ => false,
        }
    }

    pub fn duplicate(&self) -> (copy: Self)
        ensures
            copy@ == self@,
    {
        match self {
            ChainEvent::PcQc { record_id, qc } => ChainEvent::PcQc {
                record_id: *record_id,
                qc: PcQc {
                    dealer: qc.dealer,
                    digest: qc.digest,
                    signatures: copy_signatures(&qc.signatures),
                },
            },
            ChainEvent::BveQcFinalized { record_id, qc } => ChainEvent::BveQcFinalized {
                record_id: *record_id,
                qc: BveQc {
                    dealer: qc.dealer,
                    digest: qc.digest,
                    commitment_digest: qc.commitment_digest,
                    signatures: copy_signatures(&qc.signatures),
                },
            },
            ChainEvent::DkgResultRecorded { record_id, qc } => ChainEvent::DkgResultRecorded {
                record_id: *record_id,
                qc: DkgDoneQc {
                    epoch: qc.epoch,
                    session_id: qc.session_id,
                    g2x: qc.g2x,
                    signatures: copy_signatures(&qc.signatures),
                },
            },
        }
    }
}

/// The label of a call in logs.
pub fn chain_call_kind(call: &ChainCall) -> (kind: &'static str)
    ensures
        kind@ == (match call {
            ChainCall::PostPcQc(_) => "post_pc_qc"@,
            ChainCall::PostBveQc(_) => "post_bve_qc"@,
            ChainCall::PostDkgResult(_) => "post_dkg_result"@,
            ChainCall::PostRegistration { .. } => "post_registration"@,
        }),
{
    match call {
        ChainCall::PostPcQc(_) => "post_pc_qc",
        ChainCall::PostBveQc(_) => "post_bve_qc",
        ChainCall::PostDkgResult(_) => "post_dkg_result",
        ChainCall::PostRegistration { .. } => "post_registration",
    }
}

/// The label of an event in logs.
pub fn chain_event_kind(event: &ChainEvent) -> (kind: &'static str)
    ensures
        kind@ == (match event {
            ChainEvent::PcQc { .. } => "pc_qc"@,
            ChainEvent::BveQcFinalized { .. } => "bve_qc_finalized"@,
            ChainEvent::DkgResultRecorded { .. } => "dkg_result_recorded"@,
        }),
{
    match event {
        ChainEvent::PcQc { .. } => "pc_qc",
        ChainEvent::BveQcFinalized { .. } => "bve_qc_finalized",
        ChainEvent::DkgResultRecorded { .. } => "dkg_result_recorded",
    }
}

/// An event and its view are of one sort, and the view shows the record, the dealer,
/// the digests and the signatures of the event.
pub proof fn law_event_view_shows_every_part(event: ChainEvent)
    ensures
        event matches ChainEvent::PcQc { record_id, qc } ==> (event@ matches ChainEventView::PcQc {
            record_id: id,
            qc: view,
        } && id == record_id && view.dealer == qc.dealer && view.digest == qc.digest && view.signatures
            == qc.signatures@ && event@.id() == record_id),
        event matches ChainEvent::BveQcFinalized { record_id, qc } ==> (
        event@ matches ChainEventView::BveQcFinalized { record_id: id, qc: view } && id == record_id
            && view.dealer == qc.dealer && view.digest == qc.digest && view.commitment_digest
            == qc.commitment_digest && view.signatures == qc.signatures@ && event@.id() == record_id),
        event matches ChainEvent::DkgResultRecorded { record_id, qc } ==> (
        event@ matches ChainEventView::DkgResultRecorded { record_id: id, qc: view } && id == record_id
            && view.epoch == qc.epoch && view.session_id == qc.session_id && view.g2x == qc.g2x
            && view.signatures == qc.signatures@ && event@.id() == record_id),
{
}

} // verus!
