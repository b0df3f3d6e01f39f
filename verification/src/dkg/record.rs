//! Records of the recovery log.

use crate::dkg::ids::{DkgDeliveryPolicy, DkgMessageKind, PartyId};
use crate::dkg::keys::zeroize_bytes;
use crate::octets::{append_bytes, copy_range};
use crate::order::ascending;
use crate::ordered_map::{lemma_set_size, lemma_sorted_set_of_ascending, sort_set, sorted_set};
use crate::rlp::{
    decode_u32_and_string, decode_u32s_and_string, encode_u32_and_string, encode_u32s_and_string,
    rlp_list, rlp_string_item, rlp_u32_item, u32_and_string, u32_items_bytes, u32s_and_string, RlpError,
};
use crate::wal::{models, WalRecord};
use vstd::prelude::*;

verus! {

pub const ENGINE_SEED_BYTES: usize = 32;

/// The secret seed of one session's engine.
pub struct EngineSeed {
    bytes: [u8; 32],
}

impl EngineSeed {
    pub closed spec fn spec_bytes(self) -> [u8; 32] {
        self.bytes
    }

    pub fn new(bytes: [u8; 32]) -> (seed: Self)
        ensures
            seed.spec_bytes() == bytes,
    {
        EngineSeed { bytes }
    }

    pub fn duplicate(&self) -> (copy: Self)
        ensures
            copy == *self,
    {
        EngineSeed { bytes: self.bytes }
    }

    pub fn to_bytes(&self) -> (bytes: [u8; 32])
        ensures
            bytes == self.spec_bytes(),
    {
        self.bytes
    }
}

impl Drop for EngineSeed {
    /// Overwrites the seed with zero.
    fn drop(&mut self)
        opens_invariants none
        no_unwind
    {
        zeroize_bytes(&mut self.bytes);
    }
}

/// A record that reproduces a node's protocol state after a restart.
pub enum RecoveryRecord {
    Seed(EngineSeed),
    Registration(Vec<u8>),
    Outgoing { recipients: Vec<PartyId>, payload: Vec<u8> },
    Incoming { source: PartyId, payload: Vec<u8> },
}

#[verifier::ext_equal]
pub enum RecordView {
    Seed(Seq<u8>),
    Registration(Seq<u8>),
    Outgoing { recipients: Seq<PartyId>, payload: Seq<u8> },
    Incoming { source: PartyId, payload: Seq<u8> },
}

impl View for RecoveryRecord {
    type V = RecordView;

    open spec fn view(&self) -> RecordView {
        match self {
            RecoveryRecord::Seed(seed) => RecordView::Seed(seed.spec_bytes()@),
            RecoveryRecord::Registration(bytes) => RecordView::Registration(bytes@),
            RecoveryRecord::Outgoing { recipients, payload } => RecordView::Outgoing {
                recipients: recipients@,
                payload: payload@,
            },
            RecoveryRecord::Incoming { source, payload } => RecordView::Incoming {
                source: *source,
                payload: payload@,
            },
        }
    }
}

/// The part of a record that is malformed.
#[derive(Clone, Copy, Debug, PartialEq, Eq, Structural)]
pub enum RecordPart {
    Empty,
    EngineSeed,
    Registration,
    OutgoingMessage,
    Completion,
}

/// Why a record has no payload, or a payload is no record.
#[derive(Clone, Copy, Debug, PartialEq, Eq, Structural)]
pub enum WalCodecError {
    Invalid(RecordPart),
    UnknownRecordKind(u8),
    Rlp(RlpError),
    Message(DurableMessageError),
}

/// Why the message of a record may not be in a recovery log.
#[derive(Clone, Copy, Debug, PartialEq, Eq, Structural)]
pub enum DurableMessageError {
    /// The protocol cannot read it.
    Decode,
    Ephemeral(DkgMessageKind),
}

/// Why the message of a record is refused, if it is: the protocol has to read it,
/// as a message of the kind `kind`, and that kind has to be durable.
pub open spec fn message_refusal(record: RecordView, kind: Option<DkgMessageKind>) -> Option<
    DurableMessageError,
> {
    if record is Outgoing || record is Incoming {
        match kind {
            None => Some(DurableMessageError::Decode),
            Some(kind) => if kind.policy() == DkgDeliveryPolicy::Durable {
                None
            } else {
                Some(DurableMessageError::Ephemeral(kind))
            },
        }
    } else {
        None
    }
}

/// Whether record `i` is the first one whose message is refused.
pub open spec fn is_first_refused(
    records: Seq<RecordView>,
    kinds: Seq<Option<DkgMessageKind>>,
    i: int,
) -> bool {
    &&& 0 <= i < records.len()
    &&& message_refusal(records[i], kinds[i]) is Some
    &&& forall|j: int| 0 <= j < i ==> message_refusal(#[trigger] records[j], kinds[j]) is None
}

/// Admits the records of a log, given the kinds that the protocol reads their
/// messages as. A log with a message that is malformed or not durable is refused:
/// ephemeral traffic cannot enter recovery state.
pub fn admit_records(records: &Vec<RecoveryRecord>, kinds: &Vec<Option<DkgMessageKind>>) -> (result:
    Result<(), WalCodecError>)
    requires
        records@.len() == kinds@.len(),
    ensures
        result is Ok <==> forall|i: int|
            0 <= i < records@.len() ==> message_refusal(#[trigger] models(records@)[i], kinds@[i]) is None,
        result matches Err(error) ==> exists|i: int| #[trigger]
            is_first_refused(models(records@), kinds@, i) && error == WalCodecError::Message(
                message_refusal(models(records@)[i], kinds@[i])->Some_0,
            ),
{
    let ghost views = models(records@);
    let mut i: usize = 0;
    while i < records.len()
        invariant
            records@.len() == kinds@.len(),
            views == models(records@),
            i <= records@.len(),
            forall|j: int| 0 <= j < i ==> message_refusal(#[trigger] views[j], kinds@[j]) is None,
        decreases records@.len() - i,
    {
        assert(views[i as int] == records@[i as int]@);
        let holds_message: bool = match &records[i] {
            RecoveryRecord::Outgoing { .. } => true,
            RecoveryRecord::Incoming { .. } => true,
            RecoveryRecord::Seed(_) => false,
            RecoveryRecord::Registration(_) => false,
        };
        if holds_message {
            let refusal: Option<DurableMessageError> = match kinds[i] {
                None => Some(DurableMessageError::Decode),
                Some(kind) => if kind.delivery_policy() == DkgDeliveryPolicy::Durable {
                    None
                } else {
                    Some(DurableMessageError::Ephemeral(kind))
                },
            };
            match refusal {
                Some(error) => {
                    assert(is_first_refused(views, kinds@, i as int));
                    return Err(WalCodecError::Message(error));
                },
                None => {},
            }
        }
        i += 1;
    }
    Ok(())
}

/// The numbers of `parties`.
pub open spec fn party_numbers(parties: Seq<PartyId>) -> Seq<u32> {
    parties.map_values(|party: PartyId| party.0)
}

/// The parties with `numbers`.
pub open spec fn numbered_parties(numbers: Seq<u32>) -> Seq<PartyId> {
    numbers.map_values(|number: u32| PartyId(number))
}

impl RecordView {
    /// Whether the record can be read back from its payload.
    pub open spec fn canonical(self) -> bool {
        match self {
            RecordView::Seed(bytes) => bytes.len() == ENGINE_SEED_BYTES,
            RecordView::Registration(bytes) => bytes.len() > 0,
            RecordView::Outgoing { recipients, .. } => ascending(recipients),
            RecordView::Incoming { .. } => true,
        }
    }
}

fn numbers_of(parties: &Vec<PartyId>) -> (numbers: Vec<u32>)
    ensures
        numbers@ == party_numbers(parties@),
{
    let mut numbers: Vec<u32> = Vec::new();
    let mut i: usize = 0;
    while i < parties.len()
        invariant
            i <= parties@.len(),
            numbers@ == party_numbers(parties@).take(i as int),
        decreases parties@.len() - i,
    {
        numbers.push(parties[i].0);
        assert(party_numbers(parties@).take(i + 1) =~= party_numbers(parties@).take(i as int).push(
            parties@[i as int].0,
        ));
        i += 1;
    }
    assert(numbers@ =~= party_numbers(parties@));
    numbers
}

fn parties_of(numbers: &Vec<u32>) -> (parties: Vec<PartyId>)
    ensures
        parties@ == numbered_parties(numbers@),
{
    let mut parties: Vec<PartyId> = Vec::new();
    let mut i: usize = 0;
    while i < numbers.len()
        invariant
            i <= numbers@.len(),
            parties@ == numbered_parties(numbers@).take(i as int),
        decreases numbers@.len() - i,
    {
        parties.push(PartyId(numbers[i]));
        assert(numbered_parties(numbers@).take(i + 1) =~= numbered_parties(numbers@).take(i as int).push(
            PartyId(numbers@[i as int]),
        ));
        i += 1;
    }
    assert(parties@ =~= numbered_parties(numbers@));
    parties
}

/// What the body of an outgoing record stands for: its recipients are distinct.
pub open spec fn decoded_outgoing(body: Seq<u8>) -> Result<RecordView, WalCodecError> {
    match u32s_and_string(body) {
        Err(error) => Err(WalCodecError::Rlp(error)),
        Ok((numbers, payload)) => if numbered_parties(numbers).no_duplicates() {
            Ok(RecordView::Outgoing { recipients: sorted_set(numbered_parties(numbers)), payload })
        } else {
            Err(WalCodecError::Invalid(RecordPart::OutgoingMessage))
        },
    }
}

/// What the body of an incoming record stands for.
pub open spec fn decoded_incoming(body: Seq<u8>) -> Result<RecordView, WalCodecError> {
    match u32_and_string(body) {
        Err(error) => Err(WalCodecError::Rlp(error)),
        Ok((number, payload)) => Ok(RecordView::Incoming { source: PartyId(number), payload }),
    }
}

fn with_kind(kind: u8, body: &Vec<u8>) -> (payload: Vec<u8>)
    ensures
        payload@ == seq![kind] + body@,
        payload@.len() > 0,
        payload@[0] == kind,
        payload@.skip(1) == body@,
{
    let mut payload: Vec<u8> = Vec::new();
    payload.push(kind);
    append_bytes(&mut payload, body);
    assert(payload@ =~= seq![kind] + body@);
    assert(payload@.skip(1) =~= body@);
    payload
}

impl WalRecord for RecoveryRecord {
    type Error = WalCodecError;

    /// The ASCII letters `DKGW`.
    open spec fn magic() -> Seq<u8> {
        seq![0x44u8, 0x4bu8, 0x47u8, 0x57u8]
    }

    proof fn magic_len() {
    }

    /// A kind byte, then the seed, the registration, or an RLP list.
    open spec fn encoded(record: RecordView) -> Result<Seq<u8>, WalCodecError> {
        match record {
            RecordView::Seed(bytes) => Ok(seq![1u8] + bytes),
            RecordView::Registration(bytes) => if bytes.len() > 0 {
                Ok(seq![2u8] + bytes)
            } else {
                Err(WalCodecError::Invalid(RecordPart::Registration))
            },
            RecordView::Outgoing { recipients, payload } => Ok(
                seq![3u8] + rlp_list(
                    rlp_list(u32_items_bytes(party_numbers(recipients))) + rlp_string_item(payload),
                ),
            ),
            RecordView::Incoming { source, payload } => Ok(
                seq![4u8] + rlp_list(rlp_u32_item(source.0) + rlp_string_item(payload)),
            ),
        }
    }

    open spec fn decoded(payload: Seq<u8>) -> Result<RecordView, WalCodecError> {
        if payload.len() == 0 {
            Err(WalCodecError::Invalid(RecordPart::Empty))
        } else {
            let body = payload.skip(1);
            if payload[0] == 1 {
                if body.len() == ENGINE_SEED_BYTES {
                    Ok(RecordView::Seed(body))
                } else {
                    Err(WalCodecError::Invalid(RecordPart::EngineSeed))
                }
            } else if payload[0] == 2 {
                if body.len() > 0 {
                    Ok(RecordView::Registration(body))
                } else {
                    Err(WalCodecError::Invalid(RecordPart::Registration))
                }
            } else if payload[0] == 3 {
                decoded_outgoing(body)
            } else if payload[0] == 4 {
                decoded_incoming(body)
            } else {
                Err(WalCodecError::UnknownRecordKind(payload[0]))
            }
        }
    }

    fn magic_bytes() -> [u8; 4] {
        let magic: [u8; 4] = [0x44, 0x4b, 0x47, 0x57];
        assert(magic@ =~= Self::magic());
        magic
    }

    /// A canonical record is read back from its payload.
    fn encode(&self) -> (result: Result<Vec<u8>, WalCodecError>)
        ensures
            self@.canonical() ==> result is Ok && Self::decoded(result->Ok_0@) == Ok::<
                RecordView,
                WalCodecError,
            >(self@),
    {
        match self {
            RecoveryRecord::Seed(seed) => {
                let bytes: [u8; 32] = seed.to_bytes();
                let mut body: Vec<u8> = Vec::new();
                body.extend_from_slice(bytes.as_slice());
                assert(body@ =~= bytes@);
                Ok(with_kind(1, &body))
            },
            RecoveryRecord::Registration(bytes) => {
                if bytes.len() == 0 {
                    return Err(WalCodecError::Invalid(RecordPart::Registration));
                }
                Ok(with_kind(2, bytes))
            },
            RecoveryRecord::Outgoing { recipients, payload } => {
                let body: Vec<u8> = encode_u32s_and_string(&numbers_of(recipients), payload);
                proof {
                    assert(numbered_parties(party_numbers(recipients@)) =~= recipients@);
                    if self@.canonical() {
                        lemma_sorted_set_of_ascending(recipients@);
                    }
                }
                Ok(with_kind(3, &body))
            },
            RecoveryRecord::Incoming { source, payload } => {
                let body: Vec<u8> = encode_u32_and_string(source.0, payload);
                Ok(with_kind(4, &body))
            },
        }
    }

    fn decode(payload: &Vec<u8>) -> Result<Self, WalCodecError> {
        if payload.len() == 0 {
            return Err(WalCodecError::Invalid(RecordPart::Empty));
        }
        let body: Vec<u8> = copy_range(payload, 1, payload.len());
        assert(body@ =~= payload@.skip(1));
        let kind: u8 = payload[0];
        if kind == 1 {
            if body.len() != ENGINE_SEED_BYTES {
                return Err(WalCodecError::Invalid(RecordPart::EngineSeed));
            }
            let seed: [u8; 32] = to_array32(&body);
            Ok(RecoveryRecord::Seed(EngineSeed::new(seed)))
        } else if kind == 2 {
            if body.len() == 0 {
                return Err(WalCodecError::Invalid(RecordPart::Registration));
            }
            Ok(RecoveryRecord::Registration(body))
        } else if kind == 3 {
            match decode_u32s_and_string(&body) {
                Err(error) => Err(WalCodecError::Rlp(error)),
                Ok((numbers, message)) => {
                    let parties: Vec<PartyId> = parties_of(&numbers);
                    let recipients: Vec<PartyId> = sort_set(&parties);
                    proof {
                        lemma_set_size(parties@, recipients@);
                    }
                    if recipients.len() != parties.len() {
                        return Err(WalCodecError::Invalid(RecordPart::OutgoingMessage));
                    }
                    Ok(RecoveryRecord::Outgoing { recipients, payload: message })
                },
            }
        } else if kind == 4 {
            match decode_u32_and_string(&body) {
                Err(error) => Err(WalCodecError::Rlp(error)),
                Ok((number, message)) => Ok(
                    RecoveryRecord::Incoming { source: PartyId(number), payload: message },
                ),
            }
        } else {
            Err(WalCodecError::UnknownRecordKind(kind))
        }
    }
}

/// The 32 bytes as an array.
pub fn to_array32(bytes: &Vec<u8>) -> (array: [u8; 32])
    requires
        bytes@.len() == 32,
    ensures
        array@ == bytes@,
{
    let mut array: [u8; 32] = [0; 32];
    let mut i: usize = 0;
    while i < 32
        invariant
            i <= 32,
            bytes@.len() == 32,
            forall|j: int| 0 <= j < i ==> array@[j] == bytes@[j],
        decreases 32 - i,
    {
        array[i] = bytes[i];
        i += 1;
    }
    assert(array@ =~= bytes@);
    array
}

/// A record starts with the number of its sort: a seed with one, a registration with
/// two, an outgoing message with three, and an incoming one with four.
pub proof fn law_record_starts_with_its_sort(record: RecordView)
    requires
        RecoveryRecord::encoded(record) is Ok,
    ensures
        ({
            let bytes = RecoveryRecord::encoded(record)->Ok_0;
            &&& bytes.len() > 0
            &&& record is Seed ==> bytes[0] == 1 && bytes.skip(1) == record->Seed_0
            &&& record is Registration ==> bytes[0] == 2 && bytes.skip(1) == record->Registration_0
            &&& record is Outgoing ==> bytes[0] == 3
            &&& record is Incoming ==> bytes[0] == 4
        }),
{
    let bytes = RecoveryRecord::encoded(record)->Ok_0;
    match record {
        RecordView::Seed(body) => {
            assert(bytes.skip(1) =~= body);
        },
        RecordView::Registration(body) => {
            assert(bytes.skip(1) =~= body);
        },
        _ => {},
    }
}

/// Bytes are read as the sort of record that they start with, or not at all; a seed
/// has its exact length, and a registration is not empty.
pub proof fn law_record_is_read_by_its_sort(payload: Seq<u8>)
    ensures
        payload.len() == 0 ==> RecoveryRecord::decoded(payload) is Err,
        RecoveryRecord::decoded(payload) matches Ok(record) ==> {
            &&& payload[0] == 1 <==> record is Seed
            &&& payload[0] == 2 <==> record is Registration
            &&& payload[0] == 3 <==> record is Outgoing
            &&& payload[0] == 4 <==> record is Incoming
            &&& record matches RecordView::Seed(bytes) ==> bytes.len() == 32 && bytes == payload.skip(1)
            &&& record matches RecordView::Registration(bytes) ==> bytes.len() > 0 && bytes
                == payload.skip(1)
            &&& record.canonical()
        },
{
    if RecoveryRecord::decoded(payload) is Ok && payload[0] == 3 {
        let numbers = u32s_and_string(payload.skip(1))->Ok_0.0;
        crate::ordered_map::lemma_sorted_set(numbered_parties(numbers));
    }
}

/// An outgoing record whose recipients repeat is refused, and any other one is read
/// with its recipients in ascending order.
pub proof fn law_repeated_recipient_is_refused(body: Seq<u8>, party: PartyId)
    requires
        u32s_and_string(body) is Ok,
    ensures
        decoded_outgoing(body) is Ok <==> u32s_and_string(body)->Ok_0.0.no_duplicates(),
        decoded_outgoing(body) matches Ok(RecordView::Outgoing { recipients, payload }) ==> {
            &&& payload == u32s_and_string(body)->Ok_0.1
            &&& recipients.contains(party) <==> u32s_and_string(body)->Ok_0.0.contains(party.0)
            &&& ascending(recipients)
        },
{
    let numbers = u32s_and_string(body)->Ok_0.0;
    let parties = numbered_parties(numbers);
    crate::ordered_map::lemma_sorted_set(parties);
    assert(parties.no_duplicates() <==> numbers.no_duplicates()) by {
        if numbers.no_duplicates() {
            assert forall|i: int, j: int| 0 <= i < parties.len() && 0 <= j < parties.len() && i != j implies parties[i]
                != parties[j] by {
                assert(numbers[i] != numbers[j]);
            }
        }
        if parties.no_duplicates() {
            assert forall|i: int, j: int| 0 <= i < numbers.len() && 0 <= j < numbers.len() && i != j implies numbers[i]
                != numbers[j] by {
                assert(parties[i] != parties[j]);
            }
        }
    }
    assert(sorted_set(parties).to_set().contains(party) <==> parties.to_set().contains(party));
    if parties.contains(party) {
        let i = choose|i: int| 0 <= i < parties.len() && parties[i] == party;
        assert(numbers[i] == party.0);
    }
    if numbers.contains(party.0) {
        let i = choose|i: int| 0 <= i < numbers.len() && numbers[i] == party.0;
        assert(parties[i] == party);
    }
}

/// Only a message can be refused, and it is refused exactly where it cannot be read
/// or is a retrieval message.
pub proof fn law_log_holds_durable_messages(record: RecordView, kind: Option<DkgMessageKind>)
    ensures
        message_refusal(record, kind) is Some <==> (record is Outgoing || record is Incoming) && (
        kind is None || kind == Some(DkgMessageKind::BveRetrievalRequest) || kind == Some(
            DkgMessageKind::BveRetrievalResponse,
        ) || kind == Some(DkgMessageKind::PcRetrievalRequest) || kind == Some(
            DkgMessageKind::PcRetrievalResponse,
        )),
{
}

/// The record that refuses a log holds a message that is malformed or not durable, and
/// every record before it is fine.
pub proof fn law_first_refused_record_is_the_first(
    records: Seq<RecordView>,
    kinds: Seq<Option<DkgMessageKind>>,
    i: int,
    j: int,
)
    requires
        is_first_refused(records, kinds, i),
    ensures
        0 <= i < records.len(),
        records[i] is Outgoing || records[i] is Incoming,
        kinds[i] is None || kinds[i]->Some_0.policy() != DkgDeliveryPolicy::Durable,
        0 <= j < i && (records[j] is Outgoing || records[j] is Incoming) ==> kinds[j] is Some
            && kinds[j]->Some_0.policy() == DkgDeliveryPolicy::Durable,
{
    if 0 <= j < i {
        assert(message_refusal(records[j], kinds[j]) is None);
    }
}

} // verus!
