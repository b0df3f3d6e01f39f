//! The wire form of protocol deliveries.
//!
//! An envelope is the RLP list of an epoch and a framed message. A framed
//! message starts with a tag; data and acknowledgements go on with the number of
//! slots that the message fills and with those slots, data and unacknowledged
//! messages end with the payload.

use crate::dkg::ids::{DkgMessageId, DkgMessageKey, DkgMessageKind, Epoch, PartyId};
use crate::octets::{
    append_bytes, byte_range, copy_range, le_bytes, le_number, lemma_le_bytes, number_bytes, read_le,
};
use crate::rlp::{
    decode_u64_and_string, encode_u64_and_string, rlp_list, rlp_string_item, rlp_u64_item,
    u64_and_string, RlpError,
};
use vstd::prelude::*;

verus! {

/// The length of a slot on the wire.
pub const KEY_BYTES: usize = 33;

/// A delivery between two nodes.
#[allow(inconsistent_fields)]
#[derive(Debug)]
pub enum DeliveryMessage {
    /// A message that is acknowledged.
    Data { message_id: DkgMessageId, payload: Vec<u8> },
    /// A message that is not.
    Unacknowledged(Vec<u8>),
    /// The acknowledgement of a message.
    Ack(DkgMessageId),
}

#[verifier::ext_equal]
pub enum DeliveryView {
    Data { keys: Seq<DkgMessageKey>, payload: Seq<u8> },
    Unacknowledged(Seq<u8>),
    Ack(Seq<DkgMessageKey>),
}

impl View for DeliveryMessage {
    type V = DeliveryView;

    open spec fn view(&self) -> DeliveryView {
        match self {
            DeliveryMessage::Data { message_id, payload } => DeliveryView::Data {
                keys: message_id.keys(),
                payload: payload@,
            },
            DeliveryMessage::Unacknowledged(payload) => DeliveryView::Unacknowledged(payload@),
            DeliveryMessage::Ack(message_id) => DeliveryView::Ack(message_id.keys()),
        }
    }
}

/// A delivery for one epoch.
#[derive(Debug)]
pub struct DeliveryEnvelope {
    pub epoch: Epoch,
    pub message: DeliveryMessage,
}

/// Why bytes are no envelope.
#[derive(Clone, Copy, Debug, PartialEq, Eq, Structural)]
pub enum EnvelopeError {
    Rlp(RlpError),
    Message,
}

/// The kind with a position.
pub open spec fn kind_at(position: u8) -> Option<DkgMessageKind> {
    if position == 0 {
        Some(DkgMessageKind::PcProposal)
    } else if position == 1 {
        Some(DkgMessageKind::PcAck)
    } else if position == 2 {
        Some(DkgMessageKind::BveProposal)
    } else if position == 3 {
        Some(DkgMessageKind::BveApprovalBatch)
    } else if position == 4 {
        Some(DkgMessageKind::BveRetrievalRequest)
    } else if position == 5 {
        Some(DkgMessageKind::BveRetrievalResponse)
    } else if position == 6 {
        Some(DkgMessageKind::PcRetrievalRequest)
    } else if position == 7 {
        Some(DkgMessageKind::PcRetrievalResponse)
    } else if position == 8 {
        Some(DkgMessageKind::Ladder)
    } else if position == 9 {
        Some(DkgMessageKind::LowerConversion)
    } else if position == 10 {
        Some(DkgMessageKind::OpenPower)
    } else if position == 11 {
        Some(DkgMessageKind::Done)
    } else {
        None
    }
}

fn find_kind(position: u8) -> (kind: Option<DkgMessageKind>)
    ensures
        kind == kind_at(position),
{
    match position {
        0 => Some(DkgMessageKind::PcProposal),
        1 => Some(DkgMessageKind::PcAck),
        2 => Some(DkgMessageKind::BveProposal),
        3 => Some(DkgMessageKind::BveApprovalBatch),
        4 => Some(DkgMessageKind::BveRetrievalRequest),
        5 => Some(DkgMessageKind::BveRetrievalResponse),
        6 => Some(DkgMessageKind::PcRetrievalRequest),
        7 => Some(DkgMessageKind::PcRetrievalResponse),
        8 => Some(DkgMessageKind::Ladder),
        9 => Some(DkgMessageKind::LowerConversion),
        10 => Some(DkgMessageKind::OpenPower),
        11 => Some(DkgMessageKind::Done),
        _ => None,
    }
}

/// A slot on the wire: the position of its kind, then four numbers of eight
/// bytes, lowest byte first.
pub open spec fn key_bytes(key: DkgMessageKey) -> Seq<u8> {
    seq![key.kind.ordinal()] + le_bytes(key.dealer.0 as nat, 8) + le_bytes(key.source.0 as nat, 8)
        + le_bytes(key.target.0 as nat, 8) + le_bytes(key.level as nat, 8)
}

/// The slot that some bytes stand for.
pub open spec fn read_key(bytes: Seq<u8>) -> Option<DkgMessageKey> {
    let dealer = le_number(bytes.subrange(1, 9));
    let source = le_number(bytes.subrange(9, 17));
    let target = le_number(bytes.subrange(17, 25));
    let level = le_number(bytes.subrange(25, 33));
    match kind_at(bytes[0]) {
        Some(kind) if dealer <= u32::MAX && source <= u32::MAX && target <= u32::MAX => Some(
            DkgMessageKey {
                kind,
                dealer: PartyId(dealer as u32),
                source: PartyId(source as u32),
                target: PartyId(target as u32),
                level: level as u64,
            },
        ),
        _ => None,
    }
}

/// Slots on the wire.
pub open spec fn keys_bytes(keys: Seq<DkgMessageKey>) -> Seq<u8>
    decreases keys.len(),
{
    if keys.len() == 0 {
        Seq::empty()
    } else {
        keys_bytes(keys.drop_last()) + key_bytes(keys.last())
    }
}

/// The first `count` slots of some bytes.
pub open spec fn read_keys(bytes: Seq<u8>, count: nat) -> Option<Seq<DkgMessageKey>>
    decreases count,
{
    if count == 0 {
        Some(Seq::empty())
    } else {
        let last = KEY_BYTES * (count - 1);
        match read_keys(bytes, (count - 1) as nat) {
            Some(keys) => match read_key(bytes.subrange(last, last + KEY_BYTES)) {
                Some(key) => Some(keys.push(key)),
                None => None,
            },
            None => None,
        }
    }
}

/// The number of slots, then the slots.
pub open spec fn id_bytes(keys: Seq<DkgMessageKey>) -> Seq<u8> {
    le_bytes(keys.len(), 8) + keys_bytes(keys)
}

/// The slots at the start of some bytes, and what follows them.
pub open spec fn read_id(bytes: Seq<u8>) -> Option<(Seq<DkgMessageKey>, Seq<u8>)> {
    if bytes.len() < 8 {
        None
    } else {
        let count = le_number(bytes.take(8));
        let rest = bytes.skip(8);
        if count == 0 || count > rest.len() / (KEY_BYTES as nat) {
            None
        } else {
            match read_keys(rest, count) {
                Some(keys) => Some((keys, rest.skip((KEY_BYTES * count) as int))),
                None => None,
            }
        }
    }
}

/// A delivery on the wire.
pub open spec fn framed(message: DeliveryView) -> Seq<u8> {
    match message {
        DeliveryView::Unacknowledged(payload) => seq![0u8] + payload,
        DeliveryView::Data { keys, payload } => seq![1u8] + id_bytes(keys) + payload,
        DeliveryView::Ack(keys) => seq![2u8] + id_bytes(keys),
    }
}

/// The delivery that some bytes stand for.
pub open spec fn unframed(bytes: Seq<u8>) -> Option<DeliveryView> {
    if bytes.len() == 0 {
        None
    } else if bytes[0] == 0 {
        Some(DeliveryView::Unacknowledged(bytes.skip(1)))
    } else if bytes[0] == 1 {
        match read_id(bytes.skip(1)) {
            Some((keys, payload)) => Some(DeliveryView::Data { keys, payload }),
            None => None,
        }
    } else if bytes[0] == 2 {
        match read_id(bytes.skip(1)) {
            Some((keys, rest)) if rest.len() == 0 => Some(DeliveryView::Ack(keys)),
            _ => None,
        }
    } else {
        None
    }
}

/// An envelope on the wire.
pub open spec fn envelope_bytes(epoch: Epoch, message: DeliveryView) -> Seq<u8> {
    rlp_list(rlp_u64_item(epoch.0) + rlp_string_item(framed(message)))
}

/// The envelope that some bytes stand for.
pub open spec fn read_envelope(bytes: Seq<u8>) -> Result<(Epoch, DeliveryView), EnvelopeError> {
    match u64_and_string(bytes) {
        Err(error) => Err(EnvelopeError::Rlp(error)),
        Ok((epoch, payload)) => match unframed(payload) {
            Some(message) => Ok((Epoch(epoch), message)),
            None => Err(EnvelopeError::Message),
        },
    }
}

proof fn lemma_word_range()
    ensures
        byte_range(8) == 18446744073709551616,
{
    reveal_with_fuel(byte_range, 9);
}

proof fn lemma_key_round_trip(key: DkgMessageKey)
    ensures
        key_bytes(key).len() == KEY_BYTES,
        read_key(key_bytes(key)) == Some(key),
{
    lemma_word_range();
    lemma_le_bytes(key.dealer.0 as nat, 8);
    lemma_le_bytes(key.source.0 as nat, 8);
    lemma_le_bytes(key.target.0 as nat, 8);
    lemma_le_bytes(key.level as nat, 8);
    let bytes = key_bytes(key);
    assert(bytes.subrange(1, 9) =~= le_bytes(key.dealer.0 as nat, 8));
    assert(bytes.subrange(9, 17) =~= le_bytes(key.source.0 as nat, 8));
    assert(bytes.subrange(17, 25) =~= le_bytes(key.target.0 as nat, 8));
    assert(bytes.subrange(25, 33) =~= le_bytes(key.level as nat, 8));
}

proof fn lemma_keys_round_trip(keys: Seq<DkgMessageKey>, tail: Seq<u8>)
    ensures
        keys_bytes(keys).len() == KEY_BYTES * keys.len(),
        read_keys(keys_bytes(keys) + tail, keys.len()) == Some(keys),
    decreases keys.len(),
{
    if keys.len() == 0 {
        assert(keys =~= Seq::empty());
    } else {
        let front = keys.drop_last();
        let last = KEY_BYTES * (keys.len() - 1);
        let own = key_bytes(keys.last());
        lemma_keys_round_trip(front, own + tail);
        lemma_key_round_trip(keys.last());
        let bytes = keys_bytes(keys) + tail;
        assert(bytes =~= keys_bytes(front) + (own + tail));
        assert(bytes.subrange(last, last + KEY_BYTES) =~= own);
        assert(front.push(keys.last()) =~= keys);
    }
}

proof fn lemma_id_round_trip(keys: Seq<DkgMessageKey>, tail: Seq<u8>)
    requires
        0 < keys.len() <= u64::MAX,
    ensures
        read_id(id_bytes(keys) + tail) == Some((keys, tail)),
{
    lemma_word_range();
    lemma_le_bytes(keys.len(), 8);
    lemma_keys_round_trip(keys, tail);
    let bytes = id_bytes(keys) + tail;
    let rest = bytes.skip(8);
    assert(bytes.take(8) =~= le_bytes(keys.len(), 8));
    assert(rest =~= keys_bytes(keys) + tail);
    assert(rest.skip((KEY_BYTES * keys.len()) as int) =~= tail);
}

/// A delivery is read back as it was written.
pub proof fn law_delivery_round_trips(message: DeliveryView)
    requires
        match message {
            DeliveryView::Data { keys, .. } => 0 < keys.len() <= u64::MAX,
            DeliveryView::Unacknowledged(_) => true,
            DeliveryView::Ack(keys) => 0 < keys.len() <= u64::MAX,
        },
    ensures
        unframed(framed(message)) == Some(message),
{
    match message {
        DeliveryView::Unacknowledged(payload) => {
            assert(framed(message).skip(1) =~= payload);
        },
        DeliveryView::Data { keys, payload } => {
            lemma_id_round_trip(keys, payload);
            assert(framed(message).skip(1) =~= id_bytes(keys) + payload);
        },
        DeliveryView::Ack(keys) => {
            lemma_id_round_trip(keys, Seq::empty());
            assert(framed(message).skip(1) =~= id_bytes(keys) + Seq::empty());
        },
    }
}

/// Messages that fill the same slots are the same message.
pub proof fn law_slots_determine_the_message(left: DkgMessageId, right: DkgMessageId)
    requires
        left.keys() == right.keys(),
    ensures
        left == right,
    decreases left,
{
    lemma_has_keys(left);
    lemma_has_keys(right);
    match (left, right) {
        (DkgMessageId::Single(a), DkgMessageId::Single(b)) => {
            assert(left.keys()[0] == a);
            assert(right.keys()[0] == b);
        },
        (DkgMessageId::More(a, x), DkgMessageId::More(b, y)) => {
            assert(left.keys()[0] == a);
            assert(right.keys()[0] == b);
            assert(left.keys().skip(1) =~= x.keys());
            assert(right.keys().skip(1) =~= y.keys());
            law_slots_determine_the_message(*x, *y);
        },
        (DkgMessageId::Single(_), DkgMessageId::More(_, y)) => {
            lemma_has_keys(*y);
        },
        (DkgMessageId::More(_, x), DkgMessageId::Single(_)) => {
            lemma_has_keys(*x);
        },
    }
}

proof fn lemma_has_keys(id: DkgMessageId)
    ensures
        id.keys().len() > 0,
{
}

fn append_number(bytes: &mut Vec<u8>, number: u64)
    ensures
        final(bytes)@ == old(bytes)@ + le_bytes(number as nat, 8),
{
    let tail: Vec<u8> = number_bytes(number);
    append_bytes(bytes, &tail);
}

fn append_key(bytes: &mut Vec<u8>, key: &DkgMessageKey)
    ensures
        final(bytes)@ == old(bytes)@ + key_bytes(*key),
{
    let ghost before = bytes@;
    bytes.push(key.kind.position());
    append_number(bytes, key.dealer.0 as u64);
    append_number(bytes, key.source.0 as u64);
    append_number(bytes, key.target.0 as u64);
    append_number(bytes, key.level);
    assert(bytes@ =~= before + key_bytes(*key));
}

fn append_keys(bytes: &mut Vec<u8>, keys: &Vec<DkgMessageKey>)
    ensures
        final(bytes)@ == old(bytes)@ + keys_bytes(keys@),
{
    let ghost before = bytes@;
    let mut i: usize = 0;
    assert(keys@.take(0) =~= Seq::empty());
    assert(bytes@ =~= before + keys_bytes(keys@.take(0)));
    while i < keys.len()
        invariant
            i <= keys@.len(),
            bytes@ == before + keys_bytes(keys@.take(i as int)),
        decreases keys@.len() - i,
    {
        append_key(bytes, &keys[i]);
        proof {
            assert(keys@.take(i + 1).drop_last() =~= keys@.take(i as int));
            assert(bytes@ =~= before + keys_bytes(keys@.take(i + 1)));
        }
        i += 1;
    }
    assert(keys@.take(i as int) =~= keys@);
}

fn append_id(bytes: &mut Vec<u8>, id: &DkgMessageId)
    ensures
        final(bytes)@ == old(bytes)@ + id_bytes(id.keys()),
        id.keys().len() <= u64::MAX,
{
    let ghost before = bytes@;
    let keys: Vec<DkgMessageKey> = id.key_list();
    append_number(bytes, keys.len() as u64);
    append_keys(bytes, &keys);
    assert(bytes@ =~= before + id_bytes(id.keys()));
}

fn number_at(bytes: &Vec<u8>, start: usize) -> (number: u64)
    requires
        start + 8 <= bytes@.len(),
    ensures
        number == le_number(bytes@.subrange(start as int, start + 8)),
{
    let total: usize = bytes.len();
    assert(start + 8 <= total);
    let word: Vec<u8> = copy_range(bytes, start, start + 8);
    assert(word@.take(8) =~= bytes@.subrange(start as int, start + 8));
    read_le(&word)
}

fn key_from(bytes: &Vec<u8>) -> (key: Option<DkgMessageKey>)
    requires
        bytes@.len() == KEY_BYTES,
    ensures
        key == read_key(bytes@),
{
    let dealer: u64 = number_at(bytes, 1);
    let source: u64 = number_at(bytes, 9);
    let target: u64 = number_at(bytes, 17);
    let level: u64 = number_at(bytes, 25);
    match find_kind(bytes[0]) {
        Some(kind) => {
            if dealer <= u32::MAX as u64 && source <= u32::MAX as u64 && target <= u32::MAX as u64 {
                Some(
                    DkgMessageKey {
                        kind,
                        dealer: PartyId(dealer as u32),
                        source: PartyId(source as u32),
                        target: PartyId(target as u32),
                        level,
                    },
                )
            } else {
                None
            }
        },
        None => None,
    }
}

proof fn lemma_refused_key(bytes: Seq<u8>, count: nat, total: nat)
    requires
        count <= total,
        read_keys(bytes, count) is None,
    ensures
        read_keys(bytes, total) is None,
    decreases total,
{
    if count < total {
        lemma_refused_key(bytes, count, (total - 1) as nat);
    }
}

fn keys_from(bytes: &Vec<u8>, count: usize) -> (keys: Option<Vec<DkgMessageKey>>)
    requires
        count <= bytes@.len() / KEY_BYTES as nat,
    ensures
        match keys {
            Some(keys) => read_keys(bytes@, count as nat) == Some(keys@) && keys@.len() == count,
            None => read_keys(bytes@, count as nat) is None,
        },
{
    let mut keys: Vec<DkgMessageKey> = Vec::new();
    let mut i: usize = 0;
    assert(KEY_BYTES * count <= bytes@.len()) by (nonlinear_arith)
        requires
            count <= bytes@.len() / 33,
            KEY_BYTES == 33,
    ;
    let total: usize = bytes.len();
    while i < count
        invariant
            i <= count,
            total == bytes@.len(),
            KEY_BYTES * count <= bytes@.len(),
            read_keys(bytes@, i as nat) == Some(keys@),
            keys@.len() == i,
        decreases count - i,
    {
        let start: usize = KEY_BYTES * i;
        let own: Vec<u8> = copy_range(bytes, start, start + KEY_BYTES);
        match key_from(&own) {
            Some(key) => {
                keys.push(key);
            },
            None => {
                proof {
                    lemma_refused_key(bytes@, (i + 1) as nat, count as nat);
                }
                return None;
            },
        }
        i += 1;
    }
    Some(keys)
}

/// The slots at the start of `bytes`, behind its first byte, and what follows.
fn id_from(bytes: &Vec<u8>) -> (id: Option<(DkgMessageId, Vec<u8>)>)
    requires
        bytes@.len() > 0,
    ensures
        match id {
            Some((id, rest)) => read_id(bytes@.skip(1)) == Some((id.keys(), rest@)),
            None => read_id(bytes@.skip(1)) is None,
        },
{
    let total: usize = bytes.len();
    if total < 9 {
        return None;
    }
    let count: u64 = number_at(bytes, 1);
    let rest: Vec<u8> = copy_range(bytes, 9, total);
    proof {
        assert(bytes@.skip(1).take(8) =~= bytes@.subrange(1, 9));
        assert(rest@ =~= bytes@.skip(1).skip(8));
    }
    let capacity: usize = rest.len() / KEY_BYTES;
    if count == 0 || (capacity as u64) < count {
        return None;
    }
    let count: usize = count as usize;
    match keys_from(&rest, count) {
        Some(keys) => {
            assert(KEY_BYTES * count <= rest@.len()) by (nonlinear_arith)
                requires
                    count <= rest@.len() / 33,
                    KEY_BYTES == 33,
            ;
            let tail: Vec<u8> = copy_range(&rest, KEY_BYTES * count, rest.len());
            assert(tail@ =~= rest@.skip((KEY_BYTES * count) as int));
            match DkgMessageId::new(&keys) {
                Some(id) => Some((id, tail)),
                None => None,
            }
        },
        None => None,
    }
}

impl DeliveryMessage {
    /// The delivery on the wire.
    pub fn encode(&self) -> (bytes: Vec<u8>)
        ensures
            bytes@ == framed(self@),
            unframed(bytes@) == Some(self@),
    {
        let mut bytes: Vec<u8> = Vec::new();
        match self {
            DeliveryMessage::Unacknowledged(payload) => {
                bytes.push(0);
                append_bytes(&mut bytes, payload);
            },
            DeliveryMessage::Data { message_id, payload } => {
                bytes.push(1);
                append_id(&mut bytes, message_id);
                append_bytes(&mut bytes, payload);
                proof {
                    lemma_has_keys(*message_id);
                }
            },
            DeliveryMessage::Ack(message_id) => {
                bytes.push(2);
                append_id(&mut bytes, message_id);
                proof {
                    lemma_has_keys(*message_id);
                }
            },
        }
        proof {
            assert(bytes@ =~= framed(self@));
            law_delivery_round_trips(self@);
        }
        bytes
    }

    /// The delivery that `bytes` stand for.
    pub fn decode(bytes: &Vec<u8>) -> (message: Option<Self>)
        ensures
            match message {
                Some(message) => unframed(bytes@) == Some(message@),
                None => unframed(bytes@) is None,
            },
    {
        let total: usize = bytes.len();
        if total == 0 {
            return None;
        }
        let tag: u8 = bytes[0];
        if tag == 0 {
            let payload: Vec<u8> = copy_range(bytes, 1, total);
            assert(payload@ =~= bytes@.skip(1));
            Some(DeliveryMessage::Unacknowledged(payload))
        } else if tag == 1 {
            match id_from(bytes) {
                Some((message_id, payload)) => Some(DeliveryMessage::Data { message_id, payload }),
                None => None,
            }
        } else if tag == 2 {
            match id_from(bytes) {
                Some((message_id, rest)) => if rest.len() == 0 {
                    Some(DeliveryMessage::Ack(message_id))
                } else {
                    None
                },
                None => None,
            }
        } else {
            None
        }
    }
}

impl DeliveryEnvelope {
    /// A message that is to be acknowledged.
    pub fn data(epoch: Epoch, message_id: DkgMessageId, payload: Vec<u8>) -> (envelope: Self)
        ensures
            envelope.epoch == epoch,
            envelope.message@ == (DeliveryView::Data { keys: message_id.keys(), payload: payload@ }),
    {
        DeliveryEnvelope { epoch, message: DeliveryMessage::Data { message_id, payload } }
    }

    /// A message that is not acknowledged.
    pub fn unacknowledged(epoch: Epoch, payload: Vec<u8>) -> (envelope: Self)
        ensures
            envelope.epoch == epoch,
            envelope.message@ == DeliveryView::Unacknowledged(payload@),
    {
        DeliveryEnvelope { epoch, message: DeliveryMessage::Unacknowledged(payload) }
    }

    /// The acknowledgement of a message.
    pub fn ack(epoch: Epoch, message_id: DkgMessageId) -> (envelope: Self)
        ensures
            envelope.epoch == epoch,
            envelope.message@ == DeliveryView::Ack(message_id.keys()),
    {
        DeliveryEnvelope { epoch, message: DeliveryMessage::Ack(message_id) }
    }

    /// The envelope on the wire.
    pub fn encode(&self) -> (bytes: Vec<u8>)
        ensures
            bytes@ == envelope_bytes(self.epoch, self.message@),
            read_envelope(bytes@) == Ok::<(Epoch, DeliveryView), EnvelopeError>(
                (self.epoch, self.message@),
            ),
    {
        encode_u64_and_string(self.epoch.0, &self.message.encode())
    }

    /// The envelope that `bytes` stand for.
    pub fn decode(bytes: &Vec<u8>) -> (result: Result<Self, EnvelopeError>)
        ensures
            match read_envelope(bytes@) {
                Ok((epoch, message)) => result matches Ok(envelope) && envelope.epoch == epoch
                    && envelope.message@ == message,
                Err(error) => result == Err::<DeliveryEnvelope, _>(error),
            },
    {
        match decode_u64_and_string(bytes) {
            Ok((epoch, payload)) => match DeliveryMessage::decode(&payload) {
                Some(message) => Ok(DeliveryEnvelope { epoch: Epoch(epoch), message }),
                None => Err(EnvelopeError::Message),
            },
            Err(error) => Err(EnvelopeError::Rlp(error)),
        }
    }
}

/// A frame starts with zero where nobody acknowledges it, with one where somebody
/// does, and with two where it is an acknowledgement.
pub proof fn law_frames_are_told_apart_by_their_tag(
    keys: Seq<DkgMessageKey>,
    payload: Seq<u8>,
)
    ensures
        framed(DeliveryView::Unacknowledged(payload))[0] == 0,
        framed(DeliveryView::Unacknowledged(payload)).skip(1) == payload,
        framed(DeliveryView::Data { keys, payload })[0] == 1,
        framed(DeliveryView::Data { keys, payload }).skip(1) == le_bytes(keys.len(), 8) + keys_bytes(keys)
            + payload,
        framed(DeliveryView::Ack(keys))[0] == 2,
        framed(DeliveryView::Ack(keys)).skip(1) == le_bytes(keys.len(), 8) + keys_bytes(keys),
{
    assert(framed(DeliveryView::Unacknowledged(payload)).skip(1) =~= payload);
    assert(framed(DeliveryView::Data { keys, payload }).skip(1) =~= le_bytes(keys.len(), 8) + keys_bytes(
        keys,
    ) + payload);
    assert(framed(DeliveryView::Ack(keys)).skip(1) =~= le_bytes(keys.len(), 8) + keys_bytes(keys));
}

/// A slot takes thirty-three bytes: its kind, then its dealer, source, target and
/// level, eight bytes each with the lowest first.
pub proof fn law_slot_has_its_place_on_the_wire(key: DkgMessageKey)
    ensures
        key_bytes(key).len() == 33,
        key_bytes(key)[0] == key.kind.ordinal(),
        key_bytes(key).subrange(1, 9) == le_bytes(key.dealer.0 as nat, 8),
        key_bytes(key).subrange(9, 17) == le_bytes(key.source.0 as nat, 8),
        key_bytes(key).subrange(17, 25) == le_bytes(key.target.0 as nat, 8),
        key_bytes(key).subrange(25, 33) == le_bytes(key.level as nat, 8),
        read_key(key_bytes(key)) == Some(key),
{
    lemma_le_bytes(key.dealer.0 as nat, 8);
    lemma_le_bytes(key.source.0 as nat, 8);
    lemma_le_bytes(key.target.0 as nat, 8);
    lemma_le_bytes(key.level as nat, 8);
    lemma_key_round_trip(key);
    assert(key_bytes(key).subrange(1, 9) =~= le_bytes(key.dealer.0 as nat, 8));
    assert(key_bytes(key).subrange(9, 17) =~= le_bytes(key.source.0 as nat, 8));
    assert(key_bytes(key).subrange(17, 25) =~= le_bytes(key.target.0 as nat, 8));
    assert(key_bytes(key).subrange(25, 33) =~= le_bytes(key.level as nat, 8));
}

/// An envelope is refused exactly where it is no list of a number and a frame, or
/// where its frame is none.
pub proof fn law_envelope_holds_a_frame(bytes: Seq<u8>)
    ensures
        read_envelope(bytes) is Ok <==> u64_and_string(bytes) is Ok && unframed(
            u64_and_string(bytes)->Ok_0.1,
        ) is Some,
        read_envelope(bytes) matches Ok((epoch, message)) ==> epoch.0 == u64_and_string(bytes)->Ok_0.0
            && Some(message) == unframed(u64_and_string(bytes)->Ok_0.1),
{
}

/// Each number below the number of kinds stands for the kind that has it, and no
/// other number stands for a kind.
pub proof fn law_kind_is_read_back(kind: DkgMessageKind, position: u8)
    ensures
        kind_at(kind.ordinal()) == Some(kind),
        kind_at(position) is Some <==> position < 12,
        kind_at(position) matches Some(found) ==> found.ordinal() == position,
{
}

/// A frame that acknowledges or is acknowledged names at least one slot.
pub proof fn law_frames_name_a_slot(bytes: Seq<u8>)
    ensures
        unframed(bytes) matches Some(DeliveryView::Data { keys, .. }) ==> keys.len() > 0,
        unframed(bytes) matches Some(DeliveryView::Ack(keys)) ==> keys.len() > 0,
        bytes.len() == 0 ==> unframed(bytes) is None,
        bytes.len() > 0 && bytes[0] > 2 ==> unframed(bytes) is None,
{
    if bytes.len() > 0 && read_id(bytes.skip(1)) is Some {
        let rest = bytes.skip(1);
        let count = le_number(rest.take(8));
        lemma_read_count(rest.skip(8), count);
    }
}

proof fn lemma_read_count(bytes: Seq<u8>, count: nat)
    ensures
        read_keys(bytes, count) matches Some(keys) ==> keys.len() == count,
    decreases count,
{
    if count > 0 {
        lemma_read_count(bytes, (count - 1) as nat);
    }
}

} // verus!
