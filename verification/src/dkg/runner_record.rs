//! The records of a runner that keeps its own store of messages: those of every
//! recovery log, and which deliveries were completed.

use crate::dkg::envelope::{framed, unframed, DeliveryMessage, DeliveryView};
use crate::dkg::ids::{DkgMessageId, DkgMessageKey, PartyId};
use crate::dkg::record::{RecordPart, RecordView, RecoveryRecord, WalCodecError};
use crate::dkg::recovery::{RecoveredRecord, RecoveredView};
use crate::octets::{append_bytes, copy_range};
use crate::order::Key;
use crate::reliable::message::{IncomingRecord, IncomingView, OutgoingRecord, OutgoingView};
use crate::rlp::{
    decode_u32_and_string, encode_u32_and_string, rlp_list, rlp_string_item, rlp_u32_item, u32_and_string,
};
use crate::wal::WalRecord;
use vstd::prelude::*;

verus! {

/// The kind byte of a completion.
pub const COMPLETION_KIND: u8 = 5;

/// A record of a runner's recovery log.
pub enum RunnerRecord {
    Session(RecoveryRecord),
    /// `target` has the message.
    Completion { message_id: DkgMessageId, target: PartyId },
}

#[verifier::ext_equal]
pub enum RunnerRecordView {
    Session(RecordView),
    /// The message is given by the slots that it fills.
    Completion { keys: Seq<DkgMessageKey>, target: PartyId },
}

impl View for RunnerRecord {
    type V = RunnerRecordView;

    open spec fn view(&self) -> RunnerRecordView {
        match self {
            RunnerRecord::Session(record) => RunnerRecordView::Session(record@),
            RunnerRecord::Completion { message_id, target } => RunnerRecordView::Completion {
                keys: message_id.keys(),
                target: *target,
            },
        }
    }
}

impl RunnerRecordView {
    /// Whether the record can be read back from its payload.
    pub open spec fn canonical(self) -> bool {
        match self {
            RunnerRecordView::Session(record) => record.canonical(),
            RunnerRecordView::Completion { .. } => true,
        }
    }
}

/// What the body of a completion stands for: a party and what it acknowledges.
pub open spec fn decoded_completion(body: Seq<u8>) -> Result<RunnerRecordView, WalCodecError> {
    match u32_and_string(body) {
        Err(error) => Err(WalCodecError::Rlp(error)),
        Ok((number, frame)) => match unframed(frame) {
            Some(DeliveryView::Ack(keys)) => Ok(
                RunnerRecordView::Completion { keys, target: PartyId(number) },
            ),
            _ => Err(WalCodecError::Invalid(RecordPart::Completion)),
        },
    }
}

impl WalRecord for RunnerRecord {
    type Error = WalCodecError;

    open spec fn magic() -> Seq<u8> {
        RecoveryRecord::magic()
    }

    proof fn magic_len() {
        RecoveryRecord::magic_len();
    }

    open spec fn encoded(record: RunnerRecordView) -> Result<Seq<u8>, WalCodecError> {
        match record {
            RunnerRecordView::Session(record) => RecoveryRecord::encoded(record),
            RunnerRecordView::Completion { keys, target } => Ok(
                seq![COMPLETION_KIND] + rlp_list(
                    rlp_u32_item(target.0) + rlp_string_item(framed(DeliveryView::Ack(keys))),
                ),
            ),
        }
    }

    open spec fn decoded(payload: Seq<u8>) -> Result<RunnerRecordView, WalCodecError> {
        if payload.len() > 0 && payload[0] == COMPLETION_KIND {
            decoded_completion(payload.skip(1))
        } else {
            match RecoveryRecord::decoded(payload) {
                Ok(record) => Ok(RunnerRecordView::Session(record)),
                Err(error) => Err(error),
            }
        }
    }

    fn magic_bytes() -> [u8; 4] {
        RecoveryRecord::magic_bytes()
    }

    /// A canonical record is read back from its payload.
    fn encode(&self) -> (result: Result<Vec<u8>, WalCodecError>)
        ensures
            self@.canonical() ==> result is Ok && Self::decoded(result->Ok_0@) == Ok::<
                RunnerRecordView,
                WalCodecError,
            >(self@),
    {
        match self {
            RunnerRecord::Session(record) => {
                let result: Result<Vec<u8>, WalCodecError> = record.encode();
                proof {
                    if result is Ok {
                        assert(result->Ok_0@[0] != COMPLETION_KIND);
                    }
                }
                result
            },
            RunnerRecord::Completion { message_id, target } => {
                let frame: Vec<u8> = DeliveryMessage::Ack(message_id.duplicate()).encode();
                let body: Vec<u8> = encode_u32_and_string(target.0, &frame);
                let mut payload: Vec<u8> = Vec::new();
                payload.push(COMPLETION_KIND);
                append_bytes(&mut payload, &body);
                proof {
                    assert(payload@ =~= seq![COMPLETION_KIND] + body@);
                    assert(payload@.skip(1) =~= body@);
                    assert(frame@ == framed(DeliveryView::Ack(message_id.keys())));
                }
                Ok(payload)
            },
        }
    }

    fn decode(payload: &Vec<u8>) -> Result<Self, WalCodecError> {
        if payload.len() > 0 && payload[0] == COMPLETION_KIND {
            let body: Vec<u8> = copy_range(payload, 1, payload.len());
            assert(body@ =~= payload@.skip(1));
            return match decode_u32_and_string(&body) {
                Err(error) => Err(WalCodecError::Rlp(error)),
                Ok((number, frame)) => match DeliveryMessage::decode(&frame) {
                    Some(DeliveryMessage::Ack(message_id)) => Ok(
                        RunnerRecord::Completion { message_id, target: PartyId(number) },
                    ),
                    _ => Err(WalCodecError::Invalid(RecordPart::Completion)),
                },
            };
        }
        match RecoveryRecord::decode(payload) {
            Ok(record) => Ok(RunnerRecord::Session(record)),
            Err(error) => Err(error),
        }
    }
}

impl RunnerRecord {
    /// What the record means for the recovery, given the identity that the protocol
    /// gives its message. A message without identity means nothing.
    pub fn recovered(self, message_id: Option<DkgMessageId>) -> (recovered: Option<RecoveredRecord>)
        ensures
            match self {
                RunnerRecord::Session(RecoveryRecord::Seed(seed)) => recovered matches Some(record)
                    && record@ == RecoveredView::Seed(seed.spec_bytes()),
                RunnerRecord::Session(RecoveryRecord::Registration(bytes)) => recovered matches Some(record)
                    && record@ == RecoveredView::Registration(bytes@),
                RunnerRecord::Session(RecoveryRecord::Outgoing { recipients, payload }) => match message_id {
                    Some(message_id) => recovered matches Some(record) && record@
                        == RecoveredView::Outgoing(
                        OutgoingView { message_id, recipients: recipients@, payload: payload@ },
                    ),
                    None => recovered is None,
                },
                RunnerRecord::Session(RecoveryRecord::Incoming { source, payload }) => match message_id {
                    Some(message_id) => recovered matches Some(record) && record@
                        == RecoveredView::Incoming(
                        IncomingView { source, message_id, payload: payload@ },
                    ),
                    None => recovered is None,
                },
                RunnerRecord::Completion { message_id, target } => recovered matches Some(record)
                    && record@ == (RecoveredView::Completion { message_id, target }),
            },
    {
        match self {
            RunnerRecord::Session(record) => match record {
                RecoveryRecord::Seed(seed) => Some(RecoveredRecord::Seed(seed)),
                RecoveryRecord::Registration(bytes) => Some(RecoveredRecord::Registration(bytes)),
                RecoveryRecord::Outgoing { recipients, payload } => match message_id {
                    Some(message_id) => Some(
                        RecoveredRecord::Outgoing(OutgoingRecord { message_id, recipients, payload }),
                    ),
                    None => None,
                },
                RecoveryRecord::Incoming { source, payload } => match message_id {
                    Some(message_id) => Some(
                        RecoveredRecord::Incoming(IncomingRecord { source, message_id, payload }),
                    ),
                    None => None,
                },
            },
            RunnerRecord::Completion { message_id, target } => Some(
                RecoveredRecord::Completion { message_id, target },
            ),
        }
    }
}

/// A payload that stands for a completion stands for no other record: which message
/// and which party were completed is read back from the log.
pub proof fn law_completion_is_read_back(id: DkgMessageId, target: PartyId, payload: Seq<u8>)
    requires
        RunnerRecord::decoded(payload) == Ok::<RunnerRecordView, WalCodecError>(
            RunnerRecordView::Completion { keys: id.keys(), target },
        ),
    ensures
        forall|record: RunnerRecord|
            RunnerRecord::decoded(payload) == Ok::<RunnerRecordView, WalCodecError>(#[trigger] record@)
                ==> record == (RunnerRecord::Completion { message_id: id, target }),
{
    assert forall|record: RunnerRecord|
        RunnerRecord::decoded(payload) == Ok::<RunnerRecordView, WalCodecError>(
            #[trigger] record@,
        ) implies record == (RunnerRecord::Completion { message_id: id, target }) by {
        match record {
            RunnerRecord::Completion { message_id, .. } => {
                crate::dkg::envelope::law_slots_determine_the_message(message_id, id);
            },
            RunnerRecord::Session(_) => {},
        }
    }
}

/// A completion is told from every other record by its first byte, and names the
/// recipient and the slots of its message.
pub proof fn law_completion_is_a_record_of_its_own(payload: Seq<u8>)
    ensures
        RunnerRecord::decoded(payload) matches Ok(RunnerRecordView::Completion { .. })
            ==> payload.len() > 0 && payload[0] == 5,
        RunnerRecord::decoded(payload) matches Ok(RunnerRecordView::Session(record)) ==> payload.len() > 0
            && 1 <= payload[0] <= 4 && RecoveryRecord::decoded(payload) == Ok::<RecordView, WalCodecError>(
            record,
        ),
        payload.len() > 0 && 1 <= payload[0] <= 4 ==> (RunnerRecord::decoded(payload) is Ok
            <==> RecoveryRecord::decoded(payload) is Ok),
        RunnerRecord::decoded(payload) matches Ok(RunnerRecordView::Completion { keys, target }) ==> {
            &&& u32_and_string(payload.skip(1)) is Ok
            &&& u32_and_string(payload.skip(1))->Ok_0.0 == target.0
            &&& unframed(u32_and_string(payload.skip(1))->Ok_0.1) == Some(DeliveryView::Ack(keys))
        },
{
}

} // verus!
