use monad_runtime::dkg::ids::{DkgMessageId, DkgMessageKey, DkgMessageKind, PartyId};
use monad_runtime::dkg::message::{DkgMessage, DurableDkgMessage, EphemeralMessage};
use monad_runtime::dkg::message_store::{
    outgoing_identity, transport_ack_key, DkgMessageStore, IdentityError, LoggedIncoming,
    LoggedOutgoing, RecipientIdentity, StoreError, TransportAckKeyCount,
};
use monad_runtime::dkg::record::RecoveryRecord;
use monad_runtime::dkg::recovery::{RecoveryState, MAX_RECOVERY_RECORD_BYTES};
use monad_runtime::dkg::runner_record::RunnerRecord;
use monad_runtime::reliable::message::{
    IncomingRecord, IncomingStatus, MessageIdentity, MessagePersistence, MessageStore,
    MessageStoreError, OutgoingRecord,
};
use monad_runtime::wal::{frame_record, scan_records};

const TAG_PC_PROPOSAL: u8 = 1;
const TAG_PC_ACK: u8 = 2;
const TAG_PC_RETRIEVAL_REQUEST: u8 = 7;

fn proposal_key(dealer: PartyId, receiver: PartyId) -> DkgMessageKey {
    DkgMessageKey::new(DkgMessageKind::PcProposal, dealer, dealer, receiver, 0)
}

fn proposal_id(dealer: PartyId, receivers: &[PartyId]) -> DkgMessageId {
    let keys = receivers
        .iter()
        .map(|receiver| proposal_key(dealer, *receiver))
        .collect::<Vec<_>>();
    DkgMessageId::new(&keys).unwrap()
}

fn proposal_identities(dealer: PartyId, receivers: &[PartyId]) -> Vec<Option<RecipientIdentity>> {
    receivers
        .iter()
        .map(|receiver| {
            Some(RecipientIdentity {
                keys: vec![proposal_key(dealer, *receiver)],
                persistence: MessagePersistence::Durable,
            })
        })
        .collect()
}

fn request_identity(requester: PartyId, responder: PartyId) -> Vec<Option<RecipientIdentity>> {
    vec![Some(RecipientIdentity {
        keys: vec![DkgMessageKey::new(
            DkgMessageKind::PcRetrievalRequest,
            PartyId(0),
            requester,
            responder,
            0,
        )],
        persistence: MessagePersistence::Ephemeral,
    })]
}

fn ack_key(dealer: PartyId, signer: PartyId) -> DkgMessageKey {
    DkgMessageKey::new(DkgMessageKind::PcAck, dealer, signer, dealer, 0)
}

fn ack_identity(
    dealer: PartyId,
    signer: PartyId,
) -> MessageIdentity<DkgMessageId, DkgMessageKey> {
    let key = ack_key(dealer, signer);
    MessageIdentity {
        message_id: DkgMessageId::single(key),
        keys: vec![key],
        persistence: MessagePersistence::Durable,
    }
}

fn same_id(left: &DkgMessageId, right: &DkgMessageId) -> bool {
    left.key_list() == right.key_list()
}

const RECIPIENTS: [PartyId; 3] = [PartyId(1), PartyId(2), PartyId(3)];

/// The bytes of a recovery log.
struct Log(Vec<u8>);

impl Log {
    fn append(&mut self, record: RunnerRecord) -> Result<(), ()> {
        let frame = frame_record(&record, MAX_RECOVERY_RECORD_BYTES).map_err(|_| ())?;
        self.0.extend_from_slice(&frame);
        Ok(())
    }

    fn load(&self) -> RecoveryState {
        let (records, valid) =
            scan_records::<RunnerRecord>(&self.0, MAX_RECOVERY_RECORD_BYTES).unwrap();
        assert_eq!(valid, self.0.len());
        let recovered = records
            .into_iter()
            .filter_map(|record| {
                let message_id = match &record {
                    RunnerRecord::Session(RecoveryRecord::Outgoing { recipients, .. }) => {
                        Some(proposal_id(PartyId(0), recipients))
                    }
                    RunnerRecord::Session(RecoveryRecord::Incoming { source, .. }) => {
                        Some(DkgMessageId::single(ack_key(PartyId(0), *source)))
                    }
                    _ => None,
                };
                record.recovered(message_id)
            })
            .collect();
        RecoveryState::from_records(recovered).unwrap()
    }
}

/// A store with a sent proposal and the first of two acknowledgements, and the
/// log that it wrote.
fn filled_store() -> (DkgMessageStore, Log) {
    let self_party = PartyId(0);
    let mut store = DkgMessageStore::new();
    let mut log = Log(Vec::new());
    let proposal = vec![TAG_PC_PROPOSAL, 0x11];
    let identities = proposal_identities(self_party, &RECIPIENTS);
    assert!(store.must_journal_outgoing(&identities));
    let journal = log.append(RunnerRecord::Session(RecoveryRecord::Outgoing {
        recipients: RECIPIENTS.to_vec(),
        payload: proposal.clone(),
    }));
    assert!(
        store
            .accept_outgoing(RECIPIENTS.to_vec(), &identities, proposal, journal)
            .unwrap()
            .accepted
    );

    let mut ack = vec![TAG_PC_ACK];
    ack.extend_from_slice(&[0x33; 96]);
    for expected in [IncomingStatus::New, IncomingStatus::Conflict] {
        let record = IncomingRecord {
            source: PartyId(3),
            message_id: DkgMessageId::single(ack_key(self_party, PartyId(3))),
            payload: ack.clone(),
        };
        let identity = ack_identity(self_party, PartyId(3));
        assert_eq!(store.incoming_status(&record, &identity), expected);
        let journal = if expected == IncomingStatus::New {
            log.append(RunnerRecord::Session(RecoveryRecord::Incoming {
                source: record.source,
                payload: record.payload.clone(),
            }))
        } else {
            Ok(())
        };
        assert_eq!(
            store.accept_incoming(record, &identity, journal).unwrap(),
            expected
        );
        ack[1] ^= 1;
    }
    assert_eq!(store.incoming_count(), 1);
    (store, log)
}

fn reload(state: &RecoveryState) -> DkgMessageStore {
    let self_party = PartyId(0);
    let outgoing = state
        .outbox_ids()
        .iter()
        .map(|id| {
            let record = state.outgoing(id).unwrap();
            LoggedOutgoing {
                record: record.duplicate(),
                identities: proposal_identities(self_party, &record.recipients),
            }
        })
        .collect();
    let incoming = state
        .incoming_set()
        .into_iter()
        .map(|record| LoggedIncoming {
            identity: Some(ack_identity(self_party, record.source)),
            record,
        })
        .collect();
    DkgMessageStore::load(outgoing, incoming, state.completions())
}

#[test]
fn restart_keeps_one_semantic_slot_and_skips_ephemeral_messages() {
    let self_party = PartyId(0);
    let (mut store, mut log) = filled_store();
    let mut request = vec![TAG_PC_RETRIEVAL_REQUEST];
    request.extend_from_slice(&[0; 64]);
    request.extend_from_slice(&self_party.0.to_le_bytes());
    request.extend_from_slice(&[0; 32]);
    for expected in [true, false] {
        assert_eq!(
            store
                .accept_outgoing(
                    vec![PartyId(3)],
                    &request_identity(self_party, PartyId(3)),
                    request.clone(),
                    Ok::<(), ()>(()),
                )
                .unwrap()
                .accepted,
            expected
        );
    }
    let key = proposal_key(self_party, PartyId(3));
    let news = store.must_journal_completion(&key, PartyId(3)).unwrap();
    let journal = log.append(RunnerRecord::Completion {
        message_id: news,
        target: PartyId(3),
    });
    let completed = store.complete_key(&key, PartyId(3), journal).unwrap().unwrap();
    assert!(same_id(&completed, &proposal_id(self_party, &RECIPIENTS)));
    assert!(store.must_journal_completion(&key, PartyId(3)).is_none());
    assert_eq!(store.outgoing_records().len(), 1);

    let recovery = log.load();
    assert_eq!(recovery.outbox_len(), 1);
    assert_eq!(recovery.incoming().len(), 1);
    let mut store = reload(&recovery);
    assert_eq!(
        store.outgoing_records()[0].payload,
        vec![TAG_PC_PROPOSAL, 0x11]
    );
    assert!(store.is_complete(&proposal_id(self_party, &RECIPIENTS), PartyId(3)));
    assert!(!store.is_complete(&proposal_id(self_party, &RECIPIENTS), PartyId(2)));
    assert!(
        !store
            .accept_outgoing(
                RECIPIENTS.to_vec(),
                &proposal_identities(self_party, &RECIPIENTS),
                vec![TAG_PC_PROPOSAL, 0x11],
                Ok::<(), ()>(()),
            )
            .unwrap()
            .accepted
    );
}

#[test]
fn durable_store_rejects_sync_messages_and_recovers_semantic_slots() {
    let self_party = PartyId(0);
    let (_, log) = filled_store();
    let mut request = vec![TAG_PC_RETRIEVAL_REQUEST];
    request.extend_from_slice(&[0; 64]);
    request.extend_from_slice(&self_party.0.to_le_bytes());
    request.extend_from_slice(&[0; 32]);
    assert!(matches!(
        DurableDkgMessage::try_from(DkgMessage {
            kind: DkgMessageKind::PcRetrievalRequest,
            retrieval_dealer: Some(self_party),
            bytes: request,
        }),
        Err(EphemeralMessage(DkgMessageKind::PcRetrievalRequest))
    ));

    let recovery = log.load();
    assert_eq!(recovery.outbox_len(), 1);
    assert_eq!(recovery.incoming().len(), 1);
    let mut store = reload(&recovery);
    assert_eq!(store.incoming_count(), 1);
    assert_eq!(
        store.outgoing_records()[0].payload,
        vec![TAG_PC_PROPOSAL, 0x11]
    );
    assert!(
        !store
            .accept_outgoing(
                RECIPIENTS.to_vec(),
                &proposal_identities(self_party, &RECIPIENTS),
                vec![TAG_PC_PROPOSAL, 0x11],
                Ok::<(), ()>(()),
            )
            .unwrap()
            .accepted
    );
}

#[test]
fn cleared_retrievals_can_be_sent_again() {
    let mut store = DkgMessageStore::new();
    for _ in 0..2 {
        assert!(
            store
                .accept_outgoing(
                    vec![PartyId(3)],
                    &request_identity(PartyId(0), PartyId(3)),
                    vec![TAG_PC_RETRIEVAL_REQUEST],
                    Ok::<(), ()>(()),
                )
                .unwrap()
                .accepted
        );
        store.clear_ephemeral();
    }
}

#[test]
fn failed_journal_leaves_the_slots_open() {
    let mut store = DkgMessageStore::new();
    let identities = proposal_identities(PartyId(0), &RECIPIENTS);
    assert!(matches!(
        store.accept_outgoing(RECIPIENTS.to_vec(), &identities, vec![1], Err("disk")),
        Err(StoreError::Reliable(MessageStoreError::Journal("disk")))
    ));
    assert!(
        store
            .accept_outgoing(RECIPIENTS.to_vec(), &identities, vec![1], Ok::<(), &str>(()))
            .unwrap()
            .accepted
    );
}

#[test]
fn retrievals_go_to_one_recipient() {
    let mut store = DkgMessageStore::new();
    let mut identities = request_identity(PartyId(0), PartyId(2));
    identities.extend(request_identity(PartyId(0), PartyId(3)));
    assert!(matches!(
        store.accept_outgoing(
            vec![PartyId(2), PartyId(3)],
            &identities,
            vec![TAG_PC_RETRIEVAL_REQUEST],
            Ok::<(), ()>(()),
        ),
        Err(StoreError::RetrievalMustBeUnicast)
    ));
}

#[test]
fn identities_agree_over_all_recipients() {
    assert!(matches!(
        outgoing_identity(&Vec::new()),
        Err(IdentityError::NoRecipients)
    ));
    assert!(matches!(
        outgoing_identity(&vec![None]),
        Err(IdentityError::Classification)
    ));
    let mut mixed = proposal_identities(PartyId(0), &[PartyId(1)]);
    mixed.extend(request_identity(PartyId(0), PartyId(2)));
    assert!(matches!(
        outgoing_identity(&mixed),
        Err(IdentityError::InconsistentPersistence)
    ));
    assert!(matches!(
        outgoing_identity(&vec![Some(RecipientIdentity {
            keys: Vec::new(),
            persistence: MessagePersistence::Durable,
        })]),
        Err(IdentityError::MessageId)
    ));
    let identity = outgoing_identity(&proposal_identities(PartyId(0), &RECIPIENTS)).unwrap();
    assert!(same_id(
        &identity.message_id,
        &proposal_id(PartyId(0), &RECIPIENTS)
    ));
}

#[test]
fn acknowledged_messages_fill_one_slot() {
    let keys = vec![proposal_key(PartyId(0), PartyId(1))];
    assert_eq!(transport_ack_key(&keys, true), Ok(Some(keys[0])));
    assert_eq!(transport_ack_key(&keys, false), Ok(None));
    let two = vec![
        proposal_key(PartyId(0), PartyId(1)),
        proposal_key(PartyId(0), PartyId(2)),
    ];
    assert_eq!(
        transport_ack_key(&two, true),
        Err(TransportAckKeyCount { actual: 2 })
    );
}

#[test]
fn unusable_messages_of_the_log_are_left_out() {
    let self_party = PartyId(0);
    let outgoing = |recipients: &[PartyId], identities: Vec<Option<RecipientIdentity>>| {
        LoggedOutgoing {
            record: OutgoingRecord {
                message_id: proposal_id(self_party, recipients),
                recipients: recipients.to_vec(),
                payload: vec![TAG_PC_PROPOSAL, 0x11],
            },
            identities,
        }
    };
    let incoming = |payload: u8, identity: Option<MessageIdentity<DkgMessageId, DkgMessageKey>>| {
        LoggedIncoming {
            record: IncomingRecord {
                source: PartyId(3),
                message_id: DkgMessageId::single(ack_key(self_party, PartyId(3))),
                payload: vec![TAG_PC_ACK, payload],
            },
            identity,
        }
    };
    let other_slots = proposal_identities(self_party, &[PartyId(1)]);
    let store = DkgMessageStore::load(
        vec![
            outgoing(&[PartyId(2), PartyId(3)], other_slots),
            outgoing(&[PartyId(1)], vec![None]),
            outgoing(&RECIPIENTS, proposal_identities(self_party, &RECIPIENTS)),
            outgoing(&[PartyId(1)], proposal_identities(self_party, &[PartyId(1)])),
        ],
        vec![
            incoming(0, None),
            incoming(1, Some(ack_identity(self_party, PartyId(2)))),
            incoming(2, Some(ack_identity(self_party, PartyId(3)))),
            incoming(3, Some(ack_identity(self_party, PartyId(3)))),
        ],
        vec![(proposal_id(self_party, &RECIPIENTS), PartyId(2))],
    );
    assert!(store.is_complete(&proposal_id(self_party, &RECIPIENTS), PartyId(2)));
    assert!(!store.is_complete(&proposal_id(self_party, &RECIPIENTS), PartyId(1)));
    let sent = store.outgoing_records();
    assert_eq!(sent.len(), 1);
    assert_eq!(sent[0].recipients, RECIPIENTS.to_vec());
    let accepted = store.incoming_records();
    assert_eq!(accepted.len(), 1);
    assert_eq!(accepted[0].payload, vec![TAG_PC_ACK, 2]);
}

#[test]
fn only_new_durable_messages_are_written_first() {
    let self_party = PartyId(0);
    let mut store = MessageStore::new();
    let record = || IncomingRecord {
        source: PartyId(3),
        message_id: DkgMessageId::single(ack_key(self_party, PartyId(3))),
        payload: vec![TAG_PC_ACK, 0x44],
    };
    let durable = ack_identity(self_party, PartyId(3));
    let mut ephemeral = ack_identity(self_party, PartyId(3));
    ephemeral.persistence = MessagePersistence::Ephemeral;

    assert!(store.must_journal_incoming(&record(), &durable));
    assert!(!store.must_journal_incoming(&record(), &ephemeral));
    assert_eq!(
        store.accept_incoming(record(), &durable, Ok::<(), ()>(())).unwrap(),
        IncomingStatus::New
    );
    assert!(!store.must_journal_incoming(&record(), &durable));
}

#[test]
fn unwritten_completions_are_not_noted() {
    let self_party = PartyId(0);
    let (mut store, _) = filled_store();
    let key = proposal_key(self_party, PartyId(2));
    assert!(matches!(
        store.complete_key(&key, PartyId(2), Err("full")),
        Err("full")
    ));
    assert!(!store.is_complete(&proposal_id(self_party, &RECIPIENTS), PartyId(2)));
    // A slot that no message fills completes nothing, whatever the log says.
    let unknown = proposal_key(self_party, PartyId(9));
    assert!(matches!(
        store.complete_key(&unknown, PartyId(9), Err("full")),
        Ok(None)
    ));
}
