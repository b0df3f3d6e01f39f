use monad_runtime::chain::types::{BveQc, ChainCall, ChainEvent, DkgDoneQc, QcSignature};
use monad_runtime::dkg::envelope::{DeliveryEnvelope, DeliveryMessage};
use monad_runtime::dkg::ids::{
    DkgMessageId, DkgMessageKey, DkgMessageKind, Epoch, NodeId, PartyId, RecordId,
};
use monad_runtime::dkg::message::DkgMessage;
use monad_runtime::dkg::message_store::{DkgMessageStore, IdentityError, RecipientIdentity};
use monad_runtime::dkg::peers::DkgPeerMap;
use monad_runtime::dkg::protocol::{
    DeferredSend, DeliveryAction, PeerIdentity, PeerPayload, Runner, RunnerDelivery, RunnerEffect,
    RunnerError, RunnerOutcome, RunnerTask,
};
use monad_runtime::dkg::record::{RecordPart, RecoveryRecord, WalCodecError};
use monad_runtime::dkg::recovery::{RecoveryState, MAX_RECOVERY_RECORD_BYTES};
use monad_runtime::dkg::runner_record::{RunnerRecord, COMPLETION_KIND};
use monad_runtime::dkg::session::{DkgEnginePhase, EngineAction, SessionEffect};
use monad_runtime::reliable::message::{MessageIdentity, MessagePersistence};
use monad_runtime::wal::{frame_record, scan_records, WalRecord, FRAME_HEADER_LEN};

const EPOCH: Epoch = Epoch(19);
const TAG_PC_ACK: u8 = 2;

fn node(index: u8) -> NodeId {
    NodeId {
        key: [index + 1; 33],
    }
}

fn sig(signer: u32) -> QcSignature {
    QcSignature {
        signer: PartyId(signer),
        signature: [signer as u8; 64],
    }
}

fn key(kind: DkgMessageKind, dealer: u32, source: u32, target: u32) -> DkgMessageKey {
    DkgMessageKey::new(kind, PartyId(dealer), PartyId(source), PartyId(target), 0)
}

fn identity(key: DkgMessageKey, completes: Vec<(DkgMessageKey, PartyId)>) -> PeerIdentity {
    PeerIdentity {
        slots: MessageIdentity {
            message_id: DkgMessageId::single(key),
            keys: vec![key],
            persistence: MessagePersistence::Durable,
        },
        requires_transport_ack: true,
        completes,
    }
}

fn proposal_key(receiver: u32) -> DkgMessageKey {
    key(DkgMessageKind::PcProposal, 0, 0, receiver)
}

fn proposal_id() -> DkgMessageId {
    DkgMessageId::new(&vec![proposal_key(1), proposal_key(2), proposal_key(3)]).unwrap()
}

fn proposal() -> RunnerEffect {
    RunnerEffect::Multicast {
        message: DkgMessage {
            kind: DkgMessageKind::PcProposal,
            retrieval_dealer: None,
            bytes: vec![1, 0x11],
        },
        identities: [1, 2, 3]
            .iter()
            .map(|receiver| {
                Some(RecipientIdentity {
                    keys: vec![proposal_key(*receiver)],
                    persistence: MessagePersistence::Durable,
                })
            })
            .collect(),
        local: None,
    }
}

fn ladder(known: bool) -> RunnerEffect {
    let ladder_key = |target| key(DkgMessageKind::OpenPower, 0, 0, target);
    RunnerEffect::Multicast {
        message: DkgMessage {
            kind: DkgMessageKind::OpenPower,
            retrieval_dealer: None,
            bytes: vec![9],
        },
        identities: [1, 2, 3]
            .iter()
            .map(|target| {
                Some(RecipientIdentity {
                    keys: vec![ladder_key(*target)],
                    persistence: MessagePersistence::Durable,
                })
            })
            .collect(),
        local: known.then(|| identity(ladder_key(0), Vec::new())),
    }
}

fn nothing() -> Vec<RunnerEffect> {
    Vec::new()
}

fn one_proposal() -> Vec<RunnerEffect> {
    vec![proposal()]
}

/// A runner, and an engine that answers every message with the same effects.
struct TestRunner {
    runner: Runner,
    reject: bool,
    effects: fn() -> Vec<RunnerEffect>,
    start: fn() -> Vec<RunnerEffect>,
    phase: DkgEnginePhase,
    journal: Vec<RunnerRecord>,
    applied_peers: Vec<PartyId>,
    applied_events: Vec<RecordId>,
    order: Vec<&'static str>,
}

impl TestRunner {
    fn new(deferred: Vec<DeferredSend>, wait: bool) -> Self {
        TestRunner::with_store(DkgMessageStore::new(), deferred, wait)
    }

    fn with_store(store: DkgMessageStore, deferred: Vec<DeferredSend>, wait: bool) -> Self {
        let peers = DkgPeerMap::new_ordered((0..4).map(node).collect()).unwrap();
        TestRunner {
            runner: Runner::new(
                EPOCH,
                PartyId(0),
                peers,
                store,
                Vec::new(),
                deferred,
                DkgEnginePhase::Vss,
                wait,
            ),
            reject: false,
            effects: nothing,
            start: nothing,
            phase: DkgEnginePhase::Vss,
            journal: Vec::new(),
            applied_peers: Vec::new(),
            applied_events: Vec::new(),
            order: Vec::new(),
        }
    }

    fn recovered() -> Self {
        let mut test = TestRunner::new(Vec::new(), true);
        test.runner.finish_chain_recovery();
        test.run().unwrap();
        test.runner.take_effects();
        test
    }

    fn run(&mut self) -> Result<(), RunnerError> {
        loop {
            match self.runner.step(0)? {
                RunnerTask::Idle => return Ok(()),
                RunnerTask::Continue => {}
                RunnerTask::ApplyPeer { source, .. } => {
                    self.applied_peers.push(source);
                    self.order.push("peer");
                    let outcome = if self.reject {
                        RunnerOutcome::Rejected
                    } else {
                        RunnerOutcome::Applied {
                            effects: (self.effects)(),
                            phase: self.phase,
                        }
                    };
                    self.runner.peer_applied(outcome)?;
                }
                RunnerTask::ApplyChain(event) => {
                    self.applied_events.push(event.record_id());
                    self.order.push("chain");
                    self.runner.chain_applied(Some((Vec::new(), self.phase)))?;
                }
                RunnerTask::StartEngine => {
                    self.order.push("start");
                    self.runner.engine_started(Some((self.start)()))?;
                }
                RunnerTask::TellPhase => {
                    self.order.push("phase");
                    self.runner.phase_told(self.phase);
                }
                RunnerTask::Append(record) => {
                    self.journal.push(record);
                    self.runner.journaled(true, 0)?;
                }
            }
        }
    }

    fn deliver(&mut self, from: u8, bytes: Vec<u8>, identity: PeerIdentity) {
        self.runner
            .handle_network_message(
                &node(from),
                RunnerDelivery::Data(PeerPayload::Message(
                    DkgMessage {
                        kind: DkgMessageKind::PcAck,
                        retrieval_dealer: None,
                        bytes,
                    },
                    identity,
                )),
            )
            .unwrap();
    }

    fn deliver_ack(&mut self, last: u8) {
        let mut bytes = vec![TAG_PC_ACK];
        bytes.extend_from_slice(&[0; 95]);
        bytes.push(last);
        self.deliver(
            1,
            bytes,
            identity(
                key(DkgMessageKind::PcAck, 0, 1, 0),
                vec![(proposal_key(1), PartyId(1))],
            ),
        );
    }
}

fn done_qc(epoch: Epoch) -> DkgDoneQc {
    DkgDoneQc {
        epoch: epoch.0,
        session_id: [0; 32],
        g2x: [0x44; 192],
        signatures: vec![sig(0), sig(1), sig(2)],
    }
}

fn bve_event(dealer: u32) -> ChainEvent {
    ChainEvent::BveQcFinalized {
        record_id: RecordId(100 + u64::from(dealer)),
        qc: BveQc {
            dealer: PartyId(dealer),
            digest: [dealer as u8; 32],
            commitment_digest: [dealer as u8 + 1; 32],
            signatures: vec![sig(0), sig(1), sig(2)],
        },
    }
}

#[test]
fn runner_submits_chain_call_and_processes_finalized_event() {
    let epoch = Epoch(11);
    let mut test = TestRunner::recovered();

    test.runner
        .handle_chain_call(ChainCall::PostDkgResult(done_qc(epoch)));
    let effects = test.runner.take_effects();
    assert_eq!(effects.len(), 1);
    let SessionEffect::Chain(ChainCall::PostDkgResult(submitted)) = &effects[0] else {
        panic!("expected DKG result chain effect");
    };
    assert_eq!(format!("{:?}", submitted), format!("{:?}", done_qc(epoch)));
    let journaled = test.journal.len();

    test.runner
        .handle_chain_event(ChainEvent::DkgResultRecorded {
            record_id: RecordId(77),
            qc: done_qc(epoch),
        })
        .unwrap();
    test.run().unwrap();
    assert_eq!(test.journal.len(), journaled);
    assert_eq!(test.applied_events, vec![RecordId(77)]);

    for dealer in 0..3 {
        test.runner.handle_chain_event(bve_event(dealer)).unwrap();
    }
    test.run().unwrap();
    assert_eq!(
        test.applied_events,
        vec![RecordId(77), RecordId(100), RecordId(101), RecordId(102)]
    );
}

#[test]
fn chain_records_are_applied_once() {
    let mut test = TestRunner::recovered();
    test.runner.handle_chain_event(bve_event(1)).unwrap();
    test.runner.handle_chain_event(bve_event(1)).unwrap();
    test.run().unwrap();
    assert_eq!(test.applied_events, vec![RecordId(101)]);
    let conflicting = ChainEvent::DkgResultRecorded {
        record_id: RecordId(101),
        qc: done_qc(EPOCH),
    };
    assert_eq!(
        test.runner.handle_chain_event(conflicting),
        Err(RunnerError::ConflictingChainRecord { record_id: 101 })
    );
}

#[test]
fn protocol_rejection_is_not_persisted_or_acknowledged() {
    let mut test = TestRunner::recovered();
    test.reject = true;
    let mut sender = TestRunner::recovered();
    sender.effects = || {
        vec![RunnerEffect::Unicast {
            to: PartyId(1),
            message: invalid_ack(),
            identities: vec![Some(RecipientIdentity {
                keys: vec![key(DkgMessageKind::PcAck, 0, 1, 0)],
                persistence: MessagePersistence::Durable,
            })],
        }]
    };
    sender.deliver(
        2,
        vec![5],
        identity(key(DkgMessageKind::PcProposal, 2, 2, 0), Vec::new()),
    );
    sender.run().unwrap();
    let wire = sender
        .runner
        .take_effects()
        .into_iter()
        .find_map(|effect| match effect {
            SessionEffect::Network { payload, .. } => Some(payload),
            _ => None,
        })
        .unwrap();
    let DeliveryMessage::Data { payload, .. } = DeliveryEnvelope::decode(&wire).unwrap().message
    else {
        panic!("the message is sent")
    };
    assert_eq!(payload, invalid_ack().bytes);

    for _ in 0..2 {
        test.deliver(
            1,
            payload.clone(),
            identity(
                key(DkgMessageKind::PcAck, 0, 1, 0),
                vec![(proposal_key(1), PartyId(1))],
            ),
        );
        test.run().unwrap();
    }

    assert_eq!(test.applied_peers, vec![PartyId(1), PartyId(1)]);
    assert!(test.journal.is_empty());
    assert!(test.runner.take_effects().is_empty());
    assert!(sender.runner.next_timer().is_some());
}

fn invalid_ack() -> DkgMessage {
    let mut bytes = vec![TAG_PC_ACK];
    bytes.extend_from_slice(&[0; 96]);
    DkgMessage {
        kind: DkgMessageKind::PcAck,
        retrieval_dealer: None,
        bytes,
    }
}

#[test]
fn known_messages_are_acknowledged_again() {
    let mut test = TestRunner::recovered();
    test.deliver_ack(0);
    test.run().unwrap();
    assert_eq!(test.applied_peers.len(), 1);
    assert_eq!(test.journal.len(), 1);
    let effects = test.runner.take_effects();
    let SessionEffect::Acknowledgement { to, payload } = &effects[0] else {
        panic!("the message is acknowledged")
    };
    assert_eq!(to.key, node(1).key);
    assert_eq!(
        *payload,
        DeliveryEnvelope::ack(
            EPOCH,
            DkgMessageId::single(key(DkgMessageKind::PcAck, 0, 1, 0))
        )
        .encode()
    );

    test.deliver_ack(0);
    test.run().unwrap();
    assert_eq!(test.applied_peers.len(), 1);
    assert_eq!(test.runner.take_effects().len(), 1);

    test.deliver_ack(1);
    test.run().unwrap();
    assert_eq!(test.applied_peers.len(), 1);
    assert!(test.runner.take_effects().is_empty());
}

#[test]
fn answers_end_the_deliveries_that_they_answer() {
    let mut test = TestRunner::recovered();
    test.effects = one_proposal;
    test.deliver(
        2,
        vec![5],
        identity(key(DkgMessageKind::PcAck, 0, 2, 0), Vec::new()),
    );
    test.run().unwrap();
    assert_eq!(test.journal.len(), 2);
    let RunnerRecord::Session(RecoveryRecord::Outgoing {
        recipients,
        payload,
    }) = &test.journal[1]
    else {
        panic!("the proposal is journaled")
    };
    assert_eq!(*recipients, vec![PartyId(1), PartyId(2), PartyId(3)]);
    assert_eq!(*payload, vec![1, 0x11]);
    assert_eq!(test.runner.take_effects().len(), 4);

    // The slots of the proposal are filled, so it is not sent again.
    test.deliver_ack(0);
    test.run().unwrap();
    assert_eq!(test.journal.len(), 4);
    assert!(completes(&test.journal[3], 1));
    assert_eq!(test.runner.take_effects().len(), 1);
    let timer = test.runner.next_timer().unwrap();
    assert_eq!(test.runner.handle_timer(timer + 1_000_000_000), 2);

    for sender in [2, 3] {
        test.runner
            .handle_network_message(
                &node(sender),
                RunnerDelivery::TransportAck(proposal_key(u32::from(sender))),
            )
            .unwrap();
        // The delivery goes on until the completion is in the log.
        assert!(test.runner.next_timer().is_some());
        test.run().unwrap();
        assert!(completes(test.journal.last().unwrap(), u32::from(sender)));
    }
    assert_eq!(test.journal.len(), 6);
    assert!(test.runner.next_timer().is_none());

    // A second acknowledgement is no news.
    test.runner
        .handle_network_message(&node(3), RunnerDelivery::TransportAck(proposal_key(3)))
        .unwrap();
    test.run().unwrap();
    assert_eq!(test.journal.len(), 6);
}

fn completes(record: &RunnerRecord, party: u32) -> bool {
    match record {
        RunnerRecord::Completion { message_id, target } => {
            message_id.key_list() == proposal_id().key_list() && *target == PartyId(party)
        }
        RunnerRecord::Session(_) => false,
    }
}

fn sent_proposal() -> TestRunner {
    let mut test = TestRunner::recovered();
    test.effects = one_proposal;
    test.deliver(
        2,
        vec![5],
        identity(key(DkgMessageKind::PcAck, 0, 2, 0), Vec::new()),
    );
    test.run().unwrap();
    assert_eq!(test.runner.take_effects().len(), 4);
    test
}

#[test]
fn completions_that_the_log_does_not_take_are_not_noted() {
    let mut test = sent_proposal();
    let acknowledge = |test: &mut TestRunner| {
        test.runner
            .handle_network_message(&node(1), RunnerDelivery::TransportAck(proposal_key(1)))
            .unwrap();
        let Ok(RunnerTask::Append(record)) = test.runner.step(0) else {
            panic!("the completion is logged")
        };
        assert!(completes(&record, 1));
        assert!(!test.runner.is_ready());
    };
    assert!(test.runner.is_ready());
    acknowledge(&mut test);
    assert_eq!(
        test.runner.journaled(false, 0),
        Err(RunnerError::RecoveryWal)
    );
    // It is asked for again.
    acknowledge(&mut test);
    test.runner.journaled(true, 0).unwrap();
    let timer = test.runner.next_timer().unwrap();
    assert_eq!(test.runner.handle_timer(timer + 1_000_000_000), 2);
}

#[test]
fn logged_completions_are_not_sent_after_a_restart() {
    let mut test = sent_proposal();
    test.deliver_ack(0);
    test.run().unwrap();

    let mut log: Vec<u8> = Vec::new();
    for record in &test.journal {
        log.extend_from_slice(&frame_record(record, MAX_RECOVERY_RECORD_BYTES).unwrap());
    }
    let (records, valid) = scan_records::<RunnerRecord>(&log, MAX_RECOVERY_RECORD_BYTES).unwrap();
    assert_eq!(valid, log.len());
    let recovered = records
        .into_iter()
        .filter_map(|record| {
            let message_id = match &record {
                RunnerRecord::Session(RecoveryRecord::Outgoing { .. }) => Some(proposal_id()),
                RunnerRecord::Session(RecoveryRecord::Incoming { source, .. }) => Some(
                    DkgMessageId::single(key(DkgMessageKind::PcAck, 0, source.0, 0)),
                ),
                _ => None,
            };
            record.recovered(message_id)
        })
        .collect();
    let state = RecoveryState::from_records(recovered).unwrap();
    let completions = state.completions();
    assert_eq!(completions.len(), 1);
    assert_eq!(completions[0].1, PartyId(1));
    let store = DkgMessageStore::load(Vec::new(), Vec::new(), completions);

    let deferred = state
        .outbox_ids()
        .into_iter()
        .flat_map(|message_id| {
            let record = state.outgoing(&message_id).unwrap();
            record
                .recipients
                .iter()
                .map(|to| DeferredSend {
                    message_id: DkgMessageId::new(&message_id.key_list()).unwrap(),
                    to: *to,
                    kind: DkgMessageKind::PcProposal,
                    payload: record.payload.clone(),
                })
                .collect::<Vec<_>>()
        })
        .collect();
    let mut restarted = TestRunner::with_store(store, deferred, false);
    restarted.run().unwrap();
    let sent: Vec<[u8; 33]> = restarted
        .runner
        .take_effects()
        .iter()
        .map(|effect| match effect {
            SessionEffect::Network { to, .. } => to.key,
            _ => panic!("only messages are sent"),
        })
        .collect();
    assert_eq!(sent, vec![node(2).key, node(3).key]);
}

#[test]
fn completion_records_are_read_back() {
    let record = RunnerRecord::Completion {
        message_id: proposal_id(),
        target: PartyId(3),
    };
    let payload = record.encode().unwrap();
    assert_eq!(payload[0], COMPLETION_KIND);
    assert!(completes(&RunnerRecord::decode(&payload).unwrap(), 3));
    // The log of a session holds no completions.
    assert!(matches!(
        RecoveryRecord::decode(&payload),
        Err(WalCodecError::UnknownRecordKind(COMPLETION_KIND))
    ));
    let frame = frame_record(&record, MAX_RECOVERY_RECORD_BYTES).unwrap();
    assert_eq!(frame[FRAME_HEADER_LEN as usize..], payload[..]);

    // A list of party 3 and a delivery that is no acknowledgement.
    let data = DeliveryMessage::Data {
        message_id: proposal_id(),
        payload: vec![7],
    }
    .encode();
    let mut body = vec![3u8, 0xb8, data.len() as u8];
    body.extend_from_slice(&data);
    let mut payload = vec![COMPLETION_KIND, 0xf8, body.len() as u8];
    payload.extend_from_slice(&body);
    assert!(matches!(
        RunnerRecord::decode(&payload),
        Err(WalCodecError::Invalid(RecordPart::Completion))
    ));
    assert!(matches!(
        RunnerRecord::decode(&vec![COMPLETION_KIND]),
        Err(WalCodecError::Rlp(_))
    ));
}

#[test]
fn own_conversions_come_back_before_peer_messages() {
    let mut test = TestRunner::new(Vec::new(), true);
    test.start = || vec![ladder(true)];
    test.deliver_ack(0);
    test.runner.handle_chain_event(bve_event(0)).unwrap();
    test.run().unwrap();
    assert!(test.order.is_empty());
    test.runner.finish_chain_recovery();
    test.run().unwrap();
    assert_eq!(test.order, vec!["chain", "start", "peer", "peer"]);
    assert_eq!(test.applied_peers, vec![PartyId(0), PartyId(1)]);
}

#[test]
fn conversions_without_identity_fail_the_start() {
    let mut test = TestRunner::new(Vec::new(), true);
    test.start = || vec![ladder(false)];
    test.runner.finish_chain_recovery();
    assert_eq!(
        test.run(),
        Err(RunnerError::Identity(IdentityError::Classification))
    );
    // The start waits for the chain again.
    test.run().unwrap();
    assert_eq!(test.order, vec!["start"]);
}

#[test]
fn deferred_messages_are_sent_after_the_start() {
    let send = |to: u32| DeferredSend {
        message_id: proposal_id(),
        to: PartyId(to),
        kind: DkgMessageKind::PcProposal,
        payload: vec![1, 0x11],
    };
    let mut test = TestRunner::new(vec![send(1), send(2), send(9)], false);
    test.run().unwrap();
    assert_eq!(test.order, vec!["start", "phase"]);
    let effects = test.runner.take_effects();
    assert_eq!(effects.len(), 2);
    let SessionEffect::Network { to, payload } = &effects[1] else {
        panic!("the message is sent")
    };
    assert_eq!(to.key, node(2).key);
    assert_eq!(
        *payload,
        DeliveryEnvelope::data(EPOCH, proposal_id(), vec![1, 0x11]).encode()
    );
    assert!(test.journal.is_empty());
}

#[test]
fn a_phase_that_ends_with_the_start_ends_its_deliveries() {
    for (phase, outstanding) in [
        (DkgEnginePhase::Vss, true),
        (DkgEnginePhase::Extraction, false),
    ] {
        let mut test = TestRunner::new(
            vec![DeferredSend {
                message_id: proposal_id(),
                to: PartyId(1),
                kind: DkgMessageKind::PcProposal,
                payload: vec![1, 0x11],
            }],
            false,
        );
        test.phase = phase;
        test.run().unwrap();
        assert_eq!(test.order, vec!["start", "phase"]);
        assert_eq!(test.runner.take_effects().len(), 1);
        assert_eq!(test.runner.next_timer().is_some(), outstanding);
    }
}

#[test]
fn messages_to_strangers_are_refused() {
    let mut test = TestRunner::recovered();
    test.effects = || {
        vec![RunnerEffect::Unicast {
            to: PartyId(7),
            message: DkgMessage {
                kind: DkgMessageKind::PcAck,
                retrieval_dealer: None,
                bytes: vec![3],
            },
            identities: Vec::new(),
        }]
    };
    test.deliver_ack(0);
    assert_eq!(
        test.run(),
        Err(RunnerError::UnknownParty {
            action: DeliveryAction::SendTo,
            party: 7
        })
    );
}

#[test]
fn transport_acknowledgements_name_one_slot() {
    let mut test = TestRunner::recovered();
    let mut two = identity(key(DkgMessageKind::PcAck, 0, 1, 0), Vec::new());
    two.slots.keys.push(key(DkgMessageKind::PcAck, 1, 1, 0));
    assert_eq!(
        test.runner.handle_network_message(
            &node(1),
            RunnerDelivery::Data(PeerPayload::Message(
                DkgMessage {
                    kind: DkgMessageKind::PcAck,
                    retrieval_dealer: None,
                    bytes: vec![3],
                },
                two
            ))
        ),
        Err(RunnerError::TransportAckKeyCount { actual: 2 })
    );
}

#[test]
fn engine_failures_are_reported() {
    let mut test = TestRunner::recovered();
    test.runner.handle_chain_event(bve_event(1)).unwrap();
    let Ok(RunnerTask::ApplyChain(_)) = test.runner.step(0) else {
        panic!("the event is applied")
    };
    assert_eq!(
        test.runner.chain_applied(None),
        Err(RunnerError::Engine {
            action: EngineAction::HandleChainInput
        })
    );
}

#[test]
fn failed_log_keeps_the_message_out() {
    let mut test = TestRunner::recovered();
    test.deliver_ack(0);
    let Ok(RunnerTask::ApplyPeer { .. }) = test.runner.step(0) else {
        panic!("the message is applied")
    };
    test.runner
        .peer_applied(RunnerOutcome::Applied {
            effects: Vec::new(),
            phase: DkgEnginePhase::Vss,
        })
        .unwrap();
    let Ok(RunnerTask::Append(_)) = test.runner.step(0) else {
        panic!("the message is logged")
    };
    assert_eq!(
        test.runner.journaled(false, 0),
        Err(RunnerError::RecoveryWal)
    );
    test.deliver_ack(0);
    test.run().unwrap();
    assert_eq!(test.applied_peers.len(), 1);
}
