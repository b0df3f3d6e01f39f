use monad_runtime::chain::types::{BveQc, ChainCall, ChainEvent, DkgDoneQc, PcQc, QcSignature};
use monad_runtime::dkg::envelope::{DeliveryEnvelope, DeliveryMessage};
use monad_runtime::dkg::ids::{
    DkgMessageId, DkgMessageKey, DkgMessageKind, Epoch, NodeId, PartyId, RecordId,
};
use monad_runtime::dkg::message::{DkgMessage, OutgoingMessage};
use monad_runtime::dkg::peers::DkgPeerMap;
use monad_runtime::dkg::record::RecoveryRecord;
use monad_runtime::dkg::runner::{next_timer, split_effects};
use monad_runtime::dkg::session::{
    DecodedPayload, DkgEnginePhase, DkgSession, EngineEffect, PeerOutcome, RestoredMessage,
    SessionEffect, SessionError, SessionTask,
};

const TAG_PC_ACK: u8 = 2;

fn node(index: u8) -> NodeId {
    NodeId {
        key: [index + 1; 33],
    }
}

fn sig(signer: u32) -> QcSignature {
    QcSignature {
        signer: PartyId(signer),
        signature: [signer as u8; 64],
    }
}

/// A session, and an engine that answers every message alike and does nothing
/// else.
struct TestSession {
    session: DkgSession,
    peer_outcome: fn() -> PeerOutcome,
    journal: Vec<RecoveryRecord>,
    applied_events: Vec<RecordId>,
    applied_peers: usize,
    started: usize,
}

fn applied() -> PeerOutcome {
    PeerOutcome::Applied {
        effects: Vec::new(),
        phase: DkgEnginePhase::Vss,
    }
}

fn rejected() -> PeerOutcome {
    PeerOutcome::Rejected
}

impl TestSession {
    fn new(epoch: Epoch, outgoing: Vec<RestoredMessage>) -> Self {
        let peers = DkgPeerMap::new_ordered((0..4).map(node).collect()).unwrap();
        TestSession {
            session: DkgSession::new(
                epoch,
                PartyId(0),
                peers,
                Vec::new(),
                outgoing,
                DkgEnginePhase::Vss,
            ),
            peer_outcome: applied,
            journal: Vec::new(),
            applied_events: Vec::new(),
            applied_peers: 0,
            started: 0,
        }
    }

    fn recovered(epoch: Epoch) -> Self {
        let mut session = TestSession::new(epoch, Vec::new());
        session.session.finish_chain_recovery();
        session.run();
        session.session.take_effects();
        session
    }

    fn run(&mut self) {
        loop {
            match self.session.step(0).unwrap() {
                SessionTask::Idle => return,
                SessionTask::Continue => {}
                SessionTask::ApplyPeer { .. } => {
                    self.applied_peers += 1;
                    let outcome = (self.peer_outcome)();
                    self.session.peer_applied(outcome).unwrap();
                }
                SessionTask::ApplyChain(event) => {
                    self.applied_events.push(event.record_id());
                    self.session
                        .chain_applied(Some((Vec::new(), DkgEnginePhase::Vss)))
                        .unwrap();
                }
                SessionTask::StartEngine => {
                    self.started += 1;
                    self.session.engine_started(Some(Vec::new())).unwrap();
                }
                SessionTask::Append(record) => {
                    self.journal.push(record);
                    self.session.journaled(true).unwrap();
                }
            }
        }
    }
}

fn done_qc(epoch: Epoch) -> DkgDoneQc {
    DkgDoneQc {
        epoch: epoch.0,
        session_id: [0x55; 32],
        g2x: [0x44; 192],
        signatures: vec![sig(0), sig(1), sig(2)],
    }
}

fn bve_event(dealer: u32) -> ChainEvent {
    ChainEvent::BveQcFinalized {
        record_id: RecordId(100 + u64::from(dealer)),
        qc: BveQc {
            dealer: PartyId(dealer),
            digest: [dealer as u8; 32],
            commitment_digest: [dealer as u8 + 1; 32],
            signatures: vec![sig(0), sig(1), sig(2)],
        },
    }
}

#[test]
fn session_submits_chain_call_and_processes_finalized_event() {
    let epoch = Epoch(11);
    let mut session = TestSession::recovered(epoch);
    session
        .session
        .handle_chain_call(ChainCall::PostDkgResult(done_qc(epoch)));
    let effects = session.session.take_effects();
    assert_eq!(effects.len(), 1);
    let SessionEffect::Chain(ChainCall::PostDkgResult(submitted)) = &effects[0] else {
        panic!("expected DKG result chain effect");
    };
    assert_eq!(
        format!("{:?}", submitted),
        format!("{:?}", done_qc(epoch))
    );
    let journaled = session.journal.len();

    session
        .session
        .handle_chain_event(ChainEvent::DkgResultRecorded {
            record_id: RecordId(77),
            qc: done_qc(epoch),
        });
    session.run();
    assert_eq!(session.journal.len(), journaled);
    assert_eq!(session.applied_events, vec![RecordId(77)]);

    for dealer in 0..3 {
        session.session.handle_chain_event(bve_event(dealer));
    }
    session.run();
    assert_eq!(
        session.applied_events,
        vec![RecordId(77), RecordId(100), RecordId(101), RecordId(102)]
    );
}

fn ack_key() -> DkgMessageKey {
    DkgMessageKey::new(
        DkgMessageKind::PcAck,
        PartyId(0),
        PartyId(1),
        PartyId(0),
        0,
    )
}

fn ack_message() -> DkgMessage {
    let mut bytes = vec![TAG_PC_ACK];
    bytes.extend_from_slice(&[0; 96]);
    DkgMessage {
        kind: DkgMessageKind::PcAck,
        retrieval_dealer: None,
        bytes,
    }
}

fn deliver_ack(session: &mut TestSession) {
    session.session.handle_network_message(
        &node(1),
        DeliveryMessage::Data {
            message_id: DkgMessageId::single(ack_key()),
            payload: ack_message().bytes,
        },
        DecodedPayload::Message {
            message: ack_message(),
            keys: vec![ack_key()],
        },
    );
    session.run();
}

#[test]
fn protocol_rejection_is_not_persisted_or_dispatched() {
    let mut session = TestSession::recovered(Epoch(19));
    session.peer_outcome = rejected;

    for _ in 0..2 {
        deliver_ack(&mut session);
    }

    assert_eq!(session.applied_peers, 2);
    assert!(session.journal.is_empty());
    assert!(session.session.take_effects().is_empty());
}

#[test]
fn accepted_messages_are_journaled_and_acknowledged() {
    let mut session = TestSession::recovered(Epoch(19));
    deliver_ack(&mut session);

    assert_eq!(session.journal.len(), 1);
    let RecoveryRecord::Incoming { source, payload } = &session.journal[0] else {
        panic!("the message is journaled")
    };
    assert_eq!(*source, PartyId(1));
    assert_eq!(*payload, ack_message().bytes);
    let effects = session.session.take_effects();
    assert_eq!(effects.len(), 1);
    let SessionEffect::Acknowledgement { to, payload } = &effects[0] else {
        panic!("the message is acknowledged")
    };
    assert_eq!(to.key, node(1).key);
    assert_eq!(
        *payload,
        DeliveryEnvelope::ack(Epoch(19), DkgMessageId::single(ack_key())).encode()
    );
}

#[test]
fn messages_of_strangers_are_dropped() {
    let mut session = TestSession::recovered(Epoch(19));
    session.session.handle_network_message(
        &node(9),
        DeliveryMessage::Unacknowledged(vec![1]),
        DecodedPayload::Message {
            message: ack_message(),
            keys: vec![ack_key()],
        },
    );
    session.session.handle_network_message(
        &node(1),
        DeliveryMessage::Unacknowledged(vec![1]),
        DecodedPayload::Malformed,
    );
    session.run();
    assert_eq!(session.applied_peers, 0);
}

fn proposal(sender: u32) -> OutgoingMessage {
    let key = |receiver: u32| {
        Some(vec![DkgMessageKey::new(
            DkgMessageKind::PcProposal,
            PartyId(sender),
            PartyId(sender),
            PartyId(receiver),
            0,
        )])
    };
    OutgoingMessage {
        message: DkgMessage {
            kind: DkgMessageKind::PcProposal,
            retrieval_dealer: None,
            bytes: vec![1, 0x11],
        },
        identities: vec![None, key(1), key(2), key(3)],
    }
}

fn proposing() -> PeerOutcome {
    PeerOutcome::Applied {
        effects: vec![EngineEffect::Multicast {
            message: proposal(0),
        }],
        phase: DkgEnginePhase::Vss,
    }
}

#[test]
fn durable_messages_are_journaled_before_they_are_sent() {
    let mut session = TestSession::recovered(Epoch(19));
    session.peer_outcome = proposing;
    deliver_ack(&mut session);

    assert_eq!(session.journal.len(), 2);
    let RecoveryRecord::Outgoing {
        recipients,
        payload,
    } = &session.journal[1]
    else {
        panic!("the proposal is journaled")
    };
    assert_eq!(*recipients, vec![PartyId(1), PartyId(2), PartyId(3)]);
    assert_eq!(*payload, vec![1, 0x11]);
    let (deliveries, calls) = split_effects(session.session.take_effects());
    assert_eq!(deliveries.len(), 4);
    assert!(calls.is_empty());
    assert_eq!(session.session.pending_retry_count(), 3);
    let timer = session.session.next_timer().unwrap();
    assert_eq!(session.session.handle_timer(timer - 1), 0);
    assert!(session.session.handle_timer(timer) >= 1);

    session
        .session
        .handle_chain_event(ChainEvent::PcQc {
            record_id: RecordId(1),
            qc: PcQc {
                dealer: PartyId(0),
                digest: [1; 32],
                signatures: Vec::new(),
            },
        });
    session.run();
    assert_eq!(session.session.pending_retry_count(), 0);
}

#[test]
fn failed_journal_stops_the_message() {
    let mut session = TestSession::recovered(Epoch(19));
    session.session.handle_network_message(
        &node(1),
        DeliveryMessage::Data {
            message_id: DkgMessageId::single(ack_key()),
            payload: ack_message().bytes,
        },
        DecodedPayload::Message {
            message: ack_message(),
            keys: vec![ack_key()],
        },
    );
    loop {
        match session.session.step(0).unwrap() {
            SessionTask::Continue => {}
            SessionTask::ApplyPeer { .. } => {
                session.session.peer_applied(applied()).unwrap();
            }
            SessionTask::Append(_) => {
                assert_eq!(
                    session.session.journaled(false),
                    Err(SessionError::RecoveryWal)
                );
                break;
            }
            SessionTask::Idle | SessionTask::ApplyChain(_) | SessionTask::StartEngine => {
                panic!("the message is applied and journaled")
            }
        }
    }
    assert!(session.session.take_effects().is_empty());
}

#[test]
fn recovery_restores_the_outbox_before_the_engine_starts() {
    let mut session = TestSession::new(
        Epoch(4),
        vec![RestoredMessage::try_new(
            vec![PartyId(1), PartyId(2), PartyId(3)],
            proposal(0),
        )
        .unwrap()],
    );
    session.run();
    assert_eq!(session.started, 0);
    session.session.finish_chain_recovery();
    session.run();
    assert_eq!(session.started, 1);
    assert!(session.journal.is_empty());
    assert_eq!(session.session.pending_retry_count(), 3);
    assert_eq!(session.session.take_effects().len(), 3);
}

#[test]
fn acknowledgements_end_one_delivery() {
    let mut session = TestSession::recovered(Epoch(19));
    session.peer_outcome = proposing;
    deliver_ack(&mut session);
    assert_eq!(session.session.pending_retry_count(), 3);
    let keys = [1u32, 2, 3]
        .iter()
        .map(|receiver| {
            DkgMessageKey::new(
                DkgMessageKind::PcProposal,
                PartyId(0),
                PartyId(0),
                PartyId(*receiver),
                0,
            )
        })
        .collect::<Vec<_>>();
    session.session.handle_network_message(
        &node(2),
        DeliveryMessage::Ack(DkgMessageId::new(&keys).unwrap()),
        DecodedPayload::Malformed,
    );
    assert_eq!(session.session.pending_retry_count(), 2);
}

#[test]
fn the_earliest_timer_comes_first() {
    assert_eq!(next_timer(&vec![None, Some(7), Some(3)]), Some(3));
    assert_eq!(next_timer(&vec![None, None]), None);
}
