use monad_runtime::chain::types::{ChainCall, ChainEvent, PcQc};
use monad_runtime::dkg::delivery::{
    delivery_abort_group_for_chain_call, delivery_abort_group_for_chain_event,
    delivery_abort_group_for_peer_payload, dkg_retry, requires_transport_ack, DeliveryAbortGroup,
    DkgObsolescence,
};
use monad_runtime::dkg::envelope::{DeliveryEnvelope, DeliveryMessage, EnvelopeError};
use monad_runtime::dkg::ids::{
    DkgDeliveryPolicy, DkgMessageId, DkgMessageKey, DkgMessageKind, Epoch, NodeId, PartyId,
    RecordId,
};
use monad_runtime::dkg::message::{
    request_completed_by_response, DkgMessage, DurableDkgMessage, EphemeralMessage,
    OutgoingMessage,
};
use monad_runtime::dkg::peers::DkgPeerMap;
use monad_runtime::dkg::transport::{delivery_epoch, DeliveryEngine};
use monad_runtime::reliable::retry::ObsolescencePolicy;

fn node(byte: u8) -> NodeId {
    NodeId { key: [byte; 33] }
}

fn bve_proposal(dealer: u32) -> DkgMessageKey {
    DkgMessageKey::new(
        DkgMessageKind::BveProposal,
        PartyId(dealer),
        PartyId(dealer),
        PartyId(0),
        0,
    )
}

fn pc_ack(dealer: u32, signer: u32) -> DkgMessageKey {
    DkgMessageKey::new(
        DkgMessageKind::PcAck,
        PartyId(dealer),
        PartyId(signer),
        PartyId(dealer),
        0,
    )
}

#[test]
fn peer_map_authenticates_configured_validators() {
    let sender = node(1);
    let receiver = node(2);
    let peers = DkgPeerMap::new_ordered(vec![sender, receiver]).unwrap();

    assert_eq!(peers.party_id(&sender), Some(PartyId(0)));
    assert_eq!(peers.party_id(&receiver), Some(PartyId(1)));
    assert_eq!(peers.party_id(&node(3)), None);
}

#[test]
fn peer_map_refuses_repeated_members() {
    let Err(repeated) = DkgPeerMap::new_ordered(vec![node(1), node(2), node(1)]) else {
        panic!("a member is repeated")
    };
    assert_eq!(repeated.key, [1; 33]);
    let peers = DkgPeerMap::new_ordered(vec![node(5), node(6), node(7)]).unwrap();
    assert_eq!(peers.len(), 3);
    assert_eq!(peers.member_id(PartyId(2)).unwrap().key, [7; 33]);
    assert!(peers.member_id(PartyId(3)).is_none());
    assert_eq!(
        peers.other_parties(PartyId(1)),
        vec![PartyId(0), PartyId(2)]
    );
}

#[test]
fn delivery_envelope_round_trips() {
    let message_id = DkgMessageId::single(bve_proposal(1));
    let encoded =
        DeliveryEnvelope::data(Epoch(8), message_id, b"message".to_vec()).encode();

    let decoded = DeliveryEnvelope::decode(&encoded).unwrap();
    assert_eq!(decoded.epoch, Epoch(8));
    let DeliveryMessage::Data {
        message_id: decoded_id,
        payload,
    } = decoded.message
    else {
        panic!("expected reliable DKG data");
    };
    assert_eq!(decoded_id.key_list(), vec![bve_proposal(1)]);
    assert_eq!(payload, b"message".to_vec());
}

#[test]
fn acknowledgement_envelope_is_one_shot_control_traffic() {
    let message_id = DkgMessageId::single(bve_proposal(1));
    let encoded = DeliveryEnvelope::ack(Epoch(8), message_id).encode();

    let decoded = DeliveryEnvelope::decode(&encoded).unwrap();
    assert_eq!(decoded.epoch, Epoch(8));
    let DeliveryMessage::Ack(decoded_id) = decoded.message else {
        panic!("expected DKG acknowledgement");
    };
    assert_eq!(decoded_id.key_list(), vec![bve_proposal(1)]);
}

#[test]
fn unacknowledged_envelopes_carry_their_payload() {
    let encoded = DeliveryEnvelope::unacknowledged(Epoch(3), vec![1, 2, 3]).encode();
    assert_eq!(delivery_epoch(&encoded), Some(Epoch(3)));
    let DeliveryMessage::Unacknowledged(payload) =
        DeliveryEnvelope::decode(&encoded).unwrap().message
    else {
        panic!("expected unacknowledged DKG data")
    };
    assert_eq!(payload, vec![1, 2, 3]);
}

#[test]
fn malformed_envelopes_are_refused() {
    assert!(matches!(
        DeliveryEnvelope::decode(&vec![0x80]),
        Err(EnvelopeError::Rlp(_))
    ));
    // A list of the epoch 8 and an empty message.
    assert!(matches!(
        DeliveryEnvelope::decode(&vec![0xC2, 0x08, 0x80]),
        Err(EnvelopeError::Message)
    ));
}

#[test]
fn transport_acknowledgements_do_not_replace_sync_responses() {
    assert!(requires_transport_ack(DkgDeliveryPolicy::Durable));
    assert!(!requires_transport_ack(DkgDeliveryPolicy::Retry));
    assert!(!requires_transport_ack(DkgDeliveryPolicy::Once));
}

fn check_delivery_groups() {
    let dealer = PartyId(2);
    let peer = PartyId(3);
    assert_eq!(
        delivery_abort_group_for_peer_payload(DkgMessageKind::PcProposal, dealer, peer),
        Some(DeliveryAbortGroup::CommitmentQc(dealer))
    );
    assert_eq!(
        delivery_abort_group_for_peer_payload(DkgMessageKind::PcAck, peer, dealer),
        Some(DeliveryAbortGroup::CommitmentQc(dealer))
    );
    assert_eq!(
        delivery_abort_group_for_peer_payload(DkgMessageKind::BveProposal, dealer, peer),
        Some(DeliveryAbortGroup::BveQc(dealer))
    );
    assert_eq!(
        delivery_abort_group_for_peer_payload(DkgMessageKind::BveApprovalBatch, peer, dealer),
        Some(DeliveryAbortGroup::Vss)
    );
    assert_eq!(
        delivery_abort_group_for_peer_payload(
            DkgMessageKind::BveRetrievalRequest,
            PartyId(0),
            PartyId(1),
        ),
        Some(DeliveryAbortGroup::Extraction)
    );
    assert_eq!(
        delivery_abort_group_for_peer_payload(
            DkgMessageKind::BveRetrievalResponse,
            PartyId(0),
            PartyId(1),
        ),
        None
    );
    assert_eq!(
        delivery_abort_group_for_peer_payload(DkgMessageKind::Ladder, dealer, peer),
        None
    );
}

#[test]
fn session_delivery_tests_delivery_groups_use_typed_protocol_kind() {
    check_delivery_groups();
}

#[test]
fn transport_tests_delivery_groups_use_typed_protocol_kind() {
    check_delivery_groups();
}

fn check_vss_evidence() {
    assert!(DkgObsolescence::obsolete(
        &DeliveryAbortGroup::CommitmentQc(PartyId(0)),
        &DeliveryAbortGroup::Vss,
    ));
    assert!(DkgObsolescence::obsolete(
        &DeliveryAbortGroup::BveQc(PartyId(1)),
        &DeliveryAbortGroup::Vss,
    ));
    assert!(!DkgObsolescence::obsolete(
        &DeliveryAbortGroup::Extraction,
        &DeliveryAbortGroup::Vss,
    ));
}

#[test]
fn session_delivery_tests_vss_evidence_obsoletes_only_qc_scopes() {
    check_vss_evidence();
}

#[test]
fn transport_tests_vss_evidence_obsoletes_only_qc_scopes() {
    check_vss_evidence();
}

#[test]
fn certificates_belong_to_their_dealers_group() {
    let qc = || PcQc {
        dealer: PartyId(4),
        digest: [1; 32],
        signatures: Vec::new(),
    };
    assert_eq!(
        delivery_abort_group_for_chain_call(&ChainCall::PostPcQc(qc())),
        Some(DeliveryAbortGroup::CommitmentQc(PartyId(4)))
    );
    let event = ChainEvent::PcQc {
        record_id: RecordId(1),
        qc: qc(),
    };
    let group = delivery_abort_group_for_chain_event(&event);
    assert_eq!(group, DeliveryAbortGroup::CommitmentQc(PartyId(4)));
    assert!(!DkgObsolescence::obsolete(
        &DeliveryAbortGroup::CommitmentQc(PartyId(5)),
        &group
    ));
}

#[test]
fn configured_validator_sender_is_delivered() {
    let epoch = Epoch(8);
    let now = 1_000;
    let sender = node(1);
    let receiver = node(2);
    let mut sender_delivery = DeliveryEngine::new(epoch, &Vec::new());
    let receiver_delivery = DeliveryEngine::new(epoch, &vec![sender, receiver]);
    let Ok(outbound) = sender_delivery.schedule_reliable(
        DkgMessageId::single(pc_ack(2, 1)),
        vec![receiver],
        &b"pc-ack".to_vec(),
        None,
        now,
    ) else {
        panic!("the message is scheduled")
    };

    let inbound = receiver_delivery
        .handle_network_message(&sender, &outbound[0].payload)
        .expect("payload delivered from configured validator");
    assert_eq!(inbound.sender.key, sender.key);
    assert_eq!(inbound.payload, b"pc-ack".to_vec());

    let rejected = DeliveryEngine::new(epoch, &vec![receiver]);
    assert!(rejected
        .handle_network_message(&sender, &outbound[0].payload)
        .is_none());
}

#[test]
fn send_once_does_not_schedule_a_retry() {
    let epoch = Epoch(8);
    let sender = node(1);
    let receiver = node(2);
    let sender_delivery = DeliveryEngine::new(epoch, &Vec::new());
    let receiver_delivery = DeliveryEngine::new(epoch, &vec![sender]);

    let outbound = sender_delivery.schedule_once(&receiver, &b"response".to_vec());

    assert_eq!(outbound.to.key, receiver.key);
    assert!(sender_delivery.next_timer().is_none());
    let inbound = receiver_delivery
        .handle_network_message(&sender, &outbound.payload)
        .unwrap();
    assert_eq!(inbound.payload, b"response".to_vec());
}

#[test]
fn reliable_deliveries_are_retried_until_they_end() {
    let mut engine = DeliveryEngine::new(Epoch(8), &Vec::new());
    let id = || DkgMessageId::single(pc_ack(2, 1));
    let group = DeliveryAbortGroup::CommitmentQc(PartyId(2));
    let Ok(sent) = engine.schedule_reliable(id(), vec![node(2)], &vec![1], Some(group), 0) else {
        panic!("the message is scheduled")
    };
    assert_eq!(sent.len(), 1);
    let timer = engine.next_timer().unwrap();
    let config = dkg_retry();
    assert!(timer >= config.initial && timer <= config.initial + config.max_jitter);
    assert!(engine.handle_timer(timer - 1).is_empty());
    let resent = engine.handle_timer(timer);
    assert_eq!(resent[0].payload, sent[0].payload);

    engine.abort_group(group);
    assert!(engine.next_timer().is_none());
    let Ok(late) = engine.schedule_reliable(id(), vec![node(2)], &vec![1], Some(group), 0) else {
        panic!("an obsolete message is no error")
    };
    assert!(late.is_empty());
}

#[test]
fn completed_deliveries_have_no_timer() {
    let mut engine = DeliveryEngine::new(Epoch(8), &Vec::new());
    let id = || DkgMessageId::single(pc_ack(2, 1));
    assert!(engine
        .schedule_reliable(id(), vec![node(2), node(3)], &vec![1], None, 0)
        .is_ok());
    engine.complete(&id());
    assert!(engine.next_timer().is_none());
}

#[test]
fn messages_of_another_epoch_are_not_delivered() {
    let sender = node(1);
    let outbound = DeliveryEngine::new(Epoch(7), &Vec::new()).schedule_once(&node(2), &vec![1]);
    let receiver = DeliveryEngine::new(Epoch(8), &vec![sender]);
    assert!(receiver
        .handle_network_message(&sender, &outbound.payload)
        .is_none());
}

#[test]
fn retrieval_response_completes_its_request() {
    let dealer = PartyId(2);
    let requester = PartyId(0);
    let responder = PartyId(1);
    let response = DkgMessage {
        kind: DkgMessageKind::PcRetrievalResponse,
        retrieval_dealer: Some(dealer),
        bytes: Vec::new(),
    };

    assert_eq!(
        request_completed_by_response(&response, requester, responder)
            .unwrap()
            .key_list(),
        vec![DkgMessageKey::new(
            DkgMessageKind::PcRetrievalRequest,
            dealer,
            requester,
            responder,
            0,
        )]
    );
    let proposal = DkgMessage {
        kind: DkgMessageKind::PcProposal,
        retrieval_dealer: None,
        bytes: Vec::new(),
    };
    assert!(request_completed_by_response(&proposal, requester, responder).is_none());
}

#[test]
fn durable_message_rejects_ephemeral_protocol_traffic() {
    let request = DkgMessage {
        kind: DkgMessageKind::BveRetrievalRequest,
        retrieval_dealer: Some(PartyId(1)),
        bytes: vec![1],
    };
    assert!(matches!(
        DurableDkgMessage::try_from(request),
        Err(EphemeralMessage(DkgMessageKind::BveRetrievalRequest))
    ));
    let proposal = DkgMessage {
        kind: DkgMessageKind::BveProposal,
        retrieval_dealer: None,
        bytes: vec![2],
    };
    let durable = DurableDkgMessage::try_from(proposal).unwrap();
    assert_eq!(durable.as_message().kind, DkgMessageKind::BveProposal);
    assert_eq!(durable.into_message().bytes, vec![2]);
}

#[test]
fn outgoing_slots_are_those_of_all_recipients() {
    let message = OutgoingMessage {
        message: DkgMessage {
            kind: DkgMessageKind::PcAck,
            retrieval_dealer: None,
            bytes: vec![1],
        },
        identities: vec![
            None,
            Some(vec![pc_ack(1, 0)]),
            Some(vec![pc_ack(2, 0)]),
        ],
    };
    assert_eq!(
        message
            .message_id(&vec![PartyId(1), PartyId(2)])
            .unwrap()
            .key_list(),
        vec![pc_ack(1, 0), pc_ack(2, 0)]
    );
    assert!(message.message_id(&vec![PartyId(0)]).is_none());
}

#[test]
fn policies_follow_the_message_kind() {
    assert_eq!(
        DkgMessageKind::PcProposal.delivery_policy(),
        DkgDeliveryPolicy::Durable
    );
    assert_eq!(
        DkgMessageKind::PcRetrievalRequest.delivery_policy(),
        DkgDeliveryPolicy::Retry
    );
    assert_eq!(
        DkgMessageKind::BveRetrievalResponse.delivery_policy(),
        DkgDeliveryPolicy::Once
    );
    assert!(DkgMessageKind::BveRetrievalResponse.is_sync());
    assert!(!DkgMessageKind::Done.is_sync());
}
