use monad_runtime::chain::codec::{
    point_from_contract, point_to_contract, record_to_chain_event, signatures_to_contract,
    ContractBveQc, ContractCodecError, ContractDkgRecord, ContractDkgResult, ContractPcQc,
    ContractQcSignature, ContractRecordKind, ContractRegistration, StoredRecordError,
};
use monad_runtime::chain::types::{
    chain_call_kind, chain_event_kind, BveQc, ChainCall, ChainEvent, DkgDoneQc, PcQc, QcSignature,
    RegistrationCall,
};
use monad_runtime::dkg::ids::{Address, PartyId, RecordId};

fn address(byte: u8) -> Address {
    Address { bytes: [byte; 20] }
}

fn registration(address: Address, nonce: u64) -> RegistrationCall {
    let mut receiver_public_key = [0x5A; 33];
    receiver_public_key[0] = 0x02;
    let mut receiver_proof = [0x71; 64];
    receiver_proof[40] = 0x72;
    RegistrationCall {
        address,
        qc_verifier: Address { bytes: [0x11; 20] },
        receiver_public_key,
        receiver_proof_nonce: nonce,
        receiver_proof,
    }
}

fn contract_signature(signer: u32) -> ContractQcSignature {
    ContractQcSignature {
        signer,
        r: [(signer as u8).wrapping_add(1); 32],
        s: [(signer as u8).wrapping_add(2); 32],
    }
}

fn signature(signer: u32) -> QcSignature {
    let mut bytes = [signer as u8; 64];
    bytes[63] = 0xEE;
    QcSignature {
        signer: PartyId(signer),
        signature: bytes,
    }
}

#[test]
fn bindings_registration_boundary_round_trips_protocol_encoding() {
    let address = address(0xA5);
    let registration = registration(address, 7);

    let contract = ContractRegistration::try_from(&registration, address).unwrap();

    assert!(contract
        .into_registration(address)
        .unwrap()
        .same(&registration));
}

#[test]
fn mod_registration_boundary_round_trips_protocol_encoding() {
    let address = address(0xA5);
    let registration = registration(address, 7);

    let contract = ContractRegistration::try_from(&registration, address).unwrap();

    assert_eq!(contract.receiver_public_key.prefix, 0x02);
    assert_eq!(contract.receiver_public_key.x, [0x5A; 32]);
    assert_eq!(contract.receiver_proof_nonce, 7);
    assert_eq!(contract.receiver_proof_r, [0x71; 32]);
    assert_eq!(contract.receiver_proof_s[8], 0x72);
    assert!(contract
        .into_registration(address)
        .unwrap()
        .same(&registration));
}

#[test]
fn registration_boundary_rejects_zero_qc_verifier() {
    let address = address(0xA5);
    let registration = registration(address, 7);
    let mut contract = ContractRegistration::try_from(&registration, address).unwrap();
    contract.qc_verifier = Address { bytes: [0; 20] };

    assert!(matches!(
        contract.into_registration(address),
        Err(ContractCodecError::InvalidQcVerifier {
            address: Address { bytes }
        }) if bytes == [0; 20]
    ));
}

#[test]
fn registration_boundary_rejects_another_signer() {
    let registration = registration(address(0xA5), 7);

    assert!(matches!(
        ContractRegistration::try_from(&registration, address(0xA6)),
        Err(ContractCodecError::RegistrationAddress { expected, actual })
            if expected.bytes == [0xA6; 20] && actual.bytes == [0xA5; 20]
    ));
}

#[test]
fn qc_boundary_requires_canonical_signer_order() {
    let decoded = ContractQcSignature::decode_all(
        &vec![contract_signature(0), contract_signature(2)],
        4,
    )
    .unwrap();
    assert_eq!(
        decoded
            .iter()
            .map(|signature| signature.signer)
            .collect::<Vec<_>>(),
        vec![PartyId(0), PartyId(2)]
    );
    assert!(matches!(
        ContractQcSignature::decode_all(&vec![contract_signature(2), contract_signature(0)], 4),
        Err(ContractCodecError::NonCanonicalSigner { signer: 0 })
    ));
    assert!(matches!(
        ContractQcSignature::decode_all(&vec![contract_signature(2), contract_signature(2)], 4),
        Err(ContractCodecError::NonCanonicalSigner { signer: 2 })
    ));

    let signatures = (0..257).map(contract_signature).collect::<Vec<_>>();
    assert_eq!(
        ContractQcSignature::decode_all(&signatures, 257)
            .unwrap()
            .len(),
        257
    );
}

#[test]
fn qc_boundary_bounds_signers_by_the_party_count() {
    assert!(matches!(
        ContractQcSignature::decode_all(&vec![contract_signature(4)], 4),
        Err(ContractCodecError::SignerOutOfRange {
            signer: 4,
            party_count: 4
        })
    ));
    assert!(matches!(
        ContractQcSignature::decode_all(
            &vec![contract_signature(0), contract_signature(1)],
            1
        ),
        Err(ContractCodecError::SignatureCount {
            count: 2,
            maximum: 1
        })
    ));
}

#[test]
fn points_keep_their_prefix_and_coordinate() {
    let mut point = [0x33; 33];
    point[0] = 0x03;
    let contract = point_to_contract(&point);
    assert_eq!(contract.prefix, 0x03);
    assert_eq!(contract.x, [0x33; 32]);
    assert_eq!(point_from_contract(&contract), point);
}

#[test]
fn certificates_round_trip_through_the_contract() {
    let pc = PcQc {
        dealer: PartyId(1),
        digest: [0x11; 32],
        signatures: vec![signature(0), signature(2)],
    };
    let event = ContractPcQc::from_qc(&pc)
        .into_chain_event(RecordId(5), 4)
        .unwrap();
    assert!(event.same(&ChainEvent::PcQc {
        record_id: RecordId(5),
        qc: pc
    }));
    assert_eq!(chain_event_kind(&event), "pc_qc");

    let bve = BveQc {
        dealer: PartyId(2),
        digest: [0x22; 32],
        commitment_digest: [0x33; 32],
        signatures: vec![signature(1)],
    };
    let event = ContractBveQc::from_qc(&bve)
        .into_chain_event(RecordId(6), 4)
        .unwrap();
    assert!(event.same(&ChainEvent::BveQcFinalized {
        record_id: RecordId(6),
        qc: bve
    }));
    assert_eq!(chain_event_kind(&event), "bve_qc_finalized");

    let done = DkgDoneQc {
        epoch: 9,
        session_id: [0x66; 32],
        g2x: [0x44; 192],
        signatures: vec![signature(0), signature(1), signature(2)],
    };
    let event = ContractDkgResult::from_qc(&done)
        .into_chain_event(RecordId(7), 9, 4)
        .unwrap();
    assert!(event.same(&ChainEvent::DkgResultRecorded {
        record_id: RecordId(7),
        qc: done
    }));
    assert_eq!(chain_event_kind(&event), "dkg_result_recorded");
    assert_eq!(event.record_id(), RecordId(7));
}

#[test]
fn call_kinds_name_the_contract_functions() {
    let pc = ChainCall::PostPcQc(PcQc {
        dealer: PartyId(1),
        digest: [0; 32],
        signatures: vec![],
    });
    assert_eq!(chain_call_kind(&pc), "post_pc_qc");
    let bve = ChainCall::PostBveQc(BveQc {
        dealer: PartyId(1),
        digest: [0; 32],
        commitment_digest: [0; 32],
        signatures: vec![],
    });
    assert_eq!(chain_call_kind(&bve), "post_bve_qc");
    let done = ChainCall::PostDkgResult(DkgDoneQc {
        epoch: 1,
        session_id: [0; 32],
        g2x: [0; 192],
        signatures: vec![],
    });
    assert_eq!(chain_call_kind(&done), "post_dkg_result");
    let registration = ChainCall::PostRegistration {
        registration: registration(address(1), 2),
        dkg: address(3),
    };
    assert_eq!(chain_call_kind(&registration), "post_registration");
}

fn stored(kind: ContractRecordKind, signatures: Vec<ContractQcSignature>) -> ContractDkgRecord {
    ContractDkgRecord {
        kind,
        dealer: 3,
        digest: [0x21; 32],
        commitment_digest: [0x22; 32],
        result_epoch: 8,
        session_id: [0x23; 32],
        g2x: [[0x24; 32]; 6],
        signatures,
    }
}

#[test]
fn stored_records_become_events_of_their_kind() {
    let event = record_to_chain_event(
        RecordId(4),
        stored(ContractRecordKind::BveQc, vec![contract_signature(1)]),
        4,
    )
    .unwrap();
    let ChainEvent::BveQcFinalized { record_id, qc } = event else {
        panic!("the record is a verified encryption certificate")
    };
    assert_eq!(record_id, RecordId(4));
    assert_eq!(qc.dealer, PartyId(3));
    assert_eq!(qc.commitment_digest, [0x22; 32]);

    let event = record_to_chain_event(
        RecordId(5),
        stored(ContractRecordKind::DkgResult, vec![contract_signature(1)]),
        4,
    )
    .unwrap();
    let ChainEvent::DkgResultRecorded { qc, .. } = event else {
        panic!("the record is a result")
    };
    assert_eq!(qc.epoch, 8);
    assert_eq!(qc.g2x, [0x24; 192]);

    assert!(matches!(
        record_to_chain_event(RecordId(6), stored(ContractRecordKind::Invalid, vec![]), 4),
        Err(StoredRecordError::InvalidRecordKind)
    ));
    assert!(matches!(
        record_to_chain_event(
            RecordId(6),
            stored(ContractRecordKind::PcQc, vec![contract_signature(9)]),
            4
        ),
        Err(StoredRecordError::Contract(
            ContractCodecError::SignerOutOfRange {
                signer: 9,
                party_count: 4
            }
        ))
    ));
}

#[test]
fn contract_signatures_stand_in_the_order_of_their_signers() {
    let contract = signatures_to_contract(&vec![signature(4), signature(1), signature(3)]);

    let signers: Vec<u32> = contract.iter().map(|signature| signature.signer).collect();
    assert_eq!(signers, vec![1, 3, 4]);
    assert_eq!(contract[0].r, [1; 32]);
    assert_eq!(contract[0].s[..31], [1; 31]);
    assert_eq!(contract[0].s[31], 0xEE);
    assert!(signatures_to_contract(&Vec::new()).is_empty());
}
