use alloy_primitives::{Bloom, B256};
use monad_runtime::chain::codec::{
    ContractBveQc, ContractDkgResult, ContractPcQc, ContractQcSignature, ContractRegistration,
    ContractSecpPoint,
};
use monad_runtime::chain::logs::{
    read_dkg_events, ContractLog, ContractLogRecord, ContractReceipt, DkgLogError, DkgLogMatcher,
};
use monad_runtime::chain::pages::{
    parse_chain_id, record_page_limit, records_without_contract, reported_registration, ChainId,
    ChainNumbers, ContractRecordPage, DkgVmContext, FirstRecordPage, RecordPageProgress,
    SequencedBveQc, SequencedPcQc, TriedbStateError, VmStateObservation, DKG_ETH_CALL_GAS_LIMIT,
};
use monad_runtime::chain::state_reader::{
    call_output, read_registrations, CallResult, RegistrationReport, StateReadError,
    TriedbDkgStateReader,
};
use monad_runtime::chain::types::{
    BveQc, ChainCall, ChainEvent, DkgDoneQc, PcQc, QcSignature, BLS_G2_SERIALIZED_BYTES,
};
use monad_runtime::dkg::error::DkgError;
use monad_runtime::dkg::ids::{Address, Epoch, PartyId, RecordId, SeqNum};

const PC_QC_POSTED: [u8; 32] = [0xC1; 32];
const BVE_QC_POSTED: [u8; 32] = [0xC2; 32];
const DKG_RESULT_POSTED: [u8; 32] = [0xC3; 32];

const CHAIN_NUMBERS: ChainNumbers = ChainNumbers {
    ethereum_mainnet: 1,
    monad_mainnet: 143,
    monad_testnet: 10143,
    monad_devnet: 20143,
    hive: 3503995874084926,
};

fn address(byte: u8) -> Address {
    Address { bytes: [byte; 20] }
}

fn matcher(contract: Address) -> DkgLogMatcher {
    DkgLogMatcher::new(
        contract,
        [PC_QC_POSTED, BVE_QC_POSTED, DKG_RESULT_POSTED],
    )
}

fn signature(signer: u32) -> QcSignature {
    QcSignature {
        signer: PartyId(signer),
        signature: [signer as u8; 64],
    }
}

fn log_for_call(contract: Address, epoch: Epoch, sequence: u64, call: &ChainCall) -> ContractLog {
    let (topic, record) = match call {
        ChainCall::PostPcQc(qc) => (
            PC_QC_POSTED,
            ContractLogRecord::PcQcPosted {
                epoch: epoch.0,
                sequence,
                qc: ContractPcQc::from_qc(qc),
            },
        ),
        ChainCall::PostBveQc(qc) => (
            BVE_QC_POSTED,
            ContractLogRecord::BveQcPosted {
                epoch: epoch.0,
                sequence,
                qc: ContractBveQc::from_qc(qc),
            },
        ),
        ChainCall::PostDkgResult(qc) => (
            DKG_RESULT_POSTED,
            ContractLogRecord::DkgResultPosted {
                epoch: epoch.0,
                sequence,
                result: ContractDkgResult::from_qc(qc),
            },
        ),
        ChainCall::PostRegistration { .. } => panic!("registration is not a DKG record event"),
    };
    ContractLog {
        address: contract,
        topic: Some(topic),
        record: Some(record),
    }
}

fn pc_call() -> ChainCall {
    ChainCall::PostPcQc(PcQc {
        dealer: PartyId(1),
        digest: [0x11; 32],
        signatures: vec![signature(0)],
    })
}

#[test]
fn matcher_rejects_wrong_contract_epoch_or_session_witness() {
    let contract = address(0xD0);
    let matcher = matcher(contract);
    let call = pc_call();
    assert!(matcher
        .match_log(log_for_call(address(0xD1), Epoch(9), 0, &call), Epoch(9), 4)
        .unwrap()
        .is_none());
    assert!(matcher
        .match_log(log_for_call(contract, Epoch(8), 0, &call), Epoch(9), 4)
        .unwrap()
        .is_none());

    let ChainCall::PostPcQc(qc) = &call else {
        unreachable!()
    };
    let mut qc = ContractPcQc::from_qc(qc);
    qc.signatures[0].signer = 4;
    let log = ContractLog {
        address: contract,
        topic: Some(PC_QC_POSTED),
        record: Some(ContractLogRecord::PcQcPosted {
            epoch: 9,
            sequence: 0,
            qc,
        }),
    };
    assert!(matcher.match_log(log, Epoch(9), 4).is_err());
}

fn bloom_of(contract: Address, topic: [u8; 32]) -> [u8; 256] {
    let mut bloom = Bloom::ZERO;
    bloom.accrue_raw_log(
        alloy_primitives::Address::new(contract.bytes),
        &[B256::new(topic)],
    );
    bloom.into_array()
}

#[test]
fn matcher_bloom_requires_contract_and_a_dkg_event_topic() {
    let contract = address(0xA5);
    let matcher = matcher(contract);

    for topic in [PC_QC_POSTED, BVE_QC_POSTED, DKG_RESULT_POSTED] {
        assert!(matcher.maybe_matches_bloom(&bloom_of(contract, topic)));
    }

    assert!(!matcher.maybe_matches_bloom(&bloom_of(contract, [0x11; 32])));
    assert!(!matcher.maybe_matches_bloom(&bloom_of(address(0xB6), PC_QC_POSTED)));
}

#[test]
fn matcher_decodes_all_contract_record_types() {
    let contract = address(0xD0);
    let matcher = matcher(contract);
    let pc = || PcQc {
        dealer: PartyId(1),
        digest: [0x11; 32],
        signatures: vec![signature(0), signature(2)],
    };
    let bve = || BveQc {
        dealer: PartyId(2),
        digest: [0x22; 32],
        commitment_digest: [0x33; 32],
        signatures: vec![signature(1), signature(3)],
    };
    let done = || DkgDoneQc {
        epoch: 9,
        session_id: [0x55; 32],
        g2x: [0x44; BLS_G2_SERIALIZED_BYTES],
        signatures: vec![signature(0), signature(1), signature(2)],
    };
    let calls = [
        ChainCall::PostPcQc(pc()),
        ChainCall::PostBveQc(bve()),
        ChainCall::PostDkgResult(done()),
    ];
    let expected = [
        ChainEvent::PcQc {
            record_id: RecordId(0),
            qc: pc(),
        },
        ChainEvent::BveQcFinalized {
            record_id: RecordId(1),
            qc: bve(),
        },
        ChainEvent::DkgResultRecorded {
            record_id: RecordId(2),
            qc: done(),
        },
    ];

    for (index, call) in calls.iter().enumerate() {
        let event = matcher
            .match_log(
                log_for_call(contract, Epoch(9), index as u64, call),
                Epoch(9),
                4,
            )
            .expect("contract log should decode")
            .expect("contract log should match");
        assert!(event.same(&expected[index]));
    }
}

#[test]
fn matcher_refuses_data_that_does_not_decode() {
    let contract = address(0xD0);
    let log = ContractLog {
        address: contract,
        topic: Some(BVE_QC_POSTED),
        record: None,
    };
    assert!(matches!(
        matcher(contract).match_log(log, Epoch(9), 4),
        Err(DkgLogError::Decode)
    ));
    let without_topic = ContractLog {
        address: contract,
        topic: None,
        record: None,
    };
    assert!(matcher(contract)
        .match_log(without_topic, Epoch(9), 4)
        .unwrap()
        .is_none());
}

#[test]
fn block_events_come_from_receipts_that_may_match() {
    let contract = address(0xD0);
    let matcher = matcher(contract);
    let receipts = || {
        vec![
            ContractReceipt {
                bloom: bloom_of(contract, PC_QC_POSTED),
                logs: vec![
                    log_for_call(contract, Epoch(9), 6, &pc_call()),
                    log_for_call(contract, Epoch(8), 7, &pc_call()),
                ],
            },
            ContractReceipt {
                bloom: [0; 256],
                logs: vec![log_for_call(contract, Epoch(9), 8, &pc_call())],
            },
        ]
    };
    let events = read_dkg_events(
        &matcher,
        &bloom_of(contract, PC_QC_POSTED),
        receipts(),
        Epoch(9),
        4,
    )
    .unwrap();
    assert_eq!(
        events.iter().map(ChainEvent::record_id).collect::<Vec<_>>(),
        vec![RecordId(6)]
    );
    assert!(
        read_dkg_events(&matcher, &[0; 256], receipts(), Epoch(9), 4)
            .unwrap()
            .is_empty()
    );
}

#[test]
fn maps_supported_chain_ids() {
    assert_eq!(
        parse_chain_id(CHAIN_NUMBERS.monad_devnet, &CHAIN_NUMBERS).unwrap(),
        ChainId::MonadDevnet
    );
    assert_eq!(
        parse_chain_id(1, &CHAIN_NUMBERS).unwrap(),
        ChainId::EthereumMainnet
    );
    assert_eq!(
        parse_chain_id(CHAIN_NUMBERS.hive, &CHAIN_NUMBERS).unwrap(),
        ChainId::HiveNet
    );
    assert!(matches!(
        parse_chain_id(42, &CHAIN_NUMBERS),
        Err(TriedbStateError::UnsupportedChainId { chain_id: 42 })
    ));
}

fn contract_signature(signer: u32) -> ContractQcSignature {
    ContractQcSignature {
        signer,
        r: [0x44; 32],
        s: [0x55; 32],
    }
}

fn pc_record(sequence: u64) -> SequencedPcQc {
    SequencedPcQc {
        sequence,
        qc: ContractPcQc {
            dealer: 0,
            digest: [0x11; 32],
            signatures: vec![contract_signature(0)],
        },
    }
}

fn bve_record(sequence: u64) -> SequencedBveQc {
    SequencedBveQc {
        sequence,
        qc: ContractBveQc {
            dealer: 1,
            digest: [0x22; 32],
            commitment_digest: [0x33; 32],
            signatures: vec![contract_signature(1)],
        },
    }
}

#[test]
fn record_snapshot_accepts_typed_pages_in_sequence_order() {
    let progress = FirstRecordPage::accept(
        ContractRecordPage {
            total: 3,
            next: 2,
            pc_qcs: vec![pc_record(1)],
            bve_qcs: vec![bve_record(0)],
            results: Vec::new(),
        },
        Epoch(7),
        4,
        2,
    )
    .unwrap();
    let RecordPageProgress::More(snapshot) = progress else {
        panic!("first page unexpectedly completed the snapshot")
    };
    assert_eq!(snapshot.next(), 2);
    let progress = snapshot
        .accept(
            ContractRecordPage {
                total: 3,
                next: 3,
                pc_qcs: vec![pc_record(2)],
                bve_qcs: Vec::new(),
                results: Vec::new(),
            },
            Epoch(7),
            4,
            2,
        )
        .unwrap();
    let RecordPageProgress::Complete(events) = progress else {
        panic!("second page did not complete the snapshot")
    };
    assert_eq!(
        events.iter().map(ChainEvent::record_id).collect::<Vec<_>>(),
        vec![RecordId(0), RecordId(1), RecordId(2)]
    );
}

#[test]
fn record_snapshot_accepts_an_empty_first_page() {
    let progress = FirstRecordPage::accept(
        ContractRecordPage {
            total: 0,
            next: 0,
            pc_qcs: Vec::new(),
            bve_qcs: Vec::new(),
            results: Vec::new(),
        },
        Epoch(7),
        4,
        1,
    )
    .unwrap();
    let RecordPageProgress::Complete(events) = progress else {
        panic!("empty first page did not complete the snapshot")
    };
    assert!(events.is_empty());
}

#[test]
fn record_snapshot_rejects_gaps_and_changed_totals() {
    let gap = FirstRecordPage::accept(
        ContractRecordPage {
            total: 2,
            next: 2,
            pc_qcs: vec![pc_record(0)],
            bve_qcs: Vec::new(),
            results: Vec::new(),
        },
        Epoch(7),
        4,
        2,
    );
    assert!(matches!(
        gap,
        Err(TriedbStateError::InvalidRecordPage { .. })
    ));

    let progress = FirstRecordPage::accept(
        ContractRecordPage {
            total: 2,
            next: 1,
            pc_qcs: vec![pc_record(0)],
            bve_qcs: Vec::new(),
            results: Vec::new(),
        },
        Epoch(7),
        4,
        1,
    )
    .unwrap();
    let RecordPageProgress::More(snapshot) = progress else {
        panic!("first page unexpectedly completed the snapshot")
    };
    let changed = snapshot.accept(
        ContractRecordPage {
            total: 3,
            next: 2,
            pc_qcs: Vec::new(),
            bve_qcs: vec![bve_record(1)],
            results: Vec::new(),
        },
        Epoch(7),
        4,
        1,
    );
    assert!(matches!(
        changed,
        Err(TriedbStateError::RecordTotalChanged {
            expected: 2,
            actual: 3
        })
    ));
}

#[test]
fn vm_context_validation_uses_only_observed_state() {
    let contract = address(0x44);
    let observation = VmStateObservation {
        latest_finalized: Some(SeqNum(12)),
        block_gas_limit: 7_000_000,
        contract_exists: true,
    };

    assert_eq!(
        observation
            .validate(SeqNum(10), SeqNum(2), contract)
            .unwrap(),
        DkgVmContext {
            block: SeqNum(10),
            gas_limit: DKG_ETH_CALL_GAS_LIMIT,
        }
    );
    assert!(matches!(
        observation.validate(SeqNum(11), SeqNum(2), contract),
        Err(TriedbStateError::NotAvailable { block: 11 })
    ));
}

#[test]
fn vm_context_needs_the_contract() {
    let observation = VmStateObservation {
        latest_finalized: Some(SeqNum(12)),
        block_gas_limit: 7_000_000,
        contract_exists: false,
    };
    let error = observation
        .validate(SeqNum(10), SeqNum(2), address(0x44))
        .unwrap_err();
    assert!(matches!(
        error,
        TriedbStateError::ContractMissing { contract, block: 10 }
            if contract.bytes == [0x44; 20]
    ));
    assert!(records_without_contract(error).unwrap().is_empty());
    assert!(matches!(
        records_without_contract(TriedbStateError::NotAvailable { block: 3 }),
        Err(TriedbStateError::NotAvailable { block: 3 })
    ));
    assert!(matches!(
        TriedbStateError::NotAvailable { block: 3 }.into_dkg_error("read"),
        DkgError::ChainDataUnavailable { block: SeqNum(3) }
    ));
}

#[test]
fn page_limits_shrink_with_the_party_count() {
    assert!(record_page_limit(1) >= record_page_limit(100));
    assert_eq!(record_page_limit(100), 5);
    assert_eq!(record_page_limit(10_000), 1);
}

#[test]
fn reported_registrations_belong_to_registered_parties() {
    let contract = ContractRegistration {
        qc_verifier: address(0x31),
        receiver_public_key: ContractSecpPoint {
            prefix: 2,
            x: [0x32; 32],
        },
        receiver_proof_nonce: 5,
        receiver_proof_r: [0x33; 32],
        receiver_proof_s: [0x34; 32],
    };
    let registration = reported_registration(true, contract, address(0x30))
        .unwrap()
        .unwrap();
    assert_eq!(registration.address.bytes, [0x30; 20]);
    assert_eq!(registration.receiver_proof_nonce, 5);
    assert!(reported_registration(false, contract, address(0x30))
        .unwrap()
        .is_none());
}

fn reader() -> TriedbDkgStateReader {
    TriedbDkgStateReader::new(CHAIN_NUMBERS.monad_devnet, SeqNum(3), &CHAIN_NUMBERS).unwrap()
}

#[test]
fn readers_are_made_for_supported_chains() {
    assert_eq!(reader().chain_id, ChainId::MonadDevnet);
    assert!(matches!(
        TriedbDkgStateReader::new(42, SeqNum(3), &CHAIN_NUMBERS),
        Err(TriedbStateError::UnsupportedChainId { chain_id: 42 })
    ));
}

#[test]
fn state_context_needs_header_account_and_code() {
    let context = |latest, header, account| {
        reader().state_context(SeqNum(7), address(0xD0), latest, header, account)
    };
    let latest = Some(SeqNum(10));
    assert_eq!(
        context(latest, Ok(30_000_000), Ok(Some(true))).unwrap(),
        DkgVmContext {
            block: SeqNum(7),
            gas_limit: DKG_ETH_CALL_GAS_LIMIT.min(30_000_000),
        }
    );
    assert!(matches!(
        context(Some(SeqNum(9)), Ok(1), Ok(Some(true))),
        Err(TriedbStateError::NotAvailable { block: 7 })
    ));
    assert!(matches!(
        context(latest, Err(StateReadError::NotAvailableYet), Ok(Some(true))),
        Err(TriedbStateError::NotAvailable { block: 7 })
    ));
    assert!(matches!(
        context(latest, Ok(1), Err(StateReadError::Failed)),
        Err(TriedbStateError::StateRead)
    ));
    for account in [None, Some(false)] {
        assert!(matches!(
            context(latest, Ok(1), Ok(account)),
            Err(TriedbStateError::ContractMissing { block: 7, .. })
        ));
    }
}

#[test]
fn calls_pay_and_send_nothing() {
    let context = DkgVmContext {
        block: SeqNum(7),
        gas_limit: 21_000,
    };
    let fields = reader().call_transaction(context, address(0xD0), vec![1, 2, 3]);
    assert_eq!(fields.chain_id, CHAIN_NUMBERS.monad_devnet);
    assert_eq!(fields.gas_limit, 21_000);
    assert_eq!(fields.to.bytes, [0xD0; 20]);
    assert_eq!(fields.input, vec![1, 2, 3]);
    assert_eq!(
        (fields.nonce, fields.max_fee_per_gas, fields.max_priority_fee_per_gas, fields.value),
        (0, 0, 0, 0)
    );
}

#[test]
fn failed_and_reverted_calls_have_no_output() {
    assert_eq!(
        call_output(SeqNum(7), CallResult::Success(vec![9])).unwrap(),
        vec![9]
    );
    assert!(matches!(
        call_output(SeqNum(7), CallResult::Failure),
        Err(TriedbStateError::CallFailed { block: 7 })
    ));
    assert!(matches!(
        call_output(SeqNum(7), CallResult::Revert { trace_len: 5 }),
        Err(TriedbStateError::CallReverted {
            block: 7,
            trace_len: 5
        })
    ));
}

#[test]
fn one_invalid_report_refuses_all_registrations() {
    let report = |exists: bool, verifier: u8| RegistrationReport {
        exists,
        registration: ContractRegistration {
            qc_verifier: address(verifier),
            receiver_public_key: ContractSecpPoint {
                prefix: 2,
                x: [0x32; 32],
            },
            receiver_proof_nonce: 5,
            receiver_proof_r: [0x33; 32],
            receiver_proof_s: [0x34; 32],
        },
    };
    let parties = vec![address(1), address(2)];
    let registrations =
        read_registrations(&parties, &vec![report(true, 0x31), report(false, 0)]).unwrap();
    assert_eq!(registrations.len(), 2);
    assert_eq!(registrations[0].unwrap().address.bytes, [1; 20]);
    assert!(registrations[1].is_none());
    assert!(read_registrations(&parties, &vec![report(true, 0x31), report(true, 0)]).is_err());
}
