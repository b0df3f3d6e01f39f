use monad_runtime::chain::round::{RoundTask, SubmissionRound};
use monad_runtime::chain::submitter::{
    AttemptPlan, RefreshOutcome, TxKey, TxSubmissionError, TxSubmitter,
};
use monad_runtime::chain::tx::{
    buffered_base_fee_per_gas, decide_refresh, signer_address, transaction_context, ChainTxId,
    ContractCall, DkgChainConfig, DkgTransactionContext, PreparedTransaction, PreparedTx,
    RefreshDecision, TxConfig, DEFAULT_TX_GAS_LIMIT, DEFAULT_TX_MAX_PRIORITY_FEE_PER_GAS,
};
use monad_runtime::chain::types::{
    ChainCall, ChainEvent, DkgDoneQc, PcQc, QcSignature, RegistrationCall,
};
use monad_runtime::dkg::error::DkgError;
use monad_runtime::dkg::ids::{Address, Epoch, PartyId, RecordId, SeqNum};

/// Runs the attempts of a submitter against a chain with a fixed state.
struct TestChain {
    service: TxSubmitter,
    nonce: u64,
    base_fee: u64,
    reads: usize,
    context_block: u64,
    transactions: Vec<PreparedTx>,
}

fn address(byte: u8) -> Address {
    Address { bytes: [byte; 20] }
}

fn calldata(call: &ContractCall) -> Vec<u8> {
    format!("{:?}", call).into_bytes()
}

impl TestChain {
    fn new(nonce: u64) -> Self {
        let config = DkgChainConfig::new([0x01; 32], address(0x22), 0x4eaf).unwrap();
        TestChain {
            service: TxSubmitter::new(&config).unwrap(),
            nonce,
            base_fee: 100,
            reads: 0,
            context_block: 0,
            transactions: Vec::new(),
        }
    }

    fn attempt(&mut self, keys: Vec<TxKey>) {
        let mut round = SubmissionRound::new(keys);
        let mut task = round.next(&self.service);
        loop {
            task = match task {
                RoundTask::Over | RoundTask::Failed(TxSubmissionError::MissingContext) => return,
                RoundTask::Failed(error) => panic!("attempt failed: {:?}", error),
                RoundTask::ReadContext { block, .. } => {
                    self.reads += 1;
                    self.context_block = block.0;
                    let context = DkgTransactionContext {
                        nonce: self.nonce,
                        base_fee_per_gas: self.base_fee,
                    };
                    round.context_read(&mut self.service, Ok(context))
                }
                RoundTask::Retired(_) => round.next(&self.service),
                RoundTask::Encode(call) => round.encoded(&mut self.service, calldata(&call)),
                RoundTask::Send(transaction) => {
                    self.transactions.push(transaction);
                    round.next(&self.service)
                }
            };
        }
    }

    fn finalized_block(
        &mut self,
        epoch: Epoch,
        block: SeqNum,
        events: Vec<ChainEvent>,
        recovered: bool,
    ) {
        let keys = self
            .service
            .finalized_block(epoch, block, &events, recovered);
        self.attempt(keys);
    }

    fn submit(&mut self, epoch: Epoch, call: ChainCall) {
        let keys = self.service.submit(epoch, call);
        self.attempt(keys);
    }

    fn submit_registration(&mut self, epoch: Epoch, block: SeqNum, registration: RegistrationCall) {
        let keys = self
            .service
            .submit_registration(epoch, block, registration);
        self.attempt(keys);
    }

    fn retry_registration(&mut self, epoch: Epoch, block: SeqNum) {
        let keys = self.service.retry_registration(epoch, block);
        self.attempt(keys);
    }

    fn registration(&self, epoch: u64) -> RegistrationCall {
        RegistrationCall {
            address: self.service.signer_address(),
            qc_verifier: address(0x51),
            receiver_public_key: [0x02; 33],
            receiver_proof_nonce: epoch,
            receiver_proof: [0x53; 64],
        }
    }

    fn received(&mut self) -> Option<PreparedTx> {
        if self.transactions.is_empty() {
            None
        } else {
            Some(self.transactions.remove(0))
        }
    }
}

fn assert_same(left: &PreparedTx, right: &PreparedTx) {
    assert_eq!(format!("{:?}", left), format!("{:?}", right));
}

fn pc_call(qc: PcQc) -> ChainCall {
    ChainCall::PostPcQc(qc)
}

fn pc_qc(dealer: u32, byte: u8) -> PcQc {
    PcQc {
        dealer: PartyId(dealer),
        digest: [byte; 32],
        signatures: vec![sig(0)],
    }
}

fn sig(signer: u32) -> QcSignature {
    QcSignature {
        signer: PartyId(signer),
        signature: [signer as u8; 64],
    }
}

fn test_tx_config() -> TxConfig {
    TxConfig {
        contract: address(0x22),
        chain_id: 0x4eaf,
        gas_limit: DEFAULT_TX_GAS_LIMIT,
        max_priority_fee_per_gas: DEFAULT_TX_MAX_PRIORITY_FEE_PER_GAS,
    }
}

#[test]
fn refresh_decision_uses_only_transaction_context() {
    let context = DkgTransactionContext {
        nonce: 4,
        base_fee_per_gas: 100,
    };

    assert!(matches!(
        decide_refresh(None, context, 1),
        RefreshDecision::Prepare { .. }
    ));
    assert_eq!(
        decide_refresh(
            Some(PreparedTransaction {
                nonce: 3,
                max_fee_per_gas: u128::MAX,
            }),
            context,
            1,
        ),
        RefreshDecision::Obsolete
    );
    assert_eq!(
        decide_refresh(
            Some(PreparedTransaction {
                nonce: 5,
                max_fee_per_gas: 0,
            }),
            context,
            1,
        ),
        RefreshDecision::Keep
    );
}

#[test]
fn fees_are_buffered_by_half_the_base_fee() {
    assert_eq!(buffered_base_fee_per_gas(100), 150);
    assert_eq!(
        decide_refresh(
            None,
            DkgTransactionContext {
                nonce: 0,
                base_fee_per_gas: 100
            },
            u128::MAX
        ),
        RefreshDecision::Prepare {
            max_fee_per_gas: u128::MAX
        }
    );
    let context = transaction_context(None, None);
    assert_eq!(context.nonce, 0);
    assert_eq!(context.base_fee_per_gas, 0);
}

#[test]
fn submission_waits_for_chain_recovery_gate() {
    let mut chain = TestChain::new(5);
    chain.service.start_session(Epoch(2));
    chain.submit(Epoch(2), pc_call(pc_qc(1, 0x11)));

    assert!(chain.received().is_none());
    chain.finalized_block(Epoch(2), SeqNum(10), Vec::new(), false);
    assert!(chain.received().is_none());

    chain.finalized_block(Epoch(2), SeqNum(10), Vec::new(), true);
    assert!(chain.received().is_some());
}

#[test]
fn retries_same_local_transaction_on_finalized_blocks_until_matching_event() {
    let qc = || pc_qc(7, 0x11);
    let event = ChainEvent::PcQc {
        record_id: RecordId(42),
        qc: qc(),
    };
    let mut chain = TestChain::new(5);
    chain.service.start_session(Epoch(2));
    chain.finalized_block(Epoch(2), SeqNum(10), Vec::new(), true);

    chain.submit(Epoch(2), pc_call(qc()));
    let first = chain.received().unwrap();
    chain.finalized_block(Epoch(2), SeqNum(11), Vec::new(), false);
    let second = chain.received().unwrap();
    assert_same(&first, &second);
    assert_eq!(first.fields.nonce, 5);
    assert_eq!(chain.reads, 2);

    chain.finalized_block(Epoch(2), SeqNum(12), vec![event], false);
    chain.finalized_block(Epoch(2), SeqNum(13), Vec::new(), false);
    assert!(chain.received().is_none());
}

#[test]
fn registration_retries_same_transaction_until_finalized_state_confirms_it() {
    let mut chain = TestChain::new(5);
    let registration = chain.registration(2);

    chain.submit_registration(Epoch(2), SeqNum(10), registration);
    let first = chain.received().unwrap();

    chain.retry_registration(Epoch(2), SeqNum(11));
    let second = chain.received().unwrap();
    assert_same(&second, &first);
    assert_eq!(second.fields.nonce, 5);
    assert_eq!(chain.reads, 2);

    chain
        .service
        .confirm_registration(Epoch(2), &registration);
    chain.retry_registration(Epoch(2), SeqNum(12));
    assert!(chain.received().is_none());
}

#[test]
fn cancelled_registration_is_not_retried() {
    let mut chain = TestChain::new(5);
    let registration = chain.registration(2);
    chain.submit_registration(Epoch(2), SeqNum(10), registration);
    assert!(chain.received().is_some());
    chain.service.cancel_registration(Epoch(2));
    chain.retry_registration(Epoch(2), SeqNum(11));
    assert!(chain.received().is_none());
}

#[test]
fn nonce_read_uses_the_scanned_event_block() {
    let mut chain = TestChain::new(5);
    chain.service.start_session(Epoch(2));
    chain.finalized_block(Epoch(2), SeqNum(42), Vec::new(), true);
    chain.submit(Epoch(2), pc_call(pc_qc(1, 1)));

    chain.received().unwrap();
    assert_eq!(chain.context_block, 42);
}

#[test]
fn serializes_artifacts_without_leaving_a_nonce_gap() {
    let mut chain = TestChain::new(11);
    chain.service.start_session(Epoch(2));
    chain.finalized_block(Epoch(2), SeqNum(10), Vec::new(), true);

    let first_qc = || pc_qc(1, 1);
    let second_qc = pc_qc(2, 2);
    for qc in [first_qc(), second_qc] {
        chain.submit(Epoch(2), pc_call(qc));
    }

    let first = chain.received().unwrap();
    assert!(chain.received().is_none());

    chain.finalized_block(
        Epoch(2),
        SeqNum(11),
        vec![ChainEvent::PcQc {
            record_id: RecordId(9),
            qc: first_qc(),
        }],
        false,
    );
    let second = chain.received().unwrap();
    assert_eq!(first.fields.nonce, 11);
    assert_eq!(second.fields.nonce, 11);
}

#[test]
fn retires_active_artifact_after_finalized_nonce_advances_without_event() {
    let mut chain = TestChain::new(5);
    chain.service.start_session(Epoch(2));
    chain.finalized_block(Epoch(2), SeqNum(10), Vec::new(), true);
    chain.submit(Epoch(2), pc_call(pc_qc(1, 1)));

    let first = chain.received().unwrap();
    chain.nonce = 6;
    chain.finalized_block(Epoch(2), SeqNum(11), Vec::new(), false);

    assert_eq!(first.fields.nonce, 5);
    assert!(chain.received().is_none());
    chain.submit(Epoch(2), pc_call(pc_qc(1, 1)));
    assert!(chain.received().is_none());
}

#[test]
fn new_artifact_uses_newest_context_across_sessions() {
    let mut chain = TestChain::new(5);
    chain.service.start_session(Epoch(2));
    chain.finalized_block(Epoch(2), SeqNum(10), Vec::new(), true);
    let registration = chain.registration(3);
    chain.submit_registration(Epoch(3), SeqNum(20), registration);
    chain.received().unwrap();
    chain
        .service
        .confirm_registration(Epoch(3), &registration);
    chain.nonce = 6;

    chain.submit(Epoch(2), pc_call(pc_qc(1, 1)));
    let transaction = chain.received().unwrap();

    assert_eq!(transaction.fields.nonce, 6);
    assert_eq!(chain.context_block, 20);
}

#[test]
fn active_artifact_keeps_its_epoch_context() {
    let mut chain = TestChain::new(5);
    chain.service.start_session(Epoch(2));
    chain.finalized_block(Epoch(2), SeqNum(10), Vec::new(), true);
    chain.submit(Epoch(2), pc_call(pc_qc(1, 1)));
    let first = chain.received().unwrap();
    let registration = chain.registration(3);
    chain.submit_registration(Epoch(3), SeqNum(20), registration);

    chain.finalized_block(Epoch(2), SeqNum(10), Vec::new(), false);
    let retry = chain.received().unwrap();

    assert_same(&retry, &first);
    assert_eq!(chain.context_block, 10);
}

#[test]
fn retry_does_not_replace_with_nonce_from_older_context() {
    let mut chain = TestChain::new(6);
    chain.service.start_session(Epoch(2));
    chain.finalized_block(Epoch(2), SeqNum(10), Vec::new(), true);
    chain.submit(Epoch(2), pc_call(pc_qc(1, 1)));
    let prepared = chain.received().unwrap();

    chain.nonce = 5;
    chain.finalized_block(Epoch(2), SeqNum(10), Vec::new(), false);
    let retry = chain.received().unwrap();

    assert_eq!(prepared.fields.nonce, 6);
    assert_same(&retry, &prepared);
}

#[test]
fn reprepares_active_artifact_when_buffered_base_fee_increases() {
    let mut chain = TestChain::new(5);
    chain.service.start_session(Epoch(2));
    chain.finalized_block(Epoch(2), SeqNum(10), Vec::new(), true);
    chain.submit(Epoch(2), pc_call(pc_qc(1, 1)));

    let first = chain.received().unwrap();
    assert_eq!(first.fields.max_fee_per_gas, 151);

    chain.base_fee = 200;
    chain.finalized_block(Epoch(2), SeqNum(11), Vec::new(), false);
    let second = chain.received().unwrap();

    assert_eq!(second.fields.nonce, 5);
    assert_eq!(second.fields.max_fee_per_gas, 301);
    assert_ne!(first.signature, second.signature);
}

#[test]
fn recovered_finalized_event_suppresses_late_submission() {
    let mut chain = TestChain::new(5);
    chain.service.start_session(Epoch(2));
    let qc = || pc_qc(3, 0x77);
    chain.finalized_block(
        Epoch(2),
        SeqNum(10),
        vec![ChainEvent::PcQc {
            record_id: RecordId(9),
            qc: qc(),
        }],
        true,
    );
    chain.submit(Epoch(2), pc_call(qc()));

    assert!(chain.received().is_none());
}

#[test]
fn overlapping_session_accepts_late_calls_from_previous_epoch() {
    let mut chain = TestChain::new(5);
    chain.service.start_session(Epoch(2));
    chain.finalized_block(Epoch(2), SeqNum(10), Vec::new(), true);
    chain.service.start_session(Epoch(3));
    chain.finalized_block(Epoch(3), SeqNum(20), Vec::new(), true);
    let previous = || pc_call(pc_qc(2, 2));
    chain.submit(Epoch(2), previous());

    let transaction = chain.received().unwrap();
    let expected = test_tx_config()
        .contract_call(Epoch(2), &previous(), &chain.service.signer_address())
        .unwrap();
    assert_eq!(transaction.fields.input, calldata(&expected));
    assert!(chain.received().is_none());
}

#[test]
fn third_session_evicts_oldest_epoch_and_rejects_its_late_calls() {
    let mut chain = TestChain::new(5);
    for epoch in [Epoch(2), Epoch(3), Epoch(4)] {
        chain.service.start_session(epoch);
        chain.finalized_block(epoch, SeqNum(epoch.0 * 10), Vec::new(), true);
    }

    chain.submit(Epoch(2), pc_call(pc_qc(2, 2)));
    let current = || pc_call(pc_qc(4, 4));
    chain.submit(Epoch(4), current());

    let transaction = chain.received().unwrap();
    let expected = test_tx_config()
        .contract_call(Epoch(4), &current(), &chain.service.signer_address())
        .unwrap();
    assert_eq!(transaction.fields.input, calldata(&expected));
    assert!(chain.received().is_none());
}

#[test]
fn failed_context_read_is_reported() {
    let mut chain = TestChain::new(5);
    chain.service.start_session(Epoch(2));
    chain.finalized_block(Epoch(2), SeqNum(10), Vec::new(), true);
    let keys = chain.service.submit(Epoch(2), pc_call(pc_qc(1, 1)));
    let AttemptPlan::ReadContext { key, block } = chain.service.next_attempt(&keys) else {
        panic!("the call is attempted")
    };
    assert_eq!(block, SeqNum(10));
    let outcome = chain.service.refresh(
        key,
        block,
        Err(DkgError::ChainDataUnavailable { block: SeqNum(10) }),
    );
    assert!(matches!(
        outcome,
        RefreshOutcome::Failed(TxSubmissionError::ChainContext {
            block: SeqNum(10),
            ..
        })
    ));
}

#[test]
fn a_round_is_over_after_a_failed_read() {
    let mut chain = TestChain::new(5);
    chain.service.start_session(Epoch(2));
    chain.finalized_block(Epoch(2), SeqNum(10), Vec::new(), true);
    let mut keys = chain.service.submit(Epoch(2), pc_call(pc_qc(1, 1)));
    keys.extend(chain.service.submit(Epoch(2), pc_call(pc_qc(2, 2))));
    assert_eq!(keys.len(), 2);

    let mut round = SubmissionRound::new(keys);
    assert!(matches!(
        round.next(&chain.service),
        RoundTask::ReadContext {
            block: SeqNum(10),
            ..
        }
    ));
    assert!(matches!(
        round.context_read(
            &mut chain.service,
            Err(DkgError::ChainDataUnavailable { block: SeqNum(10) })
        ),
        RoundTask::Failed(TxSubmissionError::ChainContext { .. })
    ));
    assert!(matches!(round.next(&chain.service), RoundTask::Over));
}

#[test]
fn a_round_goes_on_after_a_retired_submission_and_sends_once() {
    let mut chain = TestChain::new(5);
    chain.service.start_session(Epoch(2));
    chain.finalized_block(Epoch(2), SeqNum(10), Vec::new(), true);
    chain.submit(Epoch(2), pc_call(pc_qc(1, 1)));
    chain.submit(Epoch(2), pc_call(pc_qc(2, 2)));
    chain.submit(Epoch(2), pc_call(pc_qc(3, 3)));
    assert_eq!(chain.received().unwrap().fields.nonce, 5);
    assert!(chain.received().is_none());

    // The nonce of the first one is used up: the second one has its turn.
    chain.nonce = 6;
    chain.reads = 0;
    chain.finalized_block(Epoch(2), SeqNum(11), Vec::new(), false);
    assert_eq!(chain.reads, 2);
    assert_eq!(chain.received().unwrap().fields.nonce, 6);
    assert!(chain.received().is_none());
    assert!(chain
        .service
        .submit(Epoch(2), pc_call(pc_qc(1, 1)))
        .is_empty());
}

#[test]
fn a_submission_without_a_context_block_waits() {
    let mut chain = TestChain::new(5);
    let registration = chain.registration(3);
    let keys = chain.service.submit(
        Epoch(3),
        ChainCall::PostRegistration {
            registration,
            dkg: address(0x22),
        },
    );
    assert_eq!(keys.len(), 1);
    let mut round = SubmissionRound::new(keys);
    assert!(matches!(
        round.next(&chain.service),
        RoundTask::Failed(TxSubmissionError::MissingContext)
    ));
    assert!(matches!(round.next(&chain.service), RoundTask::Over));
}

#[test]
fn calls_are_checked_before_they_are_encoded() {
    let config = test_tx_config();
    let signer = address(0x09);
    let result = ChainCall::PostDkgResult(DkgDoneQc {
        epoch: 8,
        session_id: [0; 32],
        g2x: [0x22; 192],
        signatures: vec![sig(0)],
    });
    assert!(matches!(
        config.contract_call(Epoch(9), &result, &signer),
        Err(DkgError::ResultEpochMismatch {
            expected: 9,
            actual: 8
        })
    ));
    let registration = RegistrationCall {
        address: address(0x08),
        qc_verifier: address(0x51),
        receiver_public_key: [0x02; 33],
        receiver_proof_nonce: 1,
        receiver_proof: [0x53; 64],
    };
    assert!(matches!(
        config.contract_call(
            Epoch(9),
            &ChainCall::PostRegistration {
                registration,
                dkg: address(0x23)
            },
            &signer
        ),
        Err(DkgError::RegistrationContractMismatch { .. })
    ));
    assert!(matches!(
        config.contract_call(
            Epoch(9),
            &ChainCall::PostRegistration {
                registration,
                dkg: address(0x22)
            },
            &signer
        ),
        Err(DkgError::Operation { .. })
    ));
}

#[test]
fn signer_address_is_the_address_of_the_key() {
    // The account of the private key whose value is one.
    let mut key = [0u8; 32];
    key[31] = 1;
    assert_eq!(
        signer_address(&key).unwrap().bytes,
        [
            0x7e, 0x5f, 0x45, 0x52, 0x09, 0x1a, 0x69, 0x12, 0x5d, 0x5d, 0xfc, 0xb7, 0xb8, 0xc2,
            0x65, 0x90, 0x29, 0x39, 0x5b, 0xdf
        ]
    );
    assert!(signer_address(&[0; 32]).is_err());
}

#[test]
fn calls_and_events_of_one_artifact_share_an_identity() {
    let call = ChainTxId::of_call(&pc_call(pc_qc(3, 4)));
    let event = ChainTxId::of_event(&ChainEvent::PcQc {
        record_id: RecordId(1),
        qc: pc_qc(3, 4),
    });
    assert_eq!(format!("{:?}", call), format!("{:?}", event));
    assert!(!call.is_registration());
    let chain = TestChain::new(1);
    let one = ChainTxId::of_registration(&chain.registration(2));
    let other = ChainTxId::of_registration(&chain.registration(3));
    assert!(one.is_registration());
    assert_ne!(format!("{:?}", one), format!("{:?}", other));
}
