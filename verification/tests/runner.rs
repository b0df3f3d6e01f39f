use monad_runtime::chain::batch::{BatchRun, BatchTask};
use monad_runtime::chain::round::{RoundTask, SubmissionRound};
use monad_runtime::chain::scan::{ChainEventBatch, ChainEventSession, ChainRead};
use monad_runtime::chain::submitter::{TxSubmissionError, TxSubmitter};
use monad_runtime::chain::tx::{DkgChainConfig, DkgTransactionContext, PreparedTx};
use monad_runtime::chain::types::{ChainCall, ChainEvent, PcQc, RegistrationCall};
use monad_runtime::dkg::error::DkgError;
use monad_runtime::dkg::envelope::{DeliveryEnvelope, DeliveryMessage};
use monad_runtime::dkg::ids::{Address, Epoch, NodeId, PartyId, RecordId, SeqNum};
use monad_runtime::dkg::registration::{
    CheckedRegistration, DkgValidator, LocalPublicKeys, ProofCheck,
};
use monad_runtime::dkg::runner::{next_epoch, ChainTask, DkgRunner};
use monad_runtime::dkg::weights::{Stake, WEI_PER_MON};

fn node(index: u8) -> NodeId {
    NodeId {
        key: [index + 1; 33],
    }
}

fn address(byte: u8) -> Address {
    Address { bytes: [byte; 20] }
}

fn validator(index: u8, account: u8) -> DkgValidator {
    DkgValidator {
        node_id: node(index),
        address: address(account),
        stake: Stake {
            high: 0,
            low: u128::from(WEI_PER_MON),
        },
    }
}

fn keys(index: u8) -> LocalPublicKeys {
    LocalPublicKeys {
        receiver_public_key: [index + 20; 33],
        qc_verifier: address(index + 40),
    }
}

fn registration(account: u8, index: u8) -> CheckedRegistration {
    CheckedRegistration {
        call: RegistrationCall {
            address: address(account),
            qc_verifier: keys(index).qc_verifier,
            receiver_public_key: keys(index).receiver_public_key,
            receiver_proof_nonce: 2,
            receiver_proof: [7; 64],
        },
        check: ProofCheck::Valid,
    }
}

/// A runner, the chain that it reads, and the transactions that it sent.
struct TestRunner {
    runner: DkgRunner,
    registered: Vec<CheckedRegistration>,
    registrations_available: bool,
    observed_local: Option<RegistrationCall>,
    local: RegistrationCall,
    finalized_records: Vec<(u64, ChainEvent)>,
    reads: Vec<(bool, SeqNum)>,
    transactions: Vec<PreparedTx>,
}

impl TestRunner {
    fn new(signing_key: [u8; 32]) -> Self {
        let config = DkgChainConfig::new(signing_key, address(0), 1).unwrap();
        let submitter = TxSubmitter::new(&config).unwrap();
        let local = RegistrationCall {
            address: submitter.signer_address(),
            qc_verifier: address(0x31),
            receiver_public_key: [0x32; 33],
            receiver_proof_nonce: 2,
            receiver_proof: [0x33; 64],
        };
        TestRunner {
            runner: DkgRunner::new(node(0), submitter),
            registered: Vec::new(),
            registrations_available: false,
            observed_local: None,
            local,
            finalized_records: Vec::new(),
            reads: Vec::new(),
            transactions: Vec::new(),
        }
    }

    fn send_transactions(&mut self) {
        for keys in self.runner.take_attempts() {
            let submitter = self.runner.submitter();
            let mut round = SubmissionRound::new(keys);
            let mut task = round.next(submitter);
            loop {
                task = match task {
                    RoundTask::Over | RoundTask::Failed(TxSubmissionError::MissingContext) => break,
                    RoundTask::Failed(error) => panic!("{:?}", error),
                    RoundTask::ReadContext { .. } => round.context_read(
                        submitter,
                        Ok(DkgTransactionContext {
                            nonce: 0,
                            base_fee_per_gas: 0,
                        }),
                    ),
                    RoundTask::Retired(_) => round.next(submitter),
                    RoundTask::Encode(call) => {
                        round.encoded(submitter, format!("{:?}", call).into_bytes())
                    }
                    RoundTask::Send(transaction) => {
                        self.transactions.push(transaction);
                        round.next(submitter)
                    }
                };
            }
        }
    }

    /// Does all chain work that is due.
    fn settle(&mut self) {
        loop {
            match self.runner.next_chain_task() {
                ChainTask::Idle => break,
                ChainTask::ReadLocalRegistration(read) => {
                    self.runner
                        .accept_local_registration(read, self.observed_local, Some(self.local))
                        .unwrap();
                }
                ChainTask::ReadRegistrations { parties, .. } => {
                    if !self.registrations_available {
                        self.runner.registrations_unavailable();
                        continue;
                    }
                    let registered = self
                        .registered
                        .iter()
                        .filter(|registration| {
                            parties
                                .iter()
                                .any(|party| party.bytes == registration.call.address.bytes)
                        })
                        .copied()
                        .collect::<Vec<_>>();
                    let start = self
                        .runner
                        .accept_registrations(&registered, Ok(keys(0)))
                        .unwrap();
                    if let Some(start) = start {
                        self.runner.session_started(
                            start.epoch,
                            start.parties.len(),
                            start.recovery_block,
                        );
                    }
                }
                ChainTask::ReadEvents(read) => {
                    self.reads
                        .push((matches!(read, ChainRead::Snapshot(_)), read.block()));
                    let events = self
                        .finalized_records
                        .iter()
                        .filter(|(block, _)| *block == read.block().0)
                        .map(|(_, event)| event.duplicate())
                        .collect();
                    if let Ok(batch) = self.runner.accept_events(read, events) {
                        self.runner
                            .settle_batch(&taken(batch), Vec::new())
                            .unwrap();
                    }
                }
            }
            self.send_transactions();
        }
        self.send_transactions();
    }

    fn notify_finalized(&mut self, block: SeqNum) {
        self.runner.notify_finalized(block);
        self.settle();
    }

    fn notify_sync_complete(&mut self, block: SeqNum) {
        self.runner.notify_sync_complete(block);
        self.settle();
    }
}

#[test]
fn runner_execution_sync_is_explicit_and_monotone() {
    let mut test = TestRunner::new([1; 32]);

    test.notify_finalized(SeqNum(10));
    assert_eq!(test.runner.sync_block(), None);

    test.notify_sync_complete(SeqNum(10));
    test.notify_sync_complete(SeqNum(9));
    test.notify_sync_complete(SeqNum(10));
    assert_eq!(test.runner.sync_block(), Some(SeqNum(10)));

    test.notify_finalized(SeqNum(12));
    test.notify_finalized(SeqNum(11));
    assert_eq!(test.runner.sync_block(), Some(SeqNum(10)));

    test.notify_sync_complete(SeqNum(11));
    assert_eq!(test.runner.sync_block(), Some(SeqNum(11)));
}

#[test]
fn runner_execution_sync_anchors_epoch_scoped_registration_snapshot() {
    let mut test = TestRunner::new([1; 32]);
    let validators = (0..4).map(|index| validator(index, index + 1)).collect();

    test.runner
        .start_chain_registered_session(Epoch(2), validators);
    test.settle();
    assert_eq!(test.runner.pending_session(), Some((Epoch(2), None)));

    test.notify_sync_complete(SeqNum(100));
    assert_eq!(
        test.runner.pending_session(),
        Some((Epoch(2), Some(SeqNum(100))))
    );
}

#[test]
fn runner_newer_session_discards_stale_pending_registration_read() {
    let mut test = TestRunner::new([1; 32]);
    let validators = || vec![validator(0, 1)];

    test.runner
        .start_chain_registered_session(Epoch(1), validators());
    test.settle();
    test.runner
        .start_chain_registered_session(Epoch(2), validators());
    test.settle();

    assert_eq!(
        test.runner.pending_session().map(|(epoch, _)| epoch),
        Some(Epoch(2))
    );
}

#[test]
fn runner_boundary_waits_for_sync_then_reads_through_finalized_head() {
    let mut test = TestRunner::new([1; 32]);
    test.notify_finalized(SeqNum(12));
    test.runner.start_chain_session(Epoch(2), 4, None);
    test.settle();
    assert!(test.reads.is_empty());

    test.notify_sync_complete(SeqNum(10));

    assert_eq!(
        test.reads,
        vec![(true, SeqNum(10)), (false, SeqNum(11)), (false, SeqNum(12))]
    );
}

fn registered_runner() -> TestRunner {
    let addresses = [4, 1, 3, 2];
    let mut test = TestRunner::new([9; 32]);
    test.registered = (0..4)
        .map(|index| registration(addresses[index as usize], index))
        .collect();
    test.registrations_available = true;
    let validators = (0..4)
        .map(|index| validator(index, addresses[index as usize]))
        .collect();
    test.notify_finalized(SeqNum(100));
    test.runner
        .start_chain_registered_session(Epoch(2), validators);
    test.settle();
    test
}

#[test]
fn runner_registered_session_waits_for_chain_snapshot_and_execution_sync() {
    let mut test = registered_runner();
    assert!(!test.runner.is_live(Epoch(2)));
    test.notify_sync_complete(SeqNum(90));

    assert_eq!(test.runner.latest_started_epoch(), Some(Epoch(2)));
    assert!(test.runner.is_live(Epoch(2)));
}

#[test]
fn runner_local_registration_retries_until_finalized_state_confirms_it() {
    let mut test = TestRunner::new([9; 32]);
    test.runner.prepare_registration(Epoch(2));
    test.settle();
    test.notify_sync_complete(SeqNum(10));
    let first = test.transactions.remove(0);

    test.notify_finalized(SeqNum(11));
    let retry = test.transactions.remove(0);
    assert_eq!(format!("{:?}", retry), format!("{:?}", first));

    test.observed_local = Some(test.local);
    test.notify_finalized(SeqNum(12));
    test.notify_finalized(SeqNum(13));
    assert!(test.transactions.is_empty());
}

/// A batch that the session took.
fn taken(batch: ChainEventBatch) -> BatchRun {
    let mut run = BatchRun::new(batch);
    while !matches!(run.task(), BatchTask::End) {
        run.did(true);
    }
    run
}

fn pc_qc(dealer: u32) -> PcQc {
    PcQc {
        dealer: PartyId(dealer),
        digest: [5; 32],
        signatures: Vec::new(),
    }
}

#[test]
fn calls_finalized_by_their_own_batch_are_not_submitted() {
    let mut test = registered_runner();
    test.notify_sync_complete(SeqNum(100));
    assert!(test.transactions.is_empty());
    test.runner.notify_finalized(SeqNum(101));
    let ChainTask::ReadEvents(read) = test.runner.next_chain_task() else {
        panic!("the block is read")
    };
    let event = ChainEvent::PcQc {
        record_id: RecordId(1),
        qc: pc_qc(0),
    };
    let batch = test.runner.accept_events(read, vec![event]).unwrap();
    test.runner
        .settle_batch(
            &taken(batch),
            vec![
                ChainCall::PostPcQc(pc_qc(0)),
                ChainCall::PostPcQc(pc_qc(1)),
            ],
        )
        .unwrap();
    test.send_transactions();
    assert_eq!(test.transactions.len(), 1);
    let input = test.transactions[0].fields.input.clone();
    assert!(String::from_utf8(input).unwrap().contains("dealer: 1"));
}

#[test]
fn a_batch_ends_with_the_first_event_that_fails() {
    let mut test = registered_runner();
    test.notify_sync_complete(SeqNum(100));
    test.runner.notify_finalized(SeqNum(101));
    let ChainTask::ReadEvents(read) = test.runner.next_chain_task() else {
        panic!("the block is read")
    };
    let event = |id: u64| ChainEvent::PcQc {
        record_id: RecordId(id),
        qc: pc_qc(0),
    };
    let batch = test
        .runner
        .accept_events(read, vec![event(1), event(2), event(3)])
        .unwrap();
    let mut run = BatchRun::new(batch);
    let mut handed = Vec::new();
    while let BatchTask::HandleEvent(event) = run.task() {
        handed.push(event.record_id());
        run.did(event.record_id() != RecordId(2));
    }
    assert_eq!(handed, vec![RecordId(1), RecordId(2)]);
    assert!(matches!(run.task(), BatchTask::End));
    assert!(matches!(
        test.runner
            .settle_batch(&run, vec![ChainCall::PostPcQc(pc_qc(0))]),
        Err(DkgError::Operation {
            operation: "handle DKG chain event"
        })
    ));
    test.send_transactions();
    assert!(test.transactions.is_empty());

    // The events were not noted, so the call is submitted when it comes.
    test.runner
        .submit_chain_calls(Epoch(2), vec![ChainCall::PostPcQc(pc_qc(0))]);
    test.send_transactions();
    assert_eq!(test.transactions.len(), 1);
}

#[test]
fn recovery_is_finished_after_the_events() {
    let batch = ChainEventBatch {
        session: ChainEventSession {
            epoch: Epoch(2),
            party_count: 4,
            recovery_block: SeqNum(100),
        },
        block: SeqNum(100),
        events: vec![ChainEvent::PcQc {
            record_id: RecordId(1),
            qc: pc_qc(0),
        }],
        recovery_complete_after: true,
    };
    let mut run = BatchRun::new(batch);
    assert!(matches!(run.task(), BatchTask::HandleEvent(_)));
    run.did(true);
    assert!(matches!(run.task(), BatchTask::FinishRecovery));
    run.did(false);
    assert!(matches!(run.task(), BatchTask::End));
    assert!(matches!(
        run.outcome(),
        Err(DkgError::Operation {
            operation: "finish DKG chain recovery"
        })
    ));
}

#[test]
fn messages_are_routed_to_live_sessions() {
    let mut test = registered_runner();
    test.notify_sync_complete(SeqNum(100));
    let live = DeliveryEnvelope::unacknowledged(Epoch(2), vec![1, 2]).encode();
    let Some((Epoch(2), DeliveryMessage::Unacknowledged(payload))) =
        test.runner.route_message(&live)
    else {
        panic!("the session is live")
    };
    assert_eq!(payload, vec![1, 2]);
    let other = DeliveryEnvelope::unacknowledged(Epoch(3), vec![1, 2]).encode();
    assert!(test.runner.route_message(&other).is_none());
    assert!(test.runner.route_message(&vec![0xFF]).is_none());
}

#[test]
fn started_epochs_retire_the_oldest_session() {
    let mut test = TestRunner::new([1; 32]);
    assert_eq!(test.runner.session_started(Epoch(2), 4, SeqNum(1)), None);
    assert_eq!(test.runner.session_started(Epoch(3), 4, SeqNum(2)), None);
    assert_eq!(
        test.runner.session_started(Epoch(4), 4, SeqNum(3)),
        Some(Epoch(2))
    );
    assert!(!test.runner.is_live(Epoch(2)));
    assert!(test.runner.is_live(Epoch(3)));
    assert_eq!(next_epoch(Epoch(4)), Epoch(5));
}
