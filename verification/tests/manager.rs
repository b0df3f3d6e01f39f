use monad_runtime::chain::batch::{BatchRun, BatchTask};
use monad_runtime::chain::round::{RoundTask, SubmissionRound};
use monad_runtime::chain::scan::ChainRead;
use monad_runtime::chain::submitter::{TxSubmissionError, TxSubmitter};
use monad_runtime::chain::tx::{DkgChainConfig, DkgTransactionContext, PreparedTx};
use monad_runtime::chain::types::{ChainCall, PcQc, RegistrationCall};
use monad_runtime::dkg::error::DkgError;
use monad_runtime::dkg::ids::{Address, Epoch, NodeId, PartyId, SeqNum};
use monad_runtime::dkg::manager::{DkgManager, ManagerTask};
use monad_runtime::dkg::registration::{
    CheckedRegistration, DkgValidator, LocalPublicKeys, ProofCheck,
};
use monad_runtime::dkg::weights::{Stake, WEI_PER_MON};

fn node(index: u8) -> NodeId {
    NodeId {
        key: [index + 1; 33],
    }
}

fn address(byte: u8) -> Address {
    Address { bytes: [byte; 20] }
}

fn validator(index: u8, account: u8) -> DkgValidator {
    DkgValidator {
        node_id: node(index),
        address: address(account),
        stake: Stake {
            high: 0,
            low: u128::from(WEI_PER_MON),
        },
    }
}

fn keys(index: u8) -> LocalPublicKeys {
    LocalPublicKeys {
        receiver_public_key: [index + 20; 33],
        qc_verifier: address(index + 40),
    }
}

fn registration(account: u8, index: u8) -> CheckedRegistration {
    CheckedRegistration {
        call: RegistrationCall {
            address: address(account),
            qc_verifier: keys(index).qc_verifier,
            receiver_public_key: keys(index).receiver_public_key,
            receiver_proof_nonce: 2,
            receiver_proof: [7; 64],
        },
        check: ProofCheck::Valid,
    }
}

/// A manager, the chain that it reads, and the transactions that it sent.
struct TestManager {
    manager: DkgManager,
    registered: Vec<CheckedRegistration>,
    registrations_available: bool,
    observed_local: Option<RegistrationCall>,
    local: Option<RegistrationCall>,
    local_available: bool,
    reads: Vec<(bool, SeqNum)>,
    local_reads: Vec<SeqNum>,
    transactions: Vec<PreparedTx>,
}

impl TestManager {
    fn new(signing_key: [u8; 32]) -> Self {
        let config = DkgChainConfig::new(signing_key, address(0), 1).unwrap();
        let submitter = TxSubmitter::new(&config).unwrap();
        let local = RegistrationCall {
            address: submitter.signer_address(),
            qc_verifier: address(0x31),
            receiver_public_key: [0x32; 33],
            receiver_proof_nonce: 2,
            receiver_proof: [0x33; 64],
        };
        TestManager {
            manager: DkgManager::new_with_chain(node(0), submitter),
            registered: Vec::new(),
            registrations_available: false,
            observed_local: None,
            local: Some(local),
            local_available: true,
            reads: Vec::new(),
            local_reads: Vec::new(),
            transactions: Vec::new(),
        }
    }

    fn send_transactions(&mut self) {
        for keys in self.manager.take_attempts() {
            let submitter = self.manager.submitter().unwrap();
            let mut round = SubmissionRound::new(keys);
            let mut task = round.next(submitter);
            loop {
                task = match task {
                    RoundTask::Over | RoundTask::Failed(TxSubmissionError::MissingContext) => break,
                    RoundTask::Failed(error) => panic!("{:?}", error),
                    RoundTask::ReadContext { .. } => round.context_read(
                        submitter,
                        Ok(DkgTransactionContext {
                            nonce: 0,
                            base_fee_per_gas: 0,
                        }),
                    ),
                    RoundTask::Retired(_) => round.next(submitter),
                    RoundTask::Encode(call) => {
                        round.encoded(submitter, format!("{:?}", call).into_bytes())
                    }
                    RoundTask::Send(transaction) => {
                        self.transactions.push(transaction);
                        round.next(submitter)
                    }
                };
            }
        }
    }

    /// Makes all reads that are due.
    fn settle(&mut self) {
        loop {
            match self.manager.next_task() {
                ManagerTask::Idle => break,
                ManagerTask::ReadLocalRegistration(read) => {
                    self.local_reads.push(read.block);
                    if self.local_available {
                        let _ = self.manager.accept_local_registration(
                            read,
                            self.observed_local,
                            self.local,
                        );
                    } else {
                        self.manager.local_registration_unavailable(read);
                    }
                }
                ManagerTask::ReadRegisteredParties { .. } => {
                    if !self.registrations_available {
                        self.manager.registrations_unavailable();
                        continue;
                    }
                    let start = self
                        .manager
                        .accept_registrations(&self.registered, Ok(keys(0)))
                        .unwrap();
                    if let Some(start) = start {
                        self.manager.session_started(
                            start.epoch,
                            start.parties.len(),
                            Some(start.recovery_block),
                        );
                    }
                }
                ManagerTask::ReadEvents(read) => {
                    self.reads
                        .push((matches!(read, ChainRead::Snapshot(_)), read.block()));
                    if let Ok(batch) = self.manager.accept_events(read, Vec::new()) {
                        let mut run = BatchRun::new(batch);
                        while !matches!(run.task(), BatchTask::End) {
                            run.did(true);
                        }
                        self.manager.settle_batch(&run).unwrap();
                    }
                }
            }
            self.send_transactions();
        }
        self.send_transactions();
    }

    fn notify_finalized(&mut self, block: SeqNum) {
        self.manager.notify_finalized(block);
        self.settle();
    }

    fn notify_sync_complete(&mut self, block: SeqNum) {
        self.manager.notify_sync_complete(block);
        self.settle();
    }
}

#[test]
fn manager_execution_sync_is_explicit_and_monotone() {
    let mut manager = DkgManager::new(node(0));

    manager.notify_finalized(SeqNum(10));
    assert_eq!(manager.sync_block(), None);

    manager.notify_sync_complete(SeqNum(10));
    manager.notify_sync_complete(SeqNum(9));
    manager.notify_sync_complete(SeqNum(10));
    assert_eq!(manager.sync_block(), Some(SeqNum(10)));

    manager.notify_finalized(SeqNum(12));
    manager.notify_finalized(SeqNum(11));
    assert_eq!(manager.sync_block(), Some(SeqNum(10)));

    manager.notify_sync_complete(SeqNum(11));
    assert_eq!(manager.sync_block(), Some(SeqNum(11)));
}

#[test]
fn manager_execution_sync_anchors_epoch_scoped_registration_snapshot() {
    let mut test = TestManager::new([1; 32]);
    let validators = (0..4).map(|index| validator(index, index + 1)).collect();

    test.manager
        .start_chain_registered_session(Epoch(2), validators)
        .unwrap();
    test.settle();
    assert_eq!(test.manager.pending_session(), Some((Epoch(2), None)));

    test.notify_sync_complete(SeqNum(100));
    assert_eq!(
        test.manager.pending_session(),
        Some((Epoch(2), Some(SeqNum(100))))
    );
}

#[test]
fn manager_newer_session_discards_stale_pending_registration_read() {
    let mut test = TestManager::new([1; 32]);
    let validators = || vec![validator(0, 1)];

    test.manager
        .start_chain_registered_session(Epoch(1), validators())
        .unwrap();
    test.manager
        .start_chain_registered_session(Epoch(2), validators())
        .unwrap();

    assert_eq!(
        test.manager.pending_session().map(|(epoch, _)| epoch),
        Some(Epoch(2))
    );
}

#[test]
fn manager_boundary_waits_for_sync_then_reads_through_finalized_head() {
    let mut test = TestManager::new([1; 32]);
    test.notify_finalized(SeqNum(12));
    test.manager.start_chain_session(Epoch(2), 4, None);
    test.settle();
    assert!(test.reads.is_empty());

    test.notify_sync_complete(SeqNum(10));

    assert_eq!(
        test.reads,
        vec![(true, SeqNum(10)), (false, SeqNum(11)), (false, SeqNum(12))]
    );
}

fn registered_manager() -> TestManager {
    let addresses = [4, 1, 3, 2];
    let mut test = TestManager::new([9; 32]);
    test.registered = (0..4)
        .map(|index| registration(addresses[index as usize], index))
        .collect();
    test.registrations_available = true;
    let validators = (0..4)
        .map(|index| validator(index, addresses[index as usize]))
        .collect();
    test.notify_finalized(SeqNum(100));
    test.manager
        .start_chain_registered_session(Epoch(2), validators)
        .unwrap();
    test.settle();
    test
}

#[test]
fn manager_registered_session_waits_for_chain_snapshot_and_execution_sync() {
    let mut test = registered_manager();
    assert!(!test.manager.is_live(Epoch(2)));
    test.notify_sync_complete(SeqNum(90));

    assert_eq!(test.manager.latest_started_epoch(), Some(Epoch(2)));
    assert!(test.manager.is_live(Epoch(2)));
    assert_eq!(test.reads, vec![(true, SeqNum(100))]);
}

#[test]
fn manager_local_registration_retries_until_finalized_state_confirms_it() {
    let mut test = TestManager::new([9; 32]);
    test.manager.prepare_registration(Epoch(2));
    test.settle();
    test.notify_sync_complete(SeqNum(10));
    let first = test.transactions.remove(0);

    test.notify_finalized(SeqNum(11));
    let retry = test.transactions.remove(0);
    assert_eq!(format!("{:?}", retry), format!("{:?}", first));

    test.observed_local = test.local;
    test.notify_finalized(SeqNum(12));
    test.notify_finalized(SeqNum(13));
    assert!(test.transactions.is_empty());
    assert_eq!(
        test.local_reads,
        vec![SeqNum(10), SeqNum(11), SeqNum(12)]
    );
}

#[test]
fn manager_without_chain_reads_nothing() {
    let mut manager = DkgManager::new(node(0));
    assert!(matches!(
        manager.start_chain_registered_session(Epoch(2), vec![validator(0, 1)]),
        Err(DkgError::Unsupported("DKG registration reads"))
    ));
    assert_eq!(manager.pending_session(), None);
    manager.prepare_registration(Epoch(2));
    manager.notify_sync_complete(SeqNum(10));
    manager.session_started(Epoch(2), 4, None);
    assert!(matches!(manager.next_task(), ManagerTask::Idle));
    assert!(manager
        .start_chain_registered_session(Epoch(2), vec![validator(0, 1)])
        .is_ok());
    manager.handle_command(
        Epoch(2),
        ChainCall::PostPcQc(PcQc {
            dealer: PartyId(0),
            digest: [5; 32],
            signatures: Vec::new(),
        }),
    );
    assert!(manager.take_attempts().is_empty());
    assert!(manager.submitter().is_none());
}

#[test]
fn manager_reads_an_unavailable_block_again_before_the_head() {
    let mut test = TestManager::new([9; 32]);
    test.local_available = false;
    test.manager.prepare_registration(Epoch(2));
    test.settle();
    test.notify_sync_complete(SeqNum(10));
    test.notify_finalized(SeqNum(12));
    assert!(test.transactions.is_empty());
    test.local_available = true;
    test.notify_finalized(SeqNum(13));
    assert_eq!(
        test.local_reads,
        vec![SeqNum(10), SeqNum(10), SeqNum(10), SeqNum(13)]
    );
    assert!(!test.transactions.is_empty());
}

#[test]
fn manager_gives_up_a_registration_that_it_cannot_load() {
    let mut test = TestManager::new([9; 32]);
    test.local = None;
    test.manager.prepare_registration(Epoch(2));
    test.settle();
    test.notify_sync_complete(SeqNum(10));
    test.notify_finalized(SeqNum(11));
    assert_eq!(test.local_reads, vec![SeqNum(10)]);
    assert!(test.transactions.is_empty());
}

#[test]
fn manager_submits_the_calls_of_a_recovered_session() {
    let mut test = registered_manager();
    test.notify_sync_complete(SeqNum(100));
    assert!(test.transactions.is_empty());
    test.manager.handle_command(
        Epoch(2),
        ChainCall::PostPcQc(PcQc {
            dealer: PartyId(1),
            digest: [5; 32],
            signatures: Vec::new(),
        }),
    );
    test.send_transactions();
    assert_eq!(test.transactions.len(), 1);
    let input = test.transactions[0].fields.input.clone();
    assert!(String::from_utf8(input).unwrap().contains("dealer: 1"));
}

#[test]
fn manager_retires_the_oldest_session() {
    let mut manager = DkgManager::new(node(0));
    assert_eq!(manager.session_started(Epoch(2), 4, None), None);
    assert_eq!(manager.session_started(Epoch(3), 4, None), None);
    manager.session_skipped(Epoch(4));
    assert_eq!(
        manager.session_started(Epoch(5), 4, None),
        Some(Epoch(2))
    );
    assert!(!manager.is_live(Epoch(2)));
    assert!(manager.is_live(Epoch(3)));
    assert!(manager.is_live(Epoch(5)));
}

#[test]
fn manager_reads_registrations_before_the_events_of_a_new_block() {
    let mut test = registered_manager();
    test.notify_sync_complete(SeqNum(90));
    assert_eq!(test.reads, vec![(true, SeqNum(100))]);

    test.registrations_available = false;
    let addresses = [4, 1, 3, 2];
    let validators = (0..4)
        .map(|index| validator(index, addresses[index as usize]))
        .collect();
    test.manager
        .start_chain_registered_session(Epoch(3), validators)
        .unwrap();
    test.settle();
    test.manager.prepare_registration(Epoch(4));
    test.settle();

    test.manager.notify_finalized(SeqNum(101));
    assert!(matches!(
        test.manager.next_task(),
        ManagerTask::ReadRegisteredParties {
            epoch: Epoch(3),
            block: SeqNum(100)
        }
    ));
    let start = test
        .manager
        .accept_registrations(&test.registered, Ok(keys(0)))
        .unwrap()
        .unwrap();
    test.manager
        .session_started(start.epoch, start.parties.len(), Some(start.recovery_block));
    // The session starts at its own block: the new one is not known to it yet.
    let ManagerTask::ReadEvents(read) = test.manager.next_task() else {
        panic!("the snapshot is read")
    };
    assert!(matches!(read, ChainRead::Snapshot(_)));
    assert_eq!(read.block(), SeqNum(100));
    test.manager.accept_events(read, Vec::new()).unwrap();
    let ManagerTask::ReadLocalRegistration(read) = test.manager.next_task() else {
        panic!("the local registration is read")
    };
    assert_eq!(read.block, SeqNum(101));
    test.manager.local_registration_unavailable(read);
    let ManagerTask::ReadEvents(read) = test.manager.next_task() else {
        panic!("the new block is read")
    };
    assert_eq!(read.block(), SeqNum(101));
}

#[test]
fn manager_never_attempts_an_abandoned_registration() {
    let mut test = TestManager::new([9; 32]);
    test.manager.prepare_registration(Epoch(2));
    test.settle();
    test.notify_sync_complete(SeqNum(10));
    let abandoned = test.transactions.remove(0);

    test.manager.prepare_registration(Epoch(3));
    test.settle();
    let newer = test.transactions.remove(0);
    assert_ne!(format!("{:?}", newer), format!("{:?}", abandoned));
    for block in 11..14 {
        test.notify_finalized(SeqNum(block));
        let retry = test.transactions.remove(0);
        assert_eq!(format!("{:?}", retry), format!("{:?}", newer));
        assert!(test.transactions.is_empty());
    }
    // An older epoch does not come back.
    test.manager.prepare_registration(Epoch(2));
    test.settle();
    assert!(test.transactions.is_empty());
}
