use monad_runtime::chain::records::ChainRecords;
use monad_runtime::chain::scan::{ChainEventReader, ChainEventSession, ChainRead, SessionScan};
use monad_runtime::chain::types::{ChainEvent, PcQc};
use monad_runtime::dkg::ids::{Epoch, PartyId, RecordId, SeqNum};

fn test_session() -> ChainEventSession {
    ChainEventSession {
        epoch: Epoch(2),
        party_count: 4,
        recovery_block: SeqNum(10),
    }
}

fn pc_event(record: u64) -> ChainEvent {
    ChainEvent::PcQc {
        record_id: RecordId(record),
        qc: PcQc {
            dealer: PartyId(0),
            digest: [0x11; 32],
            signatures: Vec::new(),
        },
    }
}

#[test]
fn cursor_reads_snapshot_then_finalized_blocks_in_order() {
    let session = test_session();
    let mut scan = SessionScan::new(session, SeqNum(12));

    let snapshot = scan.next(SeqNum(12)).unwrap();
    assert_eq!(snapshot, ChainRead::Snapshot(session));
    assert!(!scan.advance(snapshot));

    let block_11 = scan.next(SeqNum(12)).unwrap();
    assert_eq!(block_11, ChainRead::Block(SeqNum(11), session));
    assert!(!scan.advance(block_11));

    let block_12 = scan.next(SeqNum(12)).unwrap();
    assert_eq!(block_12, ChainRead::Block(SeqNum(12), session));
    assert!(scan.advance(block_12));
    assert!(scan.next(SeqNum(12)).is_none());
}

#[test]
fn cursor_enters_live_phase_after_snapshot() {
    let session = test_session();
    let mut scan = SessionScan::new(session, session.recovery_block);

    let snapshot = scan.next(SeqNum(10)).unwrap();
    assert!(scan.advance(snapshot));

    let block = scan.next(SeqNum(11)).unwrap();
    assert_eq!(block, ChainRead::Block(SeqNum(11), session));
    assert!(!scan.advance(block));
    assert!(scan.next(SeqNum(11)).is_none());
}

#[test]
fn newer_sync_boundary_restarts_the_snapshot() {
    let session = test_session();
    let mut scan = SessionScan::new(session, SeqNum(12));
    scan.restart(SeqNum(11), SeqNum(12));

    let restarted = ChainEventSession {
        recovery_block: SeqNum(11),
        ..session
    };
    assert_eq!(scan.next(SeqNum(12)), Some(ChainRead::Snapshot(restarted)));
}

#[test]
fn read_job_uses_snapshot_then_receipts() {
    let session = test_session();
    let mut reads = Vec::new();
    let mut read_events = |read: ChainRead| {
        reads.push((matches!(read, ChainRead::Snapshot(_)), read.block()));
        vec![pc_event(read.block().0)]
    };
    let snapshot = read_events(ChainRead::Snapshot(session));
    let block = read_events(ChainRead::Block(SeqNum(11), session));

    assert_eq!(snapshot[0].record_id(), RecordId(10));
    assert_eq!(block[0].record_id(), RecordId(11));
    assert_eq!(reads, vec![(true, SeqNum(10)), (false, SeqNum(11))]);
}

#[test]
fn reader_delivers_batches_in_block_order() {
    let session = test_session();
    let mut reader = ChainEventReader::new();
    assert!(reader.next_read().is_none());
    reader.notify_finalized(SeqNum(11));
    assert!(reader.next_read().is_none());
    reader.start_session(session);

    let snapshot = reader.next_read().unwrap();
    let batch = reader.complete(snapshot, vec![pc_event(1)]);
    assert_eq!(batch.block, SeqNum(10));
    assert_eq!(batch.events.len(), 1);
    assert!(!batch.recovery_complete_after);

    let block = reader.next_read().unwrap();
    let batch = reader.complete(block, Vec::new());
    assert_eq!(batch.block, SeqNum(11));
    assert!(batch.recovery_complete_after);
    assert!(reader.next_read().is_none());

    reader.notify_finalized(SeqNum(9));
    assert!(reader.next_read().is_none());
    reader.notify_finalized(SeqNum(12));
    let block = reader.next_read().unwrap();
    assert!(!reader.complete(block, Vec::new()).recovery_complete_after);
}

#[test]
fn records_are_accepted_once_and_never_rewritten() {
    let mut records = ChainRecords::new();
    assert!(matches!(records.accept(&pc_event(3)), Ok(true)));
    assert!(matches!(records.accept(&pc_event(3)), Ok(false)));
    let conflicting = ChainEvent::PcQc {
        record_id: RecordId(3),
        qc: PcQc {
            dealer: PartyId(1),
            digest: [0x11; 32],
            signatures: Vec::new(),
        },
    };
    assert!(records.accept(&conflicting).is_err());
    assert!(matches!(records.accept(&pc_event(4)), Ok(true)));
}
