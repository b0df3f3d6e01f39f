//! Finalized-chain recovery of one session.
//!
//! ```text
//! Snapshot -- no backlog --------------> Live
//!     +------ finalized backlog --> Catchup --> Live
//! ```
//!
//! The snapshot is read once, at the session's boundary. If finalized blocks
//! existed when the session started, each of them is then read in order. After
//! that the scan follows newly finalized blocks.

use crate::chain::types::ChainEvent;
use crate::dkg::ids::{Epoch, SeqNum};
use vstd::prelude::*;

verus! {

/// The session whose chain events are read.
#[derive(Clone, Copy, Debug, PartialEq, Eq, Structural)]
pub struct ChainEventSession {
    pub epoch: Epoch,
    pub party_count: usize,
    pub recovery_block: SeqNum,
}

/// A read of chain events: a snapshot at the session's boundary, or one block.
#[derive(Clone, Copy, Debug, PartialEq, Eq, Structural)]
pub enum ChainRead {
    Snapshot(ChainEventSession),
    Block(SeqNum, ChainEventSession),
}

impl ChainRead {
    /// The session that a read is for.
    pub open spec fn of_session(self) -> ChainEventSession {
        match self {
            ChainRead::Snapshot(session) => session,
            ChainRead::Block(_, session) => session,
        }
    }

    /// The block that a read is at.
    pub open spec fn at_block(self) -> SeqNum {
        match self {
            ChainRead::Snapshot(session) => session.recovery_block,
            ChainRead::Block(block, _) => block,
        }
    }

    pub fn session(self) -> (session: ChainEventSession)
        ensures
            session == self.of_session(),
    {
        match self {
            ChainRead::Snapshot(session) => session,
            ChainRead::Block(_, session) => session,
        }
    }

    pub fn block(self) -> (block: SeqNum)
        ensures
            block == self.at_block(),
    {
        match self {
            ChainRead::Snapshot(session) => session.recovery_block,
            ChainRead::Block(block, _) => block,
        }
    }
}

/// The block to read next; there is none after the last block number.
#[derive(Clone, Copy, Debug, PartialEq, Eq, Structural)]
pub struct BlockCursor {
    pub next: Option<SeqNum>,
}

impl BlockCursor {
    /// The cursor behind `block`.
    pub open spec fn behind(block: SeqNum) -> BlockCursor {
        BlockCursor {
            next: if block.0 < u64::MAX {
                Some(SeqNum((block.0 + 1) as u64))
            } else {
                None
            },
        }
    }

    /// The next block, if it is final.
    pub open spec fn ready(self, latest: SeqNum) -> Option<SeqNum> {
        match self.next {
            Some(block) if block.0 <= latest.0 => Some(block),
            _ => None,
        }
    }

    fn after(block: SeqNum) -> (cursor: Self)
        ensures
            cursor == BlockCursor::behind(block),
    {
        if block.0 < u64::MAX {
            BlockCursor { next: Some(SeqNum(block.0 + 1)) }
        } else {
            BlockCursor { next: None }
        }
    }

    fn next(self, latest: SeqNum) -> (block: Option<SeqNum>)
        ensures
            block == self.ready(latest),
    {
        match self.next {
            Some(block) => {
                if block.0 <= latest.0 {
                    Some(block)
                } else {
                    None
                }
            },
            None => None,
        }
    }
}

/// How far the scan of a session has come.
#[derive(Clone, Copy, Debug, PartialEq, Eq, Structural)]
pub enum SessionPhase {
    /// The snapshot is to be read; the backlog ends at `recovery_through`.
    Snapshot { recovery_through: SeqNum },
    /// The backlog up to `recovery_through` is being read.
    Catchup { blocks: BlockCursor, recovery_through: SeqNum },
    /// Newly finalized blocks are followed.
    Live { blocks: BlockCursor },
}

/// The later of two blocks.
pub open spec fn later_block(a: SeqNum, b: SeqNum) -> SeqNum {
    if a.0 >= b.0 {
        a
    } else {
        b
    }
}

fn max_block(a: SeqNum, b: SeqNum) -> (max: SeqNum)
    ensures
        max == later_block(a, b),
{
    if a.0 >= b.0 {
        a
    } else {
        b
    }
}

/// The scan of one session.
#[derive(Clone, Copy, Debug, PartialEq, Eq, Structural)]
pub struct SessionScan {
    pub session: ChainEventSession,
    pub phase: SessionPhase,
}

impl SessionScan {
    /// A scan that has read nothing.
    pub open spec fn started(session: ChainEventSession, finalized: SeqNum) -> SessionScan {
        SessionScan {
            session,
            phase: SessionPhase::Snapshot {
                recovery_through: later_block(finalized, session.recovery_block),
            },
        }
    }

    /// The next read, with the chain final up to `latest`.
    pub open spec fn next_read(self, latest: SeqNum) -> Option<ChainRead> {
        let latest = later_block(latest, self.session.recovery_block);
        match self.phase {
            SessionPhase::Snapshot { .. } => Some(ChainRead::Snapshot(self.session)),
            SessionPhase::Catchup { blocks, .. } => match blocks.ready(latest) {
                Some(block) => Some(ChainRead::Block(block, self.session)),
                None => None,
            },
            SessionPhase::Live { blocks } => match blocks.ready(latest) {
                Some(block) => Some(ChainRead::Block(block, self.session)),
                None => None,
            },
        }
    }

    /// Whether `read` is the read that the scan waits for.
    pub open spec fn expects(self, read: ChainRead) -> bool {
        &&& read.of_session() == self.session
        &&& match (self.phase, read) {
            (SessionPhase::Snapshot { .. }, ChainRead::Snapshot(_)) => true,
            (SessionPhase::Catchup { blocks, .. }, ChainRead::Block(block, _)) => blocks.next == Some(
                block,
            ),
            (SessionPhase::Live { blocks }, ChainRead::Block(block, _)) => blocks.next == Some(block),
            _ => false,
        }
    }

    /// The scan after a read, and whether that read completed the recovery.
    pub open spec fn advanced(self, read: ChainRead) -> (SessionScan, bool) {
        let blocks = BlockCursor::behind(read.at_block());
        let (phase, complete) = match self.phase {
            SessionPhase::Snapshot { recovery_through } => {
                if self.session.recovery_block.0 >= recovery_through.0 {
                    (SessionPhase::Live { blocks }, true)
                } else {
                    (SessionPhase::Catchup { blocks, recovery_through }, false)
                }
            },
            SessionPhase::Catchup { recovery_through, .. } => {
                if read.at_block().0 >= recovery_through.0 {
                    (SessionPhase::Live { blocks }, true)
                } else {
                    (SessionPhase::Catchup { blocks, recovery_through }, false)
                }
            },
            SessionPhase::Live { .. } => (SessionPhase::Live { blocks }, false),
        };
        (SessionScan { session: self.session, phase }, complete)
    }

    pub fn new(session: ChainEventSession, finalized: SeqNum) -> (scan: Self)
        ensures
            scan == SessionScan::started(session, finalized),
    {
        SessionScan {
            session,
            phase: SessionPhase::Snapshot {
                recovery_through: max_block(finalized, session.recovery_block),
            },
        }
    }

    pub fn next(self, latest: SeqNum) -> (read: Option<ChainRead>)
        ensures
            read == self.next_read(latest),
    {
        let latest: SeqNum = max_block(latest, self.session.recovery_block);
        let ready: Option<SeqNum> = match self.phase {
            SessionPhase::Snapshot { .. } => {
                return Some(ChainRead::Snapshot(self.session));
            },
            SessionPhase::Catchup { blocks, .. } => blocks.next(latest),
            SessionPhase::Live { blocks } => blocks.next(latest),
        };
        match ready {
            Some(block) => Some(ChainRead::Block(block, self.session)),
            None => None,
        }
    }

    /// Starts over at a newer boundary.
    pub fn restart(&mut self, recovery_block: SeqNum, finalized: SeqNum)
        ensures
            *final(self) == SessionScan::started(
                ChainEventSession { recovery_block, ..old(self).session },
                finalized,
            ),
    {
        *self =
        SessionScan::new(
            ChainEventSession {
                epoch: self.session.epoch,
                party_count: self.session.party_count,
                recovery_block,
            },
            finalized,
        );
    }

    /// Notes that the expected read is done. Returns whether it completed the recovery.
    pub fn advance(&mut self, read: ChainRead) -> (recovery_complete: bool)
        requires
            old(self).expects(read),
        ensures
            (*final(self), recovery_complete) == old(self).advanced(read),
    {
        let block: SeqNum = read.block();
        let blocks: BlockCursor = BlockCursor::after(block);
        match self.phase {
            SessionPhase::Snapshot { recovery_through } => {
                if block.0 >= recovery_through.0 {
                    self.phase = SessionPhase::Live { blocks };
                    true
                } else {
                    self.phase = SessionPhase::Catchup { blocks, recovery_through };
                    false
                }
            },
            SessionPhase::Catchup { recovery_through, .. } => {
                if block.0 >= recovery_through.0 {
                    self.phase = SessionPhase::Live { blocks };
                    true
                } else {
                    self.phase = SessionPhase::Catchup { blocks, recovery_through };
                    false
                }
            },
            SessionPhase::Live { .. } => {
                self.phase = SessionPhase::Live { blocks };
                false
            },
        }
    }
}

/// The events of one read.
#[derive(Debug)]
pub struct ChainEventBatch {
    pub session: ChainEventSession,
    pub block: SeqNum,
    pub events: Vec<ChainEvent>,
    pub recovery_complete_after: bool,
}

/// Reads the chain events of the newest session.
#[derive(Clone, Copy, Debug, PartialEq, Eq, Structural)]
pub struct ChainEventReader {
    pub latest: Option<SeqNum>,
    pub scan: Option<SessionScan>,
}

impl ChainEventReader {
    /// The reader once `block` is final.
    pub open spec fn with_finalized(self, block: SeqNum) -> ChainEventReader {
        ChainEventReader {
            latest: match self.latest {
                Some(latest) => Some(later_block(latest, block)),
                None => Some(block),
            },
            scan: self.scan,
        }
    }

    /// The last block that the reader knows to be final.
    pub open spec fn known_head(self, session: ChainEventSession) -> SeqNum {
        match self.latest {
            Some(latest) => latest,
            None => session.recovery_block,
        }
    }

    /// The reader once a session starts.
    pub open spec fn with_session(self, session: ChainEventSession) -> ChainEventReader {
        ChainEventReader {
            latest: self.latest,
            scan: Some(SessionScan::started(session, self.known_head(session))),
        }
    }

    /// The next read.
    pub open spec fn wanted_read(self) -> Option<ChainRead> {
        match self.scan {
            Some(scan) => scan.next_read(self.known_head(scan.session)),
            None => None,
        }
    }

    pub fn new() -> (reader: Self)
        ensures
            reader == (ChainEventReader { latest: None, scan: None }),
    {
        ChainEventReader { latest: None, scan: None }
    }

    /// Makes one more finalized block available.
    pub fn notify_finalized(&mut self, block: SeqNum)
        ensures
            *final(self) == old(self).with_finalized(block),
    {
        self.latest =
        match self.latest {
            Some(latest) => Some(max_block(latest, block)),
            None => Some(block),
        };
    }

    /// Starts to read the events of a session, at its boundary.
    pub fn start_session(&mut self, session: ChainEventSession)
        ensures
            *final(self) == old(self).with_session(session),
    {
        let head: SeqNum = match self.latest {
            Some(latest) => latest,
            None => session.recovery_block,
        };
        self.scan = Some(SessionScan::new(session, head));
    }

    pub fn next_read(&self) -> (read: Option<ChainRead>)
        ensures
            read == self.wanted_read(),
    {
        match self.scan {
            Some(scan) => {
                let head: SeqNum = match self.latest {
                    Some(latest) => latest,
                    None => scan.session.recovery_block,
                };
                scan.next(head)
            },
            None => None,
        }
    }

    /// Notes that the wanted read is done.
    pub fn complete(&mut self, read: ChainRead, events: Vec<ChainEvent>) -> (batch: ChainEventBatch)
        requires
            old(self).wanted_read() == Some(read),
        ensures
            ({
                let (scan, complete) = old(self).scan->Some_0.advanced(read);
                &&& *final(self) == (ChainEventReader { latest: old(self).latest, scan: Some(scan) })
                &&& batch == (ChainEventBatch {
                    session: read.of_session(),
                    block: read.at_block(),
                    events,
                    recovery_complete_after: complete,
                })
            }),
    {
        let mut complete: bool = false;
        match self.scan {
            Some(scan) => {
                let mut scan: SessionScan = scan;
                complete = scan.advance(read);
                self.scan = Some(scan);
            },
            None => {},
        }
        ChainEventBatch {
            session: read.session(),
            block: read.block(),
            events,
            recovery_complete_after: complete,
        }
    }
}

/// Every read that a scan asks for is the one that it waits for.
pub proof fn law_asked_read_is_expected(scan: SessionScan, latest: SeqNum)
    ensures
        scan.next_read(latest) matches Some(read) ==> scan.expects(read),
{
}

/// After a block the scan asks for the block behind it, once that one is final.
pub proof fn law_blocks_are_read_in_order(scan: SessionScan, read: ChainRead, latest: SeqNum)
    requires
        scan.expects(read),
        latest.0 >= scan.session.recovery_block.0,
    ensures
        scan.advanced(read).0.next_read(latest) == (if read.at_block().0 < latest.0 {
            Some(ChainRead::Block(SeqNum((read.at_block().0 + 1) as u64), scan.session))
        } else {
            None
        }),
{
}

/// Recovery completes once: a scan that follows new blocks never reports it.
pub proof fn law_recovery_completes_once(scan: SessionScan, read: ChainRead, later: ChainRead)
    requires
        scan.expects(read),
        scan.advanced(read).1,
    ensures
        scan.advanced(read).0.phase is Live,
        !scan.advanced(read).0.advanced(later).1,
        scan.advanced(read).0.advanced(later).0.phase is Live,
{
}

/// Recovery completes with the read of the last block that was final at the start.
pub proof fn law_recovery_covers_the_backlog(
    session: ChainEventSession,
    finalized: SeqNum,
    scan: SessionScan,
    read: ChainRead,
)
    requires
        scan.session == session,
        scan.expects(read),
        match scan.phase {
            SessionPhase::Snapshot { recovery_through } => recovery_through == later_block(
                finalized,
                session.recovery_block,
            ),
            SessionPhase::Catchup { recovery_through, .. } => recovery_through == later_block(
                finalized,
                session.recovery_block,
            ),
            SessionPhase::Live { .. } => false,
        },
    ensures
        scan.advanced(read).1 <==> read.at_block().0 >= finalized.0 && read.at_block().0
            >= session.recovery_block.0,
        scan.advanced(read).0.phase matches SessionPhase::Catchup { recovery_through, .. }
            ==> recovery_through == later_block(finalized, session.recovery_block),
{
}

/// The later one of two blocks is one of them and not before the other.
pub proof fn law_later_block_is_the_larger(a: SeqNum, b: SeqNum)
    ensures
        later_block(a, b).0 >= a.0,
        later_block(a, b).0 >= b.0,
        later_block(a, b) == a || later_block(a, b) == b,
{
}

/// A scan starts with a snapshot at the session's own boundary, whatever is known of
/// the chain.
pub proof fn law_session_starts_with_its_snapshot(reader: ChainEventReader, session: ChainEventSession)
    ensures
        reader.with_session(session).wanted_read() == Some(ChainRead::Snapshot(session)),
        reader.with_session(session).latest == reader.latest,
{
}

/// The newest finalized block that a reader knows never goes back, and the scan
/// goes on where it is.
pub proof fn law_reader_head_never_goes_back(reader: ChainEventReader, block: SeqNum)
    ensures
        reader.with_finalized(block).latest matches Some(after) && after.0 >= block.0,
        reader.latest matches Some(before) ==> reader.with_finalized(block).latest->Some_0.0 >= before.0,
        reader.latest is None || block.0 >= reader.latest->Some_0.0
            ==> reader.with_finalized(block).latest == Some(block),
        reader.with_finalized(block).scan == reader.scan,
{
}

/// A live scan reads the block behind its cursor exactly once it is finalized.
pub proof fn law_live_scan_waits_for_its_block(scan: SessionScan, next: SeqNum, latest: SeqNum)
    requires
        scan.phase == (SessionPhase::Live { blocks: BlockCursor { next: Some(next) } }),
        latest.0 >= scan.session.recovery_block.0,
    ensures
        scan.next_read(latest) == (if next.0 <= latest.0 {
            Some(ChainRead::Block(next, scan.session))
        } else {
            None
        }),
        next.0 < u64::MAX ==> BlockCursor::behind(next).next == Some(SeqNum((next.0 + 1) as u64)),
{
}

/// A read belongs to its session, and a snapshot is taken at the session's boundary.
pub proof fn law_snapshot_is_at_the_boundary(session: ChainEventSession, block: SeqNum)
    ensures
        ChainRead::Snapshot(session).of_session() == session,
        ChainRead::Snapshot(session).at_block() == session.recovery_block,
        ChainRead::Block(block, session).of_session() == session,
        ChainRead::Block(block, session).at_block() == block,
{
}

} // verus!
