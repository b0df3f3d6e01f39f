//! Finding the contract's events among the logs of finalized blocks.

use crate::chain::codec::{
    event_result, ContractBveQc, ContractCodecError, ContractDkgResult, ContractPcQc,
};
use crate::chain::types::{ChainEvent, ChainEventView};
use crate::dkg::ids::{Address, Epoch, RecordId};
use crate::reliable::message::same_key;
use vstd::prelude::*;

verus! {

/// The bytes of a bloom filter.
pub const BLOOM_BYTES: usize = 256;

/// The bloom filter of a log of `address` with the single topic `topic`.
pub uninterp spec fn raw_log_bloom(address: Seq<u8>, topic: Seq<u8>) -> Seq<u8>;

/// Calls `alloy_primitives::Bloom::accrue_raw_log` on an empty filter. Claims
/// that the filter depends on the address and the topic alone, named
/// [`raw_log_bloom`].
#[verifier::external_body]
fn log_bloom(address: &[u8; 20], topic: &[u8; 32]) -> (bloom: [u8; 256])
    ensures
        bloom@ == raw_log_bloom(address@, topic@),
{
    let mut bloom = alloy_primitives::Bloom::ZERO;
    bloom.accrue_raw_log(
        alloy_primitives::Address::from(*address),
        &[alloy_primitives::B256::from(*topic)],
    );
    bloom.0.0
}

/// Whether every bit of `part` is set in `bloom`.
pub open spec fn bloom_contains(bloom: Seq<u8>, part: Seq<u8>) -> bool {
    forall|i: int| 0 <= i < part.len() ==> #[trigger] bloom[i] & part[i] == part[i]
}

fn contains_bloom(bloom: &[u8; 256], part: &[u8; 256]) -> (contained: bool)
    ensures
        contained == bloom_contains(bloom@, part@),
{
    let mut i: usize = 0;
    while i < BLOOM_BYTES
        invariant
            i <= BLOOM_BYTES,
            forall|j: int| 0 <= j < i ==> #[trigger] bloom@[j] & part@[j] == part@[j],
        decreases BLOOM_BYTES - i,
    {
        if bloom[i] & part[i] != part[i] {
            assert(bloom@[i as int] & part@[i as int] != part@[i as int]);
            return false;
        }
        i += 1;
    }
    true
}

/// What a log of the contract says, once its data is decoded.
#[allow(inconsistent_fields)]
#[derive(Debug)]
pub enum ContractLogRecord {
    PcQcPosted { epoch: u64, sequence: u64, qc: ContractPcQc },
    BveQcPosted { epoch: u64, sequence: u64, qc: ContractBveQc },
    DkgResultPosted { epoch: u64, sequence: u64, result: ContractDkgResult },
}

/// A log: who wrote it, its first topic, and what it says where its data can be
/// decoded as the event that the topic names.
#[derive(Debug)]
pub struct ContractLog {
    pub address: Address,
    pub topic: Option<[u8; 32]>,
    pub record: Option<ContractLogRecord>,
}

/// Why a log of the contract is refused.
#[derive(Clone, Copy, Debug)]
pub enum DkgLogError {
    Decode,
    Contract(ContractCodecError),
}

/// One of the contract's events.
#[derive(Clone, Copy, Debug, PartialEq, Eq, Structural)]
pub enum LogKind {
    PcQcPosted,
    BveQcPosted,
    DkgResultPosted,
}

impl ContractLogRecord {
    /// Which event the record is of.
    pub open spec fn kind(self) -> LogKind {
        match self {
            ContractLogRecord::PcQcPosted { .. } => LogKind::PcQcPosted,
            ContractLogRecord::BveQcPosted { .. } => LogKind::BveQcPosted,
            ContractLogRecord::DkgResultPosted { .. } => LogKind::DkgResultPosted,
        }
    }

    /// The epoch that the record belongs to.
    pub open spec fn in_epoch(self) -> u64 {
        match self {
            ContractLogRecord::PcQcPosted { epoch, .. } => epoch,
            ContractLogRecord::BveQcPosted { epoch, .. } => epoch,
            ContractLogRecord::DkgResultPosted { epoch, .. } => epoch,
        }
    }

    /// The chain event that the record stands for.
    pub open spec fn event(self, party_count: usize) -> Result<ChainEventView, ContractCodecError> {
        match self {
            ContractLogRecord::PcQcPosted { sequence, qc, .. } => qc.event(
                RecordId(sequence),
                party_count,
            ),
            ContractLogRecord::BveQcPosted { sequence, qc, .. } => qc.event(
                RecordId(sequence),
                party_count,
            ),
            ContractLogRecord::DkgResultPosted { epoch, sequence, result } => result.event(
                RecordId(sequence),
                epoch,
                party_count,
            ),
        }
    }

    pub fn to_chain_event(self, party_count: usize) -> (result: Result<ChainEvent, ContractCodecError>)
        ensures
            event_result(result) == self.event(party_count),
    {
        match self {
            ContractLogRecord::PcQcPosted { sequence, qc, .. } => qc.into_chain_event(
                RecordId(sequence),
                party_count,
            ),
            ContractLogRecord::BveQcPosted { sequence, qc, .. } => qc.into_chain_event(
                RecordId(sequence),
                party_count,
            ),
            ContractLogRecord::DkgResultPosted { epoch, sequence, result } => result.into_chain_event(
                RecordId(sequence),
                epoch,
                party_count,
            ),
        }
    }
}

/// Finds the events of one contract.
#[derive(Debug)]
pub struct DkgLogMatcher {
    contract: Address,
    topics: [[u8; 32]; 3],
    blooms: [[u8; 256]; 3],
}

/// The kind of log that a matcher for `contract` sees, if it is one of its events.
pub open spec fn log_kind(
    contract: Address,
    topics: Seq<[u8; 32]>,
    address: Address,
    topic: Option<[u8; 32]>,
) -> Option<LogKind> {
    if address != contract {
        None
    } else {
        match topic {
            Some(topic) => if topic == topics[0] {
                Some(LogKind::PcQcPosted)
            } else if topic == topics[1] {
                Some(LogKind::BveQcPosted)
            } else if topic == topics[2] {
                Some(LogKind::DkgResultPosted)
            } else {
                None
            },
            None => None,
        }
    }
}

/// What a matcher makes of a log.
pub open spec fn matched_log(
    contract: Address,
    topics: Seq<[u8; 32]>,
    log: ContractLog,
    epoch: Epoch,
    party_count: usize,
) -> Result<Option<ChainEventView>, DkgLogError> {
    match log_kind(contract, topics, log.address, log.topic) {
        None => Ok(None),
        Some(kind) => match log.record {
            None => Err(DkgLogError::Decode),
            Some(record) => if record.kind() != kind {
                Err(DkgLogError::Decode)
            } else if record.in_epoch() != epoch.0 {
                Ok(None)
            } else {
                match record.event(party_count) {
                    Ok(event) => Ok(Some(event)),
                    Err(error) => Err(DkgLogError::Contract(error)),
                }
            },
        },
    }
}

/// The model of a match.
pub open spec fn match_result(result: Result<Option<ChainEvent>, DkgLogError>) -> Result<
    Option<ChainEventView>,
    DkgLogError,
> {
    match result {
        Ok(Some(event)) => Ok(Some(event@)),
        Ok(None) => Ok(None),
        Err(error) => Err(error),
    }
}

impl DkgLogMatcher {
    /// The contract that events are of.
    pub closed spec fn contract(self) -> Address {
        self.contract
    }

    /// The topics of the contract's events.
    pub closed spec fn topics(self) -> Seq<[u8; 32]> {
        self.topics@
    }

    /// The filters of the contract's events.
    pub closed spec fn wf(self) -> bool {
        forall|i: int| 0 <= i < 3 ==> (#[trigger] self.blooms@[i])@ == raw_log_bloom(
            self.contract.bytes@,
            self.topics@[i]@,
        )
    }

    /// A matcher for the events with the topics of `PcQcPosted`, `BveQcPosted`,
    /// and `DkgResultPosted`, in that order.
    pub fn new(contract: Address, topics: [[u8; 32]; 3]) -> (matcher: Self)
        ensures
            matcher.wf(),
            matcher.contract() == contract,
            matcher.topics() == topics@,
    {
        let blooms: [[u8; 256]; 3] = [
            log_bloom(&contract.bytes, &topics[0]),
            log_bloom(&contract.bytes, &topics[1]),
            log_bloom(&contract.bytes, &topics[2]),
        ];
        DkgLogMatcher { contract, topics, blooms }
    }

    /// Whether a block or a receipt with this filter may hold one of the events.
    pub fn maybe_matches_bloom(&self, bloom: &[u8; 256]) -> (maybe: bool)
        requires
            self.wf(),
        ensures
            maybe == bloom_may_match(self.contract(), self.topics(), bloom@),
    {
        let mut i: usize = 0;
        while i < 3
            invariant
                i <= 3,
                self.wf(),
                forall|j: int|
                    0 <= j < i ==> !bloom_contains(
                        bloom@,
                        raw_log_bloom(self.contract().bytes@, (#[trigger] self.topics()[j])@),
                    ),
            decreases 3 - i,
        {
            if contains_bloom(bloom, &self.blooms[i]) {
                assert(self.blooms@[i as int]@ == raw_log_bloom(
                    self.contract.bytes@,
                    self.topics@[i as int]@,
                ));
                assert(bloom_contains(
                    bloom@,
                    raw_log_bloom(self.contract().bytes@, self.topics()[i as int]@),
                ));
                return true;
            }
            assert(self.blooms@[i as int]@ == raw_log_bloom(
                self.contract.bytes@,
                self.topics@[i as int]@,
            ));
            i += 1;
        }
        false
    }

    /// The event that a log is of, if any.
    pub fn classify(&self, address: &Address, topic: &Option<[u8; 32]>) -> (kind: Option<LogKind>)
        ensures
            kind == log_kind(self.contract(), self.topics(), *address, *topic),
    {
        if !same_key(address, &self.contract) {
            return None;
        }
        match topic {
            Some(topic) => {
                if same_key(topic, &self.topics[0]) {
                    Some(LogKind::PcQcPosted)
                } else if same_key(topic, &self.topics[1]) {
                    Some(LogKind::BveQcPosted)
                } else if same_key(topic, &self.topics[2]) {
                    Some(LogKind::DkgResultPosted)
                } else {
                    None
                }
            },
            None => None,
        }
    }

    /// The event of `epoch` that a log is, if any.
    pub fn match_log(&self, log: ContractLog, epoch: Epoch, party_count: usize) -> (result: Result<
        Option<ChainEvent>,
        DkgLogError,
    >)
        ensures
            match_result(result) == matched_log(
                self.contract(),
                self.topics(),
                log,
                epoch,
                party_count,
            ),
    {
        let kind: LogKind = match self.classify(&log.address, &log.topic) {
            Some(kind) => kind,
            None => {
                return Ok(None);
            },
        };
        let record: ContractLogRecord = match log.record {
            Some(record) => record,
            None => {
                return Err(DkgLogError::Decode);
            },
        };
        let (found, record_epoch) = match &record {
            ContractLogRecord::PcQcPosted { epoch, .. } => (LogKind::PcQcPosted, *epoch),
            ContractLogRecord::BveQcPosted { epoch, .. } => (LogKind::BveQcPosted, *epoch),
            ContractLogRecord::DkgResultPosted { epoch, .. } => (LogKind::DkgResultPosted, *epoch),
        };
        if found != kind {
            return Err(DkgLogError::Decode);
        }
        if record_epoch != epoch.0 {
            return Ok(None);
        }
        match record.to_chain_event(party_count) {
            Ok(event) => Ok(Some(event)),
            Err(error) => Err(DkgLogError::Contract(error)),
        }
    }
}

/// The logs of one transaction, and their filter.
#[derive(Debug)]
pub struct ContractReceipt {
    pub bloom: [u8; 256],
    pub logs: Vec<ContractLog>,
}

/// The events among logs, or the first refusal.
pub open spec fn log_events(
    contract: Address,
    topics: Seq<[u8; 32]>,
    logs: Seq<ContractLog>,
    epoch: Epoch,
    party_count: usize,
) -> Result<Seq<ChainEventView>, DkgLogError>
    decreases logs.len(),
{
    if logs.len() == 0 {
        Ok(Seq::empty())
    } else {
        match log_events(contract, topics, logs.drop_last(), epoch, party_count) {
            Err(error) => Err(error),
            Ok(earlier) => match matched_log(contract, topics, logs.last(), epoch, party_count) {
                Err(error) => Err(error),
                Ok(None) => Ok(earlier),
                Ok(Some(event)) => Ok(earlier.push(event)),
            },
        }
    }
}

/// Whether a filter may hold one of the contract's events.
pub open spec fn bloom_may_match(contract: Address, topics: Seq<[u8; 32]>, bloom: Seq<u8>) -> bool {
    exists|i: int|
        0 <= i < 3 && bloom_contains(
            bloom,
            raw_log_bloom(contract.bytes@, (#[trigger] topics[i])@),
        )
}

/// The logs of the receipts whose filters may match, in order.
pub open spec fn candidate_logs(
    contract: Address,
    topics: Seq<[u8; 32]>,
    receipts: Seq<ContractReceipt>,
) -> Seq<ContractLog>
    decreases receipts.len(),
{
    if receipts.len() == 0 {
        Seq::empty()
    } else {
        let earlier = candidate_logs(contract, topics, receipts.drop_last());
        if bloom_may_match(contract, topics, receipts.last().bloom@) {
            earlier + receipts.last().logs@
        } else {
            earlier
        }
    }
}

proof fn lemma_refusal_stays(
    contract: Address,
    topics: Seq<[u8; 32]>,
    logs: Seq<ContractLog>,
    more: Seq<ContractLog>,
    epoch: Epoch,
    party_count: usize,
)
    requires
        log_events(contract, topics, logs, epoch, party_count) is Err,
    ensures
        log_events(contract, topics, logs + more, epoch, party_count) == log_events(
            contract,
            topics,
            logs,
            epoch,
            party_count,
        ),
    decreases more.len(),
{
    if more.len() == 0 {
        assert(logs + more =~= logs);
    } else {
        assert((logs + more).drop_last() =~= logs + more.drop_last());
        lemma_refusal_stays(contract, topics, logs, more.drop_last(), epoch, party_count);
    }
}

proof fn lemma_candidates_extend(
    contract: Address,
    topics: Seq<[u8; 32]>,
    receipts: Seq<ContractReceipt>,
    count: int,
)
    requires
        0 <= count <= receipts.len(),
    ensures
        exists|more: Seq<ContractLog>|
            candidate_logs(contract, topics, receipts) == #[trigger] (candidate_logs(
                contract,
                topics,
                receipts.take(count),
            ) + more),
    decreases receipts.len() - count,
{
    if count == receipts.len() {
        assert(receipts.take(count) =~= receipts);
        let all = candidate_logs(contract, topics, receipts);
        assert(all =~= all + Seq::<ContractLog>::empty());
    } else {
        lemma_candidates_extend(contract, topics, receipts, count + 1);
        let next = candidate_logs(contract, topics, receipts.take(count + 1));
        let earlier = candidate_logs(contract, topics, receipts.take(count));
        let more = choose|more: Seq<ContractLog>|
            candidate_logs(contract, topics, receipts) == #[trigger] (next + more);
        assert(receipts.take(count + 1).drop_last() =~= receipts.take(count));
        let own = if bloom_may_match(contract, topics, receipts[count].bloom@) {
            receipts[count].logs@
        } else {
            Seq::empty()
        };
        assert(next =~= earlier + own);
        assert(next + more =~= earlier + (own + more));
    }
}

/// The events of `epoch` in a block: none where the block's filter rules them
/// out, else those among the logs of the receipts whose filters may match.
pub fn read_dkg_events(
    matcher: &DkgLogMatcher,
    header_bloom: &[u8; 256],
    receipts: Vec<ContractReceipt>,
    epoch: Epoch,
    party_count: usize,
) -> (result: Result<Vec<ChainEvent>, DkgLogError>)
    requires
        matcher.wf(),
    ensures
        ({
            let expected = if bloom_may_match(
                matcher.contract(),
                matcher.topics(),
                header_bloom@,
            ) {
                log_events(
                    matcher.contract(),
                    matcher.topics(),
                    candidate_logs(matcher.contract(), matcher.topics(), receipts@),
                    epoch,
                    party_count,
                )
            } else {
                Ok(Seq::empty())
            };
            match result {
                Ok(events) => expected == Ok::<Seq<ChainEventView>, DkgLogError>(
                    crate::chain::pages::event_views(events@),
                ),
                Err(error) => expected == Err::<Seq<ChainEventView>, DkgLogError>(error),
            }
        }),
{
    let ghost contract = matcher.contract();
    let ghost topics = matcher.topics();
    let mut events: Vec<ChainEvent> = Vec::new();
    assert(crate::chain::pages::event_views(events@) =~= Seq::<ChainEventView>::empty());
    if !matcher.maybe_matches_bloom(header_bloom) {
        return Ok(events);
    }
    let ghost whole = receipts@;
    let ghost all_logs = candidate_logs(contract, topics, whole);
    let mut pending: Vec<ContractReceipt> = crate::chain::pages::reversed(receipts);
    let ghost mut done: int = 0;
    assert(whole.take(0) =~= Seq::<ContractReceipt>::empty());
    while pending.len() > 0
        invariant
            matcher.wf(),
            contract == matcher.contract(),
            topics == matcher.topics(),
            whole == receipts@,
            bloom_may_match(contract, topics, header_bloom@),
            all_logs == candidate_logs(contract, topics, whole),
            0 <= done <= whole.len(),
            pending@ == whole.skip(done).reverse(),
            log_events(
                contract,
                topics,
                candidate_logs(contract, topics, whole.take(done)),
                epoch,
                party_count,
            ) == Ok::<Seq<ChainEventView>, DkgLogError>(crate::chain::pages::event_views(events@)),
        decreases pending@.len(),
    {
        let receipt: ContractReceipt = match pending.pop() {
            Some(receipt) => receipt,
            None => {
                return Err(DkgLogError::Decode);
            },
        };
        proof {
            assert(receipt == whole[done]);
            assert(pending@ =~= whole.skip(done + 1).reverse());
            assert(whole.take(done + 1).drop_last() =~= whole.take(done));
        }
        if matcher.maybe_matches_bloom(&receipt.bloom) {
            let ghost base = candidate_logs(contract, topics, whole.take(done));
            let ghost own = receipt.logs@;
            proof {
                assert(candidate_logs(contract, topics, whole.take(done + 1)) == base + own);
            }
            let mut logs: Vec<ContractLog> = crate::chain::pages::reversed(receipt.logs);
            let ghost mut k: int = 0;
            assert(base + own.take(0) =~= base);
            while logs.len() > 0
                invariant
                    contract == matcher.contract(),
                    topics == matcher.topics(),
                    whole == receipts@,
                    bloom_may_match(contract, topics, header_bloom@),
                    0 <= done < whole.len(),
                    candidate_logs(contract, topics, whole.take(done + 1)) == base + own,
                    0 <= k <= own.len(),
                    logs@ == own.skip(k).reverse(),
                    log_events(contract, topics, base + own.take(k), epoch, party_count) == Ok::<
                        Seq<ChainEventView>,
                        DkgLogError,
                    >(crate::chain::pages::event_views(events@)),
                decreases logs@.len(),
            {
                let log: ContractLog = match logs.pop() {
                    Some(log) => log,
                    None => {
                        return Err(DkgLogError::Decode);
                    },
                };
                let ghost before = crate::chain::pages::event_views(events@);
                let ghost reached = base + own.take(k + 1);
                proof {
                    assert(log == own[k]);
                    assert(logs@ =~= own.skip(k + 1).reverse());
                    assert(reached.drop_last() =~= base + own.take(k));
                    assert(reached.last() == log);
                }
                match matcher.match_log(log, epoch, party_count) {
                    Ok(Some(event)) => {
                        events.push(event);
                        assert(crate::chain::pages::event_views(events@) =~= before.push(event@));
                    },
                    Ok(None) => {},
                    Err(error) => {
                        proof {
                            assert(log_events(contract, topics, reached, epoch, party_count) is Err);
                            lemma_refusal_stays(
                                contract,
                                topics,
                                reached,
                                own.skip(k + 1),
                                epoch,
                                party_count,
                            );
                            assert(reached + own.skip(k + 1) =~= base + own);
                            lemma_candidates_extend(contract, topics, whole, done + 1);
                            let more = choose|more: Seq<ContractLog>|
                                candidate_logs(contract, topics, whole) == #[trigger] (
                                candidate_logs(contract, topics, whole.take(done + 1)) + more);
                            lemma_refusal_stays(
                                contract,
                                topics,
                                base + own,
                                more,
                                epoch,
                                party_count,
                            );
                        }
                        return Err(error);
                    },
                }
                proof {
                    k = k + 1;
                }
            }
            assert(own.take(own.len() as int) =~= own);
        }
        proof {
            done = done + 1;
        }
    }
    assert(whole.take(whole.len() as int) =~= whole);
    Ok(events)
}

/// A log of the contract's own event passes the filter that was made of it.
pub proof fn law_own_filter_matches(contract: Address, topics: Seq<[u8; 32]>, kind: int)
    requires
        0 <= kind < 3,
    ensures
        bloom_may_match(contract, topics, raw_log_bloom(contract.bytes@, topics[kind]@)),
{
    let bloom = raw_log_bloom(contract.bytes@, topics[kind]@);
    assert forall|i: int| 0 <= i < bloom.len() implies #[trigger] bloom[i] & bloom[i] == bloom[i] by {
        let byte = bloom[i];
        assert(byte & byte == byte) by (bit_vector);
    }
    assert(bloom_contains(bloom, raw_log_bloom(contract.bytes@, topics[kind]@)));
}

/// A log is an event of a session exactly where the contract wrote it under one of
/// its three topics, its record is of that topic, belongs to the epoch of the
/// session, and decodes; a log of somebody else or under another topic is none.
pub proof fn law_log_is_an_event_of_its_topic(
    contract: Address,
    topics: Seq<[u8; 32]>,
    log: ContractLog,
    epoch: Epoch,
    party_count: usize,
)
    requires
        topics.len() == 3,
        topics.no_duplicates(),
    ensures
        ({
            let matched = matched_log(contract, topics, log, epoch, party_count);
            let ours = log.address == contract && log.topic is Some && topics.contains(
                log.topic->Some_0,
            );
            &&& !ours ==> matched == Ok::<Option<ChainEventView>, DkgLogError>(None)
            &&& ours && log.record is None ==> matched == Err::<Option<ChainEventView>, _>(
                DkgLogError::Decode,
            )
            &&& ours && log.record is Some ==> {
                let record = log.record->Some_0;
                let fits = match record {
                    ContractLogRecord::PcQcPosted { .. } => log.topic == Some(topics[0]),
                    ContractLogRecord::BveQcPosted { .. } => log.topic == Some(topics[1]),
                    ContractLogRecord::DkgResultPosted { .. } => log.topic == Some(topics[2]),
                };
                &&& !fits ==> matched == Err::<Option<ChainEventView>, _>(DkgLogError::Decode)
                &&& fits && record.in_epoch() != epoch.0 ==> matched == Ok::<
                    Option<ChainEventView>,
                    DkgLogError,
                >(None)
                &&& fits && record.in_epoch() == epoch.0 ==> match record.event(party_count) {
                    Ok(event) => matched == Ok::<Option<ChainEventView>, DkgLogError>(Some(event)),
                    Err(error) => matched == Err::<Option<ChainEventView>, _>(
                        DkgLogError::Contract(error),
                    ),
                }
            }
        }),
{
    if log.topic is Some {
        let topic = log.topic->Some_0;
        assert(topics.contains(topic) <==> topic == topics[0] || topic == topics[1] || topic
            == topics[2]) by {
            if topics.contains(topic) {
                let i = choose|i: int| 0 <= i < topics.len() && topics[i] == topic;
                assert(i == 0 || i == 1 || i == 2);
            }
        }
        assert(topics[0] != topics[1] && topics[0] != topics[2] && topics[1] != topics[2]);
    }
}

/// A record of a log becomes the event of its own sort under its own number.
pub proof fn law_log_record_keeps_its_sort(record: ContractLogRecord, party_count: usize)
    ensures
        record.event(party_count) matches Ok(event) ==> match record {
            ContractLogRecord::PcQcPosted { sequence, epoch, .. } => event is PcQc && event.id().0
                == sequence && record.in_epoch() == epoch,
            ContractLogRecord::BveQcPosted { sequence, epoch, .. } => event is BveQcFinalized
                && event.id().0 == sequence && record.in_epoch() == epoch,
            ContractLogRecord::DkgResultPosted { sequence, epoch, .. } => event is DkgResultRecorded
                && event.id().0 == sequence && record.in_epoch() == epoch,
        },
{
}

/// Every log that is an event of the session is among the events that are read, and
/// one log that is refused refuses the read.
pub proof fn law_every_matching_log_is_read(
    contract: Address,
    topics: Seq<[u8; 32]>,
    logs: Seq<ContractLog>,
    epoch: Epoch,
    party_count: usize,
    i: int,
)
    requires
        0 <= i < logs.len(),
    ensures
        ({
            let read = log_events(contract, topics, logs, epoch, party_count);
            let one = matched_log(contract, topics, logs[i], epoch, party_count);
            &&& one is Err ==> read is Err
            &&& read is Ok && one is Ok && one->Ok_0 is Some ==> read->Ok_0.contains(
                one->Ok_0->Some_0,
            )
            &&& read matches Ok(events) ==> events.len() <= logs.len()
        }),
    decreases logs.len(),
{
    let fewer = logs.drop_last();
    lemma_few_events(contract, topics, logs, epoch, party_count);
    let read = log_events(contract, topics, logs, epoch, party_count);
    let one = matched_log(contract, topics, logs[i], epoch, party_count);
    if i < fewer.len() {
        assert(fewer[i] == logs[i]);
        law_every_matching_log_is_read(contract, topics, fewer, epoch, party_count, i);
        if read is Ok && one is Ok && one->Ok_0 is Some {
            let earlier = log_events(contract, topics, fewer, epoch, party_count)->Ok_0;
            let event = one->Ok_0->Some_0;
            let k = choose|k: int| 0 <= k < earlier.len() && earlier[k] == event;
            assert(read->Ok_0[k] == event);
        }
    } else {
        assert(logs[i] == logs.last());
        if read is Ok && one is Ok && one->Ok_0 is Some {
            let events = read->Ok_0;
            assert(events[events.len() - 1] == one->Ok_0->Some_0);
        }
    }
}

proof fn lemma_few_events(
    contract: Address,
    topics: Seq<[u8; 32]>,
    logs: Seq<ContractLog>,
    epoch: Epoch,
    party_count: usize,
)
    ensures
        log_events(contract, topics, logs, epoch, party_count) matches Ok(events) ==> events.len()
            <= logs.len(),
    decreases logs.len(),
{
    if logs.len() > 0 {
        lemma_few_events(contract, topics, logs.drop_last(), epoch, party_count);
    }
}

/// The logs of every receipt whose filter holds one of the contract's topics are
/// looked at, all of them.
pub proof fn law_receipts_are_looked_at_by_their_filter(
    contract: Address,
    topics: Seq<[u8; 32]>,
    receipts: Seq<ContractReceipt>,
    r: int,
    l: int,
)
    requires
        0 <= r < receipts.len(),
        0 <= l < receipts[r].logs@.len(),
        bloom_may_match(contract, topics, receipts[r].bloom@),
    ensures
        candidate_logs(contract, topics, receipts).contains(receipts[r].logs@[l]),
    decreases receipts.len(),
{
    let fewer = receipts.drop_last();
    let all = candidate_logs(contract, topics, receipts);
    let earlier = candidate_logs(contract, topics, fewer);
    if r < fewer.len() {
        assert(fewer[r] == receipts[r]);
        law_receipts_are_looked_at_by_their_filter(contract, topics, fewer, r, l);
        let k = choose|k: int| 0 <= k < earlier.len() && earlier[k] == receipts[r].logs@[l];
        assert(all[k] == receipts[r].logs@[l]);
    } else {
        assert(receipts[r] == receipts.last());
        assert(all[earlier.len() + l] == receipts[r].logs@[l]);
    }
}

/// A filter holds a part exactly where it has every bit of it.
pub proof fn law_filter_holds_every_bit(bloom: Seq<u8>, part: Seq<u8>, i: int)
    requires
        0 <= i < part.len(),
        bloom[i] & part[i] != part[i],
    ensures
        !bloom_contains(bloom, part),
{
}

/// The model of a match is an event, nothing, or an error exactly where the match is.
pub proof fn law_match_is_shown_as_it_is(result: Result<Option<ChainEvent>, DkgLogError>)
    ensures
        match_result(result) is Ok <==> result is Ok,
        result is Err ==> match_result(result)->Err_0 == result->Err_0,
        result is Ok ==> (match_result(result)->Ok_0 is Some <==> result->Ok_0 is Some),
        result is Ok && result->Ok_0 is Some ==> match_result(result)->Ok_0->Some_0
            == result->Ok_0->Some_0@,
{
}

} // verus!
