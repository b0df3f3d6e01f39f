//! Reading the contract's records page by page.

use crate::chain::codec::{
    ContractBveQc, ContractCodecError, ContractDkgResult, ContractPcQc, ContractRegistration,
};
use crate::chain::types::{ChainEvent, ChainEventView, RegistrationCall};
use crate::dkg::error::DkgError;
use crate::dkg::ids::{Address, Epoch, RecordId, SeqNum};
use vstd::prelude::*;

verus! {

/// The most gas of a call that only reads state.
pub const DKG_ETH_CALL_GAS_LIMIT: u64 = 5_000_000;

/// The most records of a page.
pub const MAX_RECORD_PAGE_SIZE: usize = 16;

/// The signatures that a page may hold where every party signs every record.
pub const RECORD_PAGE_SIGNATURE_BUDGET: usize = 512;

/// Why contract state cannot be used.
#[derive(Clone, Copy, Debug)]
pub enum TriedbStateError {
    UnsupportedChainId { chain_id: u64 },
    NotAvailable { block: u64 },
    /// The execution state could not be read.
    StateRead,
    CallFailed { block: u64 },
    CallReverted { block: u64, trace_len: usize },
    /// The output of a call is not what the call returns.
    CallDecode { block: u64 },
    ContractMissing { contract: Address, block: u64 },
    CountOverflow,
    Contract(ContractCodecError),
    RecordTotalChanged { expected: u64, actual: u64 },
    InvalidRecordPage { start: u64, next: u64, total: u64 },
}

/// What was seen of the execution state around one block.
#[derive(Clone, Copy, Debug, PartialEq, Eq, Structural)]
pub struct VmStateObservation {
    pub latest_finalized: Option<SeqNum>,
    pub block_gas_limit: u64,
    pub contract_exists: bool,
}

/// The block and the gas of a call.
#[derive(Clone, Copy, Debug, PartialEq, Eq, Structural)]
pub struct DkgVmContext {
    pub block: SeqNum,
    pub gas_limit: u64,
}

/// The head from which on the state of `block` is available.
pub open spec fn required_head(block: SeqNum, execution_delay: SeqNum) -> int {
    if block.0 + execution_delay.0 <= u64::MAX {
        block.0 + execution_delay.0
    } else {
        u64::MAX as int
    }
}

impl VmStateObservation {
    /// The context for calls at `block`: its state is available once the chain
    /// is final `execution_delay` blocks further.
    pub open spec fn context(self, block: SeqNum, execution_delay: SeqNum, contract: Address) -> Result<
        DkgVmContext,
        TriedbStateError,
    > {
        let available = match self.latest_finalized {
            Some(latest) => latest.0 >= required_head(block, execution_delay),
            None => false,
        };
        if !available {
            Err(TriedbStateError::NotAvailable { block: block.0 })
        } else if !self.contract_exists {
            Err(TriedbStateError::ContractMissing { contract, block: block.0 })
        } else {
            Ok(
                DkgVmContext {
                    block,
                    gas_limit: if self.block_gas_limit < DKG_ETH_CALL_GAS_LIMIT {
                        self.block_gas_limit
                    } else {
                        DKG_ETH_CALL_GAS_LIMIT
                    },
                },
            )
        }
    }

    /// The context for calls at `block`.
    pub fn validate(self, block: SeqNum, execution_delay: SeqNum, contract: Address) -> (result: Result<
        DkgVmContext,
        TriedbStateError,
    >)
        ensures
            result == self.context(block, execution_delay, contract),
    {
        let head: u64 = block.0.saturating_add(execution_delay.0);
        let available: bool = match self.latest_finalized {
            Some(latest) => latest.0 >= head,
            None => false,
        };
        if !available {
            return Err(TriedbStateError::NotAvailable { block: block.0 });
        }
        if !self.contract_exists {
            return Err(TriedbStateError::ContractMissing { contract, block: block.0 });
        }
        let gas_limit: u64 = if self.block_gas_limit < DKG_ETH_CALL_GAS_LIMIT {
            self.block_gas_limit
        } else {
            DKG_ETH_CALL_GAS_LIMIT
        };
        Ok(DkgVmContext { block, gas_limit })
    }
}

/// The most records to ask for at once: as many as keep a page within its
/// signature budget, from 1 to 16.
pub fn record_page_limit(party_count: usize) -> (limit: u32)
    ensures
        limit == ({
            let share = 512int / (if party_count == 0 {
                1int
            } else {
                party_count as int
            });
            if share < 1 {
                1
            } else if share > 16 {
                16
            } else {
                share
            }
        }),
{
    let parties: usize = if party_count == 0 {
        1
    } else {
        party_count
    };
    let share: usize = RECORD_PAGE_SIGNATURE_BUDGET / parties;
    if share < 1 {
        1
    } else if share > MAX_RECORD_PAGE_SIZE {
        16
    } else {
        share as u32
    }
}

/// A record with its number.
#[derive(Debug)]
pub struct SequencedPcQc {
    pub sequence: u64,
    pub qc: ContractPcQc,
}

#[derive(Debug)]
pub struct SequencedBveQc {
    pub sequence: u64,
    pub qc: ContractBveQc,
}

#[derive(Debug)]
pub struct SequencedResult {
    pub sequence: u64,
    pub result: ContractDkgResult,
}

/// A page of records: how many there are in all, where the next page starts, and
/// the records of each kind.
#[derive(Debug)]
pub struct ContractRecordPage {
    pub total: u64,
    pub next: u64,
    pub pc_qcs: Vec<SequencedPcQc>,
    pub bve_qcs: Vec<SequencedBveQc>,
    pub results: Vec<SequencedResult>,
}

/// The events of polynomial commitments.
pub open spec fn pc_events(records: Seq<SequencedPcQc>, party_count: usize) -> Seq<
    Result<ChainEventView, ContractCodecError>,
> {
    records.map_values(
        |record: SequencedPcQc| record.qc.event(RecordId(record.sequence), party_count),
    )
}

/// The events of share encryptions.
pub open spec fn bve_events(records: Seq<SequencedBveQc>, party_count: usize) -> Seq<
    Result<ChainEventView, ContractCodecError>,
> {
    records.map_values(
        |record: SequencedBveQc| record.qc.event(RecordId(record.sequence), party_count),
    )
}

/// The events of results.
pub open spec fn result_events(records: Seq<SequencedResult>, epoch: Epoch, party_count: usize) -> Seq<
    Result<ChainEventView, ContractCodecError>,
> {
    records.map_values(
        |record: SequencedResult|
            record.result.event(RecordId(record.sequence), epoch.0, party_count),
    )
}

/// The events of a page, kind by kind.
pub open spec fn page_events(page: ContractRecordPage, epoch: Epoch, party_count: usize) -> Seq<
    Result<ChainEventView, ContractCodecError>,
> {
    pc_events(page.pc_qcs@, party_count) + bve_events(page.bve_qcs@, party_count) + result_events(
        page.results@,
        epoch,
        party_count,
    )
}

/// Whether all of `decoded` succeeded.
pub open spec fn all_decoded(decoded: Seq<Result<ChainEventView, ContractCodecError>>) -> bool {
    forall|i: int| 0 <= i < decoded.len() ==> #[trigger] decoded[i] is Ok
}

/// Whether a page moves forward from `start`, within the limit and the total.
pub open spec fn page_advances(page: ContractRecordPage, limit: u32, start: u64) -> bool {
    &&& start <= page.next <= page.total
    &&& page.next - start <= limit
    &&& page.next == start ==> start == page.total
}

/// The models of events.
pub open spec fn event_views(events: Seq<ChainEvent>) -> Seq<ChainEventView> {
    events.map_values(|event: ChainEvent| event@)
}

/// What was decoded.
pub open spec fn successes(decoded: Seq<Result<ChainEventView, ContractCodecError>>) -> Seq<ChainEventView> {
    decoded.map_values(|event: Result<ChainEventView, ContractCodecError>| event->Ok_0)
}

/// Whether events carry the numbers from `start` up to `next`, in order.
pub open spec fn numbered(events: Seq<ChainEventView>, start: u64, next: u64) -> bool {
    &&& events.len() == next - start
    &&& forall|i: int| 0 <= i < events.len() ==> (#[trigger] events[i]).id().0 == start + i
}

/// Whether `events` are the decoded events, ordered so that they carry the
/// numbers from `start` up to `next`.
pub open spec fn orders_page(
    events: Seq<ChainEventView>,
    decoded: Seq<Result<ChainEventView, ContractCodecError>>,
    start: u64,
    next: u64,
) -> bool {
    &&& all_decoded(decoded)
    &&& numbered(events, start, next)
    &&& events.to_multiset() == successes(decoded).to_multiset()
}

/// The events of a page that starts at `start`, or why it is refused.
pub open spec fn decoded_page(
    page: ContractRecordPage,
    epoch: Epoch,
    party_count: usize,
    limit: u32,
    start: u64,
    expected_total: Option<u64>,
) -> Result<Seq<ChainEventView>, TriedbStateError> {
    let decoded = page_events(page, epoch, party_count);
    if expected_total is Some && expected_total->Some_0 != page.total {
        Err(
            TriedbStateError::RecordTotalChanged {
                expected: expected_total->Some_0,
                actual: page.total,
            },
        )
    } else if page_advances(page, limit, start) && exists|events: Seq<ChainEventView>|
        orders_page(events, decoded, start, page.next) {
        Ok(choose|events: Seq<ChainEventView>| orders_page(events, decoded, start, page.next))
    } else {
        Err(TriedbStateError::InvalidRecordPage { start, next: page.next, total: page.total })
    }
}

fn push_event(
    events: &mut Vec<ChainEvent>,
    decoded: Result<ChainEvent, ContractCodecError>,
) -> (pushed: bool)
    ensures
        pushed == (decoded is Ok),
        match decoded {
            Ok(event) => final(events)@ == old(events)@.push(event),
            Err(_) => final(events)@ == old(events)@,
        },
{
    match decoded {
        Ok(event) => {
            events.push(event);
            true
        },
        Err(_) => false,
    }
}

/// Whether `events` are the successes of `decoded`, in order.
pub open spec fn are_successes(
    events: Seq<ChainEvent>,
    decoded: Seq<Result<ChainEventView, ContractCodecError>>,
) -> bool {
    &&& events.len() == decoded.len()
    &&& forall|i: int| #![trigger events[i]] #![trigger decoded[i]]
        0 <= i < events.len() ==> decoded[i] == Ok::<ChainEventView, ContractCodecError>(events[i]@)
}

/// Whether events are in the order of their numbers.
pub open spec fn in_id_order(events: Seq<ChainEvent>) -> bool {
    forall|i: int, j: int|
        0 <= i <= j < events.len() ==> (#[trigger] events[i])@.id().0 <= (#[trigger] events[j])@.id().0
}

/// Moves events into the order of their numbers.
fn sort_events(events: Vec<ChainEvent>) -> (sorted: Vec<ChainEvent>)
    ensures
        in_id_order(sorted@),
        event_views(sorted@).to_multiset() == event_views(events@).to_multiset(),
        sorted@.len() == events@.len(),
{
    broadcast use vstd::seq_lib::group_to_multiset_ensures;
    broadcast use vstd::multiset::group_multiset_axioms;

    let ghost whole = event_views(events@);
    let mut rest: Vec<ChainEvent> = events;
    let mut sorted: Vec<ChainEvent> = Vec::new();
    proof {
        assert(event_views(sorted@) =~= Seq::<ChainEventView>::empty());
        assert(event_views(rest@).to_multiset().add(event_views(sorted@).to_multiset())
            =~= whole.to_multiset());
    }
    while rest.len() > 0
        invariant
            in_id_order(sorted@),
            sorted@.len() + rest@.len() == whole.len(),
            event_views(rest@).to_multiset().add(event_views(sorted@).to_multiset())
                == whole.to_multiset(),
        decreases rest@.len(),
    {
        let ghost rest_before = event_views(rest@);
        let event: ChainEvent = match rest.pop() {
            Some(event) => event,
            None => {
                return sorted;
            },
        };
        let id: u64 = event.record_id().0;
        let mut place: usize = sorted.len();
        while place > 0 && sorted[place - 1].record_id().0 > id
            invariant
                place <= sorted@.len(),
                forall|j: int| place <= j < sorted@.len() ==> (#[trigger] sorted@[j])@.id().0 > id,
            decreases place,
        {
            place -= 1;
        }
        let ghost before = sorted@;
        let ghost moved = event@;
        sorted.insert(place, event);
        proof {
            assert(in_id_order(sorted@)) by {
                assert forall|a: int, b: int| 0 <= a <= b < sorted@.len() implies (
                #[trigger] sorted@[a])@.id().0 <= (#[trigger] sorted@[b])@.id().0 by {
                    let a2 = if a < place { a } else { a - 1 };
                    let b2 = if b < place { b } else { b - 1 };
                    if a != place && b != place {
                        assert(before[a2]@.id().0 <= before[b2]@.id().0);
                    } else if a == place && b != place {
                        assert(before[b2]@.id().0 > id);
                    } else if b == place && a != place {
                        assert(before[place - 1]@.id().0 <= id);
                        assert(before[a2]@.id().0 <= before[place - 1]@.id().0);
                    }
                }
            }
            assert(event_views(sorted@) =~= event_views(before).insert(place as int, moved));
            vstd::seq_lib::to_multiset_insert(event_views(before), place as int, moved);
            assert(rest_before =~= event_views(rest@).push(moved));
            vstd::seq_lib::to_multiset_build(event_views(rest@), moved);
            assert(event_views(sorted@).to_multiset() =~= event_views(before).to_multiset().insert(moved));
            assert(event_views(rest@).to_multiset().add(event_views(sorted@).to_multiset())
                =~= rest_before.to_multiset().add(event_views(before).to_multiset()));
        }
    }
    proof {
        assert(event_views(rest@) =~= Seq::<ChainEventView>::empty());
        assert(event_views(sorted@).to_multiset() =~= whole.to_multiset());
    }
    sorted
}

/// Numbered events are told by which events they are.
proof fn lemma_numbering_is_unique(a: Seq<ChainEventView>, b: Seq<ChainEventView>, start: u64, next: u64)
    requires
        numbered(a, start, next),
        numbered(b, start, next),
        a.to_multiset() == b.to_multiset(),
    ensures
        a == b,
{
    broadcast use vstd::seq_lib::group_to_multiset_ensures;

    assert forall|i: int| 0 <= i < a.len() implies #[trigger] a[i] == b[i] by {
        assert(a.contains(a[i]));
        assert(a.to_multiset().count(a[i]) > 0);
        assert(b.contains(a[i]));
        let j = choose|j: int| 0 <= j < b.len() && b[j] == a[i];
        assert(b[j].id().0 == start + j);
        assert(a[i].id().0 == start + i);
    }
    assert(a =~= b);
}

/// Where the events can be numbered at all, the order of their numbers does it.
proof fn lemma_id_order_numbers(
    sorted: Seq<ChainEventView>,
    numbering: Seq<ChainEventView>,
    start: u64,
    next: u64,
)
    requires
        forall|i: int, j: int|
            0 <= i <= j < sorted.len() ==> (#[trigger] sorted[i]).id().0 <= (#[trigger] sorted[j]).id().0,
        numbered(numbering, start, next),
        sorted.to_multiset() == numbering.to_multiset(),
    ensures
        numbered(sorted, start, next),
{
    broadcast use vstd::seq_lib::group_to_multiset_ensures;

    let count = (next - start) as int;
    assert(sorted.len() == sorted.to_multiset().len());
    assert(numbering.len() == numbering.to_multiset().len());
    assert(numbering.no_duplicates()) by {
        assert forall|i: int, j: int| 0 <= i < numbering.len() && 0 <= j < numbering.len() && i
            != j implies numbering[i] != numbering[j] by {
            assert(numbering[i].id().0 == start + i);
            assert(numbering[j].id().0 == start + j);
        }
    }
    numbering.lemma_multiset_has_no_duplicates();
    sorted.lemma_multiset_has_no_duplicates_conv();
    assert forall|i: int| 0 <= i < sorted.len() implies start <= (#[trigger] sorted[i]).id().0 < next
        && exists|k: int| 0 <= k < numbering.len() && numbering[k] == sorted[i] by {
        assert(sorted.contains(sorted[i]));
        assert(sorted.to_multiset().count(sorted[i]) > 0);
        assert(numbering.contains(sorted[i]));
        let k = choose|k: int| 0 <= k < numbering.len() && numbering[k] == sorted[i];
        assert(numbering[k].id().0 == start + k);
    }
    assert forall|i: int, j: int| 0 <= i < j < sorted.len() implies (#[trigger] sorted[i]).id().0 < (
    #[trigger] sorted[j]).id().0 by {
        if sorted[i].id().0 == sorted[j].id().0 {
            let a = choose|k: int| 0 <= k < numbering.len() && numbering[k] == sorted[i];
            let b = choose|k: int| 0 <= k < numbering.len() && numbering[k] == sorted[j];
            assert(numbering[a].id().0 == start + a);
            assert(numbering[b].id().0 == start + b);
            assert(a == b);
            assert(sorted[i] == sorted[j]);
        }
    }
    lemma_ids_are_packed(sorted, start as int, count);
}

/// As many ascending numbers as there are places take every place.
proof fn lemma_ids_are_packed(sorted: Seq<ChainEventView>, start: int, count: int)
    requires
        sorted.len() == count,
        forall|i: int| 0 <= i < sorted.len() ==> start <= (#[trigger] sorted[i]).id().0 < start + count,
        forall|i: int, j: int|
            0 <= i < j < sorted.len() ==> (#[trigger] sorted[i]).id().0 < (#[trigger] sorted[j]).id().0,
    ensures
        forall|i: int| 0 <= i < sorted.len() ==> (#[trigger] sorted[i]).id().0 == start + i,
{
    assert forall|i: int| 0 <= i < sorted.len() implies (#[trigger] sorted[i]).id().0 == start + i by {
        lemma_ids_grow(sorted, start, i);
        lemma_ids_leave_room(sorted, start + count, i);
    }
}

proof fn lemma_ids_grow(sorted: Seq<ChainEventView>, start: int, i: int)
    requires
        0 <= i < sorted.len(),
        sorted[0].id().0 >= start,
        forall|i: int, j: int|
            0 <= i < j < sorted.len() ==> (#[trigger] sorted[i]).id().0 < (#[trigger] sorted[j]).id().0,
    ensures
        sorted[i].id().0 >= start + i,
    decreases i,
{
    if i > 0 {
        lemma_ids_grow(sorted, start, i - 1);
        assert(sorted[i - 1].id().0 < sorted[i].id().0);
    }
}

proof fn lemma_ids_leave_room(sorted: Seq<ChainEventView>, end: int, i: int)
    requires
        0 <= i < sorted.len(),
        sorted[sorted.len() - 1].id().0 < end,
        forall|i: int, j: int|
            0 <= i < j < sorted.len() ==> (#[trigger] sorted[i]).id().0 < (#[trigger] sorted[j]).id().0,
    ensures
        sorted[i].id().0 <= end - (sorted.len() - i),
    decreases sorted.len() - i,
{
    if i < sorted.len() - 1 {
        lemma_ids_leave_room(sorted, end, i + 1);
        assert(sorted[i].id().0 < sorted[i + 1].id().0);
    }
}

/// Decodes the records of a page, kind by kind; nothing where one of them is invalid.
fn decode_records(
    pc_qcs: Vec<SequencedPcQc>,
    bve_qcs: Vec<SequencedBveQc>,
    results: Vec<SequencedResult>,
    epoch: Epoch,
    party_count: usize,
) -> (events: Option<Vec<ChainEvent>>)
    ensures
        ({
            let decoded = pc_events(pc_qcs@, party_count) + bve_events(bve_qcs@, party_count)
                + result_events(results@, epoch, party_count);
            match events {
                Some(events) => are_successes(events@, decoded),
                None => !all_decoded(decoded),
            }
        }),
{
    let ghost decoded = pc_events(pc_qcs@, party_count) + bve_events(bve_qcs@, party_count)
        + result_events(results@, epoch, party_count);
    let ghost pc_whole = pc_qcs@;
    let ghost bve_whole = bve_qcs@;
    let ghost result_whole = results@;
    let mut events: Vec<ChainEvent> = Vec::new();
    let mut pc_left: Vec<SequencedPcQc> = reversed(pc_qcs);
    let mut bve_left: Vec<SequencedBveQc> = reversed(bve_qcs);
    let mut result_left: Vec<SequencedResult> = reversed(results);
    while pc_left.len() > 0
        invariant
            pc_whole == pc_qcs@,
            bve_whole == bve_qcs@,
            result_whole == results@,
            decoded == pc_events(pc_whole, party_count) + bve_events(bve_whole, party_count)
                + result_events(result_whole, epoch, party_count),
            events@.len() + pc_left@.len() == pc_whole.len(),
            pc_left@ == pc_whole.skip(events@.len() as int).reverse(),
            forall|i: int| #![trigger events@[i]]
                0 <= i < events@.len() ==> decoded[i] == Ok::<ChainEventView, ContractCodecError>(
                    events@[i]@,
                ),
        decreases pc_left@.len(),
    {
        let ghost place = events@.len() as int;
        match pc_left.pop() {
            Some(record) => {
                proof {
                    assert(record == pc_whole[place]);
                    assert(decoded[place] == pc_events(pc_whole, party_count)[place]);
                    assert(pc_left@ =~= pc_whole.skip(place + 1).reverse());
                }
                let event = record.qc.into_chain_event(RecordId(record.sequence), party_count);
                if !push_event(&mut events, event) {
                    assert(decoded[events@.len() as int] is Err);
                    return None;
                }
            },
            None => {},
        }
    }
    let ghost pc_count = pc_whole.len() as int;
    while bve_left.len() > 0
        invariant
            pc_whole == pc_qcs@,
            bve_whole == bve_qcs@,
            result_whole == results@,
            decoded == pc_events(pc_whole, party_count) + bve_events(bve_whole, party_count)
                + result_events(result_whole, epoch, party_count),
            pc_count == pc_whole.len(),
            events@.len() >= pc_count,
            events@.len() + bve_left@.len() == pc_count + bve_whole.len(),
            bve_left@ == bve_whole.skip(events@.len() - pc_count).reverse(),
            forall|i: int| #![trigger events@[i]]
                0 <= i < events@.len() ==> decoded[i] == Ok::<ChainEventView, ContractCodecError>(
                    events@[i]@,
                ),
        decreases bve_left@.len(),
    {
        let ghost place = events@.len() - pc_count;
        match bve_left.pop() {
            Some(record) => {
                proof {
                    assert(record == bve_whole[place]);
                    assert(decoded[pc_count + place] == bve_events(bve_whole, party_count)[place]);
                    assert(bve_left@ =~= bve_whole.skip(place + 1).reverse());
                }
                let event = record.qc.into_chain_event(RecordId(record.sequence), party_count);
                if !push_event(&mut events, event) {
                    assert(decoded[events@.len() as int] is Err);
                    return None;
                }
            },
            None => {},
        }
    }
    let ghost qc_count = pc_count + bve_whole.len();
    while result_left.len() > 0
        invariant
            pc_whole == pc_qcs@,
            bve_whole == bve_qcs@,
            result_whole == results@,
            decoded == pc_events(pc_whole, party_count) + bve_events(bve_whole, party_count)
                + result_events(result_whole, epoch, party_count),
            qc_count == pc_whole.len() + bve_whole.len(),
            events@.len() >= qc_count,
            events@.len() + result_left@.len() == qc_count + result_whole.len(),
            result_left@ == result_whole.skip(events@.len() - qc_count).reverse(),
            forall|i: int| #![trigger events@[i]]
                0 <= i < events@.len() ==> decoded[i] == Ok::<ChainEventView, ContractCodecError>(
                    events@[i]@,
                ),
        decreases result_left@.len(),
    {
        let ghost place = events@.len() - qc_count;
        match result_left.pop() {
            Some(record) => {
                proof {
                    assert(record == result_whole[place]);
                    assert(decoded[qc_count + place] == result_events(
                        result_whole,
                        epoch,
                        party_count,
                    )[place]);
                    assert(result_left@ =~= result_whole.skip(place + 1).reverse());
                }
                let event = record.result.into_chain_event(
                    RecordId(record.sequence),
                    epoch.0,
                    party_count,
                );
                if !push_event(&mut events, event) {
                    assert(decoded[events@.len() as int] is Err);
                    return None;
                }
            },
            None => {},
        }
    }
    Some(events)
}

/// The items in opposite order.
pub(crate) fn reversed<T>(items: Vec<T>) -> (reversed: Vec<T>)
    ensures
        reversed@ == items@.reverse(),
        reversed@ == items@.skip(0).reverse(),
{
    let ghost whole = items@;
    let mut rest: Vec<T> = items;
    let mut reversed: Vec<T> = Vec::new();
    while rest.len() > 0
        invariant
            rest@ == whole.take(rest@.len() as int),
            rest@.len() + reversed@.len() == whole.len(),
            reversed@ == whole.skip(rest@.len() as int).reverse(),
        decreases rest@.len(),
    {
        let ghost count = rest@.len();
        match rest.pop() {
            Some(item) => {
                proof {
                    assert(item == whole[count - 1]);
                    assert(rest@ =~= whole.take(count - 1));
                    assert(whole.skip(count - 1).reverse() =~= whole.skip(count as int).reverse().push(
                        item,
                    ));
                }
                reversed.push(item);
            },
            None => {},
        }
    }
    assert(whole.skip(0) =~= whole);
    reversed
}

/// The events of a page that starts at `start`, in the order of their numbers.
pub fn decode_record_page(
    page: ContractRecordPage,
    epoch: Epoch,
    party_count: usize,
    limit: u32,
    start: u64,
    expected_total: Option<u64>,
) -> (result: Result<(u64, Vec<ChainEvent>), TriedbStateError>)
    ensures
        match result {
            Ok((next, events)) => next == page.next && decoded_page(
                page,
                epoch,
                party_count,
                limit,
                start,
                expected_total,
            ) == Ok::<Seq<ChainEventView>, TriedbStateError>(event_views(events@)) && page_advances(
                page,
                limit,
                start,
            ) && numbered(event_views(events@), start, page.next),
            Err(error) => decoded_page(page, epoch, party_count, limit, start, expected_total)
                == Err::<Seq<ChainEventView>, TriedbStateError>(error),
        },
{
    let ghost decoded = page_events(page, epoch, party_count);
    let ContractRecordPage { total, next, pc_qcs, bve_qcs, results } = page;
    match expected_total {
        Some(expected) => {
            if expected != total {
                return Err(TriedbStateError::RecordTotalChanged { expected, actual: total });
            }
        },
        None => {},
    }
    if next < start || next > total || next - start > limit as u64 || (next == start && start != total) {
        return Err(TriedbStateError::InvalidRecordPage { start, next, total });
    }
    let expected_count: u64 = next - start;
    let events: Vec<ChainEvent> = match decode_records(pc_qcs, bve_qcs, results, epoch, party_count) {
        Some(events) => events,
        None => {
            return Err(TriedbStateError::InvalidRecordPage { start, next, total });
        },
    };
    proof {
        assert(event_views(events@) =~= successes(decoded));
        assert(all_decoded(decoded));
    }
    let events: Vec<ChainEvent> = sort_events(events);
    let ghost views = event_views(events@);
    proof {
        assert forall|i: int, j: int| 0 <= i <= j < views.len() implies (#[trigger] views[i]).id().0 <= (
        #[trigger] views[j]).id().0 by {
            assert(events@[i]@.id().0 <= events@[j]@.id().0);
        }
        assert forall|other: Seq<ChainEventView>| #[trigger] orders_page(
            other,
            decoded,
            start,
            next,
        ) implies numbered(views, start, next) by {
            lemma_id_order_numbers(views, other, start, next);
        }
    }
    if events.len() as u64 != expected_count {
        return Err(TriedbStateError::InvalidRecordPage { start, next, total });
    }
    let mut offset: usize = 0;
    while offset < events.len()
        invariant
            offset <= events@.len(),
            views == event_views(events@),
            events@.len() == next - start,
            start <= next,
            forall|i: int| 0 <= i < offset ==> (#[trigger] views[i]).id().0 == start + i,
            (exists|other: Seq<ChainEventView>| orders_page(other, decoded, start, next)) ==> numbered(
                views,
                start,
                next,
            ),
            !(exists|other: Seq<ChainEventView>| orders_page(other, decoded, start, next))
                || expected_total is None || expected_total == Some(total),
            total == page.total,
            next == page.next,
            expected_total is Some ==> expected_total->Some_0 == total,
            decoded == page_events(page, epoch, party_count),
            page_advances(page, limit, start),
        decreases events@.len() - offset,
    {
        if events[offset].record_id().0 != start + offset as u64 {
            assert(views[offset as int].id().0 != start + offset);
            return Err(TriedbStateError::InvalidRecordPage { start, next, total });
        }
        assert(views[offset as int].id().0 == start + offset);
        offset += 1;
    }
    proof {
        assert(numbered(views, start, next));
        assert(orders_page(views, decoded, start, next));
        let chosen = choose|events: Seq<ChainEventView>| orders_page(events, decoded, start, next);
        lemma_numbering_is_unique(chosen, views, start, next);
    }
    Ok((next, events))
}

/// The events that were read so far, of a snapshot with more pages.
#[derive(Debug)]
pub struct RemainingRecordPages {
    total: u64,
    next: u64,
    events: Vec<ChainEvent>,
}

/// A snapshot after a page.
#[derive(Debug)]
pub enum RecordPageProgress {
    More(RemainingRecordPages),
    Complete(Vec<ChainEvent>),
}

/// The model of a snapshot that is being read.
#[verifier::ext_equal]
pub struct SnapshotView {
    pub total: u64,
    pub next: u64,
    pub events: Seq<ChainEventView>,
}

impl View for RemainingRecordPages {
    type V = SnapshotView;

    closed spec fn view(&self) -> SnapshotView {
        SnapshotView { total: self.total, next: self.next, events: event_views(self.events@) }
    }
}

/// Whether progress is the snapshot `snapshot`, complete where its next page
/// starts behind the last record.
pub open spec fn is_progress(progress: RecordPageProgress, snapshot: SnapshotView) -> bool {
    match progress {
        RecordPageProgress::More(remaining) => remaining@ == snapshot && snapshot.next != snapshot.total
            && remaining.wf(),
        RecordPageProgress::Complete(events) => event_views(events@) == snapshot.events
            && snapshot.next == snapshot.total,
    }
}

/// The outcome of a page after `before`.
pub open spec fn accepts_page(
    before: SnapshotView,
    page: ContractRecordPage,
    epoch: Epoch,
    party_count: usize,
    limit: u32,
    expected_total: Option<u64>,
    result: Result<RecordPageProgress, TriedbStateError>,
) -> bool {
    match decoded_page(page, epoch, party_count, limit, before.next, expected_total) {
        Ok(events) => result is Ok && is_progress(
            result->Ok_0,
            SnapshotView { total: page.total, next: page.next, events: before.events + events },
        ),
        Err(error) => result == Err::<RecordPageProgress, TriedbStateError>(error),
    }
}

/// A snapshot before its first page.
pub open spec fn empty_snapshot() -> SnapshotView {
    SnapshotView { total: 0, next: 0, events: Seq::empty() }
}

fn finish_record_page(
    total: u64,
    next: u64,
    accumulated: Vec<ChainEvent>,
    page: Vec<ChainEvent>,
) -> (progress: RecordPageProgress)
    requires
        next <= total,
        numbered(event_views(accumulated@) + event_views(page@), 0, next),
    ensures
        is_progress(
            progress,
            SnapshotView {
                total,
                next,
                events: event_views(accumulated@) + event_views(page@),
            },
        ),
{
    let mut events: Vec<ChainEvent> = accumulated;
    let mut page: Vec<ChainEvent> = page;
    let ghost earlier = events@;
    let ghost added = page@;
    events.append(&mut page);
    proof {
        assert(events@ =~= earlier + added);
        assert(event_views(events@) =~= event_views(earlier) + event_views(added));
    }
    if next == total {
        RecordPageProgress::Complete(events)
    } else {
        RecordPageProgress::More(RemainingRecordPages { total, next, events })
    }
}

/// The first page of a snapshot.
pub struct FirstRecordPage;

impl FirstRecordPage {
    /// Starts a snapshot with its first page.
    pub fn accept(page: ContractRecordPage, epoch: Epoch, party_count: usize, limit: u32) -> (result: Result<
        RecordPageProgress,
        TriedbStateError,
    >)
        ensures
            if page.total > usize::MAX {
                result == Err::<RecordPageProgress, _>(TriedbStateError::CountOverflow)
            } else {
                accepts_page(empty_snapshot(), page, epoch, party_count, limit, None, result)
            },
    {
        let total: u64 = page.total;
        if total > usize::MAX as u64 {
            return Err(TriedbStateError::CountOverflow);
        }
        match decode_record_page(page, epoch, party_count, limit, 0, None) {
            Ok((next, events)) => {
                let earlier: Vec<ChainEvent> = Vec::new();
                proof {
                    assert(event_views(earlier@) + event_views(events@) =~= event_views(events@));
                    assert(empty_snapshot().events + event_views(events@) =~= event_views(events@));
                }
                Ok(finish_record_page(total, next, earlier, events))
            },
            Err(error) => Err(error),
        }
    }
}

impl RemainingRecordPages {
    /// The events carry the numbers up to the next page, and a page is missing.
    pub open spec fn wf(self) -> bool {
        &&& numbered(self@.events, 0, self@.next)
        &&& self@.next <= self@.total
    }

    /// Where the next page starts.
    pub fn next(&self) -> (next: u64)
        ensures
            next == self@.next,
    {
        self.next
    }

    /// Adds the next page.
    pub fn accept(self, page: ContractRecordPage, epoch: Epoch, party_count: usize, limit: u32) -> (result:
        Result<RecordPageProgress, TriedbStateError>)
        requires
            self.wf(),
        ensures
            accepts_page(self@, page, epoch, party_count, limit, Some(self@.total), result),
    {
        match decode_record_page(page, epoch, party_count, limit, self.next, Some(self.total)) {
            Ok((next, events)) => {
                let ghost earlier = event_views(self.events@);
                let ghost added = event_views(events@);
                assert(numbered(earlier + added, 0, next)) by {
                    assert forall|i: int| 0 <= i < (earlier + added).len() implies (
                    #[trigger] (earlier + added)[i]).id().0 == 0 + i by {
                        if i < earlier.len() {
                            assert(earlier[i].id().0 == i);
                        } else {
                            assert(added[i - earlier.len()].id().0 == self.next + (i - earlier.len()));
                        }
                    }
                }
                Ok(finish_record_page(self.total, next, self.events, events))
            },
            Err(error) => Err(error),
        }
    }
}

/// Every page of an unfinished snapshot moves it forward.
pub proof fn law_pages_move_forward(
    before: SnapshotView,
    page: ContractRecordPage,
    epoch: Epoch,
    party_count: usize,
    limit: u32,
    result: Result<RecordPageProgress, TriedbStateError>,
)
    requires
        before.next < before.total,
        accepts_page(before, page, epoch, party_count, limit, Some(before.total), result),
        result is Ok,
    ensures
        before.next < page.next <= before.total,
{
}

/// A complete snapshot holds one event for each record, in the order of their numbers.
pub proof fn law_complete_snapshot_has_every_record(
    before: SnapshotView,
    page: ContractRecordPage,
    epoch: Epoch,
    party_count: usize,
    limit: u32,
    events: Vec<ChainEvent>,
)
    requires
        numbered(before.events, 0, before.next),
        accepts_page(
            before,
            page,
            epoch,
            party_count,
            limit,
            Some(before.total),
            Ok(RecordPageProgress::Complete(events)),
        ),
    ensures
        events@.len() == before.total,
        forall|i: int| 0 <= i < events@.len() ==> (#[trigger] events@[i])@.id() == RecordId(i as u64),
{
    let decoded = page_events(page, epoch, party_count);
    let added = choose|added: Seq<ChainEventView>| orders_page(added, decoded, before.next, page.next);
    assert(orders_page(added, decoded, before.next, page.next));
    let all = before.events + added;
    assert(event_views(events@) == all);
    assert forall|i: int| 0 <= i < events@.len() implies (#[trigger] events@[i])@.id() == RecordId(i as u64) by {
        assert(event_views(events@)[i] == events@[i]@);
        if i < before.events.len() {
            assert(all[i] == before.events[i]);
            assert(before.events[i].id().0 == i);
        } else {
            assert(all[i] == added[i - before.events.len()]);
            assert(added[i - before.events.len()].id().0 == before.next + (i - before.events.len()));
        }
    }
}

/// What a missing contract means for a read of records: there are none.
pub fn records_without_contract(error: TriedbStateError) -> (result: Result<Vec<ChainEvent>, TriedbStateError>)
    ensures
        match error {
            TriedbStateError::ContractMissing { .. } => result is Ok && result->Ok_0@.len() == 0,
            _ => result == Err::<Vec<ChainEvent>, TriedbStateError>(error),
        },
{
    match error {
        TriedbStateError::ContractMissing { .. } => Ok(Vec::new()),
        error => Err(error),
    }
}

/// Whether `registration` is what the contract reports of `party`: none, or the
/// one that the contract fields stand for.
pub open spec fn is_reported(
    registration: Option<RegistrationCall>,
    exists: bool,
    contract: ContractRegistration,
    party: Address,
) -> bool {
    match registration {
        None => !exists,
        Some(registration) => exists && registration.address == party && contract.stands_for(
            registration,
        ),
    }
}

/// A party's registration as the contract reports it.
pub fn reported_registration(exists: bool, registration: ContractRegistration, party: Address) -> (result:
    Result<Option<RegistrationCall>, ContractCodecError>)
    ensures
        if exists && !registration.is_valid() {
            result == Err::<Option<RegistrationCall>, ContractCodecError>(
                ContractCodecError::InvalidQcVerifier { address: registration.qc_verifier },
            )
        } else {
            result matches Ok(reported) && is_reported(reported, exists, registration, party)
        },
{
    if exists {
        match registration.into_registration(party) {
            Ok(registration) => Ok(Some(registration)),
            Err(error) => Err(error),
        }
    } else {
        Ok(None)
    }
}

impl TriedbStateError {
    /// The runtime error of a failed read: missing data is worth waiting for.
    pub fn into_dkg_error(self, operation: &'static str) -> (error: DkgError)
        ensures
            error == (match self {
                TriedbStateError::NotAvailable { block } => DkgError::ChainDataUnavailable {
                    block: SeqNum(block),
                },
                _ => DkgError::Operation { operation },
            }),
    {
        match self {
            TriedbStateError::NotAvailable { block } => DkgError::ChainDataUnavailable {
                block: SeqNum(block),
            },
            _ => DkgError::operation(operation),
        }
    }
}

/// A chain that state can be read of.
#[derive(Clone, Copy, Debug, PartialEq, Eq, Structural)]
pub enum ChainId {
    EthereumMainnet,
    MonadMainnet,
    MonadTestnet,
    MonadDevnet,
    HiveNet,
}

/// The numbers of the chains.
#[derive(Clone, Copy, Debug, PartialEq, Eq, Structural)]
pub struct ChainNumbers {
    pub ethereum_mainnet: u64,
    pub monad_mainnet: u64,
    pub monad_testnet: u64,
    pub monad_devnet: u64,
    pub hive: u64,
}

impl ChainNumbers {
    /// The chain with a number.
    pub open spec fn chain(self, chain_id: u64) -> Option<ChainId> {
        if chain_id == self.ethereum_mainnet {
            Some(ChainId::EthereumMainnet)
        } else if chain_id == self.monad_mainnet {
            Some(ChainId::MonadMainnet)
        } else if chain_id == self.monad_testnet {
            Some(ChainId::MonadTestnet)
        } else if chain_id == self.monad_devnet {
            Some(ChainId::MonadDevnet)
        } else if chain_id == self.hive {
            Some(ChainId::HiveNet)
        } else {
            None
        }
    }
}

/// The chain with a number.
pub fn parse_chain_id(chain_id: u64, numbers: &ChainNumbers) -> (result: Result<ChainId, TriedbStateError>)
    ensures
        match numbers.chain(chain_id) {
            Some(chain) => result == Ok::<ChainId, TriedbStateError>(chain),
            None => result == Err::<ChainId, TriedbStateError>(
                TriedbStateError::UnsupportedChainId { chain_id },
            ),
        },
{
    if chain_id == numbers.ethereum_mainnet {
        Ok(ChainId::EthereumMainnet)
    } else if chain_id == numbers.monad_mainnet {
        Ok(ChainId::MonadMainnet)
    } else if chain_id == numbers.monad_testnet {
        Ok(ChainId::MonadTestnet)
    } else if chain_id == numbers.monad_devnet {
        Ok(ChainId::MonadDevnet)
    } else if chain_id == numbers.hive {
        Ok(ChainId::HiveNet)
    } else {
        Err(TriedbStateError::UnsupportedChainId { chain_id })
    }
}

/// Finalized state of a block can be read exactly where the head is the execution
/// delay behind it and the contract is there; calls get the gas of a block, at most
/// five million.
pub proof fn law_state_is_read_behind_the_execution_delay(
    observation: VmStateObservation,
    block: SeqNum,
    execution_delay: SeqNum,
    contract: Address,
)
    requires
        block.0 + execution_delay.0 <= u64::MAX,
    ensures
        ({
            let result = observation.context(block, execution_delay, contract);
            let behind = observation.latest_finalized is Some && observation.latest_finalized->Some_0.0
                >= block.0 + execution_delay.0;
            &&& result is Ok <==> behind && observation.contract_exists
            &&& !behind ==> result == Err::<DkgVmContext, _>(
                TriedbStateError::NotAvailable { block: block.0 },
            )
            &&& behind && !observation.contract_exists ==> result == Err::<DkgVmContext, _>(
                TriedbStateError::ContractMissing { contract, block: block.0 },
            )
            &&& result matches Ok(context) ==> context.block == block && context.gas_limit
                <= observation.block_gas_limit && context.gas_limit <= 5_000_000 && (context.gas_limit
                == observation.block_gas_limit || context.gas_limit == 5_000_000)
        }),
{
}

/// A page is refused where the number of records changed, where it does not go on
/// from its start or goes too far, or where one of its records is refused.
pub proof fn law_inconsistent_page_is_refused(
    page: ContractRecordPage,
    epoch: Epoch,
    party_count: usize,
    limit: u32,
    start: u64,
    expected_total: Option<u64>,
    i: int,
)
    requires
        (expected_total is Some && expected_total != Some(page.total)) || page.next < start || page.next
            > page.total || page.next - start > limit || (page.next == start && start != page.total) || (0
            <= i < page_events(page, epoch, party_count).len() && page_events(
            page,
            epoch,
            party_count,
        )[i] is Err),
    ensures
        decoded_page(page, epoch, party_count, limit, start, expected_total) is Err,
{
    let decoded = page_events(page, epoch, party_count);
    if 0 <= i < decoded.len() && decoded[i] is Err {
        assert(!all_decoded(decoded)) by {
            assert(!(decoded[i] is Ok));
        }
    }
}

/// Every certificate and result of an accepted page is among its events, and each
/// event has the number of its place.
pub proof fn law_accepted_page_holds_every_record(
    page: ContractRecordPage,
    epoch: Epoch,
    party_count: usize,
    limit: u32,
    start: u64,
    expected_total: Option<u64>,
    events: Seq<ChainEventView>,
    i: int,
)
    requires
        decoded_page(page, epoch, party_count, limit, start, expected_total) == Ok::<
            Seq<ChainEventView>,
            TriedbStateError,
        >(events),
    ensures
        events.len() == page.next - start,
        events.len() == page.pc_qcs@.len() + page.bve_qcs@.len() + page.results@.len(),
        0 <= i < events.len() ==> events[i].id().0 == start + i,
        0 <= i < page.pc_qcs@.len() ==> events.contains(
            page.pc_qcs@[i].qc.event(RecordId(page.pc_qcs@[i].sequence), party_count)->Ok_0,
        ),
        0 <= i < page.bve_qcs@.len() ==> events.contains(
            page.bve_qcs@[i].qc.event(RecordId(page.bve_qcs@[i].sequence), party_count)->Ok_0,
        ),
        0 <= i < page.results@.len() ==> events.contains(
            page.results@[i].result.event(
                RecordId(page.results@[i].sequence),
                epoch.0,
                party_count,
            )->Ok_0,
        ),
{
    let decoded = page_events(page, epoch, party_count);
    let good = successes(decoded);
    assert(orders_page(events, decoded, start, page.next));
    broadcast use vstd::seq_lib::group_to_multiset_ensures;

    assert(events.len() == events.to_multiset().len());
    assert(good.len() == good.to_multiset().len());
    assert forall|k: int| 0 <= k < good.len() implies events.contains(#[trigger] good[k]) by {
        assert(good.contains(good[k]));
        assert(good.to_multiset().count(good[k]) > 0);
        assert(events.to_multiset().count(good[k]) > 0);
    }
    if 0 <= i < page.pc_qcs@.len() {
        assert(good[i] == decoded[i]->Ok_0);
        assert(decoded[i] == pc_events(page.pc_qcs@, party_count)[i]);
    }
    if 0 <= i < page.bve_qcs@.len() {
        let k = page.pc_qcs@.len() + i;
        assert(good[k] == decoded[k]->Ok_0);
        assert(decoded[k] == bve_events(page.bve_qcs@, party_count)[i]);
    }
    if 0 <= i < page.results@.len() {
        let k = page.pc_qcs@.len() + page.bve_qcs@.len() + i;
        assert(good[k] == decoded[k]->Ok_0);
        assert(decoded[k] == result_events(page.results@, epoch, party_count)[i]);
    }
}

/// Accepting a page keeps the events that are there and adds those of the page behind
/// them; the snapshot is complete exactly once the page reaches the total.
pub proof fn law_page_extends_the_snapshot(
    before: SnapshotView,
    page: ContractRecordPage,
    epoch: Epoch,
    party_count: usize,
    limit: u32,
    expected_total: Option<u64>,
    result: Result<RecordPageProgress, TriedbStateError>,
)
    requires
        accepts_page(before, page, epoch, party_count, limit, expected_total, result),
        result is Ok,
    ensures
        result->Ok_0 is Complete <==> page.next == page.total,
        result->Ok_0 matches RecordPageProgress::Complete(events) ==> event_views(events@).take(
            before.events.len() as int,
        ) == before.events && events@.len() == before.events.len() + (page.next - before.next),
        result->Ok_0 matches RecordPageProgress::More(rest) ==> rest@.events.take(
            before.events.len() as int,
        ) == before.events && rest@.next == page.next && rest@.total == page.total && rest@.events.len()
            == before.events.len() + (page.next - before.next),
{
    let events = decoded_page(page, epoch, party_count, limit, before.next, expected_total)->Ok_0;
    let decoded = page_events(page, epoch, party_count);
    assert(orders_page(events, decoded, before.next, page.next));
    assert((before.events + events).take(before.events.len() as int) =~= before.events);
    match result->Ok_0 {
        RecordPageProgress::Complete(all) => {
            assert(event_views(all@).len() == all@.len());
        },
        _ => {},
    }
}

/// A chain is known by its own number and by no other's.
pub proof fn law_chain_is_known_by_its_number(numbers: ChainNumbers, chain_id: u64)
    ensures
        numbers.chain(chain_id) is Some <==> chain_id == numbers.ethereum_mainnet || chain_id
            == numbers.monad_mainnet || chain_id == numbers.monad_testnet || chain_id
            == numbers.monad_devnet || chain_id == numbers.hive,
        numbers.chain(chain_id) == Some(ChainId::EthereumMainnet) ==> chain_id
            == numbers.ethereum_mainnet,
        numbers.chain(chain_id) == Some(ChainId::MonadMainnet) ==> chain_id == numbers.monad_mainnet,
        numbers.chain(chain_id) == Some(ChainId::MonadTestnet) ==> chain_id == numbers.monad_testnet,
        numbers.chain(chain_id) == Some(ChainId::MonadDevnet) ==> chain_id == numbers.monad_devnet,
        numbers.chain(chain_id) == Some(ChainId::HiveNet) ==> chain_id == numbers.hive,
{
}

/// A party has a registration exactly where the contract reports one, and it is the
/// party's own, with the verifier, the key and the proof that are reported.
pub proof fn law_reported_registration_is_the_partys_own(
    registration: Option<RegistrationCall>,
    exists_there: bool,
    contract: ContractRegistration,
    party: Address,
)
    requires
        is_reported(registration, exists_there, contract, party),
    ensures
        registration is Some <==> exists_there,
        registration matches Some(call) ==> call.address == party && call.qc_verifier
            == contract.qc_verifier && call.receiver_proof_nonce == contract.receiver_proof_nonce
            && call.receiver_public_key@ == seq![contract.receiver_public_key.prefix]
            + contract.receiver_public_key.x@ && call.receiver_proof@ == contract.receiver_proof_r@
            + contract.receiver_proof_s@,
{
}

/// Events in order have ascending numbers, and decoded events are those that were read,
/// one for one.
pub proof fn law_events_are_kept_in_order(
    events: Seq<ChainEvent>,
    decoded: Seq<Result<ChainEventView, ContractCodecError>>,
    i: int,
    j: int,
)
    requires
        0 <= i <= j < events.len(),
    ensures
        in_id_order(events) ==> events[i]@.id().0 <= events[j]@.id().0,
        are_successes(events, decoded) ==> decoded.len() == events.len() && decoded[i] is Ok
            && decoded[i]->Ok_0 == events[i]@,
{
}

/// A snapshot is complete exactly where the records go no further, and holds the same
/// events whether it is or not.
pub proof fn law_progress_follows_the_snapshot(progress: RecordPageProgress, snapshot: SnapshotView)
    requires
        is_progress(progress, snapshot),
    ensures
        progress is Complete <==> snapshot.next == snapshot.total,
        progress matches RecordPageProgress::More(remaining) ==> remaining@.next == snapshot.next
            && remaining@.total == snapshot.total && remaining@.events == snapshot.events,
        progress matches RecordPageProgress::Complete(events) ==> event_views(events@)
            == snapshot.events,
{
}

} // verus!
