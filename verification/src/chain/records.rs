//! The finalized records that a session has seen.

use crate::chain::types::{ChainEvent, ChainEventView};
use crate::dkg::ids::RecordId;
use crate::ordered_map::OrderedMap;
use vstd::prelude::*;

verus! {

/// Two finalized records have the same number.
#[derive(Clone, Copy, Debug, PartialEq, Eq, Structural)]
pub struct ConflictingChainRecord {
    pub record_id: RecordId,
}

/// The records of one session, by number.
pub struct ChainRecords {
    events: OrderedMap<RecordId, ChainEvent>,
}

impl View for ChainRecords {
    type V = Map<RecordId, ChainEventView>;

    closed spec fn view(&self) -> Map<RecordId, ChainEventView> {
        self.events@.map_values(|event: ChainEvent| event@)
    }
}

impl ChainRecords {
    pub closed spec fn wf(self) -> bool {
        self.events.wf()
    }

    pub fn new() -> (records: Self)
        ensures
            records.wf(),
            records@ == Map::<RecordId, ChainEventView>::empty(),
    {
        let records = ChainRecords { events: OrderedMap::new() };
        assert(records@ =~= Map::<RecordId, ChainEventView>::empty());
        records
    }

    /// Takes an event. Returns whether it is new; the same event again is not, and
    /// another one with its number is refused.
    pub fn accept(&mut self, event: &ChainEvent) -> (result: Result<bool, ConflictingChainRecord>)
        requires
            old(self).wf(),
        ensures
            final(self).wf(),
            ({
                let id = event@.id();
                if !old(self)@.contains_key(id) {
                    &&& result == Ok::<bool, ConflictingChainRecord>(true)
                    &&& final(self)@ == old(self)@.insert(id, event@)
                } else {
                    &&& final(self)@ == old(self)@
                    &&& result == (if old(self)@[id] == event@ {
                        Ok::<bool, ConflictingChainRecord>(false)
                    } else {
                        Err(ConflictingChainRecord { record_id: id })
                    })
                }
            }),
    {
        let record_id: RecordId = event.record_id();
        let ghost before = self@;
        match self.events.get(&record_id) {
            Some(existing) => {
                if existing.same(event) {
                    return Ok(false);
                } else {
                    return Err(ConflictingChainRecord { record_id });
                }
            },
            None => {},
        }
        self.events.insert(record_id, event.duplicate());
        assert(self@ =~= before.insert(record_id, event@));
        Ok(true)
    }
}

} // verus!
