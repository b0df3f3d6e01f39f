//! Semantic message deduplication with persistence-before-accept ordering.
//!
//! The journal itself is written by the caller. [`MessageStore::must_journal_incoming`]
//! and [`MessageStore::must_journal_outgoing`] say when a record has to be
//! durable first, and the accepting functions take the outcome of that write.

use crate::octets::{copy_bytes, same_bytes};
use crate::order::{ascending, Key, Rank};
use crate::ordered_map::{lemma_entries, OrderedMap};
use vstd::prelude::*;

verus! {

/// A message received from a peer.
pub struct IncomingRecord<Peer, MessageId> {
    pub source: Peer,
    pub message_id: MessageId,
    pub payload: Vec<u8>,
}

/// A message produced for `recipients`, in ascending order.
pub struct OutgoingRecord<Peer, MessageId> {
    pub message_id: MessageId,
    pub recipients: Vec<Peer>,
    pub payload: Vec<u8>,
}

#[verifier::ext_equal]
pub struct IncomingView<Peer, MessageId> {
    pub source: Peer,
    pub message_id: MessageId,
    pub payload: Seq<u8>,
}

#[verifier::ext_equal]
pub struct OutgoingView<Peer, MessageId> {
    pub message_id: MessageId,
    pub recipients: Seq<Peer>,
    pub payload: Seq<u8>,
}

impl<Peer, MessageId> View for IncomingRecord<Peer, MessageId> {
    type V = IncomingView<Peer, MessageId>;

    open spec fn view(&self) -> IncomingView<Peer, MessageId> {
        IncomingView { source: self.source, message_id: self.message_id, payload: self.payload@ }
    }
}

impl<Peer, MessageId> View for OutgoingRecord<Peer, MessageId> {
    type V = OutgoingView<Peer, MessageId>;

    open spec fn view(&self) -> OutgoingView<Peer, MessageId> {
        OutgoingView {
            message_id: self.message_id,
            recipients: self.recipients@,
            payload: self.payload@,
        }
    }
}

impl<Peer: Key, MessageId: Key> IncomingRecord<Peer, MessageId> {
    pub fn duplicate(&self) -> (copy: Self)
        ensures
            copy@ == self@,
    {
        IncomingRecord {
            source: self.source.duplicate(),
            message_id: self.message_id.duplicate(),
            payload: copy_bytes(&self.payload),
        }
    }
}

impl<Peer: Key, MessageId: Key> OutgoingRecord<Peer, MessageId> {
    pub fn duplicate(&self) -> (copy: Self)
        ensures
            copy@ == self@,
    {
        OutgoingRecord {
            message_id: self.message_id.duplicate(),
            recipients: copy_keys(&self.recipients),
            payload: copy_bytes(&self.payload),
        }
    }
}

/// Copies a list of keys.
pub fn copy_keys<K: Key>(keys: &Vec<K>) -> (copy: Vec<K>)
    ensures
        copy@ == keys@,
{
    let mut copy: Vec<K> = Vec::new();
    let mut i: usize = 0;
    while i < keys.len()
        invariant
            i <= keys@.len(),
            copy@ == keys@.take(i as int),
        decreases keys@.len() - i,
    {
        copy.push(keys[i].duplicate());
        assert(keys@.take(i + 1) =~= keys@.take(i as int).push(keys@[i as int]));
        i += 1;
    }
    assert(keys@.take(keys@.len() as int) =~= keys@);
    copy
}

/// Whether a message survives a restart.
#[derive(Clone, Copy, Debug, PartialEq, Eq, Structural)]
pub enum MessagePersistence {
    Durable,
    Ephemeral,
}

/// What a message is: its identifier and the semantic slots it fills, in
/// ascending order.
pub struct MessageIdentity<MessageId, MessageKey> {
    pub message_id: MessageId,
    pub keys: Vec<MessageKey>,
    pub persistence: MessagePersistence,
}

/// What the store knows about an incoming message.
#[derive(Clone, Copy, Debug, PartialEq, Eq, Structural)]
pub enum IncomingStatus {
    New,
    Duplicate,
    Conflict,
}

/// Why an outgoing message was not stored.
#[derive(Debug)]
pub enum MessageStoreError<MessageId, JournalError> {
    MessageIdCollision(MessageId),
    Journal(JournalError),
}

/// An outgoing message as the store remembers it.
pub enum StoredOutgoing<Peer, MessageId> {
    Durable(OutgoingRecord<Peer, MessageId>),
    Ephemeral,
}

/// The durable contents of an outgoing message, if it has any.
pub open spec fn durable_record<Peer, MessageId>(stored: StoredOutgoing<Peer, MessageId>) -> Option<
    OutgoingView<Peer, MessageId>,
> {
    match stored {
        StoredOutgoing::Durable(record) => Some(record@),
        StoredOutgoing::Ephemeral => None,
    }
}

/// The messages that were accepted, by identifier and by semantic slot.
pub struct MessageStore<Peer, MessageId, MessageKey> {
    incoming: OrderedMap<MessageId, IncomingRecord<Peer, MessageId>>,
    incoming_by_key: OrderedMap<MessageKey, MessageId>,
    outgoing_by_key: OrderedMap<MessageKey, MessageId>,
    outgoing_by_id: OrderedMap<MessageId, StoredOutgoing<Peer, MessageId>>,
}

/// The slots of `keys`, all filled by `id`.
pub open spec fn fill_slots<MessageKey, MessageId>(
    slots: Map<MessageKey, MessageId>,
    keys: Seq<MessageKey>,
    id: MessageId,
) -> Map<MessageKey, MessageId> {
    Map::new(
        |key: MessageKey| slots.contains_key(key) || keys.contains(key),
        |key: MessageKey|
            if keys.contains(key) {
                id
            } else {
                slots[key]
            },
    )
}

/// Whether one of `keys` is filled.
pub open spec fn any_filled<MessageKey, MessageId>(
    slots: Map<MessageKey, MessageId>,
    keys: Seq<MessageKey>,
) -> bool {
    exists|i: int| 0 <= i < keys.len() && slots.contains_key(#[trigger] keys[i])
}

/// The position of the first filled slot of `keys`.
pub open spec fn first_filled<MessageKey, MessageId>(
    slots: Map<MessageKey, MessageId>,
    keys: Seq<MessageKey>,
) -> int {
    choose|i: int|
        0 <= i < keys.len() && slots.contains_key(#[trigger] keys[i]) && forall|j: int|
            0 <= j < i ==> !slots.contains_key(#[trigger] keys[j])
}

impl<Peer: Key, MessageId: Key, MessageKey: Key> MessageStore<Peer, MessageId, MessageKey> {
    /// The incoming messages.
    pub closed spec fn incoming(self) -> Map<MessageId, IncomingView<Peer, MessageId>> {
        self.incoming@.map_values(|record: IncomingRecord<Peer, MessageId>| record@)
    }

    /// The identifiers of incoming messages, by semantic slot.
    pub closed spec fn incoming_slots(self) -> Map<MessageKey, MessageId> {
        self.incoming_by_key@
    }

    /// The outgoing messages; an ephemeral one has no contents.
    pub closed spec fn outgoing(self) -> Map<MessageId, Option<OutgoingView<Peer, MessageId>>> {
        self.outgoing_by_id@.map_values(
            |stored: StoredOutgoing<Peer, MessageId>| durable_record(stored),
        )
    }

    /// The identifiers of outgoing messages, by semantic slot.
    pub closed spec fn outgoing_slots(self) -> Map<MessageKey, MessageId> {
        self.outgoing_by_key@
    }

    /// Every filled slot names a stored message.
    pub closed spec fn wf(self) -> bool {
        &&& self.incoming.wf()
        &&& self.incoming_by_key.wf()
        &&& self.outgoing_by_key.wf()
        &&& self.outgoing_by_id.wf()
        &&& forall|key: MessageKey| #[trigger]
            self.incoming_by_key@.contains_key(key) ==> self.incoming@.contains_key(
                self.incoming_by_key@[key],
            )
        &&& forall|key: MessageKey| #[trigger]
            self.outgoing_by_key@.contains_key(key) ==> self.outgoing_by_id@.contains_key(
                self.outgoing_by_key@[key],
            )
    }

    /// What the store holds about incoming messages is the same in both.
    pub open spec fn same_incoming(self, other: Self) -> bool {
        self.incoming() == other.incoming() && self.incoming_slots() == other.incoming_slots()
    }

    /// What the store holds about outgoing messages is the same in both.
    pub open spec fn same_outgoing(self, other: Self) -> bool {
        self.outgoing() == other.outgoing() && self.outgoing_slots() == other.outgoing_slots()
    }

    pub fn new() -> (store: Self)
        ensures
            store.wf(),
            store.incoming() == Map::<MessageId, IncomingView<Peer, MessageId>>::empty(),
            store.incoming_slots() == Map::<MessageKey, MessageId>::empty(),
            store.outgoing() == Map::<MessageId, Option<OutgoingView<Peer, MessageId>>>::empty(),
            store.outgoing_slots() == Map::<MessageKey, MessageId>::empty(),
    {
        let store = MessageStore {
            incoming: OrderedMap::new(),
            incoming_by_key: OrderedMap::new(),
            outgoing_by_key: OrderedMap::new(),
            outgoing_by_id: OrderedMap::new(),
        };
        proof {
            assert(store.incoming() =~= Map::<MessageId, IncomingView<Peer, MessageId>>::empty());
            assert(store.outgoing() =~= Map::<MessageId, Option<OutgoingView<Peer, MessageId>>>::empty());
        }
        store
    }

    /// The status of an incoming message: traffic that is not durable is always
    /// new; a durable message is judged by the first of its slots that is filled.
    pub open spec fn status(
        self,
        record: IncomingView<Peer, MessageId>,
        identity: MessageIdentity<MessageId, MessageKey>,
    ) -> IncomingStatus {
        if identity.persistence != MessagePersistence::Durable {
            IncomingStatus::New
        } else if identity.message_id != record.message_id {
            IncomingStatus::Conflict
        } else if !any_filled(self.incoming_slots(), identity.keys@) {
            IncomingStatus::New
        } else {
            let slot = identity.keys@[first_filled(self.incoming_slots(), identity.keys@)];
            if self.incoming()[self.incoming_slots()[slot]].payload == record.payload {
                IncomingStatus::Duplicate
            } else {
                IncomingStatus::Conflict
            }
        }
    }

    pub fn incoming_status(
        &self,
        record: &IncomingRecord<Peer, MessageId>,
        identity: &MessageIdentity<MessageId, MessageKey>,
    ) -> (status: IncomingStatus)
        requires
            self.wf(),
        ensures
            status == self.status(record@, *identity),
    {
        if identity.persistence != MessagePersistence::Durable {
            return IncomingStatus::New;
        }
        if !same_key(&identity.message_id, &record.message_id) {
            return IncomingStatus::Conflict;
        }
        let mut i: usize = 0;
        while i < identity.keys.len()
            invariant
                self.wf(),
                identity.persistence == MessagePersistence::Durable,
                identity.message_id == record.message_id,
                i <= identity.keys@.len(),
                forall|j: int|
                    0 <= j < i ==> !self.incoming_slots().contains_key(#[trigger] identity.keys@[j]),
            decreases identity.keys@.len() - i,
        {
            match self.incoming_by_key.get(&identity.keys[i]) {
                None => {},
                Some(message_id) => {
                    proof {
                        assert(any_filled(self.incoming_slots(), identity.keys@));
                        let first = first_filled(self.incoming_slots(), identity.keys@);
                        assert(self.incoming_slots().contains_key(identity.keys@[i as int]));
                        assert(first == i);
                    }
                    return match self.incoming.get(message_id) {
                        Some(existing) => {
                            if same_bytes(&existing.payload, &record.payload) {
                                IncomingStatus::Duplicate
                            } else {
                                IncomingStatus::Conflict
                            }
                        },
                        None => {
                            assert(false);
                            IncomingStatus::Conflict
                        },
                    };
                },
            }
            i += 1;
        }
        IncomingStatus::New
    }

    /// Whether an incoming message has to be durable before it is accepted.
    pub fn must_journal_incoming(
        &self,
        record: &IncomingRecord<Peer, MessageId>,
        identity: &MessageIdentity<MessageId, MessageKey>,
    ) -> (needed: bool)
        requires
            self.wf(),
        ensures
            needed == (identity.persistence == MessagePersistence::Durable && self.status(
                record@,
                *identity,
            ) == IncomingStatus::New),
    {
        identity.persistence == MessagePersistence::Durable && self.incoming_status(record, identity)
            == IncomingStatus::New
    }

    /// Accepts an incoming message. `journal` is the outcome of writing the
    /// record; it counts only where a journal entry is needed.
    pub fn accept_incoming<E>(
        &mut self,
        record: IncomingRecord<Peer, MessageId>,
        identity: &MessageIdentity<MessageId, MessageKey>,
        journal: Result<(), E>,
    ) -> (result: Result<IncomingStatus, MessageStoreError<MessageId, E>>)
        requires
            old(self).wf(),
        ensures
            final(self).wf(),
            final(self).same_outgoing(*old(self)),
            old(self).status(record@, *identity) != IncomingStatus::New || identity.persistence
                != MessagePersistence::Durable ==> {
                &&& result == Ok::<_, MessageStoreError<MessageId, E>>(
                    old(self).status(record@, *identity),
                )
                &&& final(self).same_incoming(*old(self))
            },
            old(self).status(record@, *identity) == IncomingStatus::New && identity.persistence
                == MessagePersistence::Durable ==> match journal {
                Err(error) => {
                    &&& result == Err::<IncomingStatus, _>(
                        MessageStoreError::<MessageId, E>::Journal(error),
                    )
                    &&& final(self).same_incoming(*old(self))
                },
                Ok(()) => {
                    &&& result == Ok::<_, MessageStoreError<MessageId, E>>(IncomingStatus::New)
                    &&& final(self).incoming() == old(self).incoming().insert(record.message_id, record@)
                    &&& final(self).incoming_slots() == fill_slots(
                        old(self).incoming_slots(),
                        identity.keys@,
                        record.message_id,
                    )
                },
            },
    {
        let status = self.incoming_status(&record, identity);
        if status != IncomingStatus::New {
            return Ok(status);
        }
        if identity.persistence == MessagePersistence::Durable {
            match journal {
                Err(error) => return Err(MessageStoreError::Journal(error)),
                Ok(()) => {},
            }
            self.index_incoming(record, &identity.keys);
        }
        Ok(IncomingStatus::New)
    }

    /// Whether an outgoing message has to be durable before it is accepted.
    pub fn must_journal_outgoing(
        &self,
        record: &OutgoingRecord<Peer, MessageId>,
        identity: &MessageIdentity<MessageId, MessageKey>,
    ) -> (needed: bool)
        requires
            self.wf(),
        ensures
            needed == (identity.persistence == MessagePersistence::Durable && !any_filled(
                self.outgoing_slots(),
                identity.keys@,
            ) && !self.outgoing().contains_key(record.message_id)),
    {
        identity.persistence == MessagePersistence::Durable && !any_key(
            &self.outgoing_by_key,
            &identity.keys,
        ) && !self.outgoing_by_id.contains_key(&record.message_id)
    }

    /// Accepts an outgoing message unless one of its slots is filled. `journal`
    /// is the outcome of writing the record; it counts only where a journal
    /// entry is needed.
    pub fn accept_outgoing<E>(
        &mut self,
        record: OutgoingRecord<Peer, MessageId>,
        identity: &MessageIdentity<MessageId, MessageKey>,
        journal: Result<(), E>,
    ) -> (result: Result<bool, MessageStoreError<MessageId, E>>)
        requires
            old(self).wf(),
        ensures
            final(self).wf(),
            final(self).same_incoming(*old(self)),
            any_filled(old(self).outgoing_slots(), identity.keys@) ==> {
                &&& result == Ok::<_, MessageStoreError<MessageId, E>>(false)
                &&& final(self).same_outgoing(*old(self))
            },
            !any_filled(old(self).outgoing_slots(), identity.keys@) && old(self).outgoing().contains_key(
                record.message_id,
            ) ==> {
                &&& result == Err::<bool, _>(
                    MessageStoreError::<MessageId, E>::MessageIdCollision(record.message_id),
                )
                &&& final(self).same_outgoing(*old(self))
            },
            !any_filled(old(self).outgoing_slots(), identity.keys@) && !old(self).outgoing().contains_key(
                record.message_id,
            ) ==> if identity.persistence == MessagePersistence::Durable && journal is Err {
                &&& result == Err::<bool, _>(
                    MessageStoreError::<MessageId, E>::Journal(journal->Err_0),
                )
                &&& final(self).same_outgoing(*old(self))
            } else {
                &&& result == Ok::<_, MessageStoreError<MessageId, E>>(true)
                &&& final(self).outgoing() == old(self).outgoing().insert(
                    identity.message_id,
                    if identity.persistence == MessagePersistence::Durable {
                        Some(record@)
                    } else {
                        None
                    },
                )
                &&& final(self).outgoing_slots() == fill_slots(
                    old(self).outgoing_slots(),
                    identity.keys@,
                    identity.message_id,
                )
            },
    {
        if any_key(&self.outgoing_by_key, &identity.keys) {
            return Ok(false);
        }
        if self.outgoing_by_id.contains_key(&record.message_id) {
            return Err(MessageStoreError::MessageIdCollision(record.message_id));
        }
        let stored = match identity.persistence {
            MessagePersistence::Durable => {
                match journal {
                    Err(error) => return Err(MessageStoreError::Journal(error)),
                    Ok(()) => {},
                }
                StoredOutgoing::Durable(record)
            },
            MessagePersistence::Ephemeral => StoredOutgoing::Ephemeral,
        };
        self.index_outgoing(identity.message_id.duplicate(), stored, &identity.keys);
        Ok(true)
    }

    /// Whether a journaled incoming record can be put back.
    pub open spec fn restorable_incoming(
        self,
        record: IncomingView<Peer, MessageId>,
        identity: MessageIdentity<MessageId, MessageKey>,
    ) -> bool {
        &&& identity.persistence == MessagePersistence::Durable
        &&& identity.message_id == record.message_id
        &&& !self.incoming().contains_key(record.message_id)
        &&& !any_filled(self.incoming_slots(), identity.keys@)
    }

    /// Puts a journaled incoming record back.
    pub fn restore_incoming(
        &mut self,
        record: IncomingRecord<Peer, MessageId>,
        identity: &MessageIdentity<MessageId, MessageKey>,
    ) -> (restored: bool)
        requires
            old(self).wf(),
        ensures
            final(self).wf(),
            final(self).same_outgoing(*old(self)),
            restored == old(self).restorable_incoming(record@, *identity),
            !restored ==> final(self).same_incoming(*old(self)),
            restored ==> {
                &&& final(self).incoming() == old(self).incoming().insert(record.message_id, record@)
                &&& final(self).incoming_slots() == fill_slots(
                    old(self).incoming_slots(),
                    identity.keys@,
                    record.message_id,
                )
            },
    {
        if identity.persistence != MessagePersistence::Durable || !same_key(
            &identity.message_id,
            &record.message_id,
        ) || self.incoming.contains_key(&record.message_id) || any_key(
            &self.incoming_by_key,
            &identity.keys,
        ) {
            return false;
        }
        self.index_incoming(record, &identity.keys);
        true
    }

    /// Whether a journaled outgoing record can be put back.
    pub open spec fn restorable_outgoing(
        self,
        record: OutgoingView<Peer, MessageId>,
        identity: MessageIdentity<MessageId, MessageKey>,
    ) -> bool {
        &&& identity.persistence == MessagePersistence::Durable
        &&& identity.message_id == record.message_id
        &&& !self.outgoing().contains_key(record.message_id)
        &&& !any_filled(self.outgoing_slots(), identity.keys@)
    }

    /// Puts a journaled outgoing record back.
    pub fn restore_outgoing(
        &mut self,
        record: OutgoingRecord<Peer, MessageId>,
        identity: &MessageIdentity<MessageId, MessageKey>,
    ) -> (restored: bool)
        requires
            old(self).wf(),
        ensures
            final(self).wf(),
            final(self).same_incoming(*old(self)),
            restored == old(self).restorable_outgoing(record@, *identity),
            !restored ==> final(self).same_outgoing(*old(self)),
            restored ==> {
                &&& final(self).outgoing() == old(self).outgoing().insert(
                    record.message_id,
                    Some(record@),
                )
                &&& final(self).outgoing_slots() == fill_slots(
                    old(self).outgoing_slots(),
                    identity.keys@,
                    record.message_id,
                )
            },
    {
        if identity.persistence != MessagePersistence::Durable || !same_key(
            &identity.message_id,
            &record.message_id,
        ) || self.outgoing_by_id.contains_key(&record.message_id) || any_key(
            &self.outgoing_by_key,
            &identity.keys,
        ) {
            return false;
        }
        let message_id = record.message_id.duplicate();
        self.index_outgoing(message_id, StoredOutgoing::Durable(record), &identity.keys);
        true
    }

    fn index_outgoing(
        &mut self,
        message_id: MessageId,
        stored: StoredOutgoing<Peer, MessageId>,
        keys: &Vec<MessageKey>,
    )
        requires
            old(self).wf(),
        ensures
            final(self).wf(),
            final(self).same_incoming(*old(self)),
            final(self).outgoing() == old(self).outgoing().insert(message_id, durable_record(stored)),
            final(self).outgoing_slots() == fill_slots(old(self).outgoing_slots(), keys@, message_id),
    {
        let ghost before = *self;
        fill(&mut self.outgoing_by_key, keys, &message_id);
        let ghost copy = message_id;
        let ghost kept = stored;
        self.outgoing_by_id.insert(message_id, stored);
        proof {
            assert(self.outgoing() =~= before.outgoing().insert(copy, durable_record(kept)));
        }
    }

    fn index_incoming(&mut self, record: IncomingRecord<Peer, MessageId>, keys: &Vec<MessageKey>)
        requires
            old(self).wf(),
        ensures
            final(self).wf(),
            final(self).same_outgoing(*old(self)),
            final(self).incoming() == old(self).incoming().insert(record.message_id, record@),
            final(self).incoming_slots() == fill_slots(
                old(self).incoming_slots(),
                keys@,
                record.message_id,
            ),
    {
        let ghost before = *self;
        let ghost kept = record;
        let message_id = record.message_id.duplicate();
        fill(&mut self.incoming_by_key, keys, &message_id);
        self.incoming.insert(message_id, record);
        proof {
            assert(self.incoming() =~= before.incoming().insert(kept.message_id, kept@));
        }
    }

    /// The outgoing message that fills a slot.
    pub fn outgoing_message(&self, key: &MessageKey) -> (id: Option<MessageId>)
        requires
            self.wf(),
        ensures
            id == (if self.outgoing_slots().contains_key(*key) {
                Some(self.outgoing_slots()[*key])
            } else {
                None
            }),
    {
        match self.outgoing_by_key.get(key) {
            Some(id) => Some(id.duplicate()),
            None => None,
        }
    }

    /// The number of incoming messages.
    pub fn incoming_count(&self) -> (count: usize)
        requires
            self.wf(),
        ensures
            self.incoming().dom().finite(),
            count == self.incoming().dom().len(),
    {
        assert(self.incoming().dom() =~= self.incoming@.dom());
        self.incoming.len()
    }

    /// The incoming messages, in the order of their identifiers.
    pub fn incoming_records(&self) -> (records: Vec<IncomingRecord<Peer, MessageId>>)
        requires
            self.wf(),
        ensures
            exists|ids: Seq<MessageId>| {
                &&& #[trigger] ascending(ids)
                &&& ids.to_set() == self.incoming().dom()
                &&& records@.len() == ids.len()
                &&& forall|i: int|
                    0 <= i < ids.len() ==> (#[trigger] records@[i])@ == self.incoming()[ids[i]]
            },
    {
        let mut records: Vec<IncomingRecord<Peer, MessageId>> = Vec::new();
        let mut i: usize = 0;
        while i < self.incoming.len()
            invariant
                self.wf(),
                i <= self.incoming.entries().len(),
                records@.len() == i,
                forall|j: int|
                    0 <= j < i ==> (#[trigger] records@[j])@ == self.incoming.entries()[j].1@,
            decreases self.incoming.entries().len() - i,
        {
            records.push(self.incoming.value_at(i).duplicate());
            i += 1;
        }
        proof {
            let ids = self.incoming.keys();
            lemma_entries(self.incoming.entries());
            assert(ids.to_set() =~= self.incoming().dom());
            assert forall|j: int| 0 <= j < ids.len() implies (#[trigger] records@[j])@
                == self.incoming()[ids[j]] by {
                assert(ids[j] == self.incoming.entries()[j].0);
            }
            assert(ascending(ids));
        }
        records
    }

    /// The durable outgoing messages, in the order of their identifiers.
    pub fn outgoing_records(&self) -> (records: Vec<OutgoingRecord<Peer, MessageId>>)
        requires
            self.wf(),
        ensures
            exists|ids: Seq<MessageId>| {
                &&& #[trigger] ascending(ids)
                &&& forall|id: MessageId| #[trigger]
                    ids.contains(id) <==> self.outgoing().contains_key(id) && self.outgoing()[id] is Some
                &&& records@.len() == ids.len()
                &&& forall|i: int|
                    0 <= i < ids.len() ==> Some((#[trigger] records@[i])@) == self.outgoing()[ids[i]]
            },
    {
        let mut records: Vec<OutgoingRecord<Peer, MessageId>> = Vec::new();
        let mut i: usize = 0;
        let ghost mut ids: Seq<MessageId> = Seq::empty();
        let ghost entries = self.outgoing_by_id.entries();
        proof {
            lemma_entries(entries);
        }
        while i < self.outgoing_by_id.len()
            invariant
                self.wf(),
                entries == self.outgoing_by_id.entries(),
                i <= entries.len(),
                records@.len() == ids.len(),
                ascending(ids),
                forall|j: int| #![trigger entries[j]]
                    0 <= j < entries.len() ==> self.outgoing_by_id@.contains_key(entries[j].0)
                        && self.outgoing_by_id@[entries[j].0] == entries[j].1,
                forall|id: MessageId| #[trigger]
                    ids.contains(id) ==> exists|j: int|
                        0 <= j < i && (#[trigger] entries[j]).0 == id && durable_record(entries[j].1) is Some,
                forall|j: int|
                    0 <= j < i && durable_record((#[trigger] entries[j]).1) is Some ==> ids.contains(
                        entries[j].0,
                    ),
                forall|k: int|
                    0 <= k < ids.len() ==> Some((#[trigger] records@[k])@) == self.outgoing()[ids[k]],
            decreases entries.len() - i,
        {
            match self.outgoing_by_id.value_at(i) {
                StoredOutgoing::Durable(record) => {
                    records.push(record.duplicate());
                    proof {
                        let id = entries[i as int].0;
                        let earlier = ids;
                        ids = ids.push(id);
                        assert forall|a: int, b: int| 0 <= a < b < ids.len() implies #[trigger] ids[a].before(
                            #[trigger] ids[b],
                        ) by {
                            if b < earlier.len() {
                                assert(earlier[a].before(earlier[b]));
                            } else {
                                assert(earlier.contains(ids[a]));
                                let j = choose|j: int|
                                    0 <= j < i && (#[trigger] entries[j]).0 == ids[a];
                                assert(self.outgoing_by_id.keys()[j].before(
                                    self.outgoing_by_id.keys()[i as int],
                                ));
                            }
                        }
                        assert(ids[earlier.len() as int] == id);
                        assert forall|other: MessageId| #[trigger] ids.contains(other) <==> earlier.contains(
                            other,
                        ) || other == id by {
                            broadcast use vstd::seq_lib::lemma_seq_contains_after_push;

                        }
                        assert(self.outgoing_by_id@[id] == entries[i as int].1);
                        assert(self.outgoing()[id] == durable_record(entries[i as int].1));
                    }
                },
                StoredOutgoing::Ephemeral => {},
            }
            i += 1;
        }
        proof {
            assert forall|id: MessageId| #[trigger] ids.contains(id) <==> self.outgoing().contains_key(id)
                && self.outgoing()[id] is Some by {
                if ids.contains(id) {
                    let j = choose|j: int|
                        0 <= j < i && (#[trigger] entries[j]).0 == id && durable_record(entries[j].1) is Some;
                    assert(self.outgoing_by_id@.contains_key(entries[j].0));
                }
                if self.outgoing().contains_key(id) && self.outgoing()[id] is Some {
                    assert(self.outgoing_by_id@.contains_key(id));
                    lemma_entries(entries);
                    let j = choose|j: int| 0 <= j < entries.len() && (#[trigger] entries[j]).0 == id;
                    assert(durable_record(entries[j].1) is Some);
                }
            }
            assert(ascending(ids));
        }
        records
    }

    /// Forgets the outgoing messages that are not durable, and their slots.
    pub fn clear_ephemeral(&mut self)
        requires
            old(self).wf(),
        ensures
            final(self).wf(),
            final(self).same_incoming(*old(self)),
            final(self).outgoing() == old(self).outgoing().restrict(
                Set::new(
                    |id: MessageId|
                        old(self).outgoing().contains_key(id) && old(self).outgoing()[id] is Some,
                ),
            ),
            final(self).outgoing_slots() == old(self).outgoing_slots().restrict(
                Set::new(
                    |key: MessageKey|
                        old(self).outgoing_slots().contains_key(key) && old(self).outgoing()[old(
                            self,
                        ).outgoing_slots()[key]] is Some,
                ),
            ),
    {
        let ghost before = *self;
        let mut i: usize = 0;
        while i < self.outgoing_by_id.len()
            invariant
                before.wf(),
                self.incoming == before.incoming,
                self.incoming_by_key == before.incoming_by_key,
                self.outgoing_by_key == before.outgoing_by_key,
                self.outgoing_by_id.wf(),
                i <= self.outgoing_by_id.entries().len(),
                forall|j: int|
                    0 <= j < i ==> durable_record((#[trigger] self.outgoing_by_id.entries()[j]).1) is Some,
                forall|id: MessageId| #[trigger]
                    self.outgoing_by_id@.contains_key(id) ==> before.outgoing_by_id@.contains_key(id)
                        && before.outgoing_by_id@[id] == self.outgoing_by_id@[id],
                forall|id: MessageId| #[trigger]
                    before.outgoing_by_id@.contains_key(id) && durable_record(
                        before.outgoing_by_id@[id],
                    ) is Some ==> self.outgoing_by_id@.contains_key(id),
            decreases self.outgoing_by_id.entries().len() - i,
        {
            let ghost entries = self.outgoing_by_id.entries();
            proof {
                lemma_entries(entries);
            }
            let durable: bool = match self.outgoing_by_id.value_at(i) {
                StoredOutgoing::Durable(_) => true,
                StoredOutgoing::Ephemeral => false,
            };
            if durable {
                i += 1;
            } else {
                self.outgoing_by_id.remove_at(i);
                assert forall|j: int| 0 <= j < i implies durable_record(
                    (#[trigger] self.outgoing_by_id.entries()[j]).1,
                ) is Some by {
                    assert(self.outgoing_by_id.entries()[j] == entries[j]);
                }
            }
        }
        proof {
            lemma_entries(self.outgoing_by_id.entries());
            assert forall|id: MessageId| #[trigger] self.outgoing_by_id@.contains_key(id) implies durable_record(
                self.outgoing_by_id@[id],
            ) is Some by {
                let j = choose|j: int|
                    0 <= j < self.outgoing_by_id.entries().len() && (
                    #[trigger] self.outgoing_by_id.entries()[j]).0 == id;
                assert(durable_record(self.outgoing_by_id.entries()[j].1) is Some);
            }
        }
        let mut k: usize = 0;
        while k < self.outgoing_by_key.len()
            invariant
                before.wf(),
                self.incoming == before.incoming,
                self.incoming_by_key == before.incoming_by_key,
                self.outgoing_by_key.wf(),
                self.outgoing_by_id.wf(),
                forall|id: MessageId| #[trigger]
                    self.outgoing_by_id@.contains_key(id) <==> before.outgoing_by_id@.contains_key(id)
                        && durable_record(before.outgoing_by_id@[id]) is Some,
                forall|id: MessageId| #[trigger]
                    self.outgoing_by_id@.contains_key(id) ==> before.outgoing_by_id@[id]
                        == self.outgoing_by_id@[id],
                k <= self.outgoing_by_key.entries().len(),
                forall|j: int|
                    0 <= j < k ==> self.outgoing_by_id@.contains_key(
                        (#[trigger] self.outgoing_by_key.entries()[j]).1,
                    ),
                forall|key: MessageKey| #[trigger]
                    self.outgoing_by_key@.contains_key(key) ==> before.outgoing_by_key@.contains_key(key)
                        && before.outgoing_by_key@[key] == self.outgoing_by_key@[key],
                forall|key: MessageKey| #[trigger]
                    before.outgoing_by_key@.contains_key(key) && self.outgoing_by_id@.contains_key(
                        before.outgoing_by_key@[key],
                    ) ==> self.outgoing_by_key@.contains_key(key),
            decreases self.outgoing_by_key.entries().len() - k,
        {
            let ghost entries = self.outgoing_by_key.entries();
            proof {
                lemma_entries(entries);
            }
            if self.outgoing_by_id.contains_key(self.outgoing_by_key.value_at(k)) {
                k += 1;
            } else {
                self.outgoing_by_key.remove_at(k);
                assert forall|j: int| 0 <= j < k implies self.outgoing_by_id@.contains_key(
                    (#[trigger] self.outgoing_by_key.entries()[j]).1,
                ) by {
                    assert(self.outgoing_by_key.entries()[j] == entries[j]);
                }
            }
        }
        proof {
            lemma_entries(self.outgoing_by_key.entries());
            assert forall|key: MessageKey| #[trigger] self.outgoing_by_key@.contains_key(
                key,
            ) implies self.outgoing_by_id@.contains_key(self.outgoing_by_key@[key]) by {
                let j = choose|j: int|
                    0 <= j < self.outgoing_by_key.entries().len() && (
                    #[trigger] self.outgoing_by_key.entries()[j]).0 == key;
                assert(self.outgoing_by_id@.contains_key(self.outgoing_by_key.entries()[j].1));
            }
            assert(self.outgoing() =~= before.outgoing().restrict(
                Set::new(
                    |id: MessageId|
                        before.outgoing().contains_key(id) && before.outgoing()[id] is Some,
                ),
            ));
            assert(self.outgoing_slots() =~= before.outgoing_slots().restrict(
                Set::new(
                    |key: MessageKey|
                        before.outgoing_slots().contains_key(key)
                            && before.outgoing()[before.outgoing_slots()[key]] is Some,
                ),
            ));
        }
    }
}

/// Whether two keys are equal.
pub fn same_key<K: Key>(left: &K, right: &K) -> (same: bool)
    ensures
        same == (*left == *right),
{
    proof {
        K::irreflexive(*left);
    }
    match left.rank(right) {
        Rank::Equal => true,
        Rank::Less => false,
        Rank::Greater => false,
    }
}

/// Whether one of `keys` is filled.
fn any_key<MessageKey: Key, MessageId>(
    slots: &OrderedMap<MessageKey, MessageId>,
    keys: &Vec<MessageKey>,
) -> (found: bool)
    requires
        slots.wf(),
    ensures
        found == any_filled(slots@, keys@),
{
    let mut i: usize = 0;
    while i < keys.len()
        invariant
            slots.wf(),
            i <= keys@.len(),
            forall|j: int| 0 <= j < i ==> !slots@.contains_key(#[trigger] keys@[j]),
        decreases keys@.len() - i,
    {
        if slots.contains_key(&keys[i]) {
            return true;
        }
        i += 1;
    }
    false
}

/// Fills the slots of `keys` with `id`.
fn fill<MessageKey: Key, MessageId: Key>(
    slots: &mut OrderedMap<MessageKey, MessageId>,
    keys: &Vec<MessageKey>,
    id: &MessageId,
)
    requires
        old(slots).wf(),
    ensures
        final(slots).wf(),
        final(slots)@ == fill_slots(old(slots)@, keys@, *id),
{
    let ghost before = slots@;
    let mut i: usize = 0;
    assert(slots@ =~= fill_slots(before, keys@.take(0), *id));
    while i < keys.len()
        invariant
            slots.wf(),
            i <= keys@.len(),
            slots@ == fill_slots(before, keys@.take(i as int), *id),
        decreases keys@.len() - i,
    {
        slots.insert(keys[i].duplicate(), id.duplicate());
        proof {
            let key = keys@[i as int];
            assert(keys@.take(i + 1) =~= keys@.take(i as int).push(key));
            assert forall|other: MessageKey| #[trigger] keys@.take(i + 1).contains(other) <==> keys@.take(
                i as int,
            ).contains(other) || other == key by {
                broadcast use vstd::seq_lib::lemma_seq_contains_after_push;

            }
            assert(slots@ =~= fill_slots(before, keys@.take(i + 1), *id));
        }
        i += 1;
    }
    assert(keys@.take(keys@.len() as int) =~= keys@);
}

/// Filling slots fills exactly the named ones in addition, and overwrites nothing
/// else.
pub proof fn law_filling_takes_exactly_the_named_slots<MessageKey, MessageId>(
    slots: Map<MessageKey, MessageId>,
    keys: Seq<MessageKey>,
    id: MessageId,
    key: MessageKey,
)
    ensures
        fill_slots(slots, keys, id).contains_key(key) <==> slots.contains_key(key) || keys.contains(key),
        keys.contains(key) ==> fill_slots(slots, keys, id)[key] == id,
        slots.contains_key(key) && !keys.contains(key) ==> fill_slots(slots, keys, id)[key] == slots[key],
{
}

/// A logged message is new where all of its slots are open, a duplicate where the
/// message in its first filled slot has the same contents, and a conflict where that
/// has other contents; a message that is not logged is always new.
pub proof fn law_status_is_that_of_the_first_filled_slot<Peer: Key, MessageId: Key, MessageKey: Key>(
    store: MessageStore<Peer, MessageId, MessageKey>,
    record: IncomingView<Peer, MessageId>,
    identity: MessageIdentity<MessageId, MessageKey>,
    i: int,
)
    ensures
        identity.persistence == MessagePersistence::Ephemeral ==> store.status(record, identity)
            == IncomingStatus::New,
        identity.persistence == MessagePersistence::Durable && identity.message_id != record.message_id
            ==> store.status(record, identity) == IncomingStatus::Conflict,
        identity.persistence == MessagePersistence::Durable && identity.message_id == record.message_id
            ==> {
            let keys = identity.keys@;
            let slots = store.incoming_slots();
            &&& (forall|j: int| 0 <= j < keys.len() ==> !slots.contains_key(#[trigger] keys[j]))
                ==> store.status(record, identity) == IncomingStatus::New
            &&& 0 <= i < keys.len() && slots.contains_key(keys[i]) && (forall|j: int|
                0 <= j < i ==> !slots.contains_key(#[trigger] keys[j])) ==> store.status(record, identity)
                == (if store.incoming()[slots[keys[i]]].payload == record.payload {
                IncomingStatus::Duplicate
            } else {
                IncomingStatus::Conflict
            })
        },
{
    let keys = identity.keys@;
    let slots = store.incoming_slots();
    if 0 <= i < keys.len() && slots.contains_key(keys[i]) && (forall|j: int|
        0 <= j < i ==> !slots.contains_key(#[trigger] keys[j])) {
        assert(any_filled(slots, keys));
        let first = first_filled(slots, keys);
        assert(0 <= first < keys.len() && slots.contains_key(keys[first]) && forall|j: int|
            0 <= j < first ==> !slots.contains_key(#[trigger] keys[j]));
        if first < i {
            assert(!slots.contains_key(keys[first]));
        }
        if i < first {
            assert(!slots.contains_key(keys[i]));
        }
    }
}

/// A record of the journal is put back exactly where it is durable, under its own
/// identity, and neither it nor any of its slots is taken.
pub proof fn law_record_is_put_back_into_open_slots<Peer: Key, MessageId: Key, MessageKey: Key>(
    store: MessageStore<Peer, MessageId, MessageKey>,
    incoming: IncomingView<Peer, MessageId>,
    outgoing: OutgoingView<Peer, MessageId>,
    identity: MessageIdentity<MessageId, MessageKey>,
)
    ensures
        store.restorable_incoming(incoming, identity) <==> identity.persistence
            == MessagePersistence::Durable && identity.message_id == incoming.message_id
            && !store.incoming().contains_key(incoming.message_id) && forall|j: int|
            0 <= j < identity.keys@.len() ==> !store.incoming_slots().contains_key(
                #[trigger] identity.keys@[j],
            ),
        store.restorable_outgoing(outgoing, identity) <==> identity.persistence
            == MessagePersistence::Durable && identity.message_id == outgoing.message_id
            && !store.outgoing().contains_key(outgoing.message_id) && forall|j: int|
            0 <= j < identity.keys@.len() ==> !store.outgoing_slots().contains_key(
                #[trigger] identity.keys@[j],
            ),
{
}

/// A record of the journal is put back exactly where it is durable, stands under its own
/// identity, and neither its identity nor one of its slots is taken.
pub proof fn law_journaled_record_is_put_back<Peer: Key, MessageId: Key, MessageKey: Key>(
    store: MessageStore<Peer, MessageId, MessageKey>,
    record: IncomingView<Peer, MessageId>,
    identity: MessageIdentity<MessageId, MessageKey>,
    i: int,
)
    ensures
        identity.persistence != MessagePersistence::Durable ==> !store.restorable_incoming(
            record,
            identity,
        ),
        identity.message_id != record.message_id ==> !store.restorable_incoming(record, identity),
        store.incoming().contains_key(record.message_id) ==> !store.restorable_incoming(record, identity),
        0 <= i < identity.keys@.len() && store.incoming_slots().contains_key(identity.keys@[i])
            ==> !store.restorable_incoming(record, identity),
        identity.persistence == MessagePersistence::Durable && identity.message_id == record.message_id
            && !store.incoming().contains_key(record.message_id) && (forall|j: int|
            0 <= j < identity.keys@.len() ==> !store.incoming_slots().contains_key(
                #[trigger] identity.keys@[j],
            )) ==> store.restorable_incoming(record, identity),
{
}

} // verus!
