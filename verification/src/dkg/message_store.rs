//! The messages that a session accepted and sent, by semantic slot.

use crate::dkg::ids::{DkgMessageId, DkgMessageKey, PartyId};
use crate::order::{ascending, Key};
use crate::ordered_map::{sort_set, sorted_set, OrderedMap};
use crate::reliable::message::{
    any_filled, fill_slots, IncomingRecord, IncomingStatus, IncomingView, MessageIdentity,
    MessagePersistence, MessageStore, MessageStoreError, OutgoingRecord, OutgoingView,
};
use vstd::prelude::*;

verus! {

/// Why an outgoing message has no identity.
#[derive(Clone, Copy, Debug, PartialEq, Eq, Structural)]
pub enum IdentityError {
    NoRecipients,
    /// The protocol does not let it go to a recipient.
    Classification,
    /// It survives a restart at one recipient and not at another.
    InconsistentPersistence,
    /// It fills no slot.
    MessageId,
}

/// Why an outgoing message was not accepted.
#[derive(Debug)]
pub enum StoreError<JournalError> {
    Identity(IdentityError),
    /// A retrieval message has more than one recipient or slot.
    RetrievalMustBeUnicast,
    Reliable(MessageStoreError<DkgMessageId, JournalError>),
}

/// What a message is to one recipient.
pub struct RecipientIdentity {
    pub keys: Vec<DkgMessageKey>,
    pub persistence: MessagePersistence,
}

/// The slots that a message fills at its recipients, one after the other, and
/// whether it survives a restart.
pub open spec fn gathered(identities: Seq<Option<RecipientIdentity>>) -> Result<
    (Seq<DkgMessageKey>, MessagePersistence),
    IdentityError,
>
    decreases identities.len(),
{
    if identities.len() == 0 {
        Err(IdentityError::NoRecipients)
    } else if identities.len() == 1 {
        match identities[0] {
            Some(identity) => Ok((identity.keys@, identity.persistence)),
            None => Err(IdentityError::Classification),
        }
    } else {
        match gathered(identities.drop_last()) {
            Err(error) => Err(error),
            Ok((keys, persistence)) => match identities.last() {
                None => Err(IdentityError::Classification),
                Some(identity) => if identity.persistence != persistence {
                    Err(IdentityError::InconsistentPersistence)
                } else {
                    Ok((keys + identity.keys@, persistence))
                },
            },
        }
    }
}

/// The identity of an outgoing message.
pub open spec fn outgoing_slots(identities: Seq<Option<RecipientIdentity>>) -> Result<
    (Seq<DkgMessageKey>, MessagePersistence),
    IdentityError,
> {
    match gathered(identities) {
        Err(error) => Err(error),
        Ok((keys, persistence)) => if keys.len() == 0 {
            Err(IdentityError::MessageId)
        } else {
            Ok((sorted_set(keys), persistence))
        },
    }
}

proof fn lemma_early_refusal(identities: Seq<Option<RecipientIdentity>>, count: int)
    requires
        0 < count <= identities.len(),
        gathered(identities.take(count)) is Err,
    ensures
        gathered(identities) == gathered(identities.take(count)),
    decreases identities.len(),
{
    if count == identities.len() {
        assert(identities.take(count) =~= identities);
    } else {
        assert(identities.drop_last().take(count) =~= identities.take(count));
        lemma_early_refusal(identities.drop_last(), count);
    }
}

fn append_slots(keys: &mut Vec<DkgMessageKey>, more: &Vec<DkgMessageKey>)
    ensures
        final(keys)@ == old(keys)@ + more@,
{
    let ghost before = keys@;
    let mut i: usize = 0;
    assert(keys@ =~= before + more@.take(0));
    while i < more.len()
        invariant
            i <= more@.len(),
            keys@ == before + more@.take(i as int),
        decreases more@.len() - i,
    {
        keys.push(more[i]);
        assert(keys@ =~= before + more@.take(i + 1));
        i += 1;
    }
    assert(more@.take(i as int) =~= more@);
}

/// The identity of a message, from what it is to each recipient.
pub fn outgoing_identity(identities: &Vec<Option<RecipientIdentity>>) -> (result: Result<
    MessageIdentity<DkgMessageId, DkgMessageKey>,
    IdentityError,
>)
    ensures
        match outgoing_slots(identities@) {
            Ok((keys, persistence)) => result matches Ok(identity) && identity.keys@ == keys
                && identity.message_id.keys() == keys && identity.persistence == persistence,
            Err(error) => result == Err::<MessageIdentity<DkgMessageId, DkgMessageKey>, _>(error),
        },
{
    if identities.len() == 0 {
        return Err(IdentityError::NoRecipients);
    }
    let mut keys: Vec<DkgMessageKey> = Vec::new();
    let mut persistence: MessagePersistence = MessagePersistence::Durable;
    let mut i: usize = 0;
    while i < identities.len()
        invariant
            i <= identities@.len(),
            i == 0 ==> keys@.len() == 0,
            i > 0 ==> gathered(identities@.take(i as int)) == Ok::<
                (Seq<DkgMessageKey>, MessagePersistence),
                IdentityError,
            >((keys@, persistence)),
        decreases identities@.len() - i,
    {
        let ghost upto = identities@.take(i + 1);
        proof {
            assert(upto.drop_last() =~= identities@.take(i as int));
            assert(upto.last() == identities@[i as int]);
            assert(upto[0] == identities@[0]);
        }
        match &identities[i] {
            Some(identity) => {
                if i > 0 && identity.persistence != persistence {
                    proof {
                        lemma_early_refusal(identities@, i + 1);
                    }
                    return Err(IdentityError::InconsistentPersistence);
                }
                persistence = identity.persistence;
                let ghost before = keys@;
                append_slots(&mut keys, &identity.keys);
                assert(i == 0 ==> before + identity.keys@ =~= identity.keys@);
            },
            None => {
                proof {
                    lemma_early_refusal(identities@, i + 1);
                }
                return Err(IdentityError::Classification);
            },
        }
        i += 1;
    }
    assert(identities@.take(i as int) =~= identities@);
    if keys.len() == 0 {
        return Err(IdentityError::MessageId);
    }
    let sorted: Vec<DkgMessageKey> = sort_set(&keys);
    proof {
        assert(keys@.to_set().contains(keys@[0]));
        assert(sorted@.to_set().contains(keys@[0]));
    }
    match DkgMessageId::new(&sorted) {
        Some(message_id) => Ok(MessageIdentity { message_id, keys: sorted, persistence }),
        None => Err(IdentityError::MessageId),
    }
}

/// The messages of one session.
pub struct DkgMessageStore {
    store: MessageStore<PartyId, DkgMessageId, DkgMessageKey>,
    completions: OrderedMap<(DkgMessageId, PartyId), ()>,
}

/// What became of an outgoing message: it is delivered, or a slot of it is filled.
pub struct AcceptedOutgoing {
    pub message_id: DkgMessageId,
    pub accepted: bool,
}

/// A sent message of a recovery log, with what it is to each recipient.
pub struct LoggedOutgoing {
    pub record: OutgoingRecord<PartyId, DkgMessageId>,
    pub identities: Vec<Option<RecipientIdentity>>,
}

/// An accepted message of a recovery log, with its identity if it has one.
pub struct LoggedIncoming {
    pub record: IncomingRecord<PartyId, DkgMessageId>,
    pub identity: Option<MessageIdentity<DkgMessageId, DkgMessageKey>>,
}

/// The sent messages and the slots that they fill once a log is read: a message
/// counts if it is durable, has the identity that it is logged under, and fills
/// no slot that an earlier one fills.
pub open spec fn restored_outgoing(log: Seq<LoggedOutgoing>) -> (
    Map<DkgMessageId, Option<OutgoingView<PartyId, DkgMessageId>>>,
    Map<DkgMessageKey, DkgMessageId>,
)
    decreases log.len(),
{
    if log.len() == 0 {
        (Map::empty(), Map::empty())
    } else {
        let (messages, slots) = restored_outgoing(log.drop_last());
        let id = log.last().record.message_id;
        match outgoing_slots(log.last().identities@) {
            Ok((keys, MessagePersistence::Durable)) if id.keys() == keys && !any_filled(slots, keys)
                && !messages.contains_key(id) => (
                messages.insert(id, Some(log.last().record@)),
                fill_slots(slots, keys, id),
            ),
            _ => (messages, slots),
        }
    }
}

/// The accepted messages and the slots that they fill once a log is read.
pub open spec fn restored_incoming(log: Seq<LoggedIncoming>) -> (
    Map<DkgMessageId, IncomingView<PartyId, DkgMessageId>>,
    Map<DkgMessageKey, DkgMessageId>,
)
    decreases log.len(),
{
    if log.len() == 0 {
        (Map::empty(), Map::empty())
    } else {
        let (messages, slots) = restored_incoming(log.drop_last());
        let id = log.last().record.message_id;
        match log.last().identity {
            Some(identity) if identity.persistence == MessagePersistence::Durable
                && identity.message_id == id && !messages.contains_key(id) && !any_filled(
                slots,
                identity.keys@,
            ) => (
                messages.insert(id, log.last().record@),
                fill_slots(slots, identity.keys@, id),
            ),
            _ => (messages, slots),
        }
    }
}

impl DkgMessageStore {
    pub closed spec fn messages(self) -> MessageStore<PartyId, DkgMessageId, DkgMessageKey> {
        self.store
    }

    /// The deliveries that were completed.
    pub closed spec fn completed(self) -> Set<(DkgMessageId, PartyId)> {
        self.completions@.dom()
    }

    pub closed spec fn completions_wf(self) -> bool {
        self.completions.wf()
    }

    pub open spec fn wf(self) -> bool {
        self.messages().wf() && self.completions_wf()
    }

    pub fn new() -> (store: Self)
        ensures
            store.wf(),
            store.messages().incoming() == Map::<
                DkgMessageId,
                IncomingView<PartyId, DkgMessageId>,
            >::empty(),
            store.messages().incoming_slots() == Map::<DkgMessageKey, DkgMessageId>::empty(),
            store.messages().outgoing() == Map::<
                DkgMessageId,
                Option<OutgoingView<PartyId, DkgMessageId>>,
            >::empty(),
            store.messages().outgoing_slots() == Map::<DkgMessageKey, DkgMessageId>::empty(),
            store.completed() == Set::<(DkgMessageId, PartyId)>::empty(),
    {
        let store = DkgMessageStore { store: MessageStore::new(), completions: OrderedMap::new() };
        assert(store.completed() =~= Set::<(DkgMessageId, PartyId)>::empty());
        store
    }

    /// The store of a recovery log: what was sent, what was accepted, and which
    /// deliveries were completed. Messages that cannot be used are left out.
    pub fn load(
        outgoing: Vec<LoggedOutgoing>,
        incoming: Vec<LoggedIncoming>,
        completions: Vec<(DkgMessageId, PartyId)>,
    ) -> (store: Self)
        ensures
            store.wf(),
            store.completed() == completions@.to_set(),
            (store.messages().outgoing(), store.messages().outgoing_slots()) == restored_outgoing(
                outgoing@,
            ),
            (store.messages().incoming(), store.messages().incoming_slots()) == restored_incoming(
                incoming@,
            ),
    {
        let ghost sent = outgoing@;
        let ghost accepted = incoming@;
        let mut outgoing: Vec<LoggedOutgoing> = outgoing;
        let mut incoming: Vec<LoggedIncoming> = incoming;
        let mut store: DkgMessageStore = DkgMessageStore::new();
        assert(sent.take(0) =~= Seq::empty());
        assert(accepted.take(0) =~= Seq::empty());
        while outgoing.len() > 0
            invariant
                store.wf(),
                outgoing@.len() <= sent.len(),
                outgoing@ == sent.skip(sent.len() - outgoing@.len()),
                store.completed() == Set::<(DkgMessageId, PartyId)>::empty(),
                (store.messages().outgoing(), store.messages().outgoing_slots())
                    == restored_outgoing(sent.take(sent.len() - outgoing@.len())),
                (store.messages().incoming(), store.messages().incoming_slots())
                    == restored_incoming(accepted.take(0)),
            decreases outgoing@.len(),
        {
            let ghost done = sent.len() - outgoing@.len();
            let logged: LoggedOutgoing = outgoing.remove(0);
            proof {
                assert(logged == sent[done]);
                assert(outgoing@ =~= sent.skip(done + 1));
                assert(sent.take(done + 1).drop_last() =~= sent.take(done));
                assert(sent.take(done + 1).last() == logged);
            }
            let _ = store.load_outgoing(logged.record, &logged.identities);
        }
        assert(sent.take(sent.len() as int) =~= sent);
        while incoming.len() > 0
            invariant
                store.wf(),
                incoming@.len() <= accepted.len(),
                incoming@ == accepted.skip(accepted.len() - incoming@.len()),
                store.completed() == Set::<(DkgMessageId, PartyId)>::empty(),
                (store.messages().outgoing(), store.messages().outgoing_slots())
                    == restored_outgoing(sent),
                (store.messages().incoming(), store.messages().incoming_slots())
                    == restored_incoming(accepted.take(accepted.len() - incoming@.len())),
            decreases incoming@.len(),
        {
            let ghost done = accepted.len() - incoming@.len();
            let logged: LoggedIncoming = incoming.remove(0);
            proof {
                assert(logged == accepted[done]);
                assert(incoming@ =~= accepted.skip(done + 1));
                assert(accepted.take(done + 1).drop_last() =~= accepted.take(done));
                assert(accepted.take(done + 1).last() == logged);
            }
            match logged.identity {
                Some(identity) => {
                    let _ = store.load_incoming(logged.record, &identity);
                },
                None => {},
            }
        }
        assert(accepted.take(accepted.len() as int) =~= accepted);
        let ghost completed = completions@;
        let mut completions: Vec<(DkgMessageId, PartyId)> = completions;
        assert(completed.skip(0) =~= completed);
        assert(completed.take(0).to_set() =~= Set::<(DkgMessageId, PartyId)>::empty());
        while completions.len() > 0
            invariant
                store.wf(),
                completions@.len() <= completed.len(),
                completions@ == completed.skip(completed.len() - completions@.len()),
                store.completed() == completed.take(completed.len() - completions@.len()).to_set(),
                (store.messages().outgoing(), store.messages().outgoing_slots())
                    == restored_outgoing(sent),
                (store.messages().incoming(), store.messages().incoming_slots())
                    == restored_incoming(accepted),
            decreases completions@.len(),
        {
            let ghost done = completed.len() - completions@.len();
            let (message_id, target) = completions.remove(0);
            proof {
                assert((message_id, target) == completed[done]);
                assert(completions@ =~= completed.skip(done + 1));
                let upto = completed.take(done + 1);
                assert(upto =~= completed.take(done).push(completed[done]));
                assert(upto.to_set() =~= completed.take(done).to_set().insert(completed[done])) by {
                    assert forall|pair: (DkgMessageId, PartyId)|
                        upto.contains(pair) <==> completed.take(done).contains(pair) || pair
                            == completed[done] by {
                        if completed.take(done).contains(pair) {
                            let j = choose|j: int| 0 <= j < done && completed.take(done)[j] == pair;
                            assert(upto[j] == pair);
                        }
                        if pair == completed[done] {
                            assert(upto[done] == pair);
                        }
                    }
                }
            }
            store.load_completion(message_id, target);
        }
        assert(completed.take(completed.len() as int) =~= completed);
        store
    }

    /// Takes a sent message of the recovery log, unless it has no identity, is not
    /// durable, has another identity, or is there already. Returns whether it was
    /// taken.
    pub fn load_outgoing(
        &mut self,
        record: OutgoingRecord<PartyId, DkgMessageId>,
        identities: &Vec<Option<RecipientIdentity>>,
    ) -> (loaded: bool)
        requires
            old(self).wf(),
        ensures
            final(self).wf(),
            final(self).completed() == old(self).completed(),
            final(self).messages().same_incoming(old(self).messages()),
            match outgoing_slots(identities@) {
                Err(_) => !loaded && final(self).messages().same_outgoing(old(self).messages()),
                Ok((keys, persistence)) => {
                    &&& loaded == (persistence == MessagePersistence::Durable
                        && record.message_id.keys() == keys && !any_filled(
                        old(self).messages().outgoing_slots(),
                        keys,
                    ) && !old(self).messages().outgoing().contains_key(record.message_id))
                    &&& if loaded {
                        &&& final(self).messages().outgoing() == old(
                            self,
                        ).messages().outgoing().insert(record.message_id, Some(record@))
                        &&& final(self).messages().outgoing_slots() == fill_slots(
                            old(self).messages().outgoing_slots(),
                            keys,
                            record.message_id,
                        )
                    } else {
                        final(self).messages().same_outgoing(old(self).messages())
                    }
                },
            },
    {
        match outgoing_identity(identities) {
            Ok(identity) => {
                proof {
                    if identity.message_id.keys() == record.message_id.keys() {
                        crate::dkg::envelope::law_slots_determine_the_message(
                            identity.message_id,
                            record.message_id,
                        );
                    }
                }
                self.store.restore_outgoing(record, &identity)
            },
            Err(_) => false,
        }
    }

    /// Takes an accepted message of the recovery log, unless it is not durable,
    /// has another identity, or fills a slot that is filled. Returns whether it
    /// was taken.
    pub fn load_incoming(
        &mut self,
        record: IncomingRecord<PartyId, DkgMessageId>,
        identity: &MessageIdentity<DkgMessageId, DkgMessageKey>,
    ) -> (loaded: bool)
        requires
            old(self).wf(),
        ensures
            final(self).wf(),
            final(self).completed() == old(self).completed(),
            final(self).messages().same_outgoing(old(self).messages()),
            loaded == old(self).messages().restorable_incoming(record@, *identity),
            if loaded {
                &&& final(self).messages().incoming() == old(self).messages().incoming().insert(
                    record.message_id,
                    record@,
                )
                &&& final(self).messages().incoming_slots() == fill_slots(
                    old(self).messages().incoming_slots(),
                    identity.keys@,
                    record.message_id,
                )
            } else {
                final(self).messages().same_incoming(old(self).messages())
            },
    {
        self.store.restore_incoming(record, identity)
    }

    /// What the store knows about an incoming message.
    pub fn incoming_status(
        &self,
        record: &IncomingRecord<PartyId, DkgMessageId>,
        identity: &MessageIdentity<DkgMessageId, DkgMessageKey>,
    ) -> (status: IncomingStatus)
        requires
            self.wf(),
        ensures
            status == self.messages().status(record@, *identity),
    {
        self.store.incoming_status(record, identity)
    }

    /// Accepts an incoming message. `journal` is the outcome of writing its
    /// record; it counts only for a new durable message.
    pub fn accept_incoming<E>(
        &mut self,
        record: IncomingRecord<PartyId, DkgMessageId>,
        identity: &MessageIdentity<DkgMessageId, DkgMessageKey>,
        journal: Result<(), E>,
    ) -> (result: Result<IncomingStatus, StoreError<E>>)
        requires
            old(self).wf(),
        ensures
            final(self).wf(),
            final(self).completed() == old(self).completed(),
            final(self).messages().same_outgoing(old(self).messages()),
            ({
                let status = old(self).messages().status(record@, *identity);
                if status != IncomingStatus::New || identity.persistence != MessagePersistence::Durable {
                    &&& result == Ok::<IncomingStatus, StoreError<E>>(status)
                    &&& final(self).messages().same_incoming(old(self).messages())
                } else {
                    match journal {
                        Err(error) => {
                            &&& result == Err::<IncomingStatus, _>(
                                StoreError::<E>::Reliable(MessageStoreError::Journal(error)),
                            )
                            &&& final(self).messages().same_incoming(old(self).messages())
                        },
                        Ok(()) => {
                            &&& result == Ok::<IncomingStatus, StoreError<E>>(IncomingStatus::New)
                            &&& final(self).messages().incoming() == old(
                                self,
                            ).messages().incoming().insert(record.message_id, record@)
                            &&& final(self).messages().incoming_slots() == fill_slots(
                                old(self).messages().incoming_slots(),
                                identity.keys@,
                                record.message_id,
                            )
                        },
                    }
                }
            }),
    {
        match self.store.accept_incoming(record, identity, journal) {
            Ok(status) => Ok(status),
            Err(error) => Err(StoreError::Reliable(error)),
        }
    }

    /// Accepts a message for `recipients`, in ascending order, with what it is to
    /// each of them. `journal` is the outcome of writing its record; it counts
    /// only where the message is durable and new. A message whose slots are filled
    /// is not sent again.
    pub fn accept_outgoing<E>(
        &mut self,
        recipients: Vec<PartyId>,
        identities: &Vec<Option<RecipientIdentity>>,
        payload: Vec<u8>,
        journal: Result<(), E>,
    ) -> (result: Result<AcceptedOutgoing, StoreError<E>>)
        requires
            old(self).wf(),
        ensures
            final(self).wf(),
            accepts_outgoing(
                *old(self),
                *final(self),
                recipients@,
                identities@,
                payload@,
                journal,
                result,
            ),
    {
        let identity: MessageIdentity<DkgMessageId, DkgMessageKey> = match outgoing_identity(
            identities,
        ) {
            Ok(identity) => identity,
            Err(error) => {
                return Err(StoreError::Identity(error));
            },
        };
        if identity.persistence == MessagePersistence::Ephemeral && (recipients.len() != 1
            || identity.keys.len() != 1) {
            return Err(StoreError::RetrievalMustBeUnicast);
        }
        let message_id: DkgMessageId = identity.message_id.duplicate();
        let ghost own = message_id;
        assert(own.keys() == outgoing_slots(identities@)->Ok_0.0);
        let record = OutgoingRecord { message_id: message_id.duplicate(), recipients, payload };
        match self.store.accept_outgoing(record, &identity, journal) {
            Ok(accepted) => Ok(AcceptedOutgoing { message_id, accepted }),
            Err(error) => Err(StoreError::Reliable(error)),
        }
    }

    /// Whether a message has to be in the recovery log before it is accepted.
    pub fn must_journal_outgoing(&self, identities: &Vec<Option<RecipientIdentity>>) -> (needed: bool)
        requires
            self.wf(),
        ensures
            needed == needs_record(self.messages(), identities@),
    {
        match outgoing_identity(identities) {
            Ok(identity) => {
                let record = OutgoingRecord {
                    message_id: identity.message_id.duplicate(),
                    recipients: Vec::new(),
                    payload: Vec::new(),
                };
                proof {
                    let keys = outgoing_slots(identities@)->Ok_0.0;
                    assert(identity.message_id.keys() == keys);
                    if exists|id: DkgMessageId| #[trigger]
                        self.messages().outgoing().contains_key(id) && id.keys() == keys {
                        let id = choose|id: DkgMessageId| #[trigger]
                            self.messages().outgoing().contains_key(id) && id.keys() == keys;
                        crate::dkg::envelope::law_slots_determine_the_message(id, identity.message_id);
                    }
                }
                self.store.must_journal_outgoing(&record, &identity)
            },
            Err(_) => false,
        }
    }

    /// The message that fills the slot of `key`, where it is news that `target` has
    /// it: that has to be in the recovery log before it is noted.
    pub fn must_journal_completion(&self, key: &DkgMessageKey, target: PartyId) -> (news: Option<
        DkgMessageId,
    >)
        requires
            self.wf(),
        ensures
            news == completion_news(*self, *key, target),
    {
        let id: DkgMessageId = match self.store.outgoing_message(key) {
            Some(id) => id,
            None => {
                return None;
            },
        };
        if self.completions.contains_key(&(id.duplicate(), target)) {
            return None;
        }
        Some(id)
    }

    /// Notes that `target` has the message that fills the slot of `key`. Returns
    /// the message where that is news. `journal` is the outcome of writing the
    /// completion; it counts only for news.
    pub fn complete_key<E>(&mut self, key: &DkgMessageKey, target: PartyId, journal: Result<(), E>) -> (result:
        Result<Option<DkgMessageId>, E>)
        requires
            old(self).wf(),
        ensures
            final(self).wf(),
            final(self).messages() == old(self).messages(),
            match completion_news(*old(self), *key, target) {
                Some(id) => match journal {
                    Ok(()) => {
                        &&& result == Ok::<Option<DkgMessageId>, E>(Some(id))
                        &&& final(self).completed() == old(self).completed().insert((id, target))
                    },
                    Err(error) => {
                        &&& result == Err::<Option<DkgMessageId>, E>(error)
                        &&& *final(self) == *old(self)
                    },
                },
                None => {
                    &&& result == Ok::<Option<DkgMessageId>, E>(None)
                    &&& *final(self) == *old(self)
                },
            },
    {
        match self.must_journal_completion(key, target) {
            Some(id) => match journal {
                Ok(()) => {
                    self.load_completion(id.duplicate(), target);
                    Ok(Some(id))
                },
                Err(error) => Err(error),
            },
            None => Ok(None),
        }
    }

    /// Whether `target` has a message.
    pub fn is_complete(&self, message_id: &DkgMessageId, target: PartyId) -> (complete: bool)
        requires
            self.wf(),
        ensures
            complete == self.completed().contains((*message_id, target)),
    {
        self.completions.contains_key(&(message_id.duplicate(), target))
    }

    /// Notes that `target` has a message.
    fn load_completion(&mut self, message_id: DkgMessageId, target: PartyId)
        requires
            old(self).wf(),
        ensures
            final(self).wf(),
            final(self).messages() == old(self).messages(),
            final(self).completed() == old(self).completed().insert((message_id, target)),
    {
        let ghost before = self.completed();
        self.completions.insert((message_id, target), ());
        assert(self.completed() =~= before.insert((message_id, target)));
    }

    /// Forgets what does not survive a restart.
    pub fn clear_ephemeral(&mut self)
        requires
            old(self).wf(),
        ensures
            final(self).wf(),
            final(self).completed() == old(self).completed(),
            final(self).messages().same_incoming(old(self).messages()),
            final(self).messages().outgoing() == old(self).messages().outgoing().restrict(
                Set::new(
                    |id: DkgMessageId|
                        old(self).messages().outgoing().contains_key(id)
                            && old(self).messages().outgoing()[id] is Some,
                ),
            ),
            final(self).messages().outgoing_slots() == old(self).messages().outgoing_slots().restrict(
                Set::new(
                    |key: DkgMessageKey|
                        old(self).messages().outgoing_slots().contains_key(key) && old(
                            self,
                        ).messages().outgoing()[old(self).messages().outgoing_slots()[key]] is Some,
                ),
            ),
    {
        self.store.clear_ephemeral();
    }

    /// The number of accepted messages.
    pub fn incoming_count(&self) -> (count: usize)
        requires
            self.wf(),
        ensures
            self.messages().incoming().dom().finite(),
            count == self.messages().incoming().dom().len(),
    {
        self.store.incoming_count()
    }

    /// The accepted messages, in the order of their identifiers.
    pub fn incoming_records(&self) -> (records: Vec<IncomingRecord<PartyId, DkgMessageId>>)
        requires
            self.wf(),
        ensures
            exists|ids: Seq<DkgMessageId>| {
                &&& #[trigger] ascending(ids)
                &&& ids.to_set() == self.messages().incoming().dom()
                &&& records@.len() == ids.len()
                &&& forall|i: int|
                    0 <= i < ids.len() ==> (#[trigger] records@[i])@ == self.messages().incoming()[ids[i]]
            },
    {
        self.store.incoming_records()
    }

    /// The durable messages that were sent, in the order of their identifiers.
    pub fn outgoing_records(&self) -> (records: Vec<OutgoingRecord<PartyId, DkgMessageId>>)
        requires
            self.wf(),
        ensures
            exists|ids: Seq<DkgMessageId>| {
                &&& #[trigger] ascending(ids)
                &&& forall|id: DkgMessageId| #[trigger]
                    ids.contains(id) <==> self.messages().outgoing().contains_key(id)
                        && self.messages().outgoing()[id] is Some
                &&& records@.len() == ids.len()
                &&& forall|i: int|
                    0 <= i < ids.len() ==> Some((#[trigger] records@[i])@)
                        == self.messages().outgoing()[ids[i]]
            },
    {
        self.store.outgoing_records()
    }
}

/// The message that fills a slot, where it is news that `target` has it.
pub open spec fn completion_news(store: DkgMessageStore, key: DkgMessageKey, target: PartyId) -> Option<
    DkgMessageId,
> {
    let slots = store.messages().outgoing_slots();
    if slots.contains_key(key) && !store.completed().contains((slots[key], target)) {
        Some(slots[key])
    } else {
        None
    }
}

/// Whether a message is durable and new: none of its slots is filled.
pub open spec fn needs_record(
    messages: MessageStore<PartyId, DkgMessageId, DkgMessageKey>,
    identities: Seq<Option<RecipientIdentity>>,
) -> bool {
    match outgoing_slots(identities) {
        Ok((keys, persistence)) => persistence == MessagePersistence::Durable && !any_filled(
            messages.outgoing_slots(),
            keys,
        ) && !exists|id: DkgMessageId| #[trigger]
            messages.outgoing().contains_key(id) && id.keys() == keys,
        Err(_) => false,
    }
}

/// What becomes of an outgoing message with an identity.
pub open spec fn accepts<E>(
    before: MessageStore<PartyId, DkgMessageId, DkgMessageKey>,
    after: MessageStore<PartyId, DkgMessageId, DkgMessageKey>,
    record: OutgoingView<PartyId, DkgMessageId>,
    keys: Seq<DkgMessageKey>,
    persistence: MessagePersistence,
    journal: Result<(), E>,
    result: Result<AcceptedOutgoing, StoreError<E>>,
) -> bool {
    let id = record.message_id;
    let durable = persistence == MessagePersistence::Durable;
    if any_filled(before.outgoing_slots(), keys) {
        &&& result == Ok::<AcceptedOutgoing, StoreError<E>>(
            AcceptedOutgoing { message_id: id, accepted: false },
        )
        &&& after.same_outgoing(before)
    } else if before.outgoing().contains_key(id) {
        &&& result == Err::<AcceptedOutgoing, _>(
            StoreError::<E>::Reliable(MessageStoreError::MessageIdCollision(id)),
        )
        &&& after.same_outgoing(before)
    } else if durable && journal is Err {
        &&& result == Err::<AcceptedOutgoing, _>(
            StoreError::<E>::Reliable(MessageStoreError::Journal(journal->Err_0)),
        )
        &&& after.same_outgoing(before)
    } else {
        &&& result == Ok::<AcceptedOutgoing, StoreError<E>>(
            AcceptedOutgoing { message_id: id, accepted: true },
        )
        &&& after.outgoing() == before.outgoing().insert(
            id,
            if durable {
                Some(record)
            } else {
                None
            },
        )
        &&& after.outgoing_slots() == fill_slots(before.outgoing_slots(), keys, id)
    }
}

/// What becomes of an outgoing message.
pub open spec fn accepts_outgoing<E>(
    before: DkgMessageStore,
    after: DkgMessageStore,
    recipients: Seq<PartyId>,
    identities: Seq<Option<RecipientIdentity>>,
    payload: Seq<u8>,
    journal: Result<(), E>,
    result: Result<AcceptedOutgoing, StoreError<E>>,
) -> bool {
    &&& after.completed() == before.completed()
    &&& after.messages().same_incoming(before.messages())
    &&& match outgoing_slots(identities) {
        Err(error) => {
            &&& result == Err::<AcceptedOutgoing, _>(StoreError::<E>::Identity(error))
            &&& after.messages().same_outgoing(before.messages())
        },
        Ok((keys, persistence)) => if persistence == MessagePersistence::Ephemeral && (recipients.len()
            != 1 || keys.len() != 1) {
            &&& result == Err::<AcceptedOutgoing, _>(StoreError::<E>::RetrievalMustBeUnicast)
            &&& after.messages().same_outgoing(before.messages())
        } else {
            exists|id: DkgMessageId| #[trigger]
                id.keys() == keys && accepts(
                    before.messages(),
                    after.messages(),
                    OutgoingView { message_id: id, recipients, payload },
                    keys,
                    persistence,
                    journal,
                    result,
                )
        },
    }
}

/// A message that the transport acknowledges fills this many slots.
#[derive(Clone, Copy, Debug, PartialEq, Eq, Structural)]
pub struct TransportAckKeyCount {
    pub actual: usize,
}

/// The slot by which the transport acknowledges a message, if it does.
pub fn transport_ack_key(keys: &Vec<DkgMessageKey>, requires_transport_ack: bool) -> (result: Result<
    Option<DkgMessageKey>,
    TransportAckKeyCount,
>)
    ensures
        result == (if !requires_transport_ack {
            Ok::<Option<DkgMessageKey>, TransportAckKeyCount>(None)
        } else if keys@.len() == 1 {
            Ok(Some(keys@[0]))
        } else {
            Err(TransportAckKeyCount { actual: keys@.len() as usize })
        }),
{
    if !requires_transport_ack {
        return Ok(None);
    }
    if keys.len() == 1 {
        Ok(Some(keys[0]))
    } else {
        Err(TransportAckKeyCount { actual: keys.len() })
    }
}

/// A message that was sent is not sent again, nor is another one for one of its
/// slots.
pub proof fn law_sent_slot_stays_filled<E>(
    before: MessageStore<PartyId, DkgMessageId, DkgMessageKey>,
    sent: MessageStore<PartyId, DkgMessageId, DkgMessageKey>,
    after: MessageStore<PartyId, DkgMessageId, DkgMessageKey>,
    first: OutgoingView<PartyId, DkgMessageId>,
    second: OutgoingView<PartyId, DkgMessageId>,
    first_keys: Seq<DkgMessageKey>,
    second_keys: Seq<DkgMessageKey>,
    persistence: MessagePersistence,
    second_persistence: MessagePersistence,
    journal: Result<(), E>,
    second_journal: Result<(), E>,
    first_result: Result<AcceptedOutgoing, StoreError<E>>,
    result: Result<AcceptedOutgoing, StoreError<E>>,
    shared: DkgMessageKey,
)
    requires
        accepts(before, sent, first, first_keys, persistence, journal, first_result),
        first_result matches Ok(outcome) && outcome.accepted,
        first_keys.contains(shared),
        second_keys.contains(shared),
        accepts(sent, after, second, second_keys, second_persistence, second_journal, result),
    ensures
        result matches Ok(outcome) && !outcome.accepted,
        after.same_outgoing(sent),
{
    let i = choose|i: int| 0 <= i < second_keys.len() && second_keys[i] == shared;
    assert(sent.outgoing_slots().contains_key(second_keys[i]));
}

/// An outgoing message has an identity exactly where it has recipients, each of them
/// is classified, all of them agree on whether it is logged, and it fills a slot.
pub proof fn law_identity_needs_agreeing_recipients(identities: Seq<Option<RecipientIdentity>>, i: int)
    requires
        outgoing_slots(identities) is Ok,
        0 <= i < identities.len(),
    ensures
        identities[i] is Some,
        identities[i]->Some_0.persistence == outgoing_slots(identities)->Ok_0.1,
        ascending(outgoing_slots(identities)->Ok_0.0),
        outgoing_slots(identities)->Ok_0.0.len() > 0,
        forall|key: DkgMessageKey| #[trigger]
            identities[i]->Some_0.keys@.contains(key) ==> outgoing_slots(identities)->Ok_0.0.contains(
                key,
            ),
{
    let keys = gathered(identities)->Ok_0.0;
    lemma_gathered(identities, i);
    crate::ordered_map::lemma_sorted_set(keys);
    assert forall|key: DkgMessageKey| #[trigger] identities[i]->Some_0.keys@.contains(key) implies sorted_set(
        keys,
    ).contains(key) by {
        assert(keys.to_set().contains(key));
        assert(sorted_set(keys).to_set().contains(key));
    }
    assert(keys.to_set().contains(keys[0]));
    assert(sorted_set(keys).to_set().contains(keys[0]));
}

proof fn lemma_gathered(identities: Seq<Option<RecipientIdentity>>, i: int)
    requires
        gathered(identities) is Ok,
        0 <= i < identities.len(),
    ensures
        identities[i] is Some,
        identities[i]->Some_0.persistence == gathered(identities)->Ok_0.1,
        forall|key: DkgMessageKey| #[trigger]
            identities[i]->Some_0.keys@.contains(key) ==> gathered(identities)->Ok_0.0.contains(key),
    decreases identities.len(),
{
    if identities.len() > 1 {
        let fewer = identities.drop_last();
        let whole = gathered(identities)->Ok_0.0;
        let earlier = gathered(fewer)->Ok_0.0;
        if i < fewer.len() {
            lemma_gathered(fewer, i);
            assert(fewer[i] == identities[i]);
            assert forall|key: DkgMessageKey| #[trigger] identities[i]->Some_0.keys@.contains(
                key,
            ) implies whole.contains(key) by {
                let k = choose|k: int| 0 <= k < earlier.len() && earlier[k] == key;
                assert(whole[k] == key);
            }
        } else {
            let more = identities.last()->Some_0.keys@;
            assert forall|key: DkgMessageKey| #[trigger] identities[i]->Some_0.keys@.contains(
                key,
            ) implies whole.contains(key) by {
                let k = choose|k: int| 0 <= k < more.len() && more[k] == key;
                assert(whole[earlier.len() + k] == key);
            }
        }
    }
}

/// A delivery is news exactly where its slot was sent and it is not yet known to be
/// complete for that recipient; the news names the message in the slot.
pub proof fn law_completion_is_news_once(store: DkgMessageStore, key: DkgMessageKey, target: PartyId)
    ensures
        completion_news(store, key, target) is Some <==> store.messages().outgoing_slots().contains_key(
            key,
        ) && !store.completed().contains((store.messages().outgoing_slots()[key], target)),
        completion_news(store, key, target) matches Some(id) ==> id
            == store.messages().outgoing_slots()[key],
{
}

/// A message that is accepted fills its slots with itself and is kept for the log
/// exactly where it is logged; nothing that was sent before is forgotten.
pub proof fn law_accepted_message_fills_its_slots<E>(
    before: MessageStore<PartyId, DkgMessageId, DkgMessageKey>,
    after: MessageStore<PartyId, DkgMessageId, DkgMessageKey>,
    record: OutgoingView<PartyId, DkgMessageId>,
    keys: Seq<DkgMessageKey>,
    persistence: MessagePersistence,
    journal: Result<(), E>,
    result: Result<AcceptedOutgoing, StoreError<E>>,
    key: DkgMessageKey,
)
    requires
        accepts(before, after, record, keys, persistence, journal, result),
    ensures
        ({
            let open = !any_filled(before.outgoing_slots(), keys);
            let known = before.outgoing().contains_key(record.message_id);
            let logged = persistence == MessagePersistence::Ephemeral || journal is Ok;
            let sent = open && !known && logged;
            &&& result matches Ok(outcome) ==> outcome.message_id == record.message_id
                && outcome.accepted == sent
            &&& result is Err <==> open && (known || !logged)
            &&& after.outgoing_slots().contains_key(key) <==> before.outgoing_slots().contains_key(key)
                || (sent && keys.contains(key))
            &&& sent && keys.contains(key) ==> after.outgoing_slots()[key] == record.message_id
            &&& sent ==> after.outgoing().contains_key(record.message_id) && (
            after.outgoing()[record.message_id] is Some <==> persistence == MessagePersistence::Durable)
            &&& sent && persistence == MessagePersistence::Durable
                ==> after.outgoing()[record.message_id] == Some(record)
        }),
{
}

/// A retrieval request is sent to one party and fills one slot; a message that is
/// logged may go to many.
pub proof fn law_unlogged_messages_are_unicast<E>(
    before: DkgMessageStore,
    after: DkgMessageStore,
    recipients: Seq<PartyId>,
    identities: Seq<Option<RecipientIdentity>>,
    payload: Seq<u8>,
    journal: Result<(), E>,
    result: Result<AcceptedOutgoing, StoreError<E>>,
)
    requires
        accepts_outgoing(before, after, recipients, identities, payload, journal, result),
        outgoing_slots(identities) is Ok,
    ensures
        result matches Err(StoreError::RetrievalMustBeUnicast) <==> outgoing_slots(identities)->Ok_0.1
            == MessagePersistence::Ephemeral && (recipients.len() != 1 || outgoing_slots(
            identities,
        )->Ok_0.0.len() != 1),
        after.completed() == before.completed(),
        after.messages().incoming() == before.messages().incoming(),
{
}

/// A message of the log is loaded into the store where its slots are open: loading
/// a log whose messages fill different slots forgets none of them.
pub proof fn law_logged_messages_are_loaded(log: Seq<LoggedIncoming>, i: int)
    requires
        0 <= i < log.len(),
        forall|k: int|
            0 <= k < log.len() ==> ((#[trigger] log[k]).identity matches Some(identity)
                && identity.persistence == MessagePersistence::Durable && identity.message_id
                == log[k].record.message_id && identity.keys@.len() > 0),
        forall|j: int, k: int, key: DkgMessageKey|
            0 <= j < k < log.len() && #[trigger] log[j].identity->Some_0.keys@.contains(key)
                ==> !(#[trigger] log[k].identity->Some_0.keys@.contains(key)),
        forall|j: int, k: int|
            0 <= j < k < log.len() ==> (#[trigger] log[j]).record.message_id != (
            #[trigger] log[k]).record.message_id,
    ensures
        restored_incoming(log).0.contains_key(log[i].record.message_id),
        restored_incoming(log).0[log[i].record.message_id] == log[i].record@,
        forall|key: DkgMessageKey| #[trigger]
            log[i].identity->Some_0.keys@.contains(key) ==> restored_incoming(log).1.contains_key(key)
                && restored_incoming(log).1[key] == log[i].record.message_id,
    decreases log.len(),
{
    let fewer = log.drop_last();
    let last = log.len() - 1;
    assert(log[last] == log.last());
    assert forall|k: int| 0 <= k < fewer.len() implies ((#[trigger] fewer[k]).identity matches Some(
        identity,
    ) && identity.persistence == MessagePersistence::Durable && identity.message_id
        == fewer[k].record.message_id && identity.keys@.len() > 0) by {
        assert(fewer[k] == log[k]);
    }
    assert forall|j: int, k: int, key: DkgMessageKey|
        0 <= j < k < fewer.len() && #[trigger] fewer[j].identity->Some_0.keys@.contains(key) implies !(
    #[trigger] fewer[k].identity->Some_0.keys@.contains(key)) by {
        assert(log[j].identity->Some_0.keys@.contains(key));
        assert(fewer[j] == log[j] && fewer[k] == log[k]);
    }
    assert forall|j: int, k: int| 0 <= j < k < fewer.len() implies (#[trigger] fewer[j]).record.message_id != (
    #[trigger] fewer[k]).record.message_id by {
        assert(fewer[j] == log[j] && fewer[k] == log[k]);
    }
    let (messages, slots) = restored_incoming(fewer);
    lemma_loaded_slots(fewer);
    let own = log.last().identity->Some_0.keys@;
    assert(!any_filled(slots, own)) by {
        if any_filled(slots, own) {
            let p = choose|p: int| 0 <= p < own.len() && slots.contains_key(#[trigger] own[p]);
            let j = choose|j: int|
                0 <= j < fewer.len() && (#[trigger] fewer[j]).identity is Some
                    && fewer[j].identity->Some_0.keys@.contains(own[p]);
            assert(log[j].identity->Some_0.keys@.contains(own[p]));
            assert(log[last].identity->Some_0.keys@.contains(own[p]));
        }
    }
    assert(!messages.contains_key(log.last().record.message_id)) by {
        if messages.contains_key(log.last().record.message_id) {
            let j = choose|j: int|
                0 <= j < fewer.len() && (#[trigger] fewer[j]).record.message_id
                    == log.last().record.message_id;
            assert(fewer[j] == log[j]);
        }
    }
    if i < last {
        assert(fewer[i] == log[i]);
        law_logged_messages_are_loaded(fewer, i);
        assert forall|key: DkgMessageKey| #[trigger]
            log[i].identity->Some_0.keys@.contains(key) implies restored_incoming(log).1.contains_key(key)
            && restored_incoming(log).1[key] == log[i].record.message_id by {
            assert(fewer[i].identity->Some_0.keys@.contains(key));
            assert(!log[last].identity->Some_0.keys@.contains(key));
        }
    }
}

proof fn lemma_loaded_slots(log: Seq<LoggedIncoming>)
    ensures
        forall|key: DkgMessageKey| #[trigger]
            restored_incoming(log).1.contains_key(key) ==> exists|j: int|
                0 <= j < log.len() && (#[trigger] log[j]).identity is Some
                    && log[j].identity->Some_0.keys@.contains(key),
        forall|id: DkgMessageId| #[trigger]
            restored_incoming(log).0.contains_key(id) ==> exists|j: int|
                0 <= j < log.len() && (#[trigger] log[j]).record.message_id == id,
    decreases log.len(),
{
    if log.len() > 0 {
        let fewer = log.drop_last();
        let last = log.len() - 1;
        lemma_loaded_slots(fewer);
        assert(log[last] == log.last());
        assert forall|key: DkgMessageKey| #[trigger]
            restored_incoming(log).1.contains_key(key) implies exists|j: int|
            0 <= j < log.len() && (#[trigger] log[j]).identity is Some
                && log[j].identity->Some_0.keys@.contains(key) by {
            if restored_incoming(fewer).1.contains_key(key) {
                let j = choose|j: int|
                    0 <= j < fewer.len() && (#[trigger] fewer[j]).identity is Some
                        && fewer[j].identity->Some_0.keys@.contains(key);
                assert(log[j] == fewer[j]);
            } else {
                assert(log[last].identity->Some_0.keys@.contains(key));
            }
        }
        assert forall|id: DkgMessageId| #[trigger]
            restored_incoming(log).0.contains_key(id) implies exists|j: int|
            0 <= j < log.len() && (#[trigger] log[j]).record.message_id == id by {
            if restored_incoming(fewer).0.contains_key(id) {
                let j = choose|j: int|
                    0 <= j < fewer.len() && (#[trigger] fewer[j]).record.message_id == id;
                assert(log[j] == fewer[j]);
            } else {
                assert(log[last].record.message_id == id);
            }
        }
    }
}

/// A message of the log whose slots an earlier one fills, or that is not durable, is
/// not loaded.
pub proof fn law_taken_slots_are_not_loaded_again(outgoing: Seq<LoggedOutgoing>, incoming: Seq<LoggedIncoming>)
    ensures
        incoming.len() > 0 && (incoming.last().identity is None
            || incoming.last().identity->Some_0.persistence == MessagePersistence::Ephemeral || any_filled(
            restored_incoming(incoming.drop_last()).1,
            incoming.last().identity->Some_0.keys@,
        )) ==> restored_incoming(incoming) == restored_incoming(incoming.drop_last()),
        outgoing.len() > 0 && (outgoing_slots(outgoing.last().identities@) is Err || outgoing_slots(
            outgoing.last().identities@,
        )->Ok_0.1 == MessagePersistence::Ephemeral || any_filled(
            restored_outgoing(outgoing.drop_last()).1,
            outgoing_slots(outgoing.last().identities@)->Ok_0.0,
        )) ==> restored_outgoing(outgoing) == restored_outgoing(outgoing.drop_last()),
        outgoing.len() > 0 && outgoing_slots(outgoing.last().identities@) is Ok && outgoing_slots(
            outgoing.last().identities@,
        )->Ok_0.1 == MessagePersistence::Durable && outgoing.last().record.message_id.keys()
            == outgoing_slots(outgoing.last().identities@)->Ok_0.0 && !any_filled(
            restored_outgoing(outgoing.drop_last()).1,
            outgoing_slots(outgoing.last().identities@)->Ok_0.0,
        ) && !restored_outgoing(outgoing.drop_last()).0.contains_key(outgoing.last().record.message_id) ==> {
            let id = outgoing.last().record.message_id;
            &&& restored_outgoing(outgoing).0.contains_key(id)
            &&& restored_outgoing(outgoing).0[id] == Some(outgoing.last().record@)
            &&& forall|key: DkgMessageKey| #[trigger]
                id.keys().contains(key) ==> restored_outgoing(outgoing).1.contains_key(key)
                    && restored_outgoing(outgoing).1[key] == id
        },
{
}

/// An outgoing message leaves what was accepted and what was completed as it is. It is
/// new, known already, or refused, and only a new one is stored: under its identity,
/// and with its record where it is durable.
pub proof fn law_outgoing_message_has_one_fate(
    before: DkgMessageStore,
    after: DkgMessageStore,
    recipients: Seq<PartyId>,
    identities: Seq<Option<RecipientIdentity>>,
    payload: Seq<u8>,
    journal: Result<(), ()>,
    result: Result<AcceptedOutgoing, StoreError<()>>,
    other: DkgMessageId,
)
    requires
        accepts_outgoing(before, after, recipients, identities, payload, journal, result),
    ensures
        after.completed() == before.completed(),
        after.messages().incoming() == before.messages().incoming(),
        after.messages().incoming_slots() == before.messages().incoming_slots(),
        outgoing_slots(identities) is Err ==> result == Err::<AcceptedOutgoing, _>(
            StoreError::<()>::Identity(outgoing_slots(identities)->Err_0),
        ),
        result is Err || !result->Ok_0.accepted ==> after.messages().outgoing()
            == before.messages().outgoing() && after.messages().outgoing_slots()
            == before.messages().outgoing_slots(),
        result is Ok ==> outgoing_slots(identities) is Ok && result->Ok_0.message_id.keys()
            == outgoing_slots(identities)->Ok_0.0,
        result is Ok ==> (!result->Ok_0.accepted <==> any_filled(
            before.messages().outgoing_slots(),
            outgoing_slots(identities)->Ok_0.0,
        )),
        result is Ok && result->Ok_0.accepted ==> {
            let id = result->Ok_0.message_id;
            let durable = outgoing_slots(identities)->Ok_0.1 == MessagePersistence::Durable;
            &&& !before.messages().outgoing().contains_key(id)
            &&& after.messages().outgoing().contains_key(id)
            &&& after.messages().outgoing()[id] == (if durable {
                Some(OutgoingView { message_id: id, recipients, payload })
            } else {
                None
            })
            &&& durable ==> journal is Ok
            &&& other != id ==> (after.messages().outgoing().contains_key(other)
                <==> before.messages().outgoing().contains_key(other))
        },
{
    if outgoing_slots(identities) is Ok {
        let (keys, persistence) = outgoing_slots(identities)->Ok_0;
        if !(persistence == MessagePersistence::Ephemeral && (recipients.len() != 1 || keys.len()
            != 1)) {
            let id = choose|id: DkgMessageId| #[trigger]
                id.keys() == keys && accepts(
                    before.messages(),
                    after.messages(),
                    OutgoingView { message_id: id, recipients, payload },
                    keys,
                    persistence,
                    journal,
                    result,
                );
            assert(id.keys() == keys);
        }
    }
}

} // verus!
