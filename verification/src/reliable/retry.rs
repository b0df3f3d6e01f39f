//! Retry scheduling.
//!
//! [`RetryScheduler`] resends messages until protocol evidence makes them
//! obsolete. Persistence, wire framing, and peer authentication remain
//! protocol concerns. Times are nanoseconds on one monotonic clock.

use crate::octets::{copy_bytes, same_bytes};
use crate::order::{ascending, Key, Rank};
use crate::ordered_map::{lemma_entries, sort_set, OrderedMap};
use vstd::prelude::*;

verus! {

pub const NANOS_PER_MILLI: u64 = 1_000_000;

/// Decides which messages a piece of evidence makes pointless to resend.
pub trait ObsolescencePolicy {
    type Scope: Key;

    type Evidence: Key;

    /// Whether `evidence` makes messages of `scope` obsolete.
    spec fn obsoletes(scope: Self::Scope, evidence: Self::Evidence) -> bool;

    fn obsolete(scope: &Self::Scope, evidence: &Self::Evidence) -> (result: bool)
        ensures
            result == Self::obsoletes(*scope, *evidence),
    ;
}

/// Linear backoff, in nanoseconds.
#[derive(Clone, Copy)]
pub struct RetryConfig {
    pub initial: u64,
    pub step: u64,
    pub max: u64,
    pub max_jitter: u64,
}

impl RetryConfig {
    pub fn new(initial: u64, step: u64, max: u64, max_jitter: u64) -> (config: Self)
        ensures
            config == (RetryConfig { initial, step, max, max_jitter }),
    {
        RetryConfig { initial, step, max, max_jitter }
    }

    /// Every retry waits for some time, so retrying what is due comes to an end.
    pub open spec fn advances(self) -> bool {
        self.max > 0 && (self.step > 0 || self.initial > 0)
    }

    /// The delay that follows `delay`.
    pub open spec fn next_delay(self, delay: u64) -> u64 {
        if delay + self.step <= self.max {
            (delay + self.step) as u64
        } else {
            self.max
        }
    }

    /// The largest jitter added to `delay`, in milliseconds.
    pub open spec fn jitter_bound(self, delay: u64) -> u64 {
        if delay / 5 <= self.max_jitter {
            delay / 5 / NANOS_PER_MILLI
        } else {
            self.max_jitter / NANOS_PER_MILLI
        }
    }

    pub fn max_jitter_ms(&self, delay: u64) -> (bound: u64)
        ensures
            bound == self.jitter_bound(delay),
    {
        let share: u64 = delay / 5;
        if share <= self.max_jitter {
            share / NANOS_PER_MILLI
        } else {
            self.max_jitter / NANOS_PER_MILLI
        }
    }
}

/// Draws a number from `0..=max` with `rand::Rng::gen_range` on the thread's
/// generator. Only the range of the draw is claimed: the number itself is random.
#[verifier::external_body]
pub(crate) fn draw_up_to(max: u64) -> (drawn: u64)
    ensures
        drawn <= max,
{
    rand::Rng::gen_range(&mut rand::thread_rng(), 0..=max)
}

/// A message identifier was reused with another payload or obsolescence scope.
#[derive(Clone, Copy, Debug, PartialEq, Eq, Structural)]
pub struct EnqueueError;

/// A payload to put on the wire now.
pub struct ScheduledSend<Peer> {
    pub to: Peer,
    pub payload: Vec<u8>,
}

/// What all recipients of one message share.
pub struct PendingMessage<Scope> {
    pub payload: Vec<u8>,
    pub scope: Option<Scope>,
}

/// When one recipient is served again.
#[derive(Clone, Copy)]
pub struct PendingRecipient {
    pub deadline: u64,
    pub retry_delay: u64,
}

impl PendingRecipient {
    pub fn new(config: RetryConfig, deadline: u64) -> (recipient: Self)
        ensures
            recipient.deadline == deadline,
            recipient.retry_delay == config.initial,
    {
        PendingRecipient { deadline, retry_delay: config.initial }
    }
}

/// The contents of one pending message.
#[verifier::ext_equal]
pub struct MessageView<Scope> {
    pub payload: Seq<u8>,
    pub scope: Option<Scope>,
}

/// Resends messages to their recipients until they are completed,
/// acknowledged, or made obsolete.
pub struct RetryScheduler<Peer, MessageId, Policy: ObsolescencePolicy> {
    config: RetryConfig,
    messages: OrderedMap<MessageId, PendingMessage<Policy::Scope>>,
    recipients: OrderedMap<(MessageId, Peer), PendingRecipient>,
    deadlines: OrderedMap<(u64, (MessageId, Peer)), ()>,
    evidence: OrderedMap<Policy::Evidence, ()>,
}

/// Whether some evidence of `observed` makes `scope` obsolete.
pub open spec fn obsolete_in<Policy: ObsolescencePolicy>(
    observed: Set<Policy::Evidence>,
    scope: Option<Policy::Scope>,
) -> bool {
    scope is Some && exists|evidence: Policy::Evidence|
        #[trigger] observed.contains(evidence) && Policy::obsoletes(scope->0, evidence)
}

/// Deliveries of `deliveries` whose deadline is the earliest; ties go to the
/// smaller message identifier, then to the smaller peer.
pub open spec fn is_earliest<Id: Key, Peer: Key>(
    deliveries: Map<(Id, Peer), PendingRecipient>,
    delivery: (Id, Peer),
) -> bool {
    &&& deliveries.contains_key(delivery)
    &&& forall|other: (Id, Peer)| #[trigger]
        deliveries.contains_key(other) && other != delivery ==> (
        deliveries[delivery].deadline,
        delivery,
    ).before((deliveries[other].deadline, other))
}

/// The recipients of `sends`, in order.
pub open spec fn send_targets<Peer>(sends: Seq<ScheduledSend<Peer>>) -> Seq<Peer> {
    sends.map_values(|send: ScheduledSend<Peer>| send.to)
}

/// Whether `deadline` lies `delay` and an admissible jitter after `now`.
pub open spec fn jittered(config: RetryConfig, now: u64, delay: u64, deadline: u64) -> bool {
    exists|jitter: u64|
        jitter <= config.jitter_bound(delay) && deadline == #[trigger] jittered_deadline(now, delay, jitter)
}

/// The time `delay` nanoseconds and `jitter` milliseconds after `now`.
pub open spec fn jittered_deadline(now: u64, delay: u64, jitter: u64) -> int {
    now + delay + jitter * NANOS_PER_MILLI
}

/// The deliveries whose deadline has passed at `now`.
pub open spec fn due<Id, Peer>(
    deliveries: Map<(Id, Peer), PendingRecipient>,
    now: u64,
) -> Set<(Id, Peer)> {
    deliveries.dom().filter(|delivery: (Id, Peer)| deliveries[delivery].deadline <= now)
}

/// The deliveries of some messages.
pub open spec fn deliveries_of<Id, Peer>(messages: Set<Id>) -> Set<(Id, Peer)> {
    Set::new(|delivery: (Id, Peer)| messages.contains(delivery.0))
}

/// Whether `after` is `before` with new deadlines for what was due at `now`.
pub open spec fn rescheduled<Id, Peer>(
    config: RetryConfig,
    before: Map<(Id, Peer), PendingRecipient>,
    after: Map<(Id, Peer), PendingRecipient>,
    now: u64,
) -> bool {
    &&& after.dom() == before.dom()
    &&& forall|delivery: (Id, Peer)| #[trigger]
        before.contains_key(delivery) ==> {
            let delay = config.next_delay(before[delivery].retry_delay);
            if before[delivery].deadline > now {
                after[delivery] == before[delivery]
            } else {
                &&& after[delivery].retry_delay == delay
                &&& jittered(config, now, delay, after[delivery].deadline)
            }
        }
}

/// Whether `after` is `before` with deliveries of a message to `added`, which are
/// first repeated after the initial delay.
pub open spec fn extended<Id, Peer>(
    config: RetryConfig,
    before: Map<(Id, Peer), PendingRecipient>,
    after: Map<(Id, Peer), PendingRecipient>,
    message_id: Id,
    added: Set<Peer>,
    now: u64,
) -> bool {
    &&& after.dom() == before.dom().union(
        Set::new(|delivery: (Id, Peer)| delivery.0 == message_id && added.contains(delivery.1)),
    )
    &&& forall|delivery: (Id, Peer)| #[trigger]
        before.contains_key(delivery) ==> after[delivery] == before[delivery]
    &&& forall|peer: Peer| #[trigger]
        added.contains(peer) ==> {
            let recipient = after[(message_id, peer)];
            &&& recipient.retry_delay == config.initial
            &&& jittered(config, now, config.initial, recipient.deadline)
        }
}

/// A delivery with its deadline, as the timer queue orders it.
pub open spec fn timer_entry<Id, Peer>(
    deliveries: Map<(Id, Peer), PendingRecipient>,
    delivery: (Id, Peer),
) -> (u64, (Id, Peer)) {
    (deliveries[delivery].deadline, delivery)
}

proof fn lemma_jitter_fits(config: RetryConfig, delay: u64, jitter: u64)
    requires
        jitter <= config.jitter_bound(delay),
    ensures
        jitter * NANOS_PER_MILLI <= config.max_jitter,
{
    assert(config.jitter_bound(delay) * NANOS_PER_MILLI <= config.max_jitter);
}

impl<Peer: Key, MessageId: Key, Policy: ObsolescencePolicy> RetryScheduler<Peer, MessageId, Policy> {
    pub closed spec fn config(self) -> RetryConfig {
        self.config
    }

    /// The messages that still have a recipient to serve.
    pub closed spec fn pending(self) -> Map<MessageId, MessageView<Policy::Scope>> {
        self.messages@.map_values(
            |message: PendingMessage<Policy::Scope>|
                MessageView { payload: message.payload@, scope: message.scope },
        )
    }

    /// The outstanding deliveries, by message and recipient.
    pub closed spec fn deliveries(self) -> Map<(MessageId, Peer), PendingRecipient> {
        self.recipients@
    }

    /// All evidence observed so far.
    pub closed spec fn observed(self) -> Set<Policy::Evidence> {
        self.evidence@.dom()
    }

    /// Whether observed evidence makes `scope` obsolete.
    pub open spec fn is_obsolete(self, scope: Option<Policy::Scope>) -> bool {
        obsolete_in::<Policy>(self.observed(), scope)
    }

    /// The timer queue holds exactly the outstanding deliveries, every delivery
    /// belongs to a pending message, every pending message has a delivery, and
    /// no pending message is obsolete.
    pub closed spec fn wf(self) -> bool {
        &&& self.messages.wf()
        &&& self.recipients.wf()
        &&& self.deadlines.wf()
        &&& self.evidence.wf()
        &&& forall|entry: (u64, (MessageId, Peer))| #[trigger]
            self.deadlines@.contains_key(entry) <==> self.recipients@.contains_key(entry.1)
                && self.recipients@[entry.1].deadline == entry.0
        &&& forall|delivery: (MessageId, Peer)| #[trigger]
            self.recipients@.contains_key(delivery) ==> self.messages@.contains_key(delivery.0)
        &&& forall|id: MessageId| #[trigger]
            self.messages@.contains_key(id) ==> exists|peer: Peer| #[trigger]
                self.recipients@.contains_key((id, peer))
        &&& forall|id: MessageId| #[trigger]
            self.messages@.contains_key(id) ==> !obsolete_in::<Policy>(
                self.evidence@.dom(),
                self.messages@[id].scope,
            )
        &&& self.config.advances() ==> forall|delivery: (MessageId, Peer)| #[trigger]
            self.recipients@.contains_key(delivery) ==> self.recipients@[delivery].retry_delay
                + self.config.step > 0
    }

    /// Every delivery belongs to a pending message, every pending message has a
    /// delivery, and no pending message is obsolete.
    pub proof fn law_deliveries_are_of_pending_messages(self)
        requires
            self.wf(),
        ensures
            forall|id: MessageId, peer: Peer| #[trigger]
                self.deliveries().contains_key((id, peer)) ==> self.pending().contains_key(id),
            forall|id: MessageId| #[trigger]
                self.pending().contains_key(id) ==> exists|peer: Peer| #[trigger]
                    self.deliveries().contains_key((id, peer)),
            forall|id: MessageId| #[trigger]
                self.pending().contains_key(id) ==> !self.is_obsolete(self.pending()[id].scope),
    {
        assert forall|id: MessageId| #[trigger] self.pending().contains_key(id) implies exists|peer: Peer|
            #[trigger] self.deliveries().contains_key((id, peer)) by {
            assert(self.messages@.contains_key(id));
            let peer = choose|peer: Peer| #[trigger] self.recipients@.contains_key((id, peer));
            assert(self.deliveries().contains_key((id, peer)));
        }
        assert forall|id: MessageId| #[trigger] self.pending().contains_key(id) implies !self.is_obsolete(
            self.pending()[id].scope,
        ) by {
            assert(self.messages@.contains_key(id));
        }
    }

    pub fn new(config: RetryConfig) -> (scheduler: Self)
        ensures
            scheduler.wf(),
            scheduler.config() == config,
            scheduler.pending() == Map::<MessageId, MessageView<Policy::Scope>>::empty(),
            scheduler.deliveries() == Map::<(MessageId, Peer), PendingRecipient>::empty(),
            scheduler.observed() == Set::<Policy::Evidence>::empty(),
    {
        let scheduler = RetryScheduler {
            config,
            messages: OrderedMap::new(),
            recipients: OrderedMap::new(),
            deadlines: OrderedMap::new(),
            evidence: OrderedMap::new(),
        };
        proof {
            assert(scheduler.pending() =~= Map::<MessageId, MessageView<Policy::Scope>>::empty());
            assert(scheduler.observed() =~= Set::<Policy::Evidence>::empty());
        }
        scheduler
    }

    /// The earliest deadline of all outstanding deliveries.
    pub fn next_timer(&self) -> (timer: Option<u64>)
        requires
            self.wf(),
        ensures
            match timer {
                None => self.deliveries().dom() == Set::<(MessageId, Peer)>::empty(),
                Some(deadline) => {
                    &&& exists|delivery: (MessageId, Peer)| #[trigger]
                        self.deliveries().contains_key(delivery)
                            && self.deliveries()[delivery].deadline == deadline
                    &&& forall|delivery: (MessageId, Peer)| #[trigger]
                        self.deliveries().contains_key(delivery)
                            ==> deadline <= self.deliveries()[delivery].deadline
                },
            },
    {
        proof {
            lemma_entries(self.deadlines.entries());
        }
        if self.deadlines.len() == 0 {
            assert(self.deliveries().dom() =~= Set::<(MessageId, Peer)>::empty()) by {
                assert forall|delivery: (MessageId, Peer)| !self.recipients@.contains_key(delivery) by {
                    assert(!self.deadlines@.contains_key((self.recipients@[delivery].deadline, delivery)));
                }
            }
            None
        } else {
            proof {
                self.lemma_first_deadline();
                let first = self.deadlines.entries()[0].0;
                assert(self.deliveries().contains_key(first.1));
            }
            Some(self.deadlines.key_at(0).0)
        }
    }

    /// The first entry of the timer queue is the earliest delivery.
    proof fn lemma_first_deadline(self)
        requires
            self.wf(),
            self.deadlines.entries().len() > 0,
        ensures
            ({
                let first = self.deadlines.entries()[0].0;
                &&& is_earliest(self.recipients@, first.1)
                &&& self.recipients@[first.1].deadline == first.0
                &&& forall|delivery: (MessageId, Peer)| #[trigger]
                    self.recipients@.contains_key(delivery) ==> first.0 <= self.recipients@[delivery].deadline
            }),
    {
        let entries = self.deadlines.entries();
        lemma_entries(entries);
        let first = entries[0].0;
        assert(self.deadlines@.contains_key(first));
        assert forall|other: (MessageId, Peer)| #[trigger] self.recipients@.contains_key(other) implies (other
            != first.1 ==> (self.recipients@[first.1].deadline, first.1).before(
            (self.recipients@[other].deadline, other),
        )) && first.0 <= self.recipients@[other].deadline by {
            let entry = (self.recipients@[other].deadline, other);
            assert(self.deadlines@.contains_key(entry));
            let i = choose|i: int| 0 <= i < entries.len() && (#[trigger] entries[i]).0 == entry;
            if i > 0 {
                assert(self.deadlines.keys()[0].before(self.deadlines.keys()[i]));
            }
        }
    }

    /// The number of outstanding deliveries.
    pub fn pending_count(&self) -> (count: usize)
        requires
            self.wf(),
        ensures
            self.deliveries().dom().finite(),
            count == self.deliveries().dom().len(),
    {
        self.recipients.len()
    }

    /// Whether a message still has a recipient to serve.
    pub fn is_pending(&self, message_id: &MessageId) -> (pending: bool)
        requires
            self.wf(),
        ensures
            pending == self.pending().contains_key(*message_id),
    {
        self.messages.contains_key(message_id)
    }

    /// When `to` is sent the message again, if that is still outstanding.
    pub fn recipient(&self, message_id: &MessageId, to: &Peer) -> (recipient: Option<PendingRecipient>)
        requires
            self.wf(),
        ensures
            recipient == (if self.deliveries().contains_key((*message_id, *to)) {
                Some(self.deliveries()[(*message_id, *to)])
            } else {
                None
            }),
    {
        match self.recipients.get(&(message_id.duplicate(), to.duplicate())) {
            Some(recipient) => Some(*recipient),
            None => None,
        }
    }

    /// Whether some delivery of the message is outstanding.
    fn has_recipient(&self, message_id: &MessageId) -> (found: bool)
        requires
            self.recipients.wf(),
        ensures
            found == (exists|peer: Peer| #[trigger] self.recipients@.contains_key((*message_id, peer))),
    {
        proof {
            lemma_entries(self.recipients.entries());
        }
        let mut i: usize = 0;
        while i < self.recipients.len()
            invariant
                self.recipients.wf(),
                i <= self.recipients.entries().len(),
                forall|j: int|
                    0 <= j < i ==> (#[trigger] self.recipients.entries()[j]).0.0 != *message_id,
            decreases self.recipients.entries().len() - i,
        {
            match self.recipients.key_at(i).0.rank(message_id) {
                Rank::Equal => {
                    proof {
                        lemma_entries(self.recipients.entries());
                        let key = self.recipients.entries()[i as int].0;
                        assert(self.recipients@.contains_key((*message_id, key.1)));
                    }
                    return true;
                },
                Rank::Less => {
                    proof {
                        MessageId::irreflexive(*message_id);
                    }
                },
                Rank::Greater => {
                    proof {
                        MessageId::irreflexive(*message_id);
                    }
                },
            }
            i += 1;
        }
        assert forall|peer: Peer| !#[trigger] self.recipients@.contains_key((*message_id, peer)) by {
            lemma_entries(self.recipients.entries());
            if self.recipients@.contains_key((*message_id, peer)) {
                let j = choose|j: int|
                    0 <= j < self.recipients.entries().len() && (#[trigger] self.recipients.entries()[j]).0
                        == (*message_id, peer);
                assert(self.recipients.entries()[j].0.0 != *message_id);
            }
        }
        false
    }

    /// Stops delivering a message to anyone.
    pub fn complete(&mut self, message_id: &MessageId)
        requires
            old(self).wf(),
        ensures
            final(self).wf(),
            final(self).config() == old(self).config(),
            final(self).observed() == old(self).observed(),
            final(self).pending() == old(self).pending().remove(*message_id),
            final(self).deliveries() == old(self).deliveries().remove_keys(
                deliveries_of(set![*message_id]),
            ),
    {
        let ghost before = *self;
        let ghost dropped = deliveries_of::<MessageId, Peer>(set![*message_id]);
        if self.messages.remove(message_id).is_none() {
            proof {
                assert(self.messages@ =~= before.messages@);
                assert(self.pending() =~= before.pending().remove(*message_id));
                assert(self.deliveries() =~= before.deliveries().remove_keys(dropped));
            }
            return ;
        }
        let mut i: usize = 0;
        while i < self.recipients.len()
            invariant
                before.wf(),
                dropped == Set::new(|delivery: (MessageId, Peer)| delivery.0 == *message_id),
                self.config == before.config,
                self.evidence == before.evidence,
                self.messages.wf(),
                self.messages@ == before.messages@.remove(*message_id),
                self.recipients.wf(),
                self.deadlines.wf(),
                i <= self.recipients.entries().len(),
                forall|j: int|
                    0 <= j < i ==> (#[trigger] self.recipients.entries()[j]).0.0 != *message_id,
                forall|delivery: (MessageId, Peer)| #[trigger]
                    self.recipients@.contains_key(delivery) ==> before.recipients@.contains_key(delivery)
                        && before.recipients@[delivery] == self.recipients@[delivery],
                forall|delivery: (MessageId, Peer)| #[trigger]
                    before.recipients@.contains_key(delivery) && delivery.0 != *message_id
                        ==> self.recipients@.contains_key(delivery),
                forall|entry: (u64, (MessageId, Peer))| #[trigger]
                    self.deadlines@.contains_key(entry) <==> self.recipients@.contains_key(entry.1)
                        && self.recipients@[entry.1].deadline == entry.0,
            decreases self.recipients.entries().len() - i,
        {
            proof {
                lemma_entries(self.recipients.entries());
                MessageId::irreflexive(*message_id);
            }
            let matches: bool = match self.recipients.key_at(i).0.rank(message_id) {
                Rank::Equal => true,
                Rank::Less => false,
                Rank::Greater => false,
            };
            if matches {
                let ghost entries = self.recipients.entries();
                let (delivery, recipient) = self.recipients.remove_at(i);
                assert forall|j: int| 0 <= j < i implies (#[trigger] self.recipients.entries()[j]).0.0
                    != *message_id by {
                    assert(self.recipients.entries()[j] == entries[j]);
                }
                self.deadlines.remove(&(recipient.deadline, delivery));
            } else {
                i += 1;
            }
        }
        proof {
            lemma_entries(self.recipients.entries());
            assert forall|delivery: (MessageId, Peer)| #[trigger] self.recipients@.contains_key(
                delivery,
            ) implies delivery.0 != *message_id by {
                let j = choose|j: int|
                    0 <= j < self.recipients.entries().len() && (#[trigger] self.recipients.entries()[j]).0
                        == delivery;
                assert(self.recipients.entries()[j].0.0 != *message_id);
            }
            assert(self.pending() =~= before.pending().remove(*message_id));
            assert(self.deliveries() =~= before.deliveries().remove_keys(dropped));
            assert forall|id: MessageId| #[trigger] self.messages@.contains_key(id) implies exists|peer: Peer|
                #[trigger] self.recipients@.contains_key((id, peer)) by {
                let peer = choose|peer: Peer| #[trigger] before.recipients@.contains_key((id, peer));
                assert(self.recipients@.contains_key((id, peer)));
            }
        }
    }

    /// Stops delivering a message to `to`, and forgets the message with its
    /// last recipient.
    pub fn acknowledge(&mut self, message_id: &MessageId, to: Peer)
        requires
            old(self).wf(),
        ensures
            final(self).wf(),
            final(self).config() == old(self).config(),
            final(self).observed() == old(self).observed(),
            final(self).deliveries() == old(self).deliveries().remove((*message_id, to)),
            final(self).pending() == (if old(self).deliveries().contains_key((*message_id, to)) && !exists|
                other: Peer,
            | #[trigger] old(self).deliveries().contains_key((*message_id, other)) && other != to {
                old(self).pending().remove(*message_id)
            } else {
                old(self).pending()
            }),
    {
        let ghost before = *self;
        let delivery: (MessageId, Peer) = (message_id.duplicate(), to);
        match self.recipients.remove(&delivery) {
            None => {
                assert(self.recipients@ =~= before.recipients@);
            },
            Some(recipient) => {
                self.deadlines.remove(&(recipient.deadline, delivery));
                let remaining: bool = self.has_recipient(message_id);
                proof {
                    assert(remaining == exists|other: Peer| #[trigger]
                        before.recipients@.contains_key((*message_id, other)) && other != to) by {
                        if remaining {
                            let other = choose|other: Peer| #[trigger]
                                self.recipients@.contains_key((*message_id, other));
                            assert(before.recipients@.contains_key((*message_id, other)));
                        }
                        if exists|other: Peer| #[trigger]
                            before.recipients@.contains_key((*message_id, other)) && other != to {
                            let other = choose|other: Peer| #[trigger]
                                before.recipients@.contains_key((*message_id, other)) && other != to;
                            assert(self.recipients@.contains_key((*message_id, other)));
                        }
                    }
                }
                if !remaining {
                    self.messages.remove(message_id);
                }
                proof {
                    assert forall|id: MessageId| #[trigger] self.messages@.contains_key(
                        id,
                    ) implies exists|peer: Peer| #[trigger] self.recipients@.contains_key((id, peer)) by {
                        if id == *message_id {
                            assert(remaining);
                        } else {
                            let peer = choose|peer: Peer| #[trigger]
                                before.recipients@.contains_key((id, peer));
                            assert(self.recipients@.contains_key((id, peer)));
                        }
                    }
                    assert forall|other: (MessageId, Peer)| #[trigger] self.recipients@.contains_key(
                        other,
                    ) implies self.messages@.contains_key(other.0) by {
                        assert(before.recipients@.contains_key(other));
                        if other.0 == *message_id {
                            assert(self.recipients@.contains_key((*message_id, other.1)));
                        }
                    }
                    if !remaining {
                        assert(self.pending() =~= before.pending().remove(*message_id));
                    } else {
                        assert(self.pending() =~= before.pending());
                    }
                }
            },
        }
    }

    /// The pending messages that `evidence` makes obsolete.
    pub open spec fn obsoleted_by(self, evidence: Policy::Evidence) -> Set<MessageId> {
        Set::new(
            |id: MessageId|
                self.pending().contains_key(id) && self.pending()[id].scope is Some && Policy::obsoletes(
                    self.pending()[id].scope->0,
                    evidence,
                ),
        )
    }

    /// Remembers `evidence` and drops every message that it makes obsolete.
    pub fn observe(&mut self, evidence: Policy::Evidence)
        requires
            old(self).wf(),
        ensures
            final(self).wf(),
            final(self).config() == old(self).config(),
            final(self).observed() == old(self).observed().insert(evidence),
            final(self).pending() == old(self).pending().remove_keys(old(self).obsoleted_by(evidence)),
            final(self).deliveries() == old(self).deliveries().remove_keys(
                deliveries_of(old(self).obsoleted_by(evidence)),
            ),
    {
        let ghost before = *self;
        let ghost doomed = self.obsoleted_by(evidence);
        let mut ids: Vec<MessageId> = Vec::new();
        let mut i: usize = 0;
        while i < self.messages.len()
            invariant
                *self == before,
                self.wf(),
                doomed == self.obsoleted_by(evidence),
                i <= self.messages.entries().len(),
                forall|j: int| 0 <= j < ids@.len() ==> doomed.contains(#[trigger] ids@[j]),
                forall|j: int|
                    0 <= j < i && doomed.contains((#[trigger] self.messages.entries()[j]).0) ==> ids@.contains(
                        self.messages.entries()[j].0,
                    ),
            decreases self.messages.entries().len() - i,
        {
            proof {
                lemma_entries(self.messages.entries());
            }
            let obsolete: bool = match &self.messages.value_at(i).scope {
                Some(scope) => Policy::obsolete(scope, &evidence),
                None => false,
            };
            if obsolete {
                let ghost earlier = ids@;
                ids.push(self.messages.key_at(i).duplicate());
                proof {
                    assert(ids@[earlier.len() as int] == self.messages.entries()[i as int].0);
                    assert forall|j: int|
                        0 <= j < i && doomed.contains(
                            (#[trigger] self.messages.entries()[j]).0,
                        ) implies ids@.contains(self.messages.entries()[j].0) by {
                        let n = choose|n: int|
                            0 <= n < earlier.len() && earlier[n] == self.messages.entries()[j].0;
                        assert(ids@[n] == earlier[n]);
                    }
                }
            }
            i += 1;
        }
        proof {
            lemma_entries(self.messages.entries());
            assert forall|id: MessageId| doomed.contains(id) implies ids@.contains(id) by {
                assert(self.messages@.contains_key(id));
                let j = choose|j: int|
                    0 <= j < self.messages.entries().len() && (#[trigger] self.messages.entries()[j]).0 == id;
                assert(doomed.contains(self.messages.entries()[j].0));
            }
        }
        let mut k: usize = 0;
        proof {
            let gone = Set::new(|id: MessageId| ids@.take(0).contains(id));
            assert(self.pending() =~= before.pending().remove_keys(gone));
            assert(self.deliveries() =~= before.deliveries().remove_keys(
                Set::new(|delivery: (MessageId, Peer)| gone.contains(delivery.0)),
            ));
        }
        while k < ids.len()
            invariant
                self.wf(),
                before.wf(),
                self.config() == before.config(),
                self.observed() == before.observed(),
                k <= ids@.len(),
                self.pending() == before.pending().remove_keys(
                    Set::new(|id: MessageId| ids@.take(k as int).contains(id)),
                ),
                self.deliveries() == before.deliveries().remove_keys(
                    Set::new(|delivery: (MessageId, Peer)| ids@.take(k as int).contains(delivery.0)),
                ),
            decreases ids@.len() - k,
        {
            self.complete(&ids[k]);
            proof {
                let id = ids@[k as int];
                assert(ids@.take(k + 1) =~= ids@.take(k as int).push(id));
                assert forall|other: MessageId| #[trigger] ids@.take(k + 1).contains(other) <==> ids@.take(
                    k as int,
                ).contains(other) || other == id by {
                    broadcast use vstd::seq_lib::lemma_seq_contains_after_push;

                }
                assert(self.pending() =~= before.pending().remove_keys(
                    Set::new(|other: MessageId| ids@.take(k + 1).contains(other)),
                ));
                assert(self.deliveries() =~= before.deliveries().remove_keys(
                    Set::new(|delivery: (MessageId, Peer)| ids@.take(k + 1).contains(delivery.0)),
                ));
            }
            k += 1;
        }
        proof {
            assert(ids@.take(ids@.len() as int) =~= ids@);
            assert(self.pending() =~= before.pending().remove_keys(doomed));
            assert(self.deliveries() =~= before.deliveries().remove_keys(
                Set::new(|delivery: (MessageId, Peer)| doomed.contains(delivery.0)),
            ));
        }
        let ghost dropped = *self;
        self.evidence.insert(evidence, ());
        proof {
            assert(self.pending() =~= dropped.pending());
            assert(self.observed() =~= before.observed().insert(evidence));
            assert forall|id: MessageId| #[trigger] self.messages@.contains_key(id) implies !obsolete_in::<
                Policy,
            >(self.evidence@.dom(), self.messages@[id].scope) by {
                assert(self.pending().contains_key(id));
                assert(self.pending()[id].scope == self.messages@[id].scope);
                assert(before.pending().contains_key(id) && !doomed.contains(id));
                assert(before.pending()[id] == self.pending()[id]);
                assert(before.messages@.contains_key(id));
            }
        }
    }

    /// Whether observed evidence makes `scope` obsolete.
    fn obsolete_scope(&self, scope: &Option<Policy::Scope>) -> (obsolete: bool)
        requires
            self.wf(),
        ensures
            obsolete == self.is_obsolete(*scope),
    {
        let wanted: &Policy::Scope = match scope {
            Some(wanted) => wanted,
            None => return false,
        };
        proof {
            lemma_entries(self.evidence.entries());
        }
        let mut i: usize = 0;
        while i < self.evidence.len()
            invariant
                self.wf(),
                *scope == Some(*wanted),
                i <= self.evidence.entries().len(),
                forall|j: int|
                    0 <= j < i ==> !Policy::obsoletes(*wanted, (#[trigger] self.evidence.entries()[j]).0),
            decreases self.evidence.entries().len() - i,
        {
            if Policy::obsolete(wanted, self.evidence.key_at(i)) {
                proof {
                    lemma_entries(self.evidence.entries());
                    assert(self.observed().contains(self.evidence.entries()[i as int].0));
                }
                return true;
            }
            i += 1;
        }
        proof {
            assert forall|evidence: Policy::Evidence| #[trigger] self.observed().contains(
                evidence,
            ) implies !Policy::obsoletes(*wanted, evidence) by {
                lemma_entries(self.evidence.entries());
                assert(self.evidence@.contains_key(evidence));
                let j = choose|j: int|
                    0 <= j < self.evidence.entries().len() && (#[trigger] self.evidence.entries()[j]).0
                        == evidence;
                assert(!Policy::obsoletes(*wanted, self.evidence.entries()[j].0));
            }
        }
        false
    }

    /// Schedules one more recipient of a message, `jitter` milliseconds later
    /// than the initial delay.
    pub fn add_recipient(
        &mut self,
        message_id: &MessageId,
        to: Peer,
        payload: &Vec<u8>,
        scope: &Option<Policy::Scope>,
        now: u64,
        jitter: u64,
    ) -> (send: ScheduledSend<Peer>)
        requires
            old(self).wf(),
            !old(self).deliveries().contains_key((*message_id, to)),
            !old(self).is_obsolete(*scope),
            old(self).pending().contains_key(*message_id) ==> old(self).pending()[*message_id] == (
            MessageView { payload: payload@, scope: *scope }),
            jittered_deadline(now, old(self).config().initial, jitter) <= u64::MAX,
        ensures
            final(self).wf(),
            final(self).config() == old(self).config(),
            final(self).observed() == old(self).observed(),
            final(self).pending() == old(self).pending().insert(
                *message_id,
                MessageView { payload: payload@, scope: *scope },
            ),
            final(self).deliveries() == old(self).deliveries().insert(
                (*message_id, to),
                PendingRecipient {
                    deadline: jittered_deadline(now, old(self).config().initial, jitter) as u64,
                    retry_delay: old(self).config().initial,
                },
            ),
            send.to == to,
            send.payload@ == payload@,
    {
        let ghost before = *self;
        if !self.messages.contains_key(message_id) {
            let copied: Option<Policy::Scope> = match scope {
                Some(scope) => Some(scope.duplicate()),
                None => None,
            };
            self.messages.insert(
                message_id.duplicate(),
                PendingMessage { payload: copy_bytes(payload), scope: copied },
            );
        }
        let deadline: u64 = now + self.config.initial + jitter * NANOS_PER_MILLI;
        let delivery: (MessageId, Peer) = (message_id.duplicate(), to.duplicate());
        self.deadlines.insert((deadline, (message_id.duplicate(), to.duplicate())), ());
        self.recipients.insert(delivery, PendingRecipient::new(self.config, deadline));
        proof {
            assert(self.pending() =~= before.pending().insert(
                *message_id,
                MessageView { payload: payload@, scope: *scope },
            ));
            assert forall|entry: (u64, (MessageId, Peer))| #[trigger] self.deadlines@.contains_key(
                entry,
            ) <==> self.recipients@.contains_key(entry.1) && self.recipients@[entry.1].deadline == entry.0 by {
                if entry.1 == delivery {
                    assert(!before.deadlines@.contains_key(entry));
                }
            }
            assert forall|id: MessageId| #[trigger] self.messages@.contains_key(id) implies exists|peer: Peer|
                #[trigger] self.recipients@.contains_key((id, peer)) by {
                if id == *message_id {
                    assert(self.recipients@.contains_key((id, to)));
                } else {
                    let peer = choose|peer: Peer| #[trigger] before.recipients@.contains_key((id, peer));
                    assert(self.recipients@.contains_key((id, peer)));
                }
            }
        }
        ScheduledSend { to, payload: copy_bytes(payload) }
    }

    /// Whether the message is pending with another payload or scope.
    pub open spec fn conflicts(
        self,
        message_id: MessageId,
        payload: Seq<u8>,
        scope: Option<Policy::Scope>,
    ) -> bool {
        self.pending().contains_key(message_id) && self.pending()[message_id] != (MessageView {
            payload,
            scope,
        })
    }

    /// The requested recipients that are not being served yet.
    pub open spec fn new_recipients(self, message_id: MessageId, recipients: Seq<Peer>) -> Set<Peer> {
        Set::new(
            |peer: Peer|
                recipients.contains(peer) && !self.deliveries().contains_key((message_id, peer)),
        )
    }

    fn check_conflict(
        &self,
        message_id: &MessageId,
        payload: &Vec<u8>,
        scope: &Option<Policy::Scope>,
    ) -> (conflict: bool)
        requires
            self.wf(),
        ensures
            conflict == self.conflicts(*message_id, payload@, *scope),
    {
        match self.messages.get(message_id) {
            None => false,
            Some(message) => {
                if !same_bytes(&message.payload, payload) {
                    return true;
                }
                match (&message.scope, scope) {
                    (Some(held), Some(wanted)) => {
                        proof {
                            Policy::Scope::irreflexive(*held);
                        }
                        match held.rank(wanted) {
                            Rank::Equal => false,
                            Rank::Less => true,
                            Rank::Greater => true,
                        }
                    },
                    (None, None) => false,
                    (Some(_), None) => true,
                    (None, Some(_)) => true,
                }
            },
        }
    }

    /// What becomes of a message that is handed in: an obsolete one, and one for
    /// nobody, leaves no trace; a conflicting one is refused; any other one is sent
    /// to its new recipients and scheduled for them.
    pub open spec fn enqueues(
        self,
        after: Self,
        message_id: MessageId,
        recipients: Seq<Peer>,
        payload: Seq<u8>,
        scope: Option<Policy::Scope>,
        now: u64,
        result: Result<Vec<ScheduledSend<Peer>>, EnqueueError>,
    ) -> bool {
        &&& after.config() == self.config()
        &&& after.observed() == self.observed()
        &&& if self.is_obsolete(scope) || recipients.len() == 0 {
            &&& result is Ok && result->Ok_0@.len() == 0
            &&& after.pending() == self.pending()
            &&& after.deliveries() == self.deliveries()
        } else if self.conflicts(message_id, payload, scope) {
            &&& result is Err
            &&& after.pending() == self.pending()
            &&& after.deliveries() == self.deliveries()
        } else {
            let added = self.new_recipients(message_id, recipients);
            &&& result matches Ok(sends)
            &&& ascending(send_targets(sends@))
            &&& send_targets(sends@).to_set() == added
            &&& forall|i: int| 0 <= i < sends@.len() ==> (#[trigger] sends@[i]).payload@ == payload
            &&& after.pending() == self.pending().insert(message_id, MessageView { payload, scope })
            &&& extended(
                self.config(),
                self.deliveries(),
                after.deliveries(),
                message_id,
                added,
                now,
            )
        }
    }

    /// Whether evidence is only ever added from each of `states` to the next, as
    /// every operation of a scheduler leaves it.
    pub open spec fn evidence_grows(states: Seq<Self>) -> bool {
        forall|i: int|
            0 <= i < states.len() - 1 ==> (#[trigger] states[i]).observed().subset_of(
                states[i + 1].observed(),
            )
    }

    /// Evidence refuses late messages for good: however a scheduler goes on after
    /// it observed evidence, a message that the evidence makes obsolete is not
    /// sent, and nothing of it is scheduled.
    pub proof fn law_late_message_is_refused(
        before: Self,
        states: Seq<Self>,
        evidence: Policy::Evidence,
        after: Self,
        message_id: MessageId,
        recipients: Seq<Peer>,
        payload: Seq<u8>,
        scope: Policy::Scope,
        now: u64,
        result: Result<Vec<ScheduledSend<Peer>>, EnqueueError>,
    )
        requires
            states.len() > 0,
            states[0].observed() == before.observed().insert(evidence),
            Self::evidence_grows(states),
            Policy::obsoletes(scope, evidence),
            states.last().enqueues(after, message_id, recipients, payload, Some(scope), now, result),
        ensures
            result is Ok && result->Ok_0@.len() == 0,
            after.pending() == states.last().pending(),
            after.deliveries() == states.last().deliveries(),
    {
        Self::lemma_evidence_stays(states, evidence, states.len() - 1);
    }

    proof fn lemma_evidence_stays(states: Seq<Self>, evidence: Policy::Evidence, index: int)
        requires
            0 <= index < states.len(),
            states[0].observed().contains(evidence),
            Self::evidence_grows(states),
        ensures
            states[index].observed().contains(evidence),
        decreases index,
    {
        if index > 0 {
            Self::lemma_evidence_stays(states, evidence, index - 1);
            assert(states[index - 1].observed().subset_of(states[index - 1 + 1].observed()));
        }
    }

    /// Starts delivering a message to `recipients`. New recipients, in ascending
    /// order, are served at once; those already being served keep their timers.
    pub fn enqueue(
        &mut self,
        message_id: MessageId,
        recipients: Vec<Peer>,
        payload: Vec<u8>,
        scope: Option<Policy::Scope>,
        now: u64,
    ) -> (result: Result<Vec<ScheduledSend<Peer>>, EnqueueError>)
        requires
            old(self).wf(),
            old(self).is_obsolete(scope) || now + old(self).config().initial + old(
                self,
            ).config().max_jitter <= u64::MAX,
        ensures
            final(self).wf(),
            old(self).enqueues(
                *final(self),
                message_id,
                recipients@,
                payload@,
                scope,
                now,
                result,
            ),
    {
        if self.obsolete_scope(&scope) || recipients.len() == 0 {
            return Ok(Vec::new());
        }
        if self.check_conflict(&message_id, &payload, &scope) {
            return Err(EnqueueError);
        }
        let ghost before = *self;
        let ghost wanted = recipients@;
        let ghost shared = MessageView { payload: payload@, scope };
        let targets = sort_set(&recipients);
        assert(forall|peer: Peer| #[trigger] targets@.contains(peer) <==> recipients@.contains(peer)) by {
            assert forall|peer: Peer| #[trigger] targets@.contains(peer) <==> recipients@.contains(peer) by {
                assert(targets@.to_set().contains(peer) <==> recipients@.to_set().contains(peer));
            }
        }
        let ghost goals = targets@;
        let mut sends: Vec<ScheduledSend<Peer>> = Vec::new();
        let mut i: usize = 0;
        while i < targets.len()
            invariant
                before.wf(),
                self.wf(),
                self.config() == before.config(),
                self.observed() == before.observed(),
                !before.conflicts(message_id, payload@, scope),
                !before.is_obsolete(scope),
                shared == (MessageView { payload: payload@, scope }),
                now + before.config().initial + before.config().max_jitter <= u64::MAX,
                goals == targets@,
                ascending(goals),
                i <= goals.len(),
                ascending(send_targets(sends@)),
                forall|j: int| 0 <= j < sends@.len() ==> (#[trigger] sends@[j]).payload@ == payload@,
                forall|peer: Peer| #[trigger]
                    send_targets(sends@).contains(peer) <==> goals.take(i as int).contains(peer)
                        && !before.deliveries().contains_key((message_id, peer)),
                self.pending() == before.pending() || self.pending() == before.pending().insert(
                    message_id,
                    shared,
                ),
                sends@.len() > 0 ==> self.pending() == before.pending().insert(message_id, shared),
                forall|delivery: (MessageId, Peer)| #[trigger]
                    self.deliveries().contains_key(delivery) <==> before.deliveries().contains_key(delivery)
                        || (delivery.0 == message_id && send_targets(sends@).contains(delivery.1)),
                forall|delivery: (MessageId, Peer)| #[trigger]
                    before.deliveries().contains_key(delivery) ==> self.deliveries()[delivery]
                        == before.deliveries()[delivery],
                forall|peer: Peer| #[trigger]
                    send_targets(sends@).contains(peer) ==> {
                        let recipient = self.deliveries()[(message_id, peer)];
                        &&& recipient.retry_delay == before.config().initial
                        &&& jittered(before.config(), now, before.config().initial, recipient.deadline)
                    },
            decreases goals.len() - i,
        {
            let ghost peer = goals[i as int];
            let ghost earlier = sends@;
            proof {
                assert(goals.take(i + 1) =~= goals.take(i as int).push(peer));
                assert forall|other: Peer| #[trigger] goals.take(i + 1).contains(other) <==> goals.take(
                    i as int,
                ).contains(other) || other == peer by {
                    broadcast use vstd::seq_lib::lemma_seq_contains_after_push;

                }
                assert(!goals.take(i as int).contains(peer)) by {
                    crate::order::lemma_ascending_distinct(goals);
                }
            }
            let served: bool = self.recipients.contains_key(
                &(message_id.duplicate(), targets[i].duplicate()),
            );
            proof {
                assert(served == self.deliveries().contains_key((message_id, peer)));
                assert(!send_targets(earlier).contains(peer));
                assert(served ==> before.deliveries().contains_key((message_id, peer)));
            }
            if !served {
                let initial: u64 = self.config.initial;
                let jitter: u64 = draw_up_to(self.config.max_jitter_ms(initial));
                proof {
                    lemma_jitter_fits(self.config(), initial, jitter);
                    assert(jittered_deadline(now, initial, jitter) <= u64::MAX);
                }
                let ghost middle = *self;
                let send = self.add_recipient(
                    &message_id,
                    targets[i].duplicate(),
                    &payload,
                    &scope,
                    now,
                    jitter,
                );
                sends.push(send);
                proof {
                    assert(send_targets(sends@) =~= send_targets(earlier).push(peer));
                    assert forall|other: Peer| #[trigger] send_targets(sends@).contains(
                        other,
                    ) <==> send_targets(earlier).contains(other) || other == peer by {
                        broadcast use vstd::seq_lib::lemma_seq_contains_after_push;

                    }
                    let keys = send_targets(sends@);
                    assert forall|a: int, b: int| 0 <= a < b < keys.len() implies #[trigger] keys[a].before(
                        #[trigger] keys[b],
                    ) by {
                        if b < earlier.len() {
                            assert(send_targets(earlier)[a].before(send_targets(earlier)[b]));
                        } else {
                            assert(send_targets(earlier)[a] == keys[a]);
                            assert(send_targets(earlier).contains(keys[a]));
                            assert(goals.take(i as int).contains(keys[a]));
                            let n = choose|n: int|
                                0 <= n < goals.take(i as int).len() && goals.take(i as int)[n] == keys[a];
                            assert(goals[n].before(goals[i as int]));
                        }
                    }
                    assert(self.pending() =~= before.pending().insert(message_id, shared));
                    assert(jittered(
                        before.config(),
                        now,
                        before.config().initial,
                        self.deliveries()[(message_id, peer)].deadline,
                    ));
                }
            }
            proof {
                assert forall|other: Peer| #[trigger] send_targets(sends@).contains(other) <==> goals.take(
                    i + 1,
                ).contains(other) && !before.deliveries().contains_key((message_id, other)) by {
                    assert(goals.take(i + 1).contains(other) <==> goals.take(i as int).contains(other)
                        || other == peer);
                }
            }
            i += 1;
        }
        proof {
            assert(goals.take(goals.len() as int) =~= goals);
            let added = before.new_recipients(message_id, wanted);
            assert(send_targets(sends@).to_set() =~= added);
            if sends@.len() == 0 {
                assert(wanted.contains(wanted[0]));
                assert(goals.contains(wanted[0]));
                assert(!send_targets(sends@).contains(wanted[0]));
                assert(before.deliveries().contains_key((message_id, wanted[0])));
                assert(before.pending().contains_key(message_id));
                assert(before.pending().insert(message_id, shared) =~= before.pending());
            }
            assert(self.deliveries().dom() =~= before.deliveries().dom().union(
                Set::new(
                    |delivery: (MessageId, Peer)|
                        delivery.0 == message_id && added.contains(delivery.1),
                ),
            ));
            assert forall|peer: Peer| #[trigger] added.contains(peer) implies send_targets(sends@).contains(
                peer,
            ) by {}
        }
        Ok(sends)
    }

    /// Serves the earliest delivery again if its deadline has passed at `now`,
    /// and schedules it `jitter` milliseconds later than its next delay.
    pub fn retry_first(&mut self, now: u64, jitter: u64) -> (send: Option<ScheduledSend<Peer>>)
        requires
            old(self).wf(),
            jittered_deadline(now, old(self).config().max, jitter) <= u64::MAX,
        ensures
            final(self).wf(),
            final(self).config() == old(self).config(),
            final(self).observed() == old(self).observed(),
            final(self).pending() == old(self).pending(),
            match send {
                None => {
                    &&& due(old(self).deliveries(), now) == Set::<(MessageId, Peer)>::empty()
                    &&& final(self).deliveries() == old(self).deliveries()
                },
                Some(send) => exists|delivery: (MessageId, Peer)| #[trigger]
                    is_earliest(old(self).deliveries(), delivery) && {
                        let delay = old(self).config().next_delay(
                            old(self).deliveries()[delivery].retry_delay,
                        );
                        &&& old(self).deliveries()[delivery].deadline <= now
                        &&& send.to == delivery.1
                        &&& old(self).pending().contains_key(delivery.0)
                        &&& send.payload@ == old(self).pending()[delivery.0].payload
                        &&& final(self).deliveries() == old(self).deliveries().insert(
                            delivery,
                            PendingRecipient {
                                deadline: jittered_deadline(now, delay, jitter) as u64,
                                retry_delay: delay,
                            },
                        )
                    },
            },
    {
        let ghost before = *self;
        proof {
            lemma_entries(self.deadlines.entries());
        }
        if self.deadlines.len() == 0 {
            assert(due(self.deliveries(), now) =~= Set::<(MessageId, Peer)>::empty()) by {
                assert forall|delivery: (MessageId, Peer)| !self.recipients@.contains_key(delivery) by {
                    assert(!self.deadlines@.contains_key(timer_entry(self.recipients@, delivery)));
                }
            }
            return None;
        }
        proof {
            self.lemma_first_deadline();
        }
        if self.deadlines.key_at(0).0 > now {
            assert(due(self.deliveries(), now) =~= Set::<(MessageId, Peer)>::empty());
            return None;
        }
        let (_, delivery) = self.deadlines.remove_at(0).0;
        let recipient: PendingRecipient = match self.recipients.get(&delivery) {
            Some(recipient) => *recipient,
            None => {
                assert(false);
                return None;
            },
        };
        let stepped: u64 = recipient.retry_delay.saturating_add(self.config.step);
        let retry_delay: u64 = if stepped <= self.config.max {
            stepped
        } else {
            self.config.max
        };
        let deadline: u64 = now + retry_delay + jitter * NANOS_PER_MILLI;
        let payload: Vec<u8> = match self.messages.get(&delivery.0) {
            Some(message) => copy_bytes(&message.payload),
            None => {
                assert(false);
                return None;
            },
        };
        let to: Peer = delivery.1.duplicate();
        self.deadlines.insert((deadline, delivery.duplicate()), ());
        self.recipients.insert(delivery, PendingRecipient { deadline, retry_delay });
        proof {
            assert(retry_delay == self.config.next_delay(before.recipients@[delivery].retry_delay));
            assert forall|entry: (u64, (MessageId, Peer))| #[trigger] self.deadlines@.contains_key(
                entry,
            ) <==> self.recipients@.contains_key(entry.1) && self.recipients@[entry.1].deadline == entry.0 by {
                assert(before.deadlines@.contains_key(entry) <==> before.recipients@.contains_key(entry.1)
                    && before.recipients@[entry.1].deadline == entry.0);
            }
            assert forall|id: MessageId| #[trigger] self.messages@.contains_key(id) implies exists|peer: Peer|
                #[trigger] self.recipients@.contains_key((id, peer)) by {
                let peer = choose|peer: Peer| #[trigger] before.recipients@.contains_key((id, peer));
                assert(self.recipients@.contains_key((id, peer)));
            }
            assert(is_earliest(before.deliveries(), delivery));
        }
        Some(ScheduledSend { to, payload })
    }

    /// The delay that the earliest delivery waits next, if it is due at `now`.
    fn first_due_delay(&self, now: u64) -> (delay: Option<u64>)
        requires
            self.wf(),
        ensures
            match delay {
                None => due(self.deliveries(), now) == Set::<(MessageId, Peer)>::empty(),
                Some(delay) => exists|delivery: (MessageId, Peer)| #[trigger]
                    is_earliest(self.deliveries(), delivery) && self.deliveries()[delivery].deadline <= now
                        && delay == self.config().next_delay(self.deliveries()[delivery].retry_delay),
            },
    {
        proof {
            lemma_entries(self.deadlines.entries());
        }
        if self.deadlines.len() == 0 {
            assert(due(self.deliveries(), now) =~= Set::<(MessageId, Peer)>::empty()) by {
                assert forall|delivery: (MessageId, Peer)| !self.recipients@.contains_key(delivery) by {
                    assert(!self.deadlines@.contains_key(timer_entry(self.recipients@, delivery)));
                }
            }
            return None;
        }
        proof {
            self.lemma_first_deadline();
        }
        if self.deadlines.key_at(0).0 > now {
            assert(due(self.deliveries(), now) =~= Set::<(MessageId, Peer)>::empty());
            return None;
        }
        let ghost first = self.deadlines.entries()[0].0.1;
        match self.recipients.get(&self.deadlines.key_at(0).1) {
            Some(recipient) => {
                let stepped: u64 = recipient.retry_delay.saturating_add(self.config.step);
                let delay: u64 = if stepped <= self.config.max {
                    stepped
                } else {
                    self.config.max
                };
                assert(is_earliest(self.deliveries(), first));
                Some(delay)
            },
            None => {
                assert(false);
                None
            },
        }
    }

    /// Serves every delivery that is due at `now` once, in the order of their
    /// deadlines, and schedules each after its next delay and a jitter. Nothing is
    /// due afterwards.
    pub fn retry_due(&mut self, now: u64) -> (sends: Vec<ScheduledSend<Peer>>)
        requires
            old(self).wf(),
            old(self).config().advances(),
            now + old(self).config().max + old(self).config().max_jitter <= u64::MAX,
        ensures
            final(self).wf(),
            final(self).config() == old(self).config(),
            final(self).observed() == old(self).observed(),
            final(self).pending() == old(self).pending(),
            rescheduled(old(self).config(), old(self).deliveries(), final(self).deliveries(), now),
            due(final(self).deliveries(), now) == Set::<(MessageId, Peer)>::empty(),
            exists|served: Seq<(u64, (MessageId, Peer))>| #[trigger]
                serves(old(self).deliveries(), old(self).pending(), now, served, sends@),
    {
        let ghost before = *self;
        let ghost mut served: Seq<(u64, (MessageId, Peer))> = Seq::empty();
        let mut sends: Vec<ScheduledSend<Peer>> = Vec::new();
        let mut next: Option<u64> = self.first_due_delay(now);
        proof {
            lemma_entries(self.recipients.entries());
        }
        while next.is_some()
            invariant
                before.wf(),
                self.wf(),
                before.config().advances(),
                now + before.config().max + before.config().max_jitter <= u64::MAX,
                self.config() == before.config(),
                self.observed() == before.observed(),
                self.pending() == before.pending(),
                self.deliveries().dom() == before.deliveries().dom(),
                before.deliveries().dom().finite(),
                match next {
                    None => due(self.deliveries(), now) == Set::<(MessageId, Peer)>::empty(),
                    Some(delay) => exists|delivery: (MessageId, Peer)| #[trigger]
                        is_earliest(self.deliveries(), delivery) && self.deliveries()[delivery].deadline
                            <= now && delay == self.config().next_delay(
                            self.deliveries()[delivery].retry_delay,
                        ),
                },
                served.len() == sends@.len(),
                forall|i: int| #![trigger served[i]] #![trigger sends@[i]]
                    0 <= i < served.len() ==> {
                        &&& due(before.deliveries(), now).contains(served[i].1)
                        &&& served[i] == timer_entry(before.deliveries(), served[i].1)
                        &&& !due(self.deliveries(), now).contains(served[i].1)
                        &&& sends@[i].to == served[i].1.1
                        &&& before.pending().contains_key(served[i].1.0)
                        &&& sends@[i].payload@ == before.pending()[served[i].1.0].payload
                    },
                ascending(served),
                forall|i: int, delivery: (MessageId, Peer)|
                    0 <= i < served.len() && #[trigger] due(self.deliveries(), now).contains(delivery)
                        ==> (#[trigger] served[i]).before(timer_entry(before.deliveries(), delivery)),
                forall|delivery: (MessageId, Peer)| #[trigger]
                    due(self.deliveries(), now).contains(delivery) ==> due(
                        before.deliveries(),
                        now,
                    ).contains(delivery) && self.deliveries()[delivery] == before.deliveries()[delivery],
                forall|delivery: (MessageId, Peer)| #[trigger]
                    before.deliveries().contains_key(delivery) && !due(before.deliveries(), now).contains(
                        delivery,
                    ) ==> self.deliveries()[delivery] == before.deliveries()[delivery],
                forall|delivery: (MessageId, Peer)| #[trigger]
                    due(before.deliveries(), now).contains(delivery) && !due(
                        self.deliveries(),
                        now,
                    ).contains(delivery) ==> {
                        let delay = before.config().next_delay(before.deliveries()[delivery].retry_delay);
                        &&& served.contains(timer_entry(before.deliveries(), delivery))
                        &&& self.deliveries()[delivery].retry_delay == delay
                        &&& jittered(before.config(), now, delay, self.deliveries()[delivery].deadline)
                    },
            decreases due(self.deliveries(), now).len(),
        {
            let delay: u64 = match next {
                Some(delay) => delay,
                None => {
                    assert(false);
                    0
                },
            };
            let jitter: u64 = draw_up_to(self.config.max_jitter_ms(delay));
            proof {
                lemma_jitter_fits(self.config(), delay, jitter);
                assert(jittered_deadline(now, self.config().max, jitter) <= u64::MAX);
            }
            let ghost middle = *self;
            let sent = self.retry_first(now, jitter);
            let ghost earliest = choose|delivery: (MessageId, Peer)| #[trigger]
                is_earliest(middle.deliveries(), delivery) && middle.deliveries()[delivery].deadline <= now
                    && delay == middle.config().next_delay(middle.deliveries()[delivery].retry_delay);
            assert(due(middle.deliveries(), now).contains(earliest));
            let send = match sent {
                Some(send) => send,
                None => {
                    assert(false);
                    return sends;
                },
            };
            proof {
                let delivery = choose|delivery: (MessageId, Peer)| #[trigger]
                    is_earliest(middle.deliveries(), delivery) && {
                        let delay = middle.config().next_delay(
                            middle.deliveries()[delivery].retry_delay,
                        );
                        &&& middle.deliveries()[delivery].deadline <= now
                        &&& send.to == delivery.1
                        &&& middle.pending().contains_key(delivery.0)
                        &&& send.payload@ == middle.pending()[delivery.0].payload
                        &&& self.deliveries() == middle.deliveries().insert(
                            delivery,
                            PendingRecipient {
                                deadline: jittered_deadline(now, delay, jitter) as u64,
                                retry_delay: delay,
                            },
                        )
                    };
                lemma_earliest_unique(middle.deliveries(), delivery, earliest);
                assert(due(middle.deliveries(), now).contains(delivery));
                let entry = timer_entry(before.deliveries(), delivery);
                assert(middle.deliveries()[delivery].retry_delay + middle.config().step > 0);
                assert(self.deliveries()[delivery].deadline > now);
                assert(due(self.deliveries(), now) =~= due(middle.deliveries(), now).remove(delivery));
                assert(due(middle.deliveries(), now).finite());
                assert(self.deliveries().dom() =~= before.deliveries().dom());
                let earlier = served;
                served = served.push(entry);
                assert(served[earlier.len() as int] == entry);
                assert forall|i: int, j: int| 0 <= i < j < served.len() implies #[trigger] served[i].before(
                    #[trigger] served[j],
                ) by {
                    if j < earlier.len() {
                        assert(earlier[i].before(earlier[j]));
                    } else {
                        assert(earlier[i] == served[i]);
                    }
                }
                assert forall|i: int, other: (MessageId, Peer)|
                    0 <= i < served.len() && #[trigger] due(self.deliveries(), now).contains(
                        other,
                    ) implies (#[trigger] served[i]).before(timer_entry(before.deliveries(), other)) by {
                    assert(due(middle.deliveries(), now).contains(other));
                    if i < earlier.len() {
                        assert(earlier[i] == served[i]);
                    } else {
                        assert(middle.deliveries().contains_key(other));
                    }
                }
                assert forall|other: (MessageId, Peer)| #[trigger] due(before.deliveries(), now).contains(
                    other,
                ) && !due(self.deliveries(), now).contains(other) implies {
                    let delay = before.config().next_delay(before.deliveries()[other].retry_delay);
                    &&& served.contains(timer_entry(before.deliveries(), other))
                    &&& self.deliveries()[other].retry_delay == delay
                    &&& jittered(before.config(), now, delay, self.deliveries()[other].deadline)
                } by {
                    if other == delivery {
                        assert(served.contains(entry));
                        assert(jitter <= before.config().jitter_bound(delay));
                    } else {
                        assert(!due(middle.deliveries(), now).contains(other));
                        let n = choose|n: int|
                            0 <= n < earlier.len() && earlier[n] == timer_entry(before.deliveries(), other);
                        assert(served[n] == earlier[n]);
                    }
                }
            }
            sends.push(send);
            next = self.first_due_delay(now);
        }
        proof {
            assert(due(self.deliveries(), now) =~= Set::<(MessageId, Peer)>::empty());
            assert(serves(before.deliveries(), before.pending(), now, served, sends@));
        }
        sends
    }
}

/// Whether `sends` serves the deliveries that are due at `now`: each once, in
/// the order of `served`, with the payload of its message.
pub open spec fn serves<Id: Key, Peer: Key, Scope>(
    deliveries: Map<(Id, Peer), PendingRecipient>,
    pending: Map<Id, MessageView<Scope>>,
    now: u64,
    served: Seq<(u64, (Id, Peer))>,
    sends: Seq<ScheduledSend<Peer>>,
) -> bool {
    &&& ascending(served)
    &&& served.len() == sends.len()
    &&& forall|delivery: (Id, Peer)| #[trigger]
        due(deliveries, now).contains(delivery) ==> served.contains(timer_entry(deliveries, delivery))
    &&& forall|i: int| #![trigger served[i]] #![trigger sends[i]]
        0 <= i < served.len() ==> {
            &&& due(deliveries, now).contains(served[i].1)
            &&& served[i] == timer_entry(deliveries, served[i].1)
            &&& sends[i].to == served[i].1.1
            &&& pending.contains_key(served[i].1.0)
            &&& sends[i].payload@ == pending[served[i].1.0].payload
        }
}

proof fn lemma_earliest_unique<Id: Key, Peer: Key>(
    deliveries: Map<(Id, Peer), PendingRecipient>,
    a: (Id, Peer),
    b: (Id, Peer),
)
    requires
        is_earliest(deliveries, a),
        is_earliest(deliveries, b),
    ensures
        a == b,
{
    if a != b {
        crate::order::lemma_before_asymmetric(timer_entry(deliveries, a), timer_entry(deliveries, b));
    }
}

/// The delay between two sends grows by the step and never exceeds the maximum.
pub proof fn law_delay_is_linear_and_capped(config: RetryConfig, delay: u64)
    ensures
        config.next_delay(delay) <= config.max,
        delay + config.step <= config.max ==> config.next_delay(delay) == delay + config.step,
        delay + config.step > config.max ==> config.next_delay(delay) == config.max,
        delay <= config.max ==> config.next_delay(delay) >= delay,
{
}

/// A deadline lies at least the delay after now, and at most a fifth of the delay
/// or the largest jitter later.
pub proof fn law_jitter_is_bounded(config: RetryConfig, now: u64, delay: u64, deadline: u64)
    requires
        jittered(config, now, delay, deadline),
    ensures
        now + delay <= deadline,
        deadline <= now + delay + config.max_jitter,
        deadline <= now + delay + delay / 5,
{
    let jitter = choose|jitter: u64|
        jitter <= config.jitter_bound(delay) && deadline == #[trigger] jittered_deadline(
            now,
            delay,
            jitter,
        );
    lemma_jitter_fits(config, delay, jitter);
    assert(config.jitter_bound(delay) * NANOS_PER_MILLI <= delay / 5);
}

/// Evidence is permanent: a scope that it made obsolete stays so, whatever is
/// observed later.
pub proof fn law_evidence_is_permanent<Policy: ObsolescencePolicy>(
    observed: Set<Policy::Evidence>,
    scope: Policy::Scope,
    evidence: Policy::Evidence,
    later: Policy::Evidence,
)
    requires
        Policy::obsoletes(scope, evidence),
    ensures
        obsolete_in::<Policy>(observed.insert(evidence), Some(scope)),
        obsolete_in::<Policy>(observed.insert(evidence).insert(later), Some(scope)),
{
    assert(observed.insert(evidence).contains(evidence));
    assert(observed.insert(evidence).insert(later).contains(evidence));
}

/// A message whose recipients all acknowledged it is as good as completed: no
/// delivery of it is left.
pub proof fn law_acknowledging_all_completes<Id, Peer>(
    deliveries: Map<(Id, Peer), PendingRecipient>,
    message_id: Id,
    last: Peer,
)
    requires
        forall|peer: Peer| #[trigger]
            deliveries.contains_key((message_id, peer)) ==> peer == last,
    ensures
        deliveries.remove((message_id, last)) == deliveries.remove_keys(
            deliveries_of::<Id, Peer>(set![message_id]),
        ),
{
    let kept = deliveries.remove((message_id, last));
    let completed = deliveries.remove_keys(deliveries_of::<Id, Peer>(set![message_id]));
    assert forall|delivery: (Id, Peer)| kept.contains_key(delivery) <==> #[trigger] completed.contains_key(
        delivery,
    ) by {
        if deliveries.contains_key(delivery) && delivery.0 == message_id {
            assert(deliveries.contains_key((message_id, delivery.1)));
        }
    }
    assert(kept =~= completed);
}

/// The largest jitter is a fifth of the delay or the configured maximum, whichever
/// is smaller, in whole milliseconds.
pub proof fn law_jitter_is_a_fifth_of_the_delay(config: RetryConfig, delay: u64)
    ensures
        ({
            let most = if delay / 5 < config.max_jitter {
                delay / 5
            } else {
                config.max_jitter
            };
            let bound = config.jitter_bound(delay) as int;
            bound * 1_000_000 <= most < (bound + 1) * 1_000_000
        }),
{
}

/// A message that is neither obsolete nor in conflict is sent once to each recipient
/// that is not being served, with its own contents, and scheduled for all of its
/// recipients; recipients that are being served keep their timers.
pub proof fn law_new_recipients_are_served_at_once<Peer: Key, Id: Key, Policy: ObsolescencePolicy>(
    before: RetryScheduler<Peer, Id, Policy>,
    after: RetryScheduler<Peer, Id, Policy>,
    id: Id,
    recipients: Seq<Peer>,
    payload: Seq<u8>,
    scope: Option<Policy::Scope>,
    now: u64,
    result: Result<Vec<ScheduledSend<Peer>>, EnqueueError>,
    peer: Peer,
)
    requires
        before.enqueues(after, id, recipients, payload, scope, now, result),
        !before.is_obsolete(scope),
        !before.pending().contains_key(id) || before.pending()[id] == (MessageView { payload, scope }),
        recipients.contains(peer),
    ensures
        result is Ok,
        after.pending().contains_key(id),
        after.pending()[id] == (MessageView { payload, scope }),
        after.deliveries().contains_key((id, peer)),
        ({
            let sends = result->Ok_0@;
            if before.deliveries().contains_key((id, peer)) {
                &&& after.deliveries()[(id, peer)] == before.deliveries()[(id, peer)]
                &&& forall|i: int| 0 <= i < sends.len() ==> (#[trigger] sends[i]).to != peer
            } else {
                &&& exists|i: int|
                    0 <= i < sends.len() && (#[trigger] sends[i]).to == peer && sends[i].payload@
                        == payload
                &&& after.deliveries()[(id, peer)].retry_delay == before.config().initial
                &&& after.deliveries()[(id, peer)].deadline >= now + before.config().initial
            }
        }),
{
    let sends = result->Ok_0@;
    let added = before.new_recipients(id, recipients);
    assert(!before.conflicts(id, payload, scope));
    let targets = send_targets(sends);
    assert forall|i: int| 0 <= i < sends.len() implies added.contains((#[trigger] sends[i]).to) by {
        assert(targets[i] == sends[i].to);
        assert(targets.to_set().contains(targets[i]));
    }
    if before.deliveries().contains_key((id, peer)) {
        assert(after.deliveries().dom().contains((id, peer)));
    } else {
        assert(added.contains(peer));
        assert(targets.to_set().contains(peer));
        let i = choose|i: int| 0 <= i < targets.len() && targets[i] == peer;
        assert(sends[i].to == peer);
        assert(after.deliveries().dom().contains((id, peer)));
    }
}

/// A message is refused exactly where it is pending with other contents or another
/// scope, and a refusal changes nothing.
pub proof fn law_reused_identity_is_refused<Peer: Key, Id: Key, Policy: ObsolescencePolicy>(
    before: RetryScheduler<Peer, Id, Policy>,
    after: RetryScheduler<Peer, Id, Policy>,
    id: Id,
    recipients: Seq<Peer>,
    payload: Seq<u8>,
    scope: Option<Policy::Scope>,
    now: u64,
    result: Result<Vec<ScheduledSend<Peer>>, EnqueueError>,
)
    requires
        before.enqueues(after, id, recipients, payload, scope, now, result),
        !before.is_obsolete(scope),
        recipients.len() > 0,
    ensures
        result is Err <==> before.pending().contains_key(id) && (before.pending()[id].payload != payload
            || before.pending()[id].scope != scope),
        result is Err ==> after.pending() == before.pending() && after.deliveries()
            == before.deliveries(),
{
}

/// Starting a message leaves every other message alone.
pub proof fn law_enqueueing_spares_the_others<Peer: Key, Id: Key, Policy: ObsolescencePolicy>(
    before: RetryScheduler<Peer, Id, Policy>,
    after: RetryScheduler<Peer, Id, Policy>,
    id: Id,
    recipients: Seq<Peer>,
    payload: Seq<u8>,
    scope: Option<Policy::Scope>,
    now: u64,
    result: Result<Vec<ScheduledSend<Peer>>, EnqueueError>,
    other: (Id, Peer),
)
    requires
        before.enqueues(after, id, recipients, payload, scope, now, result),
        other.0 != id,
    ensures
        after.pending().contains_key(other.0) <==> before.pending().contains_key(other.0),
        before.pending().contains_key(other.0) ==> after.pending()[other.0] == before.pending()[other.0],
        after.deliveries().contains_key(other) <==> before.deliveries().contains_key(other),
        before.deliveries().contains_key(other) ==> after.deliveries()[other]
            == before.deliveries()[other],
        after.observed() == before.observed(),
{
    if !(before.is_obsolete(scope) || recipients.len() == 0) && !before.conflicts(id, payload, scope) {
        assert(after.deliveries().dom().contains(other) <==> before.deliveries().dom().contains(other));
    }
}

/// Evidence ends exactly the messages whose scope it makes obsolete.
pub proof fn law_evidence_ends_exactly_its_scope<Peer: Key, Id: Key, Policy: ObsolescencePolicy>(
    scheduler: RetryScheduler<Peer, Id, Policy>,
    evidence: Policy::Evidence,
    id: Id,
)
    requires
        scheduler.pending().contains_key(id),
    ensures
        scheduler.obsoleted_by(evidence).contains(id) <==> (scheduler.pending()[id].scope matches Some(
            scope,
        ) && Policy::obsoletes(scope, evidence)),
{
}

/// A retry serves every delivery that is due with the contents of its message, in
/// the order of the deadlines, and no other.
pub proof fn law_due_deliveries_are_served<Id: Key, Peer: Key, Scope>(
    deliveries: Map<(Id, Peer), PendingRecipient>,
    pending: Map<Id, MessageView<Scope>>,
    now: u64,
    served: Seq<(u64, (Id, Peer))>,
    sends: Seq<ScheduledSend<Peer>>,
    delivery: (Id, Peer),
)
    requires
        serves(deliveries, pending, now, served, sends),
        deliveries.contains_key(delivery),
    ensures
        deliveries[delivery].deadline <= now ==> exists|i: int|
            0 <= i < sends.len() && (#[trigger] sends[i]).to == delivery.1 && sends[i].payload@
                == pending[delivery.0].payload,
        deliveries[delivery].deadline > now ==> forall|i: int|
            0 <= i < served.len() ==> (#[trigger] served[i]).1 != delivery,
        forall|i: int, j: int|
            0 <= i < j < served.len() ==> (#[trigger] served[i]).0 <= (#[trigger] served[j]).0,
{
    if deliveries[delivery].deadline <= now {
        assert(due(deliveries, now).contains(delivery));
        let entry = timer_entry(deliveries, delivery);
        let i = choose|i: int| 0 <= i < served.len() && served[i] == entry;
        assert(sends[i].to == delivery.1);
    }
    assert forall|i: int, j: int| 0 <= i < j < served.len() implies (#[trigger] served[i]).0 <= (
    #[trigger] served[j]).0 by {
        assert(served[i].before(served[j]));
    }
}

/// A delivery that was due is due again after its next delay at the earliest, and
/// one that was not due keeps its deadline.
pub proof fn law_retry_postpones_what_was_due<Id, Peer>(
    config: RetryConfig,
    before: Map<(Id, Peer), PendingRecipient>,
    after: Map<(Id, Peer), PendingRecipient>,
    now: u64,
    delivery: (Id, Peer),
)
    requires
        rescheduled(config, before, after, now),
        before.contains_key(delivery),
    ensures
        after.contains_key(delivery),
        before[delivery].deadline > now ==> after[delivery] == before[delivery],
        before[delivery].deadline <= now ==> {
            let delay = if before[delivery].retry_delay + config.step <= config.max {
                before[delivery].retry_delay + config.step
            } else {
                config.max as int
            };
            &&& after[delivery].retry_delay == delay
            &&& now + delay <= after[delivery].deadline <= now + delay + config.max_jitter
        },
{
    assert(after.dom().contains(delivery));
    if before[delivery].deadline <= now {
        law_jitter_is_bounded(
            config,
            now,
            config.next_delay(before[delivery].retry_delay),
            after[delivery].deadline,
        );
    }
}

/// No delivery is due before the earliest one.
pub proof fn law_earliest_delivery_is_first<Id: Key, Peer: Key>(
    deliveries: Map<(Id, Peer), PendingRecipient>,
    first: (Id, Peer),
    other: (Id, Peer),
)
    requires
        is_earliest(deliveries, first),
        deliveries.contains_key(other),
    ensures
        deliveries[first].deadline <= deliveries[other].deadline,
{
}

/// Handing in a message changes neither the backoff nor what was observed, and sends
/// the message at most once to each of its recipients.
pub proof fn law_message_is_sent_once_to_each<Peer: Key, Id: Key, Policy: ObsolescencePolicy>(
    before: RetryScheduler<Peer, Id, Policy>,
    after: RetryScheduler<Peer, Id, Policy>,
    message_id: Id,
    recipients: Seq<Peer>,
    payload: Seq<u8>,
    scope: Option<Policy::Scope>,
    now: u64,
    result: Result<Vec<ScheduledSend<Peer>>, EnqueueError>,
    i: int,
    j: int,
)
    requires
        before.enqueues(after, message_id, recipients, payload, scope, now, result),
        result is Ok,
        0 <= i < j < result->Ok_0@.len(),
    ensures
        after.config() == before.config(),
        after.observed() == before.observed(),
        result->Ok_0@[i].to != result->Ok_0@[j].to,
        result->Ok_0@[i].payload@ == payload,
        recipients.contains(result->Ok_0@[i].to),
{
    let targets = send_targets(result->Ok_0@);
    crate::order::lemma_ascending_distinct(targets);
    assert(targets[i] == result->Ok_0@[i].to);
    assert(targets[j] == result->Ok_0@[j].to);
    assert(targets.to_set().contains(targets[i]));
}

} // verus!
