//! Protocol messages as the runtime sees them.

use crate::dkg::ids::{
    DkgDeliveryPolicy, DkgMessageId, DkgMessageKey, DkgMessageKind, PartyId,
};
use crate::octets::copy_bytes;
use crate::ordered_map::{sort_set, sorted_set};
use vstd::prelude::*;

verus! {

/// A decoded protocol message.
#[derive(Debug)]
pub struct DkgMessage {
    pub kind: DkgMessageKind,
    /// The dealer that a retrieval message is about.
    pub retrieval_dealer: Option<PartyId>,
    pub bytes: Vec<u8>,
}

#[verifier::ext_equal]
pub struct DkgMessageView {
    pub kind: DkgMessageKind,
    pub retrieval_dealer: Option<PartyId>,
    pub bytes: Seq<u8>,
}

impl View for DkgMessage {
    type V = DkgMessageView;

    open spec fn view(&self) -> DkgMessageView {
        DkgMessageView {
            kind: self.kind,
            retrieval_dealer: self.retrieval_dealer,
            bytes: self.bytes@,
        }
    }
}

impl DkgMessage {
    pub fn duplicate(&self) -> (copy: Self)
        ensures
            copy@ == self@,
    {
        DkgMessage {
            kind: self.kind,
            retrieval_dealer: self.retrieval_dealer,
            bytes: copy_bytes(&self.bytes),
        }
    }
}

/// A message of this kind is not kept in the recovery log.
#[derive(Clone, Copy, Debug, PartialEq, Eq, Structural)]
pub struct EphemeralMessage(pub DkgMessageKind);

/// A protocol message that is safe to keep in the recovery log.
///
/// Durable traffic, retried retrieval requests, and one-shot retrieval responses
/// share one message type; only durable traffic may enter recovery state.
#[derive(Debug)]
pub struct DurableDkgMessage {
    message: DkgMessage,
}

impl DurableDkgMessage {
    /// The message.
    pub closed spec fn inner(self) -> DkgMessage {
        self.message
    }

    /// Whether the message is durable, as every one made by `try_from` is.
    pub open spec fn is_durable(self) -> bool {
        self.inner().kind.policy() == DkgDeliveryPolicy::Durable
    }

    pub fn try_from(message: DkgMessage) -> (result: Result<Self, EphemeralMessage>)
        ensures
            match result {
                Ok(durable) => message.kind.policy() == DkgDeliveryPolicy::Durable && durable.inner()
                    == message,
                Err(error) => message.kind.policy() != DkgDeliveryPolicy::Durable && error
                    == EphemeralMessage(message.kind),
            },
    {
        if message.kind.delivery_policy() != DkgDeliveryPolicy::Durable {
            return Err(EphemeralMessage(message.kind));
        }
        Ok(DurableDkgMessage { message })
    }

    pub fn as_message(&self) -> (message: &DkgMessage)
        ensures
            *message == self.inner(),
    {
        &self.message
    }

    pub fn into_message(self) -> (message: DkgMessage)
        ensures
            message == self.inner(),
    {
        self.message
    }
}

/// A message to send, with the slots that it fills at each party; there are none
/// where the protocol does not let it go to that party.
#[derive(Debug)]
pub struct OutgoingMessage {
    pub message: DkgMessage,
    pub identities: Vec<Option<Vec<DkgMessageKey>>>,
}

impl OutgoingMessage {
    /// The slots that the message fills at `party`.
    pub open spec fn slots_at(self, party: PartyId) -> Option<Seq<DkgMessageKey>> {
        if party.0 < self.identities@.len() {
            match self.identities@[party.0 as int] {
                Some(keys) => Some(keys@),
                None => None,
            }
        } else {
            None
        }
    }

    /// The slots that the message fills at `recipients`, one recipient after the
    /// other.
    pub open spec fn slot_list(self, recipients: Seq<PartyId>) -> Option<Seq<DkgMessageKey>>
        decreases recipients.len(),
    {
        if recipients.len() == 0 {
            Some(Seq::empty())
        } else {
            match self.slot_list(recipients.drop_last()) {
                Some(keys) => match self.slots_at(recipients.last()) {
                    Some(more) => Some(keys + more),
                    None => None,
                },
                None => None,
            }
        }
    }

    /// The slots of the message for `recipients`, in ascending order.
    pub open spec fn slots_for(self, recipients: Seq<PartyId>) -> Option<Seq<DkgMessageKey>> {
        match self.slot_list(recipients) {
            Some(keys) if keys.len() > 0 => Some(sorted_set(keys)),
            _ => None,
        }
    }

    proof fn lemma_no_slots(self, recipients: Seq<PartyId>, count: int)
        requires
            0 <= count <= recipients.len(),
            self.slot_list(recipients.take(count)) is None,
        ensures
            self.slot_list(recipients) is None,
        decreases recipients.len(),
    {
        if count == recipients.len() {
            assert(recipients.take(count) =~= recipients);
        } else {
            assert(recipients.drop_last().take(count) =~= recipients.take(count));
            self.lemma_no_slots(recipients.drop_last(), count);
        }
    }

    fn collect_slots(&self, recipients: &Vec<PartyId>) -> (keys: Option<Vec<DkgMessageKey>>)
        ensures
            match keys {
                Some(keys) => self.slot_list(recipients@) == Some(keys@),
                None => self.slot_list(recipients@) is None,
            },
    {
        let mut keys: Vec<DkgMessageKey> = Vec::new();
        let mut i: usize = 0;
        assert(recipients@.take(0) =~= Seq::empty());
        while i < recipients.len()
            invariant
                i <= recipients@.len(),
                self.slot_list(recipients@.take(i as int)) == Some(keys@),
            decreases recipients@.len() - i,
        {
            let index: usize = recipients[i].0 as usize;
            proof {
                assert(recipients@.take(i + 1).drop_last() =~= recipients@.take(i as int));
                assert(recipients@.take(i + 1).last() == recipients@[i as int]);
            }
            if index >= self.identities.len() {
                proof {
                    self.lemma_no_slots(recipients@, i + 1);
                }
                return None;
            }
            match &self.identities[index] {
                Some(more) => {
                    let ghost before = keys@;
                    let mut k: usize = 0;
                    assert(keys@ =~= before + more@.take(0));
                    while k < more.len()
                        invariant
                            k <= more@.len(),
                            keys@ == before + more@.take(k as int),
                        decreases more@.len() - k,
                    {
                        keys.push(more[k]);
                        assert(keys@ =~= before + more@.take(k + 1));
                        k += 1;
                    }
                    assert(more@.take(k as int) =~= more@);
                },
                None => {
                    proof {
                        self.lemma_no_slots(recipients@, i + 1);
                    }
                    return None;
                },
            }
            i += 1;
        }
        assert(recipients@.take(i as int) =~= recipients@);
        Some(keys)
    }

    /// The identity of the message for `recipients`.
    pub fn message_id(&self, recipients: &Vec<PartyId>) -> (id: Option<DkgMessageId>)
        ensures
            match id {
                Some(id) => self.slots_for(recipients@) == Some(id.keys()),
                None => self.slots_for(recipients@) is None,
            },
    {
        match self.collect_slots(recipients) {
            Some(keys) => {
                if keys.len() == 0 {
                    return None;
                }
                let sorted: Vec<DkgMessageKey> = sort_set(&keys);
                let id: Option<DkgMessageId> = DkgMessageId::new(&sorted);
                proof {
                    assert(keys@.to_set().contains(keys@[0]));
                    assert(sorted@.to_set().contains(keys@[0]));
                }
                id
            },
            None => None,
        }
    }
}

/// The request that a retrieval response answers.
pub open spec fn answered_request(
    message: DkgMessageView,
    requester: PartyId,
    responder: PartyId,
) -> Option<DkgMessageKey> {
    let kind = match message.kind {
        DkgMessageKind::BveRetrievalResponse => Some(DkgMessageKind::BveRetrievalRequest),
        DkgMessageKind::PcRetrievalResponse => Some(DkgMessageKind::PcRetrievalRequest),
        _ => None,
    };
    match (kind, message.retrieval_dealer) {
        (Some(kind), Some(dealer)) => Some(
            DkgMessageKey { kind, dealer, source: requester, target: responder, level: 0 },
        ),
        _ => None,
    }
}

/// The request that a retrieval response from `responder` answers: other parties
/// are still asked.
pub fn request_completed_by_response(message: &DkgMessage, requester: PartyId, responder: PartyId) -> (id:
    Option<DkgMessageId>)
    ensures
        id == (match answered_request(message@, requester, responder) {
            Some(key) => Some(DkgMessageId::Single(key)),
            None => None,
        }),
{
    let kind: DkgMessageKind = match message.kind {
        DkgMessageKind::BveRetrievalResponse => DkgMessageKind::BveRetrievalRequest,
        DkgMessageKind::PcRetrievalResponse => DkgMessageKind::PcRetrievalRequest,
        _ => {
            return None;
        },
    };
    match message.retrieval_dealer {
        Some(dealer) => Some(
            DkgMessageId::single(DkgMessageKey::new(kind, dealer, requester, responder, 0)),
        ),
        None => None,
    }
}

/// A retrieval response answers the request of the same sort about the same dealer
/// that the requester sent to the responder; no other message answers a request.
pub proof fn law_response_answers_its_request(
    message: DkgMessageView,
    requester: PartyId,
    responder: PartyId,
)
    ensures
        ({
            let answered = answered_request(message, requester, responder);
            &&& answered is Some <==> message.retrieval_dealer is Some && (message.kind
                == DkgMessageKind::BveRetrievalResponse || message.kind
                == DkgMessageKind::PcRetrievalResponse)
            &&& answered matches Some(key) ==> {
                &&& Some(key.dealer) == message.retrieval_dealer
                &&& key.source == requester
                &&& key.target == responder
                &&& key.level == 0
                &&& message.kind == DkgMessageKind::BveRetrievalResponse <==> key.kind
                    == DkgMessageKind::BveRetrievalRequest
                &&& message.kind == DkgMessageKind::PcRetrievalResponse <==> key.kind
                    == DkgMessageKind::PcRetrievalRequest
            }
        }),
{
}

/// A message has slots for its recipients exactly where it may go to each of them
/// and fills one slot at least; they are the slots that it fills at one of them,
/// each once and in ascending order.
pub proof fn law_slots_are_those_of_the_recipients(
    message: OutgoingMessage,
    recipients: Seq<PartyId>,
    key: DkgMessageKey,
)
    requires
        message.slots_for(recipients) is Some,
    ensures
        crate::order::ascending(message.slots_for(recipients)->Some_0),
        message.slots_for(recipients)->Some_0.contains(key) <==> exists|i: int|
            0 <= i < recipients.len() && message.slots_at(#[trigger] recipients[i])->Some_0.contains(key),
        forall|i: int|
            0 <= i < recipients.len() ==> message.slots_at(#[trigger] recipients[i]) is Some,
{
    let listed = message.slot_list(recipients)->Some_0;
    lemma_slot_list(message, recipients, key);
    crate::ordered_map::lemma_sorted_set(listed);
    assert(sorted_set(listed).to_set().contains(key) <==> listed.to_set().contains(key));
}

proof fn lemma_slot_list(message: OutgoingMessage, recipients: Seq<PartyId>, key: DkgMessageKey)
    ensures
        message.slot_list(recipients) is Some <==> forall|i: int|
            0 <= i < recipients.len() ==> message.slots_at(#[trigger] recipients[i]) is Some,
        message.slot_list(recipients) matches Some(listed) ==> (listed.contains(key) <==> exists|i: int|
            0 <= i < recipients.len() && message.slots_at(#[trigger] recipients[i])->Some_0.contains(
                key,
            )),
    decreases recipients.len(),
{
    if recipients.len() > 0 {
        let fewer = recipients.drop_last();
        lemma_slot_list(message, fewer, key);
        let last = recipients.len() - 1;
        assert(recipients[last] == recipients.last());
        if forall|i: int|
            0 <= i < recipients.len() ==> message.slots_at(#[trigger] recipients[i]) is Some {
            assert forall|i: int| 0 <= i < fewer.len() implies message.slots_at(
                #[trigger] fewer[i],
            ) is Some by {
                assert(fewer[i] == recipients[i]);
            }
        }
        if message.slot_list(recipients) is Some {
            let listed = message.slot_list(recipients)->Some_0;
            let earlier = message.slot_list(fewer)->Some_0;
            let more = message.slots_at(recipients.last())->Some_0;
            assert(listed == earlier + more);
            assert forall|i: int| 0 <= i < recipients.len() implies message.slots_at(
                #[trigger] recipients[i],
            ) is Some by {
                if i < last {
                    assert(fewer[i] == recipients[i]);
                }
            }
            if listed.contains(key) {
                let k = choose|k: int| 0 <= k < listed.len() && listed[k] == key;
                if k < earlier.len() {
                    assert(earlier[k] == key);
                    let i = choose|i: int|
                        0 <= i < fewer.len() && message.slots_at(#[trigger] fewer[i])->Some_0.contains(
                            key,
                        );
                    assert(recipients[i] == fewer[i]);
                } else {
                    assert(more[k - earlier.len()] == key);
                }
            }
            if exists|i: int|
                0 <= i < recipients.len() && message.slots_at(#[trigger] recipients[i])->Some_0.contains(
                    key,
                ) {
                let i = choose|i: int|
                    0 <= i < recipients.len() && message.slots_at(
                        #[trigger] recipients[i],
                    )->Some_0.contains(key);
                if i < last {
                    assert(fewer[i] == recipients[i]);
                    let k = choose|k: int| 0 <= k < earlier.len() && earlier[k] == key;
                    assert(listed[k] == key);
                } else {
                    let k = choose|k: int| 0 <= k < more.len() && more[k] == key;
                    assert(listed[earlier.len() + k] == key);
                }
            }
        }
    }
}

} // verus!
