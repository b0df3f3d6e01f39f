//! Identifiers of epochs, blocks, parties, nodes, and protocol messages.

use crate::order::{Key, Rank};
use vstd::prelude::*;

verus! {

/// A validator epoch.
#[derive(Clone, Copy, Debug, PartialEq, Eq, Structural)]
pub struct Epoch(pub u64);

/// A block number.
#[derive(Clone, Copy, Debug, PartialEq, Eq, Structural)]
pub struct SeqNum(pub u64);

/// A party of one session.
#[derive(Clone, Copy, Debug, PartialEq, Eq, Structural)]
pub struct PartyId(pub u32);

/// The number of a contract record.
#[derive(Clone, Copy, Debug, PartialEq, Eq, Structural)]
pub struct RecordId(pub u64);

/// A node, by its compressed public key.
#[derive(Clone, Copy, Debug)]
pub struct NodeId {
    pub key: [u8; 33],
}

/// An account address.
#[derive(Clone, Copy, Debug)]
pub struct Address {
    pub bytes: [u8; 20],
}

impl Key for Epoch {
    open spec fn before(self, other: Self) -> bool {
        self.0 < other.0
    }

    proof fn irreflexive(a: Self) {
    }

    proof fn transitive(a: Self, b: Self, c: Self) {
    }

    proof fn total(a: Self, b: Self) {
    }

    fn rank(&self, other: &Self) -> Rank {
        self.0.rank(&other.0)
    }

    fn duplicate(&self) -> Self {
        *self
    }
}

impl Key for PartyId {
    open spec fn before(self, other: Self) -> bool {
        self.0 < other.0
    }

    proof fn irreflexive(a: Self) {
    }

    proof fn transitive(a: Self, b: Self, c: Self) {
    }

    proof fn total(a: Self, b: Self) {
    }

    fn rank(&self, other: &Self) -> Rank {
        self.0.rank(&other.0)
    }

    fn duplicate(&self) -> Self {
        *self
    }
}

impl Key for RecordId {
    open spec fn before(self, other: Self) -> bool {
        self.0 < other.0
    }

    proof fn irreflexive(a: Self) {
    }

    proof fn transitive(a: Self, b: Self, c: Self) {
    }

    proof fn total(a: Self, b: Self) {
    }

    fn rank(&self, other: &Self) -> Rank {
        self.0.rank(&other.0)
    }

    fn duplicate(&self) -> Self {
        *self
    }
}

impl Key for NodeId {
    open spec fn before(self, other: Self) -> bool {
        self.key.before(other.key)
    }

    proof fn irreflexive(a: Self) {
        <[u8; 33] as Key>::irreflexive(a.key);
    }

    proof fn transitive(a: Self, b: Self, c: Self) {
        <[u8; 33] as Key>::transitive(a.key, b.key, c.key);
    }

    proof fn total(a: Self, b: Self) {
        <[u8; 33] as Key>::total(a.key, b.key);
    }

    fn rank(&self, other: &Self) -> Rank {
        self.key.rank(&other.key)
    }

    fn duplicate(&self) -> Self {
        *self
    }
}

impl Key for Address {
    open spec fn before(self, other: Self) -> bool {
        self.bytes.before(other.bytes)
    }

    proof fn irreflexive(a: Self) {
        <[u8; 20] as Key>::irreflexive(a.bytes);
    }

    proof fn transitive(a: Self, b: Self, c: Self) {
        <[u8; 20] as Key>::transitive(a.bytes, b.bytes, c.bytes);
    }

    proof fn total(a: Self, b: Self) {
        <[u8; 20] as Key>::total(a.bytes, b.bytes);
    }

    fn rank(&self, other: &Self) -> Rank {
        self.bytes.rank(&other.bytes)
    }

    fn duplicate(&self) -> Self {
        *self
    }
}

/// What a protocol message is about.
#[derive(Clone, Copy, Debug, PartialEq, Eq, Structural)]
pub enum DkgMessageKind {
    PcProposal,
    PcAck,
    BveProposal,
    BveApprovalBatch,
    BveRetrievalRequest,
    BveRetrievalResponse,
    PcRetrievalRequest,
    PcRetrievalResponse,
    Ladder,
    LowerConversion,
    OpenPower,
    Done,
}

/// How the runtime delivers a message.
#[derive(Clone, Copy, Debug, PartialEq, Eq, Structural)]
pub enum DkgDeliveryPolicy {
    /// Journaled, resent, and acknowledged by the transport.
    Durable,
    /// Resent until the answer arrives.
    Retry,
    /// Sent once.
    Once,
}

impl DkgMessageKind {
    /// Retrieval traffic, which is never journaled.
    pub open spec fn sync(self) -> bool {
        self == DkgMessageKind::BveRetrievalRequest || self == DkgMessageKind::BveRetrievalResponse || self
            == DkgMessageKind::PcRetrievalRequest || self == DkgMessageKind::PcRetrievalResponse
    }

    pub open spec fn policy(self) -> DkgDeliveryPolicy {
        if self == DkgMessageKind::BveRetrievalRequest || self == DkgMessageKind::PcRetrievalRequest {
            DkgDeliveryPolicy::Retry
        } else if self.sync() {
            DkgDeliveryPolicy::Once
        } else {
            DkgDeliveryPolicy::Durable
        }
    }

    pub fn is_sync(self) -> (sync: bool)
        ensures
            sync == self.sync(),
    {
        match self {
            DkgMessageKind::BveRetrievalRequest => true,
            DkgMessageKind::BveRetrievalResponse => true,
            DkgMessageKind::PcRetrievalRequest => true,
            DkgMessageKind::PcRetrievalResponse => true,
            _ => false,
        }
    }

    pub fn delivery_policy(self) -> (policy: DkgDeliveryPolicy)
        ensures
            policy == self.policy(),
    {
        match self {
            DkgMessageKind::BveRetrievalRequest => DkgDeliveryPolicy::Retry,
            DkgMessageKind::PcRetrievalRequest => DkgDeliveryPolicy::Retry,
            DkgMessageKind::BveRetrievalResponse => DkgDeliveryPolicy::Once,
            DkgMessageKind::PcRetrievalResponse => DkgDeliveryPolicy::Once,
            _ => DkgDeliveryPolicy::Durable,
        }
    }

    /// The position of the kind among all kinds.
    pub open spec fn ordinal(self) -> u8 {
        match self {
            DkgMessageKind::PcProposal => 0,
            DkgMessageKind::PcAck => 1,
            DkgMessageKind::BveProposal => 2,
            DkgMessageKind::BveApprovalBatch => 3,
            DkgMessageKind::BveRetrievalRequest => 4,
            DkgMessageKind::BveRetrievalResponse => 5,
            DkgMessageKind::PcRetrievalRequest => 6,
            DkgMessageKind::PcRetrievalResponse => 7,
            DkgMessageKind::Ladder => 8,
            DkgMessageKind::LowerConversion => 9,
            DkgMessageKind::OpenPower => 10,
            DkgMessageKind::Done => 11,
        }
    }

    pub(crate) fn position(self) -> (position: u8)
        ensures
            position == self.ordinal(),
    {
        match self {
            DkgMessageKind::PcProposal => 0,
            DkgMessageKind::PcAck => 1,
            DkgMessageKind::BveProposal => 2,
            DkgMessageKind::BveApprovalBatch => 3,
            DkgMessageKind::BveRetrievalRequest => 4,
            DkgMessageKind::BveRetrievalResponse => 5,
            DkgMessageKind::PcRetrievalRequest => 6,
            DkgMessageKind::PcRetrievalResponse => 7,
            DkgMessageKind::Ladder => 8,
            DkgMessageKind::LowerConversion => 9,
            DkgMessageKind::OpenPower => 10,
            DkgMessageKind::Done => 11,
        }
    }
}

/// The semantic slot of a message: its kind, the parties it concerns, and the
/// level it belongs to. Parts that a kind does not use are zero.
#[derive(Clone, Copy, Debug, PartialEq, Eq, Structural)]
pub struct DkgMessageKey {
    pub kind: DkgMessageKind,
    pub dealer: PartyId,
    pub source: PartyId,
    pub target: PartyId,
    pub level: u64,
}

impl DkgMessageKey {
    pub fn new(
        kind: DkgMessageKind,
        dealer: PartyId,
        source: PartyId,
        target: PartyId,
        level: u64,
    ) -> (key: Self)
        ensures
            key == (DkgMessageKey { kind, dealer, source, target, level }),
    {
        DkgMessageKey { kind, dealer, source, target, level }
    }

    /// The key's parts in the order in which keys are compared.
    pub open spec fn parts(self) -> ((u8, u32), ((u32, u32), u64)) {
        ((self.kind.ordinal(), self.dealer.0), ((self.source.0, self.target.0), self.level))
    }

    fn ranked(&self) -> (parts: ((u8, u32), ((u32, u32), u64)))
        ensures
            parts == self.parts(),
    {
        ((self.kind.position(), self.dealer.0), ((self.source.0, self.target.0), self.level))
    }
}

impl Key for DkgMessageKey {
    open spec fn before(self, other: Self) -> bool {
        self.parts().before(other.parts())
    }

    proof fn irreflexive(a: Self) {
        <((u8, u32), ((u32, u32), u64)) as Key>::irreflexive(a.parts());
    }

    proof fn transitive(a: Self, b: Self, c: Self) {
        <((u8, u32), ((u32, u32), u64)) as Key>::transitive(a.parts(), b.parts(), c.parts());
    }

    proof fn total(a: Self, b: Self) {
        <((u8, u32), ((u32, u32), u64)) as Key>::total(a.parts(), b.parts());
    }

    fn rank(&self, other: &Self) -> Rank {
        self.ranked().rank(&other.ranked())
    }

    fn duplicate(&self) -> Self {
        *self
    }
}

/// A message, by the slots that it fills: a chain of one or more keys.
#[derive(Debug)]
pub enum DkgMessageId {
    Single(DkgMessageKey),
    More(DkgMessageKey, Box<DkgMessageId>),
}

impl DkgMessageId {
    /// The keys of the chain.
    pub open spec fn keys(self) -> Seq<DkgMessageKey>
        decreases self,
    {
        match self {
            DkgMessageId::Single(key) => seq![key],
            DkgMessageId::More(key, rest) => seq![key] + rest.keys(),
        }
    }

    /// Chains compare key by key; a chain comes before its extensions.
    pub open spec fn precedes(self, other: Self) -> bool
        decreases self,
    {
        match (self, other) {
            (DkgMessageId::Single(a), DkgMessageId::Single(b)) => a.before(b),
            (DkgMessageId::Single(a), DkgMessageId::More(b, _)) => a.before(b) || a == b,
            (DkgMessageId::More(a, _), DkgMessageId::Single(b)) => a.before(b),
            (DkgMessageId::More(a, x), DkgMessageId::More(b, y)) => a.before(b) || (a == b && x.precedes(*y)),
        }
    }

    /// The message that fills one slot.
    pub fn single(key: DkgMessageKey) -> (id: Self)
        ensures
            id == DkgMessageId::Single(key),
            id.keys() == seq![key],
    {
        DkgMessageId::Single(key)
    }

    /// The message that fills the slots of `keys`, if there are any.
    pub fn new(keys: &Vec<DkgMessageKey>) -> (id: Option<Self>)
        ensures
            match id {
                Some(id) => keys@.len() > 0 && id.keys() == keys@,
                None => keys@.len() == 0,
            },
    {
        if keys.len() == 0 {
            return None;
        }
        let mut i: usize = keys.len() - 1;
        let mut id: DkgMessageId = DkgMessageId::Single(keys[i]);
        assert(keys@.skip(i as int) =~= seq![keys@[i as int]]);
        while i > 0
            invariant
                i < keys@.len(),
                id.keys() == keys@.skip(i as int),
            decreases i,
        {
            let ghost tail = id;
            i -= 1;
            id = DkgMessageId::More(keys[i], Box::new(id));
            proof {
                assert(id.keys() == seq![keys@[i as int]] + tail.keys());
                assert(keys@.skip(i as int) =~= seq![keys@[i as int]] + keys@.skip(i + 1));
            }
        }
        assert(keys@.skip(0) =~= keys@);
        Some(id)
    }

    /// The slots that the message fills.
    pub fn key_list(&self) -> (keys: Vec<DkgMessageKey>)
        ensures
            keys@ == self.keys(),
        decreases self,
    {
        match self {
            DkgMessageId::Single(key) => {
                let mut keys: Vec<DkgMessageKey> = Vec::new();
                keys.push(*key);
                assert(keys@ =~= self.keys());
                keys
            },
            DkgMessageId::More(key, rest) => {
                let mut keys: Vec<DkgMessageKey> = rest.key_list();
                keys.insert(0, *key);
                assert(keys@ =~= self.keys());
                keys
            },
        }
    }

    /// Whether the message fills the slot of `key`.
    pub fn contains(&self, key: &DkgMessageKey) -> (found: bool)
        ensures
            found == self.keys().contains(*key),
        decreases self,
    {
        match self {
            DkgMessageId::Single(own) => {
                assert(self.keys() == seq![*own]);
                assert(self.keys()[0] == *own);
                *own == *key
            },
            DkgMessageId::More(own, rest) => {
                let found: bool = rest.contains(key);
                proof {
                    assert(self.keys() == seq![*own] + rest.keys());
                    assert(self.keys()[0] == *own);
                    if found {
                        let i = choose|i: int| 0 <= i < rest.keys().len() && rest.keys()[i] == *key;
                        assert(self.keys()[i + 1] == *key);
                    }
                    if self.keys().contains(*key) && *own != *key {
                        let i = choose|i: int| 0 <= i < self.keys().len() && self.keys()[i] == *key;
                        assert(rest.keys()[i - 1] == *key);
                    }
                }
                *own == *key || found
            },
        }
    }

    fn rank_chain(&self, other: &Self) -> (rank: Rank)
        ensures
            match rank {
                Rank::Less => self.precedes(*other),
                Rank::Equal => *self == *other,
                Rank::Greater => other.precedes(*self),
            },
        decreases self,
    {
        match (self, other) {
            (DkgMessageId::Single(a), DkgMessageId::Single(b)) => a.rank(b),
            (DkgMessageId::Single(a), DkgMessageId::More(b, _)) => match a.rank(b) {
                Rank::Greater => Rank::Greater,
                _ => Rank::Less,
            },
            (DkgMessageId::More(a, _), DkgMessageId::Single(b)) => match a.rank(b) {
                Rank::Less => Rank::Less,
                _ => Rank::Greater,
            },
            (DkgMessageId::More(a, x), DkgMessageId::More(b, y)) => match a.rank(b) {
                Rank::Less => Rank::Less,
                Rank::Greater => Rank::Greater,
                Rank::Equal => x.rank_chain(y),
            },
        }
    }

    fn copy_chain(&self) -> (copy: Self)
        ensures
            copy == *self,
        decreases self,
    {
        match self {
            DkgMessageId::Single(key) => DkgMessageId::Single(*key),
            DkgMessageId::More(key, rest) => DkgMessageId::More(*key, Box::new(rest.copy_chain())),
        }
    }
}

proof fn lemma_chain_irreflexive(a: DkgMessageId)
    ensures
        !a.precedes(a),
    decreases a,
{
    match a {
        DkgMessageId::Single(key) => DkgMessageKey::irreflexive(key),
        DkgMessageId::More(key, rest) => {
            DkgMessageKey::irreflexive(key);
            lemma_chain_irreflexive(*rest);
        },
    }
}

spec fn head(id: DkgMessageId) -> DkgMessageKey {
    match id {
        DkgMessageId::Single(key) => key,
        DkgMessageId::More(key, _) => key,
    }
}

proof fn lemma_chain_transitive(a: DkgMessageId, b: DkgMessageId, c: DkgMessageId)
    requires
        a.precedes(b),
        b.precedes(c),
    ensures
        a.precedes(c),
    decreases a,
{
    let (x, y, z) = (head(a), head(b), head(c));
    if x.before(y) && y.before(z) {
        DkgMessageKey::transitive(x, y, z);
    }
    match (a, b, c) {
        (DkgMessageId::More(_, p), DkgMessageId::More(_, q), DkgMessageId::More(_, r)) => {
            if p.precedes(*q) && q.precedes(*r) {
                lemma_chain_transitive(*p, *q, *r);
            }
        },
        _ => {},
    }
}

proof fn lemma_chain_total(a: DkgMessageId, b: DkgMessageId)
    ensures
        a.precedes(b) || b.precedes(a) || a == b,
    decreases a,
{
    DkgMessageKey::total(head(a), head(b));
    match (a, b) {
        (DkgMessageId::More(_, x), DkgMessageId::More(_, y)) => lemma_chain_total(*x, *y),
        _ => {},
    }
}

impl Key for DkgMessageId {
    open spec fn before(self, other: Self) -> bool {
        self.precedes(other)
    }

    proof fn irreflexive(a: Self) {
        lemma_chain_irreflexive(a);
    }

    proof fn transitive(a: Self, b: Self, c: Self) {
        lemma_chain_transitive(a, b, c);
    }

    proof fn total(a: Self, b: Self) {
        lemma_chain_total(a, b);
    }

    fn rank(&self, other: &Self) -> Rank {
        self.rank_chain(other)
    }

    fn duplicate(&self) -> Self {
        self.copy_chain()
    }
}

/// Retrieval requests are repeated until they are answered, retrieval responses are
/// sent once, and every other message is journaled and acknowledged.
pub proof fn law_policy_follows_the_kind(kind: DkgMessageKind)
    ensures
        kind.policy() == DkgDeliveryPolicy::Retry <==> kind == DkgMessageKind::BveRetrievalRequest || kind
            == DkgMessageKind::PcRetrievalRequest,
        kind.policy() == DkgDeliveryPolicy::Once <==> kind == DkgMessageKind::BveRetrievalResponse || kind
            == DkgMessageKind::PcRetrievalResponse,
        kind.policy() == DkgDeliveryPolicy::Durable <==> kind == DkgMessageKind::PcProposal || kind
            == DkgMessageKind::PcAck || kind == DkgMessageKind::BveProposal || kind
            == DkgMessageKind::BveApprovalBatch || kind == DkgMessageKind::Ladder || kind
            == DkgMessageKind::LowerConversion || kind == DkgMessageKind::OpenPower || kind
            == DkgMessageKind::Done,
        kind.sync() <==> kind.policy() != DkgDeliveryPolicy::Durable,
{
}

/// Kinds are numbered from zero in the order of the protocol, without gaps.
pub proof fn law_kinds_are_numbered_in_order(left: DkgMessageKind, right: DkgMessageKind)
    ensures
        left.ordinal() == right.ordinal() ==> left == right,
        left.ordinal() < 12,
        DkgMessageKind::PcProposal.ordinal() == 0,
        DkgMessageKind::PcAck.ordinal() == DkgMessageKind::PcProposal.ordinal() + 1,
        DkgMessageKind::BveProposal.ordinal() == DkgMessageKind::PcAck.ordinal() + 1,
        DkgMessageKind::BveApprovalBatch.ordinal() == DkgMessageKind::BveProposal.ordinal() + 1,
        DkgMessageKind::BveRetrievalRequest.ordinal() == DkgMessageKind::BveApprovalBatch.ordinal() + 1,
        DkgMessageKind::BveRetrievalResponse.ordinal() == DkgMessageKind::BveRetrievalRequest.ordinal()
            + 1,
        DkgMessageKind::PcRetrievalRequest.ordinal() == DkgMessageKind::BveRetrievalResponse.ordinal()
            + 1,
        DkgMessageKind::PcRetrievalResponse.ordinal() == DkgMessageKind::PcRetrievalRequest.ordinal()
            + 1,
        DkgMessageKind::Ladder.ordinal() == DkgMessageKind::PcRetrievalResponse.ordinal() + 1,
        DkgMessageKind::LowerConversion.ordinal() == DkgMessageKind::Ladder.ordinal() + 1,
        DkgMessageKind::OpenPower.ordinal() == DkgMessageKind::LowerConversion.ordinal() + 1,
        DkgMessageKind::Done.ordinal() == DkgMessageKind::OpenPower.ordinal() + 1,
{
}

/// Slots are ordered by kind, then by dealer, source and target, then by level.
pub proof fn law_slots_are_ordered_by_their_parts(left: DkgMessageKey, right: DkgMessageKey)
    ensures
        left.kind.ordinal() < right.kind.ordinal() ==> left.before(right),
        left.kind == right.kind && left.dealer.0 < right.dealer.0 ==> left.before(right),
        left.kind == right.kind && left.dealer == right.dealer && left.source.0 < right.source.0
            ==> left.before(right),
        left.kind == right.kind && left.dealer == right.dealer && left.source == right.source
            && left.target.0 < right.target.0 ==> left.before(right),
        left.kind == right.kind && left.dealer == right.dealer && left.source == right.source
            && left.target == right.target && left.level < right.level ==> left.before(right),
{
}

/// Epochs, parties and records are ordered by their numbers, and nodes and addresses
/// by the first byte in which they differ.
pub proof fn law_identifiers_are_ordered_by_value(
    epochs: (Epoch, Epoch),
    parties: (PartyId, PartyId),
    records: (RecordId, RecordId),
    addresses: (Address, Address),
    i: int,
)
    requires
        0 <= i < 20,
        forall|j: int| 0 <= j < i ==> addresses.0.bytes@[j] == addresses.1.bytes@[j],
        addresses.0.bytes@[i] < addresses.1.bytes@[i],
    ensures
        epochs.0.before(epochs.1) <==> epochs.0.0 < epochs.1.0,
        parties.0.before(parties.1) <==> parties.0.0 < parties.1.0,
        records.0.before(records.1) <==> records.0.0 < records.1.0,
        addresses.0.before(addresses.1),
{
    crate::order::law_order_is_by_size(0, 0, addresses.0.bytes, addresses.1.bytes, i);
}

} // verus!
