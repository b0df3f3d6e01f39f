//! The parties of a session and the nodes that run them.

use crate::dkg::ids::{NodeId, PartyId};
use crate::reliable::message::same_key;
use vstd::prelude::*;

verus! {

/// The nodes of a session, in the order of their party numbers.
pub struct DkgPeerMap {
    members: Vec<NodeId>,
}

/// The first node that an earlier place holds too.
pub open spec fn repeated_member(members: Seq<NodeId>) -> Option<NodeId>
    decreases members.len(),
{
    if members.len() == 0 {
        None
    } else {
        match repeated_member(members.drop_last()) {
            Some(member) => Some(member),
            None => if members.drop_last().contains(members.last()) {
                Some(members.last())
            } else {
                None
            },
        }
    }
}

/// The party of a node.
pub open spec fn party_at(members: Seq<NodeId>, member: NodeId) -> Option<PartyId> {
    match members.index_of_first(member) {
        Some(index) => Some(PartyId(index as u32)),
        None => None,
    }
}

proof fn lemma_repeated_member_early(members: Seq<NodeId>, count: int)
    requires
        0 <= count <= members.len(),
        repeated_member(members.take(count)) is Some,
    ensures
        repeated_member(members) == repeated_member(members.take(count)),
    decreases members.len(),
{
    if count == members.len() {
        assert(members.take(count) =~= members);
    } else {
        assert(members.drop_last().take(count) =~= members.take(count));
        lemma_repeated_member_early(members.drop_last(), count);
    }
}

proof fn lemma_distinct(members: Seq<NodeId>)
    requires
        repeated_member(members) is None,
    ensures
        members.no_duplicates(),
    decreases members.len(),
{
    if members.len() > 0 {
        let front = members.drop_last();
        lemma_distinct(front);
        assert forall|i: int, j: int| 0 <= i < members.len() && 0 <= j < members.len() && i
            != j implies members[i] != members[j] by {
            if i < front.len() && j < front.len() {
                assert(front[i] != front[j]);
            } else if i < front.len() {
                assert(front.contains(front[i]));
            } else {
                assert(front.contains(front[j]));
            }
        }
    }
}

fn contains_member(members: &Vec<NodeId>, count: usize, member: &NodeId) -> (found: bool)
    requires
        count <= members@.len(),
    ensures
        found == members@.take(count as int).contains(*member),
{
    let mut i: usize = 0;
    while i < count
        invariant
            i <= count <= members@.len(),
            forall|j: int| 0 <= j < i ==> #[trigger] members@[j] != *member,
        decreases count - i,
    {
        if same_key(&members[i], member) {
            assert(members@.take(count as int)[i as int] == *member);
            return true;
        }
        i += 1;
    }
    false
}

impl DkgPeerMap {
    /// The nodes, in the order of their party numbers.
    pub closed spec fn members(self) -> Seq<NodeId> {
        self.members@
    }

    /// Every node has one party, and party numbers fit.
    pub open spec fn wf(self) -> bool {
        &&& self.members().no_duplicates()
        &&& self.members().len() <= u32::MAX
    }

    /// The parties of `members`, or the first node that is named twice.
    pub fn new_ordered(members: Vec<NodeId>) -> (result: Result<Self, NodeId>)
        requires
            members@.len() <= u32::MAX,
        ensures
            match repeated_member(members@) {
                Some(member) => result == Err::<DkgPeerMap, _>(member),
                None => result matches Ok(map) && map.wf() && map.members() == members@,
            },
    {
        let mut i: usize = 0;
        assert(members@.take(0) =~= Seq::empty());
        while i < members.len()
            invariant
                i <= members@.len(),
                repeated_member(members@.take(i as int)) is None,
            decreases members@.len() - i,
        {
            let member: NodeId = members[i];
            let ghost upto = members@.take(i + 1);
            assert(upto.drop_last() =~= members@.take(i as int));
            if contains_member(&members, i, &member) {
                proof {
                    assert(repeated_member(upto) == Some(member));
                    lemma_repeated_member_early(members@, i + 1);
                }
                return Err(member);
            }
            i += 1;
        }
        proof {
            assert(members@.take(i as int) =~= members@);
            lemma_distinct(members@);
        }
        Ok(DkgPeerMap { members })
    }

    /// The party of a node, if it takes part.
    pub fn party_id(&self, member: &NodeId) -> (party: Option<PartyId>)
        requires
            self.wf(),
        ensures
            party == party_at(self.members(), *member),
            party matches Some(party) ==> party.0 < self.members().len()
                && self.members()[party.0 as int] == *member,
            party is None ==> !self.members().contains(*member),
    {
        proof {
            self.members@.index_of_first_ensures(*member);
        }
        let mut i: usize = 0;
        while i < self.members.len()
            invariant
                self.wf(),
                i <= self.members@.len(),
                forall|j: int| 0 <= j < i ==> #[trigger] self.members@[j] != *member,
            decreases self.members@.len() - i,
        {
            if same_key(&self.members[i], member) {
                proof {
                    self.members@.index_of_first_ensures(*member);
                    assert(self.members@.contains(*member));
                    assert(self.members@.index_of_first(*member) == Some(i as int));
                }
                return Some(PartyId(i as u32));
            }
            i += 1;
        }
        None
    }

    /// The node of a party, if there is such a party.
    pub fn member_id(&self, party: PartyId) -> (member: Option<NodeId>)
        ensures
            member == (if party.0 < self.members().len() {
                Some(self.members()[party.0 as int])
            } else {
                None
            }),
    {
        let index: usize = party.0 as usize;
        if index < self.members.len() {
            Some(self.members[index])
        } else {
            None
        }
    }

    /// All parties but `excluded`, in ascending order.
    pub fn other_parties(&self, excluded: PartyId) -> (parties: Vec<PartyId>)
        requires
            self.wf(),
        ensures
            parties@ == others(self.members().len(), excluded),
            crate::order::ascending(parties@),
    {
        let mut parties: Vec<PartyId> = Vec::new();
        let mut i: usize = 0;
        while i < self.members.len()
            invariant
                self.wf(),
                i <= self.members@.len(),
                parties@ == others(i as nat, excluded),
                crate::order::ascending(parties@),
                forall|k: int| 0 <= k < parties@.len() ==> (#[trigger] parties@[k]).0 < i,
            decreases self.members@.len() - i,
        {
            let party: PartyId = PartyId(i as u32);
            if party != excluded {
                parties.push(party);
            }
            i += 1;
        }
        parties
    }

    /// The number of parties.
    pub fn len(&self) -> (len: usize)
        ensures
            len == self.members().len(),
    {
        self.members.len()
    }
}

/// The parties below `count` but `excluded`.
pub open spec fn others(count: nat, excluded: PartyId) -> Seq<PartyId>
    decreases count,
{
    if count == 0 {
        Seq::empty()
    } else {
        let party = PartyId((count - 1) as u32);
        if party != excluded {
            others((count - 1) as nat, excluded).push(party)
        } else {
            others((count - 1) as nat, excluded)
        }
    }
}

/// Party numbers and nodes name each other.
pub proof fn law_party_and_member_agree(members: Seq<NodeId>, party: PartyId)
    requires
        members.no_duplicates(),
        members.len() <= u32::MAX,
        party.0 < members.len(),
    ensures
        party_at(members, members[party.0 as int]) == Some(party),
{
    let member = members[party.0 as int];
    members.index_of_first_ensures(member);
    assert(members.contains(member));
}

/// Exactly the parties of a session but one are the others.
pub proof fn law_others_are_all_but_one(count: nat, excluded: PartyId, party: PartyId)
    requires
        count <= u32::MAX,
    ensures
        others(count, excluded).contains(party) <==> party.0 < count && party != excluded,
    decreases count,
{
    if count > 0 {
        let before = others((count - 1) as nat, excluded);
        let last = PartyId((count - 1) as u32);
        law_others_are_all_but_one((count - 1) as nat, excluded, party);
        let all = others(count, excluded);
        if last != excluded {
            if before.contains(party) {
                let i = choose|i: int| 0 <= i < before.len() && before[i] == party;
                assert(all[i] == party);
            }
            assert(all[before.len() as int] == last);
            if all.contains(party) && party != last {
                let i = choose|i: int| 0 <= i < all.len() && all[i] == party;
                assert(before[i] == party);
            }
        }
    }
}

/// A node that is named twice is found, and where nodes are distinct none is.
pub proof fn law_repeated_member_is_found(members: Seq<NodeId>)
    ensures
        repeated_member(members) is None <==> members.no_duplicates(),
        repeated_member(members) matches Some(member) ==> exists|i: int, j: int|
            0 <= i < j < members.len() && #[trigger] members[i] == member && #[trigger] members[j]
                == member,
    decreases members.len(),
{
    if members.len() > 0 {
        let fewer = members.drop_last();
        law_repeated_member_is_found(fewer);
        let last = members.len() - 1;
        assert(members[last] == members.last());
        if repeated_member(fewer) is Some {
            let member = repeated_member(fewer)->Some_0;
            let (i, j) = choose|i: int, j: int|
                0 <= i < j < fewer.len() && #[trigger] fewer[i] == member && #[trigger] fewer[j] == member;
            assert(members[i] == member && members[j] == member);
        } else if fewer.contains(members.last()) {
            let i = choose|i: int| 0 <= i < fewer.len() && fewer[i] == members.last();
            assert(members[i] == members.last());
        } else {
            assert forall|i: int, j: int|
                0 <= i < members.len() && 0 <= j < members.len() && i != j implies members[i]
                != members[j] by {
                if i < last {
                    assert(fewer[i] == members[i]);
                }
                if j < last {
                    assert(fewer[j] == members[j]);
                }
            }
        }
    }
}

/// A node takes part exactly where it is a member, and its party number is its
/// place.
pub proof fn law_party_is_the_place_of_a_member(members: Seq<NodeId>, member: NodeId)
    requires
        members.len() <= u32::MAX,
    ensures
        party_at(members, member) is Some <==> members.contains(member),
        party_at(members, member) matches Some(party) ==> party.0 < members.len()
            && members[party.0 as int] == member,
{
    members.index_of_first_ensures(member);
}

} // verus!
