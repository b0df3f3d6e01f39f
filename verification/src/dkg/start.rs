//! What is settled before a session is built.

use crate::dkg::error::DkgError;
use crate::dkg::ids::{NodeId, PartyId};
use crate::dkg::peers::{party_at, repeated_member, DkgPeerMap};
use crate::dkg::registration::RegisteredParty;
use crate::dkg::weights::{decode_voting_weights, has_weight, voting_weights, Stake};
use vstd::prelude::*;

verus! {

/// The number of shares that a session produces.
pub const DKG_OUTPUT_COUNT: usize = 256;

/// The fewest validators that tolerate a fault.
pub const MIN_FAULT_TOLERANT_VALIDATORS: usize = 4;

/// The points at which a crash is injected under test.
pub fn dkg_failpoint_names() -> (names: [&'static str; 7])
    ensures
        names@[0] == "dkg.chain.call_buffered",
        names@[1] == "dkg.chain.event_buffered",
        names@[2] == "dkg.network.outgoing_persisted",
        names@[3] == "dkg.peer.engine_applied",
        names@[4] == "dkg.peer.input_persisted",
        names@[5] == "dkg.registration.loaded",
        names@[6] == "dkg.session.seed_persisted",
{
    [
        "dkg.chain.call_buffered",
        "dkg.chain.event_buffered",
        "dkg.network.outgoing_persisted",
        "dkg.peer.engine_applied",
        "dkg.peer.input_persisted",
        "dkg.registration.loaded",
        "dkg.session.seed_persisted",
    ]
}

/// Two to the power of `level`.
pub open spec fn power_of_two(level: nat) -> nat
    decreases level,
{
    if level == 0 {
        1
    } else {
        2 * power_of_two((level - 1) as nat)
    }
}

/// A number of shares: a power of two, and at least two.
#[derive(Clone, Copy, Debug, PartialEq, Eq, Structural)]
pub struct DkgOutputCount {
    count: usize,
}

impl DkgOutputCount {
    pub closed spec fn spec_count(self) -> usize {
        self.count
    }

    pub open spec fn wf(self) -> bool {
        self.spec_count() >= 2 && exists|level: nat| #[trigger] power_of_two(level) == self.spec_count()
    }

    pub fn new(count: usize) -> (output_count: Self)
        requires
            count >= 2,
            exists|level: nat| #[trigger] power_of_two(level) == count,
        ensures
            output_count.wf(),
            output_count.spec_count() == count,
    {
        DkgOutputCount { count }
    }

    pub fn get(self) -> (count: usize)
        ensures
            count == self.spec_count(),
    {
        self.count
    }

    /// How often the count can be halved.
    pub fn max_ladder_level(self) -> (level: u64)
        requires
            self.wf(),
        ensures
            power_of_two(level as nat) == self.spec_count(),
    {
        let ghost whole = choose|level: nat| #[trigger] power_of_two(level) == self.spec_count();
        let mut left: usize = self.count;
        let mut level: u64 = 0;
        proof {
            lemma_level_is_small(whole);
        }
        while left > 1
            invariant
                level <= whole <= usize::MAX,
                power_of_two((whole - level) as nat) == left,
            decreases left,
        {
            proof {
                if whole == level {
                    assert(power_of_two(0) == 1);
                }
            }
            left = left / 2;
            level = level + 1;
        }
        proof {
            if level < whole {
                lemma_level_is_small((whole - level) as nat);
            }
        }
        level
    }
}

proof fn lemma_level_is_small(level: nat)
    ensures
        level < power_of_two(level),
    decreases level,
{
    if level > 0 {
        lemma_level_is_small((level - 1) as nat);
    }
}

/// What a session is built from.
pub struct SessionPlan {
    pub peers: DkgPeerMap,
    pub self_party: PartyId,
    pub voting_weights: Vec<u64>,
}

/// The nodes of parties.
pub open spec fn party_nodes(parties: Seq<RegisteredParty>) -> Seq<NodeId> {
    parties.map_values(|party: RegisteredParty| party.node_id)
}

/// The stakes of parties.
pub open spec fn party_stakes(parties: Seq<RegisteredParty>) -> Seq<Stake> {
    parties.map_values(|party: RegisteredParty| party.stake)
}

/// Plans the session of the local node. A node that is no party has none.
pub fn plan_session(self_id: &NodeId, parties: &Vec<RegisteredParty>) -> (result: Result<
    Option<SessionPlan>,
    DkgError,
>)
    requires
        parties@.len() <= u32::MAX,
    ensures
        ({
            let nodes = party_nodes(parties@);
            if repeated_member(nodes) is Some {
                result == Err::<Option<SessionPlan>, _>(DkgError::DuplicateValidator)
            } else if party_at(nodes, *self_id) is None {
                result matches Ok(None)
            } else if exists|i: int| 0 <= i < parties@.len() && !has_weight((#[trigger] parties@[i]).stake) {
                result == Err::<Option<SessionPlan>, _>(
                    DkgError::Operation { operation: "decode DKG validator stakes" },
                )
            } else {
                result matches Ok(Some(plan)) && {
                    &&& plan.peers.wf()
                    &&& plan.peers.members() == nodes
                    &&& party_at(nodes, *self_id) == Some(plan.self_party)
                    &&& plan.voting_weights@ == voting_weights(party_stakes(parties@))
                }
            }
        }),
{
    let mut nodes: Vec<NodeId> = Vec::new();
    let mut stakes: Vec<Stake> = Vec::new();
    let mut i: usize = 0;
    while i < parties.len()
        invariant
            i <= parties@.len(),
            nodes@ == party_nodes(parties@).take(i as int),
            stakes@ == party_stakes(parties@).take(i as int),
        decreases parties@.len() - i,
    {
        nodes.push(parties[i].node_id);
        stakes.push(parties[i].stake);
        proof {
            let (all_nodes, all_stakes) = (party_nodes(parties@), party_stakes(parties@));
            assert(all_nodes.take(i + 1) =~= all_nodes.take(i as int).push(all_nodes[i as int]));
            assert(all_stakes.take(i + 1) =~= all_stakes.take(i as int).push(all_stakes[i as int]));
        }
        i += 1;
    }
    proof {
        assert(nodes@ =~= party_nodes(parties@));
        assert(stakes@ =~= party_stakes(parties@));
    }
    let peers: DkgPeerMap = match DkgPeerMap::new_ordered(nodes) {
        Ok(peers) => peers,
        Err(_) => {
            return Err(DkgError::DuplicateValidator);
        },
    };
    let self_party: PartyId = match peers.party_id(self_id) {
        Some(party) => party,
        None => {
            return Ok(None);
        },
    };
    match decode_voting_weights(&stakes) {
        Ok(voting_weights) => {
            proof {
                assert forall|i: int| 0 <= i < parties@.len() implies has_weight(
                    (#[trigger] parties@[i]).stake,
                ) by {
                    assert(has_weight(stakes@[i]));
                }
            }
            Ok(Some(SessionPlan { peers, self_party, voting_weights }))
        },
        Err(_) => {
            proof {
                let i = choose|i: int| 0 <= i < stakes@.len() && !has_weight(#[trigger] stakes@[i]);
                assert(!has_weight(parties@[i].stake));
            }
            Err(DkgError::operation("decode DKG validator stakes"))
        },
    }
}

/// The parties of a session that keeps its own store of messages, and the local one.
pub struct RunnerPlan {
    pub peers: DkgPeerMap,
    pub self_party: PartyId,
}

/// Plans the session of the local node among `validators`. A node that is no validator
/// has none, however many there are.
pub fn plan_runner(self_id: &NodeId, validators: Vec<NodeId>) -> (result: Result<
    Option<RunnerPlan>,
    DkgError,
>)
    requires
        validators@.len() <= u32::MAX,
    ensures
        if repeated_member(validators@) is Some {
            result == Err::<Option<RunnerPlan>, _>(DkgError::DuplicateValidator)
        } else if party_at(validators@, *self_id) is None {
            result matches Ok(None)
        } else if validators@.len() < MIN_FAULT_TOLERANT_VALIDATORS {
            result == Err::<Option<RunnerPlan>, _>(
                DkgError::InsufficientValidators {
                    actual: validators@.len() as usize,
                    minimum: MIN_FAULT_TOLERANT_VALIDATORS,
                },
            )
        } else {
            result matches Ok(Some(plan)) && {
                &&& plan.peers.wf()
                &&& plan.peers.members() == validators@
                &&& party_at(validators@, *self_id) == Some(plan.self_party)
            }
        },
{
    let count: usize = validators.len();
    let peers: DkgPeerMap = match DkgPeerMap::new_ordered(validators) {
        Ok(peers) => peers,
        Err(_) => {
            return Err(DkgError::DuplicateValidator);
        },
    };
    let self_party: PartyId = match peers.party_id(self_id) {
        Some(party) => party,
        None => {
            return Ok(None);
        },
    };
    match require_fault_tolerance(count) {
        Ok(()) => Ok(Some(RunnerPlan { peers, self_party })),
        Err(error) => Err(error),
    }
}

/// Refuses a validator set that tolerates no fault.
pub fn require_fault_tolerance(validators: usize) -> (result: Result<(), DkgError>)
    ensures
        result == (if validators < MIN_FAULT_TOLERANT_VALIDATORS {
            Err::<(), DkgError>(
                DkgError::InsufficientValidators {
                    actual: validators,
                    minimum: MIN_FAULT_TOLERANT_VALIDATORS,
                },
            )
        } else {
            Ok(())
        }),
{
    if validators < MIN_FAULT_TOLERANT_VALIDATORS {
        Err(
            DkgError::InsufficientValidators {
                actual: validators,
                minimum: MIN_FAULT_TOLERANT_VALIDATORS,
            },
        )
    } else {
        Ok(())
    }
}

/// The nodes and stakes of a plan are those of its parties, in their order.
pub proof fn law_plan_keeps_the_order_of_parties(parties: Seq<RegisteredParty>, i: int)
    requires
        0 <= i < parties.len(),
    ensures
        party_nodes(parties).len() == parties.len(),
        party_nodes(parties)[i] == parties[i].node_id,
        party_stakes(parties).len() == parties.len(),
        party_stakes(parties)[i] == parties[i].stake,
{
}

/// Each level of a ladder doubles the outputs.
pub proof fn law_levels_double_the_outputs(level: nat)
    ensures
        power_of_two(0) == 1,
        power_of_two(level + 1) == 2 * power_of_two(level),
        power_of_two(level) > 0,
    decreases level,
{
    if level > 0 {
        law_levels_double_the_outputs((level - 1) as nat);
    }
}

} // verus!
