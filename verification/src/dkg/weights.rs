//! Voting weights of validators.

use vstd::prelude::*;

verus! {

/// The number of wei in one MON.
pub const WEI_PER_MON: u64 = 1_000_000_000_000_000_000;

/// A stake in wei, a number of 256 bits in two halves.
#[derive(Clone, Copy, Debug, PartialEq, Eq, Structural)]
pub struct Stake {
    pub high: u128,
    pub low: u128,
}

/// A stake does not round to a weight from one up to the largest 64-bit number.
#[derive(Clone, Copy, Debug, PartialEq, Eq, Structural)]
pub struct InvalidVotingWeights;

/// The number of values of 128 bits.
pub open spec fn half_range() -> nat {
    (u128::MAX + 1) as nat
}

impl Stake {
    /// The number of wei.
    pub open spec fn wei(self) -> nat {
        (self.high * half_range() + self.low) as nat
    }
}

/// A number of wei in whole MON, rounded to the nearest; a half goes up.
pub open spec fn rounded_mon(wei: nat) -> nat {
    (wei + WEI_PER_MON / 2) as nat / WEI_PER_MON as nat
}

/// Whether a stake gives a voting weight.
pub open spec fn has_weight(stake: Stake) -> bool {
    0 < rounded_mon(stake.wei()) <= u64::MAX
}

/// The voting weights of `stakes`.
pub open spec fn voting_weights(stakes: Seq<Stake>) -> Seq<u64> {
    stakes.map_values(|stake: Stake| rounded_mon(stake.wei()) as u64)
}

/// The weight of one stake.
fn voting_weight(stake: Stake) -> (weight: Option<u64>)
    ensures
        match weight {
            Some(weight) => has_weight(stake) && weight == rounded_mon(stake.wei()),
            None => !has_weight(stake),
        },
{
    let unit: u128 = 1_000_000_000_000_000_000;
    if stake.high > 0 {
        proof {
            let wei = stake.wei();
            assert(wei >= half_range()) by (nonlinear_arith)
                requires
                    wei == stake.high * half_range() + stake.low,
                    stake.high >= 1,
            ;
            assert(rounded_mon(wei) > u64::MAX);
        }
        return None;
    }
    assert(stake.wei() == stake.low) by (nonlinear_arith)
        requires
            stake.high == 0,
            stake.wei() == (stake.high * half_range() + stake.low) as nat,
    ;
    let whole: u128 = stake.low / unit;
    let rest: u128 = stake.low % unit;
    let rounded: u128 = if rest >= unit / 2 {
        whole + 1
    } else {
        whole
    };
    assert(rounded == rounded_mon(stake.wei()));
    if rounded == 0 || rounded > u64::MAX as u128 {
        None
    } else {
        Some(rounded as u64)
    }
}

/// The voting weights of validators with these stakes.
pub fn decode_voting_weights(stakes: &Vec<Stake>) -> (result: Result<Vec<u64>, InvalidVotingWeights>)
    ensures
        match result {
            Ok(weights) => {
                &&& forall|i: int| 0 <= i < stakes@.len() ==> has_weight(#[trigger] stakes@[i])
                &&& weights@ == voting_weights(stakes@)
            },
            Err(_) => exists|i: int| 0 <= i < stakes@.len() && !has_weight(#[trigger] stakes@[i]),
        },
{
    let mut weights: Vec<u64> = Vec::new();
    let mut i: usize = 0;
    while i < stakes.len()
        invariant
            i <= stakes@.len(),
            forall|j: int| 0 <= j < i ==> has_weight(#[trigger] stakes@[j]),
            weights@ == voting_weights(stakes@).take(i as int),
        decreases stakes@.len() - i,
    {
        match voting_weight(stakes[i]) {
            Some(weight) => {
                weights.push(weight);
                assert(voting_weights(stakes@).take(i + 1) =~= voting_weights(stakes@).take(
                    i as int,
                ).push(weight));
            },
            None => {
                assert(!has_weight(stakes@[i as int]));
                return Err(InvalidVotingWeights);
            },
        }
        i += 1;
    }
    assert(voting_weights(stakes@).take(i as int) =~= voting_weights(stakes@));
    Ok(weights)
}

/// A weight differs from its stake by at most half a MON.
pub proof fn law_weight_is_nearest(wei: nat)
    ensures
        2 * (rounded_mon(wei) * WEI_PER_MON - wei) <= WEI_PER_MON,
        2 * (wei - rounded_mon(wei) * WEI_PER_MON) < WEI_PER_MON,
{
}

/// A stake has a weight exactly where it is at least half a MON and its nearest
/// number of MON can be expressed.
pub proof fn law_weight_needs_half_a_mon(stake: Stake)
    ensures
        has_weight(stake) <==> 2 * stake.wei() >= WEI_PER_MON && 2 * stake.wei() < 2 * (u64::MAX + 1)
            * WEI_PER_MON - WEI_PER_MON,
        stake.high == 0 ==> stake.wei() == stake.low,
        stake.wei() == stake.high * 0x1_0000_0000_0000_0000_0000_0000_0000_0000 + stake.low,
{
    assert(half_range() == 0x1_0000_0000_0000_0000_0000_0000_0000_0000);
    let high = stake.high as int;
    assert(high * half_range() == high * 0x1_0000_0000_0000_0000_0000_0000_0000_0000);
    assert(high == 0 ==> high * half_range() == 0) by (nonlinear_arith);
}

/// There is one weight per stake, in the same order, and more stake never weighs
/// less.
pub proof fn law_weights_follow_their_stakes(stakes: Seq<Stake>, i: int, j: int)
    requires
        0 <= i < stakes.len(),
        0 <= j < stakes.len(),
        has_weight(stakes[i]),
        has_weight(stakes[j]),
        stakes[i].wei() <= stakes[j].wei(),
    ensures
        voting_weights(stakes).len() == stakes.len(),
        voting_weights(stakes)[i] <= voting_weights(stakes)[j],
        voting_weights(stakes)[i] == rounded_mon(stakes[i].wei()),
{
    let a = stakes[i].wei() + WEI_PER_MON / 2;
    let b = stakes[j].wei() + WEI_PER_MON / 2;
    assert(a / WEI_PER_MON as int <= b / WEI_PER_MON as int) by (nonlinear_arith)
        requires
            a <= b,
            0 <= a,
            WEI_PER_MON == 1_000_000_000_000_000_000,
    ;
}

} // verus!
