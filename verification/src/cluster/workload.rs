//! When nodes send, what they send, and to whom.

use crate::cluster::config::WorkloadConfig;
use crate::cluster::roles::{LatencyMetrics, MockMessage};
use crate::dkg::ids::NodeId;
use crate::octets::copy_bytes;
use crate::reliable::retry::draw_up_to;
use vstd::prelude::*;

verus! {

/// The epoch in which a simulated cluster stays.
pub const CLUSTER_EPOCH: u64 = 0;

/// The round in which a validator starts.
pub const FIRST_ROUND: u64 = 1;

/// The time between two rounds, in milliseconds.
pub const ROUND_INTERVAL_MS: u64 = 100;

/// Where a message goes.
#[derive(Clone, Copy, Debug)]
pub enum RouterTarget {
    Raptorcast { epoch: u64 },
    PointToPoint { to: NodeId },
}

/// What a node asks of its router.
#[derive(Debug)]
pub enum RouterCommand {
    UpdateCurrentRound { epoch: u64, round: u64 },
    Publish { target: RouterTarget, message: MockMessage },
    PublishToFullNodes { epoch: u64, round: u64, message: MockMessage },
}

/// A time to wait, below `window`.
pub fn draw_delay_ms(window: u64) -> (delay: u64)
    requires
        window > 0,
    ensures
        delay < window,
{
    draw_up_to(window - 1)
}

/// A size from `smallest` up to `largest`.
pub fn draw_size(smallest: usize, largest: usize) -> (size: usize)
    requires
        smallest <= largest,
    ensures
        smallest <= size <= largest,
{
    let extra: u64 = draw_up_to((largest - smallest) as u64);
    smallest + extra as usize
}

/// Whether `chosen` are the items of `peers` at the distinct places `places`.
pub open spec fn chosen_at(chosen: Seq<NodeId>, peers: Seq<NodeId>, places: Seq<int>) -> bool {
    &&& places.no_duplicates()
    &&& places.len() == chosen.len()
    &&& forall|i: int| #![trigger places[i]]
        0 <= i < places.len() ==> 0 <= places[i] < peers.len() && chosen[i] == peers[places[i]]
}

/// Draws `amount` of `peers` by `rand::seq::SliceRandom::choose_multiple` on the
/// thread's generator. Claims that it gives so many of them, or all if there are
/// fewer, each from a place of its own: which ones is random.
#[verifier::external_body]
fn choose_peers(peers: &Vec<NodeId>, amount: usize) -> (chosen: Vec<NodeId>)
    ensures
        chosen@.len() == (if amount <= peers@.len() {
            amount as nat
        } else {
            peers@.len()
        }),
        exists|places: Seq<int>| #[trigger] chosen_at(chosen@, peers@, places),
{
    let mut rng = rand::thread_rng();
    rand::seq::SliceRandom::choose_multiple(peers.as_slice(), &mut rng, amount).copied().collect()
}

/// How many peers a full node sends to: the drawn number, as far as there are peers.
pub fn target_count(drawn: usize, known_peers: usize) -> (count: usize)
    ensures
        count == (if drawn <= known_peers {
            drawn
        } else {
            known_peers
        }),
{
    if drawn <= known_peers {
        drawn
    } else {
        known_peers
    }
}

/// The peers that a full node sends to next.
pub fn draw_targets(workload: &WorkloadConfig, known_peers: &Vec<NodeId>) -> (targets: Vec<NodeId>)
    requires
        workload.fullnode_p2p_targets_min <= workload.fullnode_p2p_targets_max,
    ensures
        targets@.len() <= known_peers@.len(),
        targets@.len() <= workload.fullnode_p2p_targets_max,
        targets@.len() >= workload.fullnode_p2p_targets_min || targets@.len() == known_peers@.len(),
        exists|places: Seq<int>| #[trigger] chosen_at(targets@, known_peers@, places),
{
    if known_peers.len() == 0 {
        let targets: Vec<NodeId> = Vec::new();
        assert(chosen_at(targets@, known_peers@, Seq::empty()));
        return targets;
    }
    let drawn: usize = draw_size(
        workload.fullnode_p2p_targets_min,
        workload.fullnode_p2p_targets_max,
    );
    choose_peers(known_peers, target_count(drawn, known_peers.len()))
}

impl MockMessage {
    pub fn duplicate(&self) -> (copy: Self)
        ensures
            copy.timestamp == self.timestamp,
            copy.data@ == self.data@,
    {
        MockMessage { timestamp: self.timestamp, data: copy_bytes(&self.data) }
    }
}

/// What a validator of a simulated cluster is doing.
#[derive(Clone, Copy, Debug, PartialEq, Eq, Structural)]
pub struct ValidatorWorkload {
    pub current_round: u64,
}

impl ValidatorWorkload {
    /// A validator in its first round, and what it tells its router.
    pub fn start() -> (started: (Self, RouterCommand))
        ensures
            started.0.current_round == FIRST_ROUND,
            started.1 == (RouterCommand::UpdateCurrentRound {
                epoch: CLUSTER_EPOCH,
                round: FIRST_ROUND,
            }),
    {
        (
            ValidatorWorkload { current_round: FIRST_ROUND },
            RouterCommand::UpdateCurrentRound { epoch: CLUSTER_EPOCH, round: FIRST_ROUND },
        )
    }

    /// Enters the next round.
    pub fn advance_round(&mut self) -> (command: RouterCommand)
        requires
            old(self).current_round < u64::MAX,
        ensures
            final(self).current_round == old(self).current_round + 1,
            command == (RouterCommand::UpdateCurrentRound {
                epoch: CLUSTER_EPOCH,
                round: final(self).current_round,
            }),
    {
        self.current_round += 1;
        RouterCommand::UpdateCurrentRound { epoch: CLUSTER_EPOCH, round: self.current_round }
    }

    /// Sends a message to the validators and to the full nodes, and counts it.
    pub fn broadcast(&self, message: MockMessage, metrics: &mut LatencyMetrics) -> (commands: Vec<
        RouterCommand,
    >)
        requires
            old(metrics).total_messages_sent < u64::MAX,
        ensures
            commands@.len() == 2,
            commands@[0] matches RouterCommand::Publish {
                target: RouterTarget::Raptorcast { epoch },
                message: sent,
            } && epoch == CLUSTER_EPOCH && sent.timestamp == message.timestamp && sent.data@
                == message.data@,
            commands@[1] matches RouterCommand::PublishToFullNodes { epoch, round, message: sent }
                && epoch == CLUSTER_EPOCH && round == self.current_round && sent == message,
            *final(metrics) == (LatencyMetrics {
                total_messages_sent: (old(metrics).total_messages_sent + 1) as u64,
                ..*old(metrics)
            }),
    {
        let mut commands: Vec<RouterCommand> = Vec::new();
        commands.push(
            RouterCommand::Publish {
                target: RouterTarget::Raptorcast { epoch: CLUSTER_EPOCH },
                message: message.duplicate(),
            },
        );
        commands.push(
            RouterCommand::PublishToFullNodes {
                epoch: CLUSTER_EPOCH,
                round: self.current_round,
                message,
            },
        );
        metrics.record_sent();
        commands
    }
}

/// Sends a message of a full node to one peer, and counts it.
pub fn send_to_peer(to: NodeId, message: MockMessage, metrics: &mut LatencyMetrics) -> (command:
    RouterCommand)
    requires
        old(metrics).total_messages_sent < u64::MAX,
    ensures
        command == (RouterCommand::Publish {
            target: RouterTarget::PointToPoint { to },
            message,
        }),
        *final(metrics) == (LatencyMetrics {
            total_messages_sent: (old(metrics).total_messages_sent + 1) as u64,
            ..*old(metrics)
        }),
{
    metrics.record_sent();
    RouterCommand::Publish { target: RouterTarget::PointToPoint { to }, message }
}

/// Counts a received message, with the time it took to arrive by `now`.
pub fn receive(message: &MockMessage, now: u64, metrics: &mut LatencyMetrics) -> (latency_ns: u64)
    requires
        old(metrics).total_messages_received < u64::MAX,
        now > message.timestamp ==> old(metrics).total_latency_sum_us + (now - message.timestamp) / 1_000
            <= u64::MAX,
    ensures
        latency_ns == (if now > message.timestamp {
            now - message.timestamp
        } else {
            0
        }),
        *final(metrics) == old(metrics).received(latency_ns),
{
    let latency_ns: u64 = message.latency_ns(now);
    metrics.record_received(latency_ns);
    latency_ns
}

/// Peers that are drawn are known, and where every known peer is another one, no peer
/// is drawn twice.
pub proof fn law_drawn_peers_are_known(chosen: Seq<NodeId>, peers: Seq<NodeId>, places: Seq<int>, i: int)
    requires
        chosen_at(chosen, peers, places),
        0 <= i < chosen.len(),
    ensures
        peers.contains(chosen[i]),
        chosen.len() <= peers.len(),
        peers.no_duplicates() ==> forall|j: int|
            0 <= j < chosen.len() && j != i ==> #[trigger] chosen[j] != chosen[i],
{
    assert(0 <= places[i] < peers.len() && chosen[i] == peers[places[i]]);
    if peers.no_duplicates() {
        assert forall|j: int| 0 <= j < chosen.len() && j != i implies #[trigger] chosen[j]
            != chosen[i] by {
            assert(0 <= places[j] < peers.len() && chosen[j] == peers[places[j]]);
            assert(places[j] != places[i]);
        }
    }
    places.unique_seq_to_set();
    let range = vstd::set_lib::set_int_range(0, peers.len() as int);
    vstd::set_lib::lemma_int_range(0, peers.len() as int);
    assert(places.to_set().subset_of(range)) by {
        assert forall|place: int| #[trigger] places.to_set().contains(place) implies range.contains(
            place,
        ) by {
            let k = choose|k: int| 0 <= k < places.len() && places[k] == place;
            assert(0 <= places[k] < peers.len());
        }
    }
    vstd::set_lib::lemma_len_subset(places.to_set(), range);
}

} // verus!
