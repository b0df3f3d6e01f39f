//! The nodes of a cluster and what each of them knows about the others.

use crate::cluster::config::{
    BootnodeConfig, ClusterConfig, FullnodeConfig, Ipv4, SocketAddress, ValidatorConfig, WorkloadConfig,
};
use crate::cluster::roles::NodeType;
use crate::dkg::ids::NodeId;
use crate::ordered_map::{sort_set, sorted_keys, sorted_set, OrderedMap};
use crate::reliable::message::{copy_keys, same_key};
use crate::text::{decode_hex, hex_byte, is_hex};
use vstd::prelude::*;

verus! {

/// The bandwidth of a node's UDP sockets, in megabits.
pub const UDP_BW: u64 = 1_000;

/// The stake of every validator.
pub const VALIDATOR_STAKE: u64 = 1;

/// Why a cluster cannot be built.
#[derive(Clone, Copy, Debug, PartialEq, Eq, Structural)]
pub enum ClusterError {
    /// A private key is not hexadecimal.
    InvalidHex,
    /// A private key is not one of the signature scheme.
    InvalidKey,
    BootnodesMissing,
    ValidatorsMissing,
    DedicatedFullnodesMissing,
    PrioritizedFullnodesMissing,
}

/// A node's key pair: its identity and its secret.
#[derive(Clone, Copy)]
pub struct NodeKey {
    pub node_id: NodeId,
    pub private_key: [u8; 32],
}

/// The bytes of a private key that was written in hexadecimal.
pub fn parse_private_key(private_key: &str) -> (result: Result<[u8; 32], ClusterError>)
    requires
        is_hex(private_key@) ==> private_key@.len() == 64,
    ensures
        match result {
            Ok(bytes) => is_hex(private_key@) && forall|i: int|
                0 <= i < 32 ==> #[trigger] bytes@[i] == hex_byte(private_key@, i),
            Err(error) => !is_hex(private_key@) && error == ClusterError::InvalidHex,
        },
{
    match decode_hex(private_key) {
        Ok(bytes) => {
            let mut key: [u8; 32] = [0; 32];
            let mut i: usize = 0;
            while i < 32
                invariant
                    i <= 32,
                    bytes@.len() == 32,
                    forall|j: int| 0 <= j < 32 ==> #[trigger] bytes@[j] == hex_byte(private_key@, j),
                    forall|j: int| 0 <= j < i ==> #[trigger] key@[j] == hex_byte(private_key@, j),
                decreases 32 - i,
            {
                key[i] = bytes[i];
                i += 1;
            }
            Ok(key)
        },
        Err(_) => Err(ClusterError::InvalidHex),
    }
}

/// How to reach a node. Its sequence number is zero.
#[derive(Clone, Copy, Debug)]
pub struct NameRecord {
    pub ip: Ipv4,
    pub tcp_port: u16,
    pub udp_port: u16,
    pub authenticated_udp_port: u16,
    pub sequence: u64,
}

/// The addresses of a node.
#[derive(Clone, Copy, Debug)]
pub struct NodeSockets {
    pub tcp_addr: SocketAddress,
    pub udp_addr: SocketAddress,
    pub authenticated_udp_addr: SocketAddress,
}

/// The record of a node with these addresses.
pub open spec fn name_record(sockets: NodeSockets) -> NameRecord {
    NameRecord {
        ip: sockets.tcp_addr.ip,
        tcp_port: sockets.tcp_addr.port,
        udp_port: sockets.udp_addr.port,
        authenticated_udp_port: sockets.authenticated_udp_addr.port,
        sequence: 0,
    }
}

/// The record of a node with these addresses.
pub fn create_name_record(sockets: &NodeSockets) -> (record: NameRecord)
    ensures
        record == name_record(*sockets),
{
    NameRecord {
        ip: sockets.tcp_addr.ip,
        tcp_port: sockets.tcp_addr.port,
        udp_port: sockets.udp_addr.port,
        authenticated_udp_port: sockets.authenticated_udp_addr.port,
        sequence: 0,
    }
}

/// Everything that one node is started with.
pub struct NodeRunConfig {
    pub key: NodeKey,
    pub node_type: NodeType,
    pub sockets: NodeSockets,
    pub self_record: NameRecord,
    pub bootstrap_peers: OrderedMap<NodeId, NameRecord>,
    pub epoch_validators: OrderedMap<NodeId, u64>,
    pub dedicated_fullnodes: Vec<NodeId>,
    pub prioritized_fullnodes: Vec<NodeId>,
    pub known_peers: Vec<NodeId>,
}

/// The model of a node.
#[verifier::ext_equal]
pub struct NodeView {
    pub key: NodeKey,
    pub node_type: NodeType,
    pub sockets: NodeSockets,
    pub self_record: NameRecord,
    pub bootstrap_peers: Map<NodeId, NameRecord>,
    pub epoch_validators: Map<NodeId, u64>,
    pub dedicated_fullnodes: Seq<NodeId>,
    pub prioritized_fullnodes: Seq<NodeId>,
    pub known_peers: Seq<NodeId>,
}

impl View for NodeRunConfig {
    type V = NodeView;

    open spec fn view(&self) -> NodeView {
        NodeView {
            key: self.key,
            node_type: self.node_type,
            sockets: self.sockets,
            self_record: self.self_record,
            bootstrap_peers: self.bootstrap_peers@,
            epoch_validators: self.epoch_validators@,
            dedicated_fullnodes: self.dedicated_fullnodes@,
            prioritized_fullnodes: self.prioritized_fullnodes@,
            known_peers: self.known_peers@,
        }
    }
}

/// A node that serves no full nodes yet.
pub open spec fn fresh_node(
    key: NodeKey,
    node_type: NodeType,
    sockets: NodeSockets,
    bootstrap_peers: Map<NodeId, NameRecord>,
    epoch_validators: Map<NodeId, u64>,
    known_peers: Seq<NodeId>,
) -> NodeView {
    NodeView {
        key,
        node_type,
        sockets,
        self_record: name_record(sockets),
        bootstrap_peers,
        epoch_validators,
        dedicated_fullnodes: Seq::empty(),
        prioritized_fullnodes: Seq::empty(),
        known_peers,
    }
}

impl NodeView {
    /// The node once it also knows `peers`.
    pub open spec fn knowing(self, peers: Seq<NodeId>) -> NodeView {
        NodeView { known_peers: self.known_peers + peers, ..self }
    }

    /// The node once it also bootstraps from `records` and knows their nodes.
    pub open spec fn bootstrapping(self, records: Map<NodeId, NameRecord>) -> NodeView {
        NodeView {
            bootstrap_peers: self.bootstrap_peers.union_prefer_right(records),
            known_peers: self.known_peers + sorted_keys(records),
            ..self
        }
    }

    /// The node once the validators are `validators`.
    pub open spec fn with_epoch(self, validators: Map<NodeId, u64>) -> NodeView {
        NodeView { epoch_validators: validators, ..self }
    }

    /// The node once it serves these dedicated full nodes too.
    pub open spec fn serving_dedicated(self, fullnodes: Seq<NodeId>) -> NodeView {
        NodeView { dedicated_fullnodes: self.dedicated_fullnodes + fullnodes, ..self }
    }

    /// The node once it serves these prioritized full nodes too.
    pub open spec fn serving_prioritized(self, fullnodes: Seq<NodeId>) -> NodeView {
        NodeView { prioritized_fullnodes: self.prioritized_fullnodes + fullnodes, ..self }
    }
}

/// Several nodes of one kind, and their records.
pub struct NodeGroup {
    pub configs: Vec<NodeRunConfig>,
    pub records: OrderedMap<NodeId, NameRecord>,
}

#[verifier::ext_equal]
pub struct GroupView {
    pub configs: Seq<NodeView>,
    pub records: Map<NodeId, NameRecord>,
}

/// The models of nodes.
pub open spec fn node_views(nodes: Seq<NodeRunConfig>) -> Seq<NodeView> {
    nodes.map_values(|node: NodeRunConfig| node@)
}

/// Whether the maps of nodes are well-formed.
pub open spec fn nodes_wf(nodes: Seq<NodeRunConfig>) -> bool {
    forall|i: int| #![trigger nodes[i]]
        0 <= i < nodes.len() ==> nodes[i].bootstrap_peers.wf() && nodes[i].epoch_validators.wf()
}

impl View for NodeGroup {
    type V = GroupView;

    open spec fn view(&self) -> GroupView {
        GroupView { configs: node_views(self.configs@), records: self.records@ }
    }
}

impl NodeGroup {
    pub open spec fn wf(self) -> bool {
        nodes_wf(self.configs@) && self.records.wf()
    }
}

/// The records of nodes; of two nodes with one identity, the later one's.
pub open spec fn records_of(sockets: Seq<NodeSockets>, keys: Seq<NodeKey>) -> Map<NodeId, NameRecord>
    decreases keys.len(),
{
    if keys.len() == 0 {
        Map::empty()
    } else {
        records_of(sockets, keys.drop_last()).insert(
            keys.last().node_id,
            name_record(sockets[keys.len() - 1]),
        )
    }
}

/// The identities of nodes.
pub open spec fn ids_of(keys: Seq<NodeKey>) -> Seq<NodeId> {
    keys.map_values(|key: NodeKey| key.node_id)
}

/// Every identity in `records` with the stake of a validator.
pub open spec fn stakes_of(records: Map<NodeId, NameRecord>) -> Map<NodeId, u64> {
    records.map_values(|record: NameRecord| VALIDATOR_STAKE)
}

/// `ids` without `own`, in order.
pub open spec fn others(ids: Seq<NodeId>, own: NodeId) -> Seq<NodeId>
    decreases ids.len(),
{
    if ids.len() == 0 {
        Seq::empty()
    } else if ids.last() == own {
        others(ids.drop_last(), own)
    } else {
        others(ids.drop_last(), own).push(ids.last())
    }
}

/// The items at the positions that are `turn` modulo `count`.
pub open spec fn every_turn(ids: Seq<NodeId>, turn: int, count: int) -> Seq<NodeId>
    decreases ids.len(),
{
    if ids.len() == 0 {
        Seq::empty()
    } else if (ids.len() - 1) % count == turn {
        every_turn(ids.drop_last(), turn, count).push(ids.last())
    } else {
        every_turn(ids.drop_last(), turn, count)
    }
}

/// `ids` without `own`.
fn without(ids: &Vec<NodeId>, own: &NodeId) -> (rest: Vec<NodeId>)
    ensures
        rest@ == others(ids@, *own),
{
    let mut rest: Vec<NodeId> = Vec::new();
    let mut i: usize = 0;
    while i < ids.len()
        invariant
            i <= ids@.len(),
            rest@ == others(ids@.take(i as int), *own),
        decreases ids@.len() - i,
    {
        assert(ids@.take(i + 1).drop_last() =~= ids@.take(i as int));
        if !same_key(&ids[i], own) {
            rest.push(ids[i]);
        }
        i += 1;
    }
    assert(ids@.take(ids@.len() as int) =~= ids@);
    rest
}

fn append_ids(ids: &mut Vec<NodeId>, more: &Vec<NodeId>)
    ensures
        final(ids)@ == old(ids)@ + more@,
{
    let ghost before = ids@;
    let mut i: usize = 0;
    while i < more.len()
        invariant
            i <= more@.len(),
            ids@ == before + more@.take(i as int),
        decreases more@.len() - i,
    {
        ids.push(more[i]);
        assert(more@.take(i + 1) =~= more@.take(i as int).push(more@[i as int]));
        i += 1;
    }
    assert(more@.take(more@.len() as int) =~= more@);
}

/// The records of nodes.
fn collect_records(sockets: &Vec<NodeSockets>, keys: &Vec<NodeKey>) -> (records: OrderedMap<
    NodeId,
    NameRecord,
>)
    requires
        sockets@.len() == keys@.len(),
    ensures
        records.wf(),
        records@ == records_of(sockets@, keys@),
{
    let mut records: OrderedMap<NodeId, NameRecord> = OrderedMap::new();
    let mut i: usize = 0;
    while i < keys.len()
        invariant
            sockets@.len() == keys@.len(),
            i <= keys@.len(),
            records.wf(),
            records@ == records_of(sockets@, keys@.take(i as int)),
        decreases keys@.len() - i,
    {
        records.insert(keys[i].node_id, create_name_record(&sockets[i]));
        assert(keys@.take(i + 1).drop_last() =~= keys@.take(i as int));
        i += 1;
    }
    assert(keys@.take(keys@.len() as int) =~= keys@);
    records
}

/// The stakes of validators.
fn collect_stakes(records: &OrderedMap<NodeId, NameRecord>) -> (stakes: OrderedMap<NodeId, u64>)
    requires
        records.wf(),
    ensures
        stakes.wf(),
        stakes@ == stakes_of(records@),
{
    let ids: Vec<NodeId> = records.key_list();
    let mut stakes: OrderedMap<NodeId, u64> = OrderedMap::new();
    let mut i: usize = 0;
    while i < ids.len()
        invariant
            i <= ids@.len(),
            stakes.wf(),
            forall|id: NodeId| #[trigger] stakes@.contains_key(id) <==> ids@.take(i as int).contains(id),
            forall|id: NodeId| #[trigger] stakes@.contains_key(id) ==> stakes@[id] == VALIDATOR_STAKE,
        decreases ids@.len() - i,
    {
        stakes.insert(ids[i], VALIDATOR_STAKE);
        proof {
            broadcast use vstd::seq_lib::lemma_seq_contains_after_push;

            assert(ids@.take(i + 1) =~= ids@.take(i as int).push(ids@[i as int]));
        }
        i += 1;
    }
    proof {
        assert(ids@.take(ids@.len() as int) =~= ids@);
        assert(stakes@ =~= stakes_of(records@)) by {
            assert forall|id: NodeId| #[trigger] stakes@.contains_key(id) <==> stakes_of(
                records@,
            ).contains_key(id) by {
                assert(ids@.to_set().contains(id) <==> records@.dom().contains(id));
            }
        }
    }
    stakes
}

/// Nodes that serve no full nodes yet.
fn make_nodes(
    keys: &Vec<NodeKey>,
    node_type: NodeType,
    sockets: &Vec<NodeSockets>,
    bootstrap_peers: &OrderedMap<NodeId, NameRecord>,
    epoch_validators: &OrderedMap<NodeId, u64>,
    known_peers: &Vec<NodeId>,
) -> (nodes: Vec<NodeRunConfig>)
    requires
        sockets@.len() == keys@.len(),
        bootstrap_peers.wf(),
        epoch_validators.wf(),
    ensures
        nodes_wf(nodes@),
        node_views(nodes@) == Seq::new(
            keys@.len(),
            |i: int|
                fresh_node(
                    keys@[i],
                    node_type,
                    sockets@[i],
                    bootstrap_peers@,
                    epoch_validators@,
                    known_peers@,
                ),
        ),
{
    let mut nodes: Vec<NodeRunConfig> = Vec::new();
    let mut i: usize = 0;
    while i < keys.len()
        invariant
            sockets@.len() == keys@.len(),
            bootstrap_peers.wf(),
            epoch_validators.wf(),
            i <= keys@.len(),
            nodes@.len() == i,
            nodes_wf(nodes@),
            forall|j: int| #![trigger nodes@[j]]
                0 <= j < i ==> nodes@[j]@ == fresh_node(
                    keys@[j],
                    node_type,
                    sockets@[j],
                    bootstrap_peers@,
                    epoch_validators@,
                    known_peers@,
                ),
        decreases keys@.len() - i,
    {
        let node = NodeRunConfig {
            key: keys[i],
            node_type,
            sockets: sockets[i],
            self_record: create_name_record(&sockets[i]),
            bootstrap_peers: bootstrap_peers.copied(),
            epoch_validators: epoch_validators.copied(),
            dedicated_fullnodes: Vec::new(),
            prioritized_fullnodes: Vec::new(),
            known_peers: copy_keys(known_peers),
        };
        assert(node@ =~= fresh_node(
            keys@[i as int],
            node_type,
            sockets@[i as int],
            bootstrap_peers@,
            epoch_validators@,
            known_peers@,
        ));
        nodes.push(node);
        i += 1;
    }
    assert(node_views(nodes@) =~= Seq::new(
        keys@.len(),
        |i: int|
            fresh_node(
                keys@[i],
                node_type,
                sockets@[i],
                bootstrap_peers@,
                epoch_validators@,
                known_peers@,
            ),
    ));
    nodes
}

/// Tells every node about the nodes of `records` as peers.
fn introduce_peers(nodes: &mut Vec<NodeRunConfig>, records: &OrderedMap<NodeId, NameRecord>)
    requires
        nodes_wf(old(nodes)@),
        records.wf(),
    ensures
        nodes_wf(final(nodes)@),
        node_views(final(nodes)@) == node_views(old(nodes)@).map_values(
            |node: NodeView| node.knowing(sorted_keys(records@)),
        ),
{
    let ids: Vec<NodeId> = records.key_list();
    let ghost before = nodes@;
    let mut i: usize = 0;
    while i < nodes.len()
        invariant
            i <= nodes@.len(),
            nodes@.len() == before.len(),
            nodes_wf(nodes@),
            forall|j: int| #![trigger nodes@[j]] 0 <= j < i ==> nodes@[j]@ == before[j]@.knowing(ids@),
            forall|j: int| #![trigger nodes@[j]] i <= j < before.len() ==> nodes@[j] == before[j],
        decreases nodes@.len() - i,
    {
        append_ids(&mut nodes[i].known_peers, &ids);
        assert(nodes@[i as int]@ =~= before[i as int]@.knowing(ids@));
        i += 1;
    }
    assert(node_views(nodes@) =~= node_views(before).map_values(
        |node: NodeView| node.knowing(sorted_keys(records@)),
    ));
}

/// Tells every node about the nodes of `records` as peers to bootstrap from.
fn introduce_bootstraps(nodes: &mut Vec<NodeRunConfig>, records: &OrderedMap<NodeId, NameRecord>)
    requires
        nodes_wf(old(nodes)@),
        records.wf(),
    ensures
        nodes_wf(final(nodes)@),
        node_views(final(nodes)@) == node_views(old(nodes)@).map_values(
            |node: NodeView| node.bootstrapping(records@),
        ),
{
    let ids: Vec<NodeId> = records.key_list();
    let ghost before = nodes@;
    let mut i: usize = 0;
    while i < nodes.len()
        invariant
            i <= nodes@.len(),
            nodes@.len() == before.len(),
            nodes_wf(nodes@),
            nodes_wf(before),
            records.wf(),
            ids@ == sorted_keys(records@),
            forall|j: int| #![trigger nodes@[j]]
                0 <= j < i ==> nodes@[j]@ == before[j]@.bootstrapping(records@),
            forall|j: int| #![trigger nodes@[j]] i <= j < before.len() ==> nodes@[j] == before[j],
        decreases nodes@.len() - i,
    {
        nodes[i].bootstrap_peers.extend(records);
        append_ids(&mut nodes[i].known_peers, &ids);
        assert(nodes@[i as int]@ =~= before[i as int]@.bootstrapping(records@));
        i += 1;
    }
    assert(node_views(nodes@) =~= node_views(before).map_values(
        |node: NodeView| node.bootstrapping(records@),
    ));
}

/// The bootnodes of a cluster.
pub type BootnodesInitialized = NodeGroup;

/// The full nodes that validators serve directly.
pub type DedicatedFullnodesInitialized = NodeGroup;

/// The full nodes with guaranteed slots.
pub type PrioritizedFullnodesInitialized = NodeGroup;

/// The full nodes without guarantees.
pub type StandardFullnodesInitialized = NodeGroup;

/// The validators of a cluster.
pub struct ValidatorsInitialized {
    pub configs: Vec<NodeRunConfig>,
    pub records: OrderedMap<NodeId, NameRecord>,
    pub stakes: OrderedMap<NodeId, u64>,
}

#[verifier::ext_equal]
pub struct ValidatorsView {
    pub configs: Seq<NodeView>,
    pub records: Map<NodeId, NameRecord>,
    pub stakes: Map<NodeId, u64>,
}

impl View for ValidatorsInitialized {
    type V = ValidatorsView;

    open spec fn view(&self) -> ValidatorsView {
        ValidatorsView {
            configs: node_views(self.configs@),
            records: self.records@,
            stakes: self.stakes@,
        }
    }
}

impl ValidatorsInitialized {
    pub open spec fn wf(self) -> bool {
        nodes_wf(self.configs@) && self.records.wf() && self.stakes.wf()
    }
}

/// The nodes of a cluster that were set up so far.
pub struct ClusterBuilder {
    pub bootnodes: Option<BootnodesInitialized>,
    pub validators: Option<ValidatorsInitialized>,
    pub dedicated_fullnodes: Option<DedicatedFullnodesInitialized>,
    pub prioritized_fullnodes: Option<PrioritizedFullnodesInitialized>,
    pub fullnodes: Option<StandardFullnodesInitialized>,
    pub workload: WorkloadConfig,
}

#[verifier::ext_equal]
pub struct ClusterView {
    pub bootnodes: Option<GroupView>,
    pub validators: Option<ValidatorsView>,
    pub dedicated_fullnodes: Option<GroupView>,
    pub prioritized_fullnodes: Option<GroupView>,
    pub fullnodes: Option<GroupView>,
    pub workload: WorkloadConfig,
}

/// The model of an optional group.
pub open spec fn group_view(group: Option<NodeGroup>) -> Option<GroupView> {
    match group {
        Some(group) => Some(group@),
        None => None,
    }
}

/// The model of optional validators.
pub open spec fn validators_view(validators: Option<ValidatorsInitialized>) -> Option<ValidatorsView> {
    match validators {
        Some(validators) => Some(validators@),
        None => None,
    }
}

impl View for ClusterBuilder {
    type V = ClusterView;

    open spec fn view(&self) -> ClusterView {
        ClusterView {
            bootnodes: group_view(self.bootnodes),
            validators: validators_view(self.validators),
            dedicated_fullnodes: group_view(self.dedicated_fullnodes),
            prioritized_fullnodes: group_view(self.prioritized_fullnodes),
            fullnodes: group_view(self.fullnodes),
            workload: self.workload,
        }
    }
}

/// The key pairs of nodes, or the first error among them.
pub open spec fn all_keys(keys: Seq<Result<NodeKey, ClusterError>>) -> Result<Seq<NodeKey>, ClusterError>
    decreases keys.len(),
{
    if keys.len() == 0 {
        Ok(Seq::empty())
    } else {
        match all_keys(keys.drop_last()) {
            Ok(earlier) => match keys.last() {
                Ok(key) => Ok(earlier.push(key)),
                Err(error) => Err(error),
            },
            Err(error) => Err(error),
        }
    }
}

proof fn lemma_all_keys_len(keys: Seq<Result<NodeKey, ClusterError>>)
    ensures
        all_keys(keys) matches Ok(all) ==> all.len() == keys.len(),
    decreases keys.len(),
{
    if keys.len() > 0 {
        lemma_all_keys_len(keys.drop_last());
    }
}

proof fn lemma_first_error_stays(keys: Seq<Result<NodeKey, ClusterError>>, count: nat)
    requires
        count <= keys.len(),
        all_keys(keys.take(count as int)) is Err,
    ensures
        all_keys(keys) == all_keys(keys.take(count as int)),
    decreases keys.len(),
{
    if count == keys.len() {
        assert(keys.take(count as int) =~= keys);
    } else {
        assert(keys.drop_last().take(count as int) =~= keys.take(count as int));
        lemma_first_error_stays(keys.drop_last(), count);
    }
}

/// The key pairs of nodes, or the first error among them.
fn require_keys(keys: &Vec<Result<NodeKey, ClusterError>>) -> (result: Result<Vec<NodeKey>, ClusterError>)
    ensures
        match result {
            Ok(all) => all_keys(keys@) == Ok::<Seq<NodeKey>, ClusterError>(all@) && all@.len()
                == keys@.len(),
            Err(error) => all_keys(keys@) == Err::<Seq<NodeKey>, ClusterError>(error),
        },
{
    let mut all: Vec<NodeKey> = Vec::new();
    let mut i: usize = 0;
    while i < keys.len()
        invariant
            i <= keys@.len(),
            all@.len() == i,
            all_keys(keys@.take(i as int)) == Ok::<Seq<NodeKey>, ClusterError>(all@),
        decreases keys@.len() - i,
    {
        proof {
            assert(keys@.take(i + 1).drop_last() =~= keys@.take(i as int));
        }
        match keys[i] {
            Ok(key) => {
                all.push(key);
            },
            Err(error) => {
                proof {
                    lemma_first_error_stays(keys@, (i + 1) as nat);
                }
                return Err(error);
            },
        }
        i += 1;
    }
    assert(keys@.take(keys@.len() as int) =~= keys@);
    Ok(all)
}

/// A kind of full node.
#[derive(Clone, Copy, Debug, PartialEq, Eq, Structural)]
pub enum FullnodeKind {
    Dedicated,
    Prioritized,
    Standard,
}

/// Whether a full node is of a kind.
pub open spec fn is_kind(config: FullnodeConfig, kind: FullnodeKind) -> bool {
    match kind {
        FullnodeKind::Dedicated => config.dedicated,
        FullnodeKind::Prioritized => config.prioritized,
        FullnodeKind::Standard => !config.dedicated && !config.prioritized,
    }
}

/// The addresses of a full node.
pub open spec fn fullnode_sockets(config: FullnodeConfig) -> NodeSockets {
    NodeSockets {
        tcp_addr: config.tcp_addr,
        udp_addr: config.udp_addr,
        authenticated_udp_addr: config.authenticated_udp_addr,
    }
}

/// The addresses of the full nodes of a kind, in order.
pub open spec fn kind_sockets(configs: Seq<FullnodeConfig>, kind: FullnodeKind) -> Seq<NodeSockets>
    decreases configs.len(),
{
    if configs.len() == 0 {
        Seq::empty()
    } else if is_kind(configs.last(), kind) {
        kind_sockets(configs.drop_last(), kind).push(fullnode_sockets(configs.last()))
    } else {
        kind_sockets(configs.drop_last(), kind)
    }
}

/// The key pairs of the full nodes of a kind, in order.
pub open spec fn kind_keys(
    configs: Seq<FullnodeConfig>,
    keys: Seq<Result<NodeKey, ClusterError>>,
    kind: FullnodeKind,
) -> Seq<Result<NodeKey, ClusterError>>
    decreases configs.len(),
{
    if configs.len() == 0 {
        Seq::empty()
    } else if is_kind(configs.last(), kind) {
        kind_keys(configs.drop_last(), keys, kind).push(keys[configs.len() - 1])
    } else {
        kind_keys(configs.drop_last(), keys, kind)
    }
}

fn select_kind(
    configs: &Vec<FullnodeConfig>,
    keys: &Vec<Result<NodeKey, ClusterError>>,
    kind: FullnodeKind,
) -> (selected: (Vec<NodeSockets>, Vec<Result<NodeKey, ClusterError>>))
    requires
        keys@.len() == configs@.len(),
    ensures
        selected.0@ == kind_sockets(configs@, kind),
        selected.1@ == kind_keys(configs@, keys@, kind),
        selected.0@.len() == selected.1@.len(),
{
    let mut sockets: Vec<NodeSockets> = Vec::new();
    let mut chosen: Vec<Result<NodeKey, ClusterError>> = Vec::new();
    let mut i: usize = 0;
    while i < configs.len()
        invariant
            keys@.len() == configs@.len(),
            i <= configs@.len(),
            sockets@ == kind_sockets(configs@.take(i as int), kind),
            chosen@ == kind_keys(configs@.take(i as int), keys@, kind),
            sockets@.len() == chosen@.len(),
        decreases configs@.len() - i,
    {
        let config: &FullnodeConfig = &configs[i];
        assert(configs@.take(i + 1).drop_last() =~= configs@.take(i as int));
        let wanted: bool = match kind {
            FullnodeKind::Dedicated => config.dedicated,
            FullnodeKind::Prioritized => config.prioritized,
            FullnodeKind::Standard => !config.dedicated && !config.prioritized,
        };
        if wanted {
            sockets.push(
                NodeSockets {
                    tcp_addr: config.tcp_addr,
                    udp_addr: config.udp_addr,
                    authenticated_udp_addr: config.authenticated_udp_addr,
                },
            );
            let key: Result<NodeKey, ClusterError> = match keys[i] {
                Ok(key) => Ok(key),
                Err(error) => Err(error),
            };
            chosen.push(key);
        }
        i += 1;
    }
    assert(configs@.take(configs@.len() as int) =~= configs@);
    (sockets, chosen)
}

/// The addresses of bootnodes.
pub open spec fn bootnode_sockets(configs: Seq<BootnodeConfig>) -> Seq<NodeSockets> {
    configs.map_values(
        |config: BootnodeConfig|
            NodeSockets {
                tcp_addr: config.tcp_addr,
                udp_addr: config.udp_addr,
                authenticated_udp_addr: config.authenticated_udp_addr,
            },
    )
}

/// The addresses of validators.
pub open spec fn validator_sockets(configs: Seq<ValidatorConfig>) -> Seq<NodeSockets> {
    configs.map_values(
        |config: ValidatorConfig|
            NodeSockets {
                tcp_addr: config.tcp_addr,
                udp_addr: config.udp_addr,
                authenticated_udp_addr: config.authenticated_udp_addr,
            },
    )
}

/// The bootnodes of a cluster: each bootstraps from the others.
pub open spec fn bootnode_group(sockets: Seq<NodeSockets>, keys: Seq<NodeKey>) -> GroupView {
    let records = records_of(sockets, keys);
    GroupView {
        configs: Seq::new(
            keys.len(),
            |i: int|
                fresh_node(
                    keys[i],
                    NodeType::Bootnode,
                    sockets[i],
                    records.remove(keys[i].node_id),
                    Map::empty(),
                    others(sorted_keys(records), keys[i].node_id),
                ),
        ),
        records,
    }
}

/// The cluster once it has validators: they bootstrap from the bootnodes, all
/// nodes so far know the validator set, and the bootnodes bootstrap from them.
pub open spec fn with_validator_nodes(
    cluster: ClusterView,
    sockets: Seq<NodeSockets>,
    keys: Seq<NodeKey>,
) -> ClusterView {
    let bootnodes = cluster.bootnodes->Some_0;
    let records = records_of(sockets, keys);
    let stakes = stakes_of(records);
    ClusterView {
        bootnodes: Some(
            GroupView {
                configs: bootnodes.configs.map_values(
                    |node: NodeView| node.with_epoch(stakes).bootstrapping(records),
                ),
                records: bootnodes.records,
            },
        ),
        validators: Some(
            ValidatorsView {
                configs: Seq::new(
                    keys.len(),
                    |i: int|
                        fresh_node(
                            keys[i],
                            NodeType::Validator,
                            sockets[i],
                            bootnodes.records,
                            stakes,
                            others(
                                sorted_keys(bootnodes.records) + sorted_keys(records),
                                keys[i].node_id,
                            ),
                        ),
                ),
                records,
                stakes,
            },
        ),
        ..cluster
    }
}

/// Full nodes that bootstrap from the bootnodes.
pub open spec fn fullnode_group(
    cluster: ClusterView,
    sockets: Seq<NodeSockets>,
    keys: Seq<NodeKey>,
    node_type: NodeType,
    known_peers: Seq<NodeId>,
) -> GroupView {
    GroupView {
        configs: Seq::new(
            keys.len(),
            |i: int|
                fresh_node(
                    keys[i],
                    node_type,
                    sockets[i],
                    cluster.bootnodes->Some_0.records,
                    cluster.validators->Some_0.stakes,
                    known_peers,
                ),
        ),
        records: records_of(sockets, keys),
    }
}

pub open spec fn no_nodes() -> GroupView {
    GroupView { configs: Seq::empty(), records: Map::empty() }
}

/// Nodes that got to know the nodes of `records`.
pub open spec fn introduced(group: GroupView, records: Map<NodeId, NameRecord>) -> GroupView {
    GroupView {
        configs: group.configs.map_values(|node: NodeView| node.knowing(sorted_keys(records))),
        records: group.records,
    }
}

/// Nodes that got to bootstrap from the nodes of `records`.
pub open spec fn bootstrapped(group: GroupView, records: Map<NodeId, NameRecord>) -> GroupView {
    GroupView {
        configs: group.configs.map_values(|node: NodeView| node.bootstrapping(records)),
        records: group.records,
    }
}

/// The identities that full nodes with direct delivery know: bootnodes, then validators.
pub open spec fn served_peers(cluster: ClusterView) -> Seq<NodeId> {
    sorted_keys(cluster.bootnodes->Some_0.records) + sorted_keys(cluster.validators->Some_0.records)
}

/// The cluster once it has dedicated full nodes, shared out to the validators in turn.
pub open spec fn with_dedicated_nodes(
    cluster: ClusterView,
    sockets: Seq<NodeSockets>,
    keys: Seq<NodeKey>,
) -> ClusterView {
    let validators = cluster.validators->Some_0;
    let count = validators.configs.len() as int;
    let records = records_of(sockets, keys);
    ClusterView {
        bootnodes: Some(bootstrapped(cluster.bootnodes->Some_0, records)),
        validators: Some(
            ValidatorsView {
                configs: Seq::new(
                    validators.configs.len(),
                    |i: int|
                        validators.configs[i].serving_dedicated(
                            every_turn(ids_of(keys), i, count),
                        ).knowing(sorted_keys(records)),
                ),
                ..validators
            },
        ),
        dedicated_fullnodes: Some(
            fullnode_group(
                cluster,
                sockets,
                keys,
                NodeType::Fullnode { dedicated: true, prioritized: false },
                served_peers(cluster),
            ),
        ),
        ..cluster
    }
}

/// The cluster once it has prioritized full nodes, shared out to the validators in turn.
pub open spec fn with_prioritized_nodes(
    cluster: ClusterView,
    sockets: Seq<NodeSockets>,
    keys: Seq<NodeKey>,
) -> ClusterView {
    let validators = cluster.validators->Some_0;
    let count = validators.configs.len() as int;
    let records = records_of(sockets, keys);
    ClusterView {
        bootnodes: Some(bootstrapped(cluster.bootnodes->Some_0, records)),
        validators: Some(
            ValidatorsView {
                configs: Seq::new(
                    validators.configs.len(),
                    |i: int|
                        validators.configs[i].serving_prioritized(
                            every_turn(ids_of(keys), i, count),
                        ).knowing(sorted_keys(records)),
                ),
                ..validators
            },
        ),
        dedicated_fullnodes: Some(introduced(cluster.dedicated_fullnodes->Some_0, records)),
        prioritized_fullnodes: Some(
            fullnode_group(
                cluster,
                sockets,
                keys,
                NodeType::Fullnode { dedicated: false, prioritized: true },
                served_peers(cluster),
            ),
        ),
        ..cluster
    }
}

/// The cluster once it has standard full nodes, which know the bootnodes only.
pub open spec fn with_standard_nodes(
    cluster: ClusterView,
    sockets: Seq<NodeSockets>,
    keys: Seq<NodeKey>,
) -> ClusterView {
    let records = records_of(sockets, keys);
    ClusterView {
        bootnodes: Some(bootstrapped(cluster.bootnodes->Some_0, records)),
        dedicated_fullnodes: Some(introduced(cluster.dedicated_fullnodes->Some_0, records)),
        prioritized_fullnodes: Some(introduced(cluster.prioritized_fullnodes->Some_0, records)),
        fullnodes: Some(
            fullnode_group(
                cluster,
                sockets,
                keys,
                NodeType::Fullnode { dedicated: false, prioritized: false },
                sorted_keys(cluster.bootnodes->Some_0.records),
            ),
        ),
        ..cluster
    }
}

/// The outcome of adding bootnodes.
pub open spec fn adds_bootnodes(
    cluster: ClusterView,
    configs: Seq<BootnodeConfig>,
    keys: Seq<Result<NodeKey, ClusterError>>,
) -> Result<ClusterView, ClusterError> {
    match all_keys(keys) {
        Ok(all) => Ok(
            ClusterView {
                bootnodes: Some(bootnode_group(bootnode_sockets(configs), all)),
                ..cluster
            },
        ),
        Err(error) => Err(error),
    }
}

/// The outcome of adding validators.
pub open spec fn adds_validators(
    cluster: ClusterView,
    configs: Seq<ValidatorConfig>,
    keys: Seq<Result<NodeKey, ClusterError>>,
) -> Result<ClusterView, ClusterError> {
    if cluster.bootnodes is None {
        Err(ClusterError::BootnodesMissing)
    } else {
        match all_keys(keys) {
            Ok(all) => Ok(with_validator_nodes(cluster, validator_sockets(configs), all)),
            Err(error) => Err(error),
        }
    }
}

/// The outcome of adding dedicated full nodes.
pub open spec fn adds_dedicated(
    cluster: ClusterView,
    configs: Seq<FullnodeConfig>,
    keys: Seq<Result<NodeKey, ClusterError>>,
) -> Result<ClusterView, ClusterError> {
    let sockets = kind_sockets(configs, FullnodeKind::Dedicated);
    if cluster.bootnodes is None {
        Err(ClusterError::BootnodesMissing)
    } else if cluster.validators is None {
        Err(ClusterError::ValidatorsMissing)
    } else if sockets.len() == 0 || cluster.validators->Some_0.configs.len() == 0 {
        Ok(ClusterView { dedicated_fullnodes: Some(no_nodes()), ..cluster })
    } else {
        match all_keys(kind_keys(configs, keys, FullnodeKind::Dedicated)) {
            Ok(all) => Ok(with_dedicated_nodes(cluster, sockets, all)),
            Err(error) => Err(error),
        }
    }
}

/// The outcome of adding prioritized full nodes.
pub open spec fn adds_prioritized(
    cluster: ClusterView,
    configs: Seq<FullnodeConfig>,
    keys: Seq<Result<NodeKey, ClusterError>>,
) -> Result<ClusterView, ClusterError> {
    let sockets = kind_sockets(configs, FullnodeKind::Prioritized);
    if cluster.bootnodes is None {
        Err(ClusterError::BootnodesMissing)
    } else if cluster.validators is None {
        Err(ClusterError::ValidatorsMissing)
    } else if cluster.dedicated_fullnodes is None {
        Err(ClusterError::DedicatedFullnodesMissing)
    } else if sockets.len() == 0 || cluster.validators->Some_0.configs.len() == 0 {
        Ok(ClusterView { prioritized_fullnodes: Some(no_nodes()), ..cluster })
    } else {
        match all_keys(kind_keys(configs, keys, FullnodeKind::Prioritized)) {
            Ok(all) => Ok(with_prioritized_nodes(cluster, sockets, all)),
            Err(error) => Err(error),
        }
    }
}

/// The outcome of adding standard full nodes.
pub open spec fn adds_standard(
    cluster: ClusterView,
    configs: Seq<FullnodeConfig>,
    keys: Seq<Result<NodeKey, ClusterError>>,
) -> Result<ClusterView, ClusterError> {
    let sockets = kind_sockets(configs, FullnodeKind::Standard);
    if cluster.bootnodes is None {
        Err(ClusterError::BootnodesMissing)
    } else if cluster.validators is None {
        Err(ClusterError::ValidatorsMissing)
    } else if cluster.dedicated_fullnodes is None {
        Err(ClusterError::DedicatedFullnodesMissing)
    } else if cluster.prioritized_fullnodes is None {
        Err(ClusterError::PrioritizedFullnodesMissing)
    } else if sockets.len() == 0 {
        Ok(ClusterView { fullnodes: Some(no_nodes()), ..cluster })
    } else {
        match all_keys(kind_keys(configs, keys, FullnodeKind::Standard)) {
            Ok(all) => Ok(with_standard_nodes(cluster, sockets, all)),
            Err(error) => Err(error),
        }
    }
}

/// Whether a result is the outcome `outcome`.
pub open spec fn is_outcome(
    result: Result<ClusterBuilder, ClusterError>,
    outcome: Result<ClusterView, ClusterError>,
) -> bool {
    match result {
        Ok(builder) => builder.wf() && outcome == Ok::<ClusterView, ClusterError>(builder@),
        Err(error) => outcome == Err::<ClusterView, ClusterError>(error),
    }
}

/// A group without nodes.
fn empty_group() -> (group: NodeGroup)
    ensures
        group.wf(),
        group@ == no_nodes(),
{
    let group = NodeGroup { configs: Vec::new(), records: OrderedMap::new() };
    assert(node_views(group.configs@) =~= Seq::<NodeView>::empty());
    group
}

proof fn lemma_every_turn_step(ids: Seq<NodeId>, id: NodeId, count: int)
    requires
        count > 0,
    ensures
        forall|turn: int| #[trigger]
            every_turn(ids.push(id), turn, count) == (if turn == ids.len() % (count as nat) {
                every_turn(ids, turn, count).push(id)
            } else {
                every_turn(ids, turn, count)
            }),
{
    assert forall|turn: int| #[trigger]
        every_turn(ids.push(id), turn, count) == (if turn == ids.len() % (count as nat) {
            every_turn(ids, turn, count).push(id)
        } else {
            every_turn(ids, turn, count)
        }) by {
        assert(ids.push(id).drop_last() =~= ids);
    }
}

/// Shares dedicated full nodes out to the validators in turn.
fn assign_dedicated(nodes: &mut Vec<NodeRunConfig>, keys: &Vec<NodeKey>)
    requires
        nodes_wf(old(nodes)@),
        old(nodes)@.len() > 0,
    ensures
        nodes_wf(final(nodes)@),
        node_views(final(nodes)@) == Seq::new(
            old(nodes)@.len(),
            |i: int|
                old(nodes)@[i]@.serving_dedicated(
                    every_turn(ids_of(keys@), i, old(nodes)@.len() as int),
                ),
        ),
{
    let ghost before = nodes@;
    let count: usize = nodes.len();
    let mut k: usize = 0;
    proof {
        assert forall|i: int| 0 <= i < before.len() implies (#[trigger] nodes@[i])@
            == before[i]@.serving_dedicated(every_turn(ids_of(keys@.take(0)), i, count as int)) by {
            assert(before[i]@.serving_dedicated(Seq::empty()) =~= before[i]@);
            assert(every_turn(ids_of(keys@.take(0)), i, count as int) =~= Seq::empty());
        }
    }
    while k < keys.len()
        invariant
            k <= keys@.len(),
            count == before.len(),
            count > 0,
            nodes@.len() == count,
            nodes_wf(nodes@),
            forall|i: int| 0 <= i < count ==> (#[trigger] nodes@[i])@ == before[i]@.serving_dedicated(
                every_turn(ids_of(keys@.take(k as int)), i, count as int),
            ),
        decreases keys@.len() - k,
    {
        let turn: usize = k % count;
        let ghost middle = nodes@;
        let ghost ids = ids_of(keys@.take(k as int));
        nodes[turn].dedicated_fullnodes.push(keys[k].node_id);
        proof {
            let id = keys@[k as int].node_id;
            assert(ids_of(keys@.take(k + 1)) =~= ids.push(id));
            lemma_every_turn_step(ids, id, count as int);
            assert forall|i: int| 0 <= i < count implies (#[trigger] nodes@[i])@
                == before[i]@.serving_dedicated(
                every_turn(ids_of(keys@.take(k + 1)), i, count as int),
            ) by {
                if i == turn {
                    assert(nodes@[i]@.dedicated_fullnodes == middle[i]@.dedicated_fullnodes.push(id));
                    assert(nodes@[i]@ =~= before[i]@.serving_dedicated(
                        every_turn(ids, i, count as int).push(id),
                    ));
                } else {
                    assert(nodes@[i] == middle[i]);
                }
            }
        }
        k += 1;
    }
    assert(keys@.take(keys@.len() as int) =~= keys@);
    assert(node_views(nodes@) =~= Seq::new(
        before.len(),
        |i: int| before[i]@.serving_dedicated(every_turn(ids_of(keys@), i, before.len() as int)),
    ));
}

/// Shares prioritized full nodes out to the validators in turn.
fn assign_prioritized(nodes: &mut Vec<NodeRunConfig>, keys: &Vec<NodeKey>)
    requires
        nodes_wf(old(nodes)@),
        old(nodes)@.len() > 0,
    ensures
        nodes_wf(final(nodes)@),
        node_views(final(nodes)@) == Seq::new(
            old(nodes)@.len(),
            |i: int|
                old(nodes)@[i]@.serving_prioritized(
                    every_turn(ids_of(keys@), i, old(nodes)@.len() as int),
                ),
        ),
{
    let ghost before = nodes@;
    let count: usize = nodes.len();
    let mut k: usize = 0;
    proof {
        assert forall|i: int| 0 <= i < before.len() implies (#[trigger] nodes@[i])@
            == before[i]@.serving_prioritized(every_turn(ids_of(keys@.take(0)), i, count as int)) by {
            assert(before[i]@.serving_prioritized(Seq::empty()) =~= before[i]@);
            assert(every_turn(ids_of(keys@.take(0)), i, count as int) =~= Seq::empty());
        }
    }
    while k < keys.len()
        invariant
            k <= keys@.len(),
            count == before.len(),
            count > 0,
            nodes@.len() == count,
            nodes_wf(nodes@),
            forall|i: int| 0 <= i < count ==> (#[trigger] nodes@[i])@ == before[i]@.serving_prioritized(
                every_turn(ids_of(keys@.take(k as int)), i, count as int),
            ),
        decreases keys@.len() - k,
    {
        let turn: usize = k % count;
        let ghost middle = nodes@;
        let ghost ids = ids_of(keys@.take(k as int));
        nodes[turn].prioritized_fullnodes.push(keys[k].node_id);
        proof {
            let id = keys@[k as int].node_id;
            assert(ids_of(keys@.take(k + 1)) =~= ids.push(id));
            lemma_every_turn_step(ids, id, count as int);
            assert forall|i: int| 0 <= i < count implies (#[trigger] nodes@[i])@
                == before[i]@.serving_prioritized(
                every_turn(ids_of(keys@.take(k + 1)), i, count as int),
            ) by {
                if i == turn {
                    assert(nodes@[i]@.prioritized_fullnodes == middle[i]@.prioritized_fullnodes.push(id));
                    assert(nodes@[i]@ =~= before[i]@.serving_prioritized(
                        every_turn(ids, i, count as int).push(id),
                    ));
                } else {
                    assert(nodes@[i] == middle[i]);
                }
            }
        }
        k += 1;
    }
    assert(keys@.take(keys@.len() as int) =~= keys@);
    assert(node_views(nodes@) =~= Seq::new(
        before.len(),
        |i: int| before[i]@.serving_prioritized(every_turn(ids_of(keys@), i, before.len() as int)),
    ));
}

fn sockets_of_bootnodes(configs: &Vec<BootnodeConfig>) -> (sockets: Vec<NodeSockets>)
    ensures
        sockets@ == bootnode_sockets(configs@),
{
    let mut sockets: Vec<NodeSockets> = Vec::new();
    let mut i: usize = 0;
    while i < configs.len()
        invariant
            i <= configs@.len(),
            sockets@ == bootnode_sockets(configs@).take(i as int),
        decreases configs@.len() - i,
    {
        let config: &BootnodeConfig = &configs[i];
        sockets.push(
            NodeSockets {
                tcp_addr: config.tcp_addr,
                udp_addr: config.udp_addr,
                authenticated_udp_addr: config.authenticated_udp_addr,
            },
        );
        assert(bootnode_sockets(configs@).take(i + 1) =~= bootnode_sockets(configs@).take(i as int).push(
            bootnode_sockets(configs@)[i as int],
        ));
        i += 1;
    }
    assert(bootnode_sockets(configs@).take(configs@.len() as int) =~= bootnode_sockets(configs@));
    sockets
}

fn sockets_of_validators(configs: &Vec<ValidatorConfig>) -> (sockets: Vec<NodeSockets>)
    ensures
        sockets@ == validator_sockets(configs@),
{
    let mut sockets: Vec<NodeSockets> = Vec::new();
    let mut i: usize = 0;
    while i < configs.len()
        invariant
            i <= configs@.len(),
            sockets@ == validator_sockets(configs@).take(i as int),
        decreases configs@.len() - i,
    {
        let config: &ValidatorConfig = &configs[i];
        sockets.push(
            NodeSockets {
                tcp_addr: config.tcp_addr,
                udp_addr: config.udp_addr,
                authenticated_udp_addr: config.authenticated_udp_addr,
            },
        );
        assert(validator_sockets(configs@).take(i + 1) =~= validator_sockets(configs@).take(
            i as int,
        ).push(validator_sockets(configs@)[i as int]));
        i += 1;
    }
    assert(validator_sockets(configs@).take(configs@.len() as int) =~= validator_sockets(configs@));
    sockets
}

/// Makes every node know its peers: `ids` without the node itself.
fn set_known_peers(nodes: &mut Vec<NodeRunConfig>, ids: &Vec<NodeId>)
    requires
        nodes_wf(old(nodes)@),
    ensures
        nodes_wf(final(nodes)@),
        node_views(final(nodes)@) == node_views(old(nodes)@).map_values(
            |node: NodeView| NodeView { known_peers: others(ids@, node.key.node_id), ..node },
        ),
{
    let ghost before = nodes@;
    let mut i: usize = 0;
    while i < nodes.len()
        invariant
            i <= nodes@.len(),
            nodes@.len() == before.len(),
            nodes_wf(nodes@),
            forall|j: int| #![trigger nodes@[j]]
                0 <= j < i ==> nodes@[j]@ == (NodeView {
                    known_peers: others(ids@, before[j]@.key.node_id),
                    ..before[j]@
                }),
            forall|j: int| #![trigger nodes@[j]] i <= j < before.len() ==> nodes@[j] == before[j],
        decreases nodes@.len() - i,
    {
        let own: NodeId = nodes[i].key.node_id;
        nodes[i].known_peers = without(ids, &own);
        i += 1;
    }
    assert(node_views(nodes@) =~= node_views(before).map_values(
        |node: NodeView| NodeView { known_peers: others(ids@, node.key.node_id), ..node },
    ));
}

/// Makes every node bootstrap from the nodes of `records`, without the node itself.
fn set_bootstraps(nodes: &mut Vec<NodeRunConfig>, records: &OrderedMap<NodeId, NameRecord>)
    requires
        nodes_wf(old(nodes)@),
        records.wf(),
    ensures
        nodes_wf(final(nodes)@),
        node_views(final(nodes)@) == node_views(old(nodes)@).map_values(
            |node: NodeView|
                NodeView { bootstrap_peers: records@.remove(node.key.node_id), ..node },
        ),
{
    let ghost before = nodes@;
    let mut i: usize = 0;
    while i < nodes.len()
        invariant
            i <= nodes@.len(),
            nodes@.len() == before.len(),
            nodes_wf(nodes@),
            nodes_wf(before),
            records.wf(),
            forall|j: int| #![trigger nodes@[j]]
                0 <= j < i ==> nodes@[j]@ == (NodeView {
                    bootstrap_peers: records@.remove(before[j]@.key.node_id),
                    ..before[j]@
                }),
            forall|j: int| #![trigger nodes@[j]] i <= j < before.len() ==> nodes@[j] == before[j],
        decreases nodes@.len() - i,
    {
        let own: NodeId = nodes[i].key.node_id;
        let mut peers: OrderedMap<NodeId, NameRecord> = records.copied();
        peers.remove(&own);
        nodes[i].bootstrap_peers = peers;
        i += 1;
    }
    assert(node_views(nodes@) =~= node_views(before).map_values(
        |node: NodeView| NodeView { bootstrap_peers: records@.remove(node.key.node_id), ..node },
    ));
}

/// Tells every node the validator set.
fn set_validators(nodes: &mut Vec<NodeRunConfig>, stakes: &OrderedMap<NodeId, u64>)
    requires
        nodes_wf(old(nodes)@),
        stakes.wf(),
    ensures
        nodes_wf(final(nodes)@),
        node_views(final(nodes)@) == node_views(old(nodes)@).map_values(
            |node: NodeView| node.with_epoch(stakes@),
        ),
{
    let ghost before = nodes@;
    let mut i: usize = 0;
    while i < nodes.len()
        invariant
            i <= nodes@.len(),
            nodes@.len() == before.len(),
            nodes_wf(nodes@),
            nodes_wf(before),
            stakes.wf(),
            forall|j: int| #![trigger nodes@[j]]
                0 <= j < i ==> nodes@[j]@ == before[j]@.with_epoch(stakes@),
            forall|j: int| #![trigger nodes@[j]] i <= j < before.len() ==> nodes@[j] == before[j],
        decreases nodes@.len() - i,
    {
        nodes[i].epoch_validators = stakes.copied();
        i += 1;
    }
    assert(node_views(nodes@) =~= node_views(before).map_values(
        |node: NodeView| node.with_epoch(stakes@),
    ));
}

/// All nodes of a cluster: bootnodes, validators, then dedicated, prioritized,
/// and standard full nodes.
pub open spec fn all_nodes(cluster: ClusterView) -> Seq<NodeView> {
    group_nodes(cluster.bootnodes) + validator_nodes(cluster.validators) + group_nodes(
        cluster.dedicated_fullnodes,
    ) + group_nodes(cluster.prioritized_fullnodes) + group_nodes(cluster.fullnodes)
}

/// The nodes of an optional group.
pub open spec fn group_nodes(group: Option<GroupView>) -> Seq<NodeView> {
    match group {
        Some(group) => group.configs,
        None => Seq::empty(),
    }
}

/// The nodes of optional validators.
pub open spec fn validator_nodes(validators: Option<ValidatorsView>) -> Seq<NodeView> {
    match validators {
        Some(validators) => validators.configs,
        None => Seq::empty(),
    }
}

fn group_len(group: &Option<NodeGroup>) -> (len: usize)
    ensures
        len == group_nodes(group_view(*group)).len(),
{
    match group {
        Some(group) => group.configs.len(),
        None => 0,
    }
}

fn group_node(group: &Option<NodeGroup>, index: usize) -> (node: Option<&NodeRunConfig>)
    ensures
        index < group_nodes(group_view(*group)).len() ==> node is Some && node->Some_0@ == group_nodes(
            group_view(*group),
        )[index as int],
        index >= group_nodes(group_view(*group)).len() ==> node is None,
{
    match group {
        Some(group) => {
            if index < group.configs.len() {
                Some(&group.configs[index])
            } else {
                None
            }
        },
        None => None,
    }
}

impl ClusterBuilder {
    /// The maps of all nodes are well-formed.
    pub open spec fn wf(self) -> bool {
        &&& self.bootnodes matches Some(group) ==> group.wf()
        &&& self.validators matches Some(group) ==> group.wf()
        &&& self.dedicated_fullnodes matches Some(group) ==> group.wf()
        &&& self.prioritized_fullnodes matches Some(group) ==> group.wf()
        &&& self.fullnodes matches Some(group) ==> group.wf()
    }

    /// A cluster without nodes.
    pub fn new() -> (builder: Self)
        ensures
            builder.wf(),
            builder@.bootnodes is None,
            builder@.validators is None,
            builder@.dedicated_fullnodes is None,
            builder@.prioritized_fullnodes is None,
            builder@.fullnodes is None,
            builder@.workload == (WorkloadConfig {
                validator_broadcast_window_ms: 1000,
                validator_message_size_min: 131072,
                validator_message_size_max: 1048576,
                fullnode_p2p_window_ms: 10000,
                fullnode_p2p_targets_min: 1,
                fullnode_p2p_targets_max: 5,
                fullnode_message_size_min: 16384,
                fullnode_message_size_max: 131072,
            }),
    {
        ClusterBuilder {
            bootnodes: None,
            validators: None,
            dedicated_fullnodes: None,
            prioritized_fullnodes: None,
            fullnodes: None,
            workload: WorkloadConfig::default(),
        }
    }

    pub fn with_workload(self, workload: WorkloadConfig) -> (builder: Self)
        ensures
            self.wf() ==> builder.wf(),
            builder@ == (ClusterView { workload, ..self@ }),
    {
        let mut builder = self;
        builder.workload = workload;
        builder
    }

    /// Adds the bootnodes with their key pairs.
    pub fn with_bootnodes(
        self,
        configs: &Vec<BootnodeConfig>,
        keys: &Vec<Result<NodeKey, ClusterError>>,
    ) -> (result: Result<Self, ClusterError>)
        requires
            self.wf(),
            keys@.len() == configs@.len(),
        ensures
            is_outcome(result, adds_bootnodes(self@, configs@, keys@)),
    {
        let keys: Vec<NodeKey> = match require_keys(keys) {
            Ok(keys) => keys,
            Err(error) => {
                return Err(error);
            },
        };
        let sockets: Vec<NodeSockets> = sockets_of_bootnodes(configs);
        let records: OrderedMap<NodeId, NameRecord> = collect_records(&sockets, &keys);
        let ids: Vec<NodeId> = records.key_list();
        let nobody: OrderedMap<NodeId, u64> = OrderedMap::new();
        let mut nodes: Vec<NodeRunConfig> = make_nodes(
            &keys,
            NodeType::Bootnode,
            &sockets,
            &records,
            &nobody,
            &ids,
        );
        set_bootstraps(&mut nodes, &records);
        set_known_peers(&mut nodes, &ids);
        let group = NodeGroup { configs: nodes, records };
        assert(group@ =~= bootnode_group(sockets@, keys@));
        let mut builder = self;
        builder.bootnodes = Some(group);
        Ok(builder)
    }

    /// Adds the validators with their key pairs.
    pub fn with_validators(
        self,
        configs: &Vec<ValidatorConfig>,
        keys: &Vec<Result<NodeKey, ClusterError>>,
    ) -> (result: Result<Self, ClusterError>)
        requires
            self.wf(),
            keys@.len() == configs@.len(),
        ensures
            is_outcome(result, adds_validators(self@, configs@, keys@)),
    {
        let mut builder = self;
        let mut bootnodes: NodeGroup = match builder.bootnodes {
            Some(group) => group,
            None => {
                return Err(ClusterError::BootnodesMissing);
            },
        };
        let keys: Vec<NodeKey> = match require_keys(keys) {
            Ok(keys) => keys,
            Err(error) => {
                return Err(error);
            },
        };
        let sockets: Vec<NodeSockets> = sockets_of_validators(configs);
        let records: OrderedMap<NodeId, NameRecord> = collect_records(&sockets, &keys);
        let stakes: OrderedMap<NodeId, u64> = collect_stakes(&records);
        let mut ids: Vec<NodeId> = bootnodes.records.key_list();
        append_ids(&mut ids, &records.key_list());
        let mut nodes: Vec<NodeRunConfig> = make_nodes(
            &keys,
            NodeType::Validator,
            &sockets,
            &bootnodes.records,
            &stakes,
            &ids,
        );
        set_known_peers(&mut nodes, &ids);
        set_validators(&mut bootnodes.configs, &stakes);
        introduce_bootstraps(&mut bootnodes.configs, &records);
        let validators = ValidatorsInitialized { configs: nodes, records, stakes };
        proof {
            let expected = with_validator_nodes(self@, sockets@, keys@);
            assert(validators@ =~= expected.validators->Some_0);
            assert(bootnodes@ =~= expected.bootnodes->Some_0);
        }
        builder.bootnodes = Some(bootnodes);
        builder.validators = Some(validators);
        Ok(builder)
    }

    /// Adds the dedicated ones of the full nodes, in turn for each validator.
    pub fn with_dedicated_fullnodes(
        self,
        configs: &Vec<FullnodeConfig>,
        keys: &Vec<Result<NodeKey, ClusterError>>,
    ) -> (result: Result<Self, ClusterError>)
        requires
            self.wf(),
            keys@.len() == configs@.len(),
        ensures
            is_outcome(result, adds_dedicated(self@, configs@, keys@)),
    {
        let mut builder = self;
        let mut bootnodes: NodeGroup = match builder.bootnodes {
            Some(group) => group,
            None => {
                return Err(ClusterError::BootnodesMissing);
            },
        };
        let mut validators: ValidatorsInitialized = match builder.validators {
            Some(group) => group,
            None => {
                return Err(ClusterError::ValidatorsMissing);
            },
        };
        let (sockets, chosen) = select_kind(configs, keys, FullnodeKind::Dedicated);
        if sockets.len() == 0 || validators.configs.len() == 0 {
            builder.bootnodes = Some(bootnodes);
            builder.validators = Some(validators);
            builder.dedicated_fullnodes = Some(empty_group());
            return Ok(builder);
        }
        let keys: Vec<NodeKey> = match require_keys(&chosen) {
            Ok(keys) => keys,
            Err(error) => {
                return Err(error);
            },
        };
        let records: OrderedMap<NodeId, NameRecord> = collect_records(&sockets, &keys);
        let mut ids: Vec<NodeId> = bootnodes.records.key_list();
        append_ids(&mut ids, &validators.records.key_list());
        let nodes: Vec<NodeRunConfig> = make_nodes(
            &keys,
            NodeType::Fullnode { dedicated: true, prioritized: false },
            &sockets,
            &bootnodes.records,
            &validators.stakes,
            &ids,
        );
        assign_dedicated(&mut validators.configs, &keys);
        introduce_bootstraps(&mut bootnodes.configs, &records);
        introduce_peers(&mut validators.configs, &records);
        let group = NodeGroup { configs: nodes, records };
        proof {
            let expected = with_dedicated_nodes(self@, sockets@, keys@);
            assert(group@ =~= expected.dedicated_fullnodes->Some_0);
            assert(bootnodes@ =~= expected.bootnodes->Some_0);
            assert(validators@ =~= expected.validators->Some_0);
        }
        builder.bootnodes = Some(bootnodes);
        builder.validators = Some(validators);
        builder.dedicated_fullnodes = Some(group);
        Ok(builder)
    }

    /// Adds the prioritized ones of the full nodes, in turn for each validator.
    pub fn with_prioritized_fullnodes(
        self,
        configs: &Vec<FullnodeConfig>,
        keys: &Vec<Result<NodeKey, ClusterError>>,
    ) -> (result: Result<Self, ClusterError>)
        requires
            self.wf(),
            keys@.len() == configs@.len(),
        ensures
            is_outcome(result, adds_prioritized(self@, configs@, keys@)),
    {
        let mut builder = self;
        let mut bootnodes: NodeGroup = match builder.bootnodes {
            Some(group) => group,
            None => {
                return Err(ClusterError::BootnodesMissing);
            },
        };
        let mut validators: ValidatorsInitialized = match builder.validators {
            Some(group) => group,
            None => {
                return Err(ClusterError::ValidatorsMissing);
            },
        };
        let mut dedicated: NodeGroup = match builder.dedicated_fullnodes {
            Some(group) => group,
            None => {
                return Err(ClusterError::DedicatedFullnodesMissing);
            },
        };
        let (sockets, chosen) = select_kind(configs, keys, FullnodeKind::Prioritized);
        if sockets.len() == 0 || validators.configs.len() == 0 {
            builder.bootnodes = Some(bootnodes);
            builder.validators = Some(validators);
            builder.dedicated_fullnodes = Some(dedicated);
            builder.prioritized_fullnodes = Some(empty_group());
            return Ok(builder);
        }
        let keys: Vec<NodeKey> = match require_keys(&chosen) {
            Ok(keys) => keys,
            Err(error) => {
                return Err(error);
            },
        };
        let records: OrderedMap<NodeId, NameRecord> = collect_records(&sockets, &keys);
        let mut ids: Vec<NodeId> = bootnodes.records.key_list();
        append_ids(&mut ids, &validators.records.key_list());
        let nodes: Vec<NodeRunConfig> = make_nodes(
            &keys,
            NodeType::Fullnode { dedicated: false, prioritized: true },
            &sockets,
            &bootnodes.records,
            &validators.stakes,
            &ids,
        );
        assign_prioritized(&mut validators.configs, &keys);
        introduce_bootstraps(&mut bootnodes.configs, &records);
        introduce_peers(&mut validators.configs, &records);
        introduce_peers(&mut dedicated.configs, &records);
        let group = NodeGroup { configs: nodes, records };
        proof {
            let expected = with_prioritized_nodes(self@, sockets@, keys@);
            assert(group@ =~= expected.prioritized_fullnodes->Some_0);
            assert(bootnodes@ =~= expected.bootnodes->Some_0);
            assert(validators@ =~= expected.validators->Some_0);
            assert(dedicated@ =~= expected.dedicated_fullnodes->Some_0);
        }
        builder.bootnodes = Some(bootnodes);
        builder.validators = Some(validators);
        builder.dedicated_fullnodes = Some(dedicated);
        builder.prioritized_fullnodes = Some(group);
        Ok(builder)
    }

    /// Adds the full nodes that are neither dedicated nor prioritized.
    pub fn with_fullnodes(
        self,
        configs: &Vec<FullnodeConfig>,
        keys: &Vec<Result<NodeKey, ClusterError>>,
    ) -> (result: Result<Self, ClusterError>)
        requires
            self.wf(),
            keys@.len() == configs@.len(),
        ensures
            is_outcome(result, adds_standard(self@, configs@, keys@)),
    {
        let mut builder = self;
        let mut bootnodes: NodeGroup = match builder.bootnodes {
            Some(group) => group,
            None => {
                return Err(ClusterError::BootnodesMissing);
            },
        };
        let validators: ValidatorsInitialized = match builder.validators {
            Some(group) => group,
            None => {
                return Err(ClusterError::ValidatorsMissing);
            },
        };
        let mut dedicated: NodeGroup = match builder.dedicated_fullnodes {
            Some(group) => group,
            None => {
                return Err(ClusterError::DedicatedFullnodesMissing);
            },
        };
        let mut prioritized: NodeGroup = match builder.prioritized_fullnodes {
            Some(group) => group,
            None => {
                return Err(ClusterError::PrioritizedFullnodesMissing);
            },
        };
        let (sockets, chosen) = select_kind(configs, keys, FullnodeKind::Standard);
        if sockets.len() == 0 {
            builder.bootnodes = Some(bootnodes);
            builder.validators = Some(validators);
            builder.dedicated_fullnodes = Some(dedicated);
            builder.prioritized_fullnodes = Some(prioritized);
            builder.fullnodes = Some(empty_group());
            return Ok(builder);
        }
        let keys: Vec<NodeKey> = match require_keys(&chosen) {
            Ok(keys) => keys,
            Err(error) => {
                return Err(error);
            },
        };
        let records: OrderedMap<NodeId, NameRecord> = collect_records(&sockets, &keys);
        let ids: Vec<NodeId> = bootnodes.records.key_list();
        let nodes: Vec<NodeRunConfig> = make_nodes(
            &keys,
            NodeType::Fullnode { dedicated: false, prioritized: false },
            &sockets,
            &bootnodes.records,
            &validators.stakes,
            &ids,
        );
        introduce_bootstraps(&mut bootnodes.configs, &records);
        introduce_peers(&mut dedicated.configs, &records);
        introduce_peers(&mut prioritized.configs, &records);
        let group = NodeGroup { configs: nodes, records };
        proof {
            let expected = with_standard_nodes(self@, sockets@, keys@);
            assert(group@ =~= expected.fullnodes->Some_0);
            assert(bootnodes@ =~= expected.bootnodes->Some_0);
            assert(dedicated@ =~= expected.dedicated_fullnodes->Some_0);
            assert(prioritized@ =~= expected.prioritized_fullnodes->Some_0);
        }
        builder.bootnodes = Some(bootnodes);
        builder.validators = Some(validators);
        builder.dedicated_fullnodes = Some(dedicated);
        builder.prioritized_fullnodes = Some(prioritized);
        builder.fullnodes = Some(group);
        Ok(builder)
    }

    /// The node with number `index` among all nodes of the cluster.
    pub fn get_node_config(&self, index: usize) -> (node: Option<&NodeRunConfig>)
        ensures
            match node {
                Some(node) => index < all_nodes(self@).len() && node@ == all_nodes(self@)[index as int],
                None => index >= all_nodes(self@).len(),
            },
    {
        let ghost whole = all_nodes(self@);
        let mut rest: usize = index;
        let bootnodes: usize = group_len(&self.bootnodes);
        if rest < bootnodes {
            return group_node(&self.bootnodes, rest);
        }
        rest = rest - bootnodes;
        match &self.validators {
            Some(group) => {
                if rest < group.configs.len() {
                    let node: &NodeRunConfig = &group.configs[rest];
                    assert(node@ == validator_nodes(self@.validators)[rest as int]);
                    return Some(node);
                }
                rest = rest - group.configs.len();
            },
            None => {},
        }
        let dedicated: usize = group_len(&self.dedicated_fullnodes);
        if rest < dedicated {
            return group_node(&self.dedicated_fullnodes, rest);
        }
        rest = rest - dedicated;
        let prioritized: usize = group_len(&self.prioritized_fullnodes);
        if rest < prioritized {
            return group_node(&self.prioritized_fullnodes, rest);
        }
        rest = rest - prioritized;
        group_node(&self.fullnodes, rest)
    }

    pub fn workload(&self) -> (workload: &WorkloadConfig)
        ensures
            *workload == self@.workload,
    {
        &self.workload
    }

    /// The number of nodes.
    pub fn total_nodes(&self) -> (total: usize)
        requires
            all_nodes(self@).len() <= usize::MAX,
        ensures
            total == all_nodes(self@).len(),
    {
        let validators: usize = match &self.validators {
            Some(group) => group.configs.len(),
            None => 0,
        };
        group_len(&self.bootnodes) + validators + group_len(&self.dedicated_fullnodes) + group_len(
            &self.prioritized_fullnodes,
        ) + group_len(&self.fullnodes)
    }
}

impl Default for ClusterBuilder {
    fn default() -> (builder: Self)
        ensures
            builder.wf(),
            builder@.bootnodes is None,
            builder@.validators is None,
            builder@.dedicated_fullnodes is None,
            builder@.prioritized_fullnodes is None,
            builder@.fullnodes is None,
            builder@.workload == (WorkloadConfig {
                validator_broadcast_window_ms: 1000,
                validator_message_size_min: 131072,
                validator_message_size_max: 1048576,
                fullnode_p2p_window_ms: 10000,
                fullnode_p2p_targets_min: 1,
                fullnode_p2p_targets_max: 5,
                fullnode_message_size_min: 16384,
                fullnode_message_size_max: 131072,
            }),
    {
        ClusterBuilder::new()
    }
}

/// The outcome of adding full nodes of all kinds.
pub open spec fn adds_fullnodes(
    cluster: ClusterView,
    configs: Seq<FullnodeConfig>,
    keys: Seq<Result<NodeKey, ClusterError>>,
) -> Result<ClusterView, ClusterError> {
    match adds_dedicated(cluster, configs, keys) {
        Ok(dedicated) => match adds_prioritized(dedicated, configs, keys) {
            Ok(prioritized) => adds_standard(prioritized, configs, keys),
            Err(error) => Err(error),
        },
        Err(error) => Err(error),
    }
}

/// The cluster of a configuration.
pub open spec fn configured_cluster(
    empty: ClusterView,
    bootnodes: (Seq<BootnodeConfig>, Seq<Result<NodeKey, ClusterError>>),
    validators: (Seq<ValidatorConfig>, Seq<Result<NodeKey, ClusterError>>),
    fullnodes: (Seq<FullnodeConfig>, Seq<Result<NodeKey, ClusterError>>),
) -> Result<ClusterView, ClusterError> {
    match adds_bootnodes(empty, bootnodes.0, bootnodes.1) {
        Ok(with_bootnodes) => match adds_validators(with_bootnodes, validators.0, validators.1) {
            Ok(with_validators) => adds_fullnodes(with_validators, fullnodes.0, fullnodes.1),
            Err(error) => Err(error),
        },
        Err(error) => Err(error),
    }
}

/// A cluster without nodes.
pub open spec fn empty_cluster(workload: WorkloadConfig) -> ClusterView {
    ClusterView {
        bootnodes: None,
        validators: None,
        dedicated_fullnodes: None,
        prioritized_fullnodes: None,
        fullnodes: None,
        workload,
    }
}

/// The key pairs of the nodes of a configuration, in its order.
pub struct ClusterKeys {
    pub bootnodes: Vec<Result<NodeKey, ClusterError>>,
    pub validators: Vec<Result<NodeKey, ClusterError>>,
    pub fullnodes: Vec<Result<NodeKey, ClusterError>>,
}

/// Sets up all nodes of a configuration.
pub fn build_cluster_from_config(config: &ClusterConfig, keys: &ClusterKeys) -> (result: Result<
    ClusterBuilder,
    ClusterError,
>)
    requires
        keys.bootnodes@.len() == config.bootnodes@.len(),
        keys.validators@.len() == config.validators@.len(),
        keys.fullnodes@.len() == config.fullnodes@.len(),
    ensures
        is_outcome(
            result,
            configured_cluster(
                empty_cluster(config.workload),
                (config.bootnodes@, keys.bootnodes@),
                (config.validators@, keys.validators@),
                (config.fullnodes@, keys.fullnodes@),
            ),
        ),
{
    let builder: ClusterBuilder = ClusterBuilder::new().with_workload(config.workload);
    assert(builder@ =~= empty_cluster(config.workload));
    let builder: ClusterBuilder = match builder.with_bootnodes(&config.bootnodes, &keys.bootnodes) {
        Ok(builder) => builder,
        Err(error) => {
            return Err(error);
        },
    };
    let builder: ClusterBuilder = match builder.with_validators(
        &config.validators,
        &keys.validators,
    ) {
        Ok(builder) => builder,
        Err(error) => {
            return Err(error);
        },
    };
    let builder: ClusterBuilder = match builder.with_dedicated_fullnodes(
        &config.fullnodes,
        &keys.fullnodes,
    ) {
        Ok(builder) => builder,
        Err(error) => {
            return Err(error);
        },
    };
    let builder: ClusterBuilder = match builder.with_prioritized_fullnodes(
        &config.fullnodes,
        &keys.fullnodes,
    ) {
        Ok(builder) => builder,
        Err(error) => {
            return Err(error);
        },
    };
    builder.with_fullnodes(&config.fullnodes, &keys.fullnodes)
}

/// What a node's router is set up with.
pub struct RouterConfig {
    pub self_id: NodeId,
    pub self_record: NameRecord,
    pub tcp_bind: SocketAddress,
    pub authenticated_udp_bind: SocketAddress,
    pub udp_bind: SocketAddress,
    pub udp_bandwidth: u64,
    pub current_round: u64,
    pub current_epoch: u64,
    pub epoch_validators: Vec<(NodeId, u64)>,
    pub pinned_full_nodes: Vec<NodeId>,
    pub prioritized_full_nodes: Vec<NodeId>,
    pub fullnode_dedicated: Vec<NodeId>,
    pub full_nodes_prioritized: Vec<NodeId>,
    pub bootstrap_peers: Vec<(NodeId, NameRecord)>,
    pub enable_publisher: bool,
    pub enable_client: bool,
    pub timing: RouterTiming,
}

/// The fixed settings of every router.
#[derive(Clone, Copy, Debug, PartialEq, Eq, Structural)]
pub struct RouterTiming {
    pub refresh_period_secs: u64,
    pub request_timeout_secs: u64,
    pub unresponsive_prune_threshold: u32,
    pub last_participation_prune_threshold: u64,
    pub min_num_peers: usize,
    pub max_num_peers: usize,
    pub max_group_size: usize,
    pub udp_message_max_age_ms: u64,
    pub round_span: u64,
    pub invite_lookahead: u64,
    pub max_invite_wait: u64,
    pub deadline_round_dist: u64,
    pub init_empty_round_span: u64,
    pub max_num_group: usize,
    pub invite_future_dist_min: u64,
    pub invite_future_dist_max: u64,
    pub invite_accept_heartbeat_ms: u64,
}

/// The fixed settings of every router.
pub open spec fn router_timing() -> RouterTiming {
    RouterTiming {
        refresh_period_secs: 5,
        request_timeout_secs: 5,
        unresponsive_prune_threshold: 5,
        last_participation_prune_threshold: 5000,
        min_num_peers: 0,
        max_num_peers: 200,
        max_group_size: 50,
        udp_message_max_age_ms: 5000,
        round_span: 1200,
        invite_lookahead: 1200,
        max_invite_wait: 100,
        deadline_round_dist: 100,
        init_empty_round_span: 201,
        max_num_group: 5,
        invite_future_dist_min: 1,
        invite_future_dist_max: 1200,
        invite_accept_heartbeat_ms: 100,
    }
}

/// A port of every local address.
pub open spec fn any_address(port: u16) -> SocketAddress {
    SocketAddress { ip: Ipv4 { octets: [0, 0, 0, 0] }, port }
}

fn bind_address(port: u16) -> (address: SocketAddress)
    ensures
        address == any_address(port),
{
    let address = SocketAddress { ip: Ipv4 { octets: [0, 0, 0, 0] }, port };
    assert(address.ip.octets =~= any_address(port).ip.octets);
    address
}

impl NodeRunConfig {
    /// What the node's router is set up with: it binds the node's ports on every
    /// address, pins the full nodes it serves and the peers it bootstraps from,
    /// and publishes on a validator and subscribes on a full node.
    pub fn build_router(&self) -> (router: RouterConfig)
        requires
            self.bootstrap_peers.wf(),
            self.epoch_validators.wf(),
        ensures
            router.self_id == self@.key.node_id,
            router.self_record == self@.self_record,
            router.tcp_bind == any_address(self@.sockets.tcp_addr.port),
            router.authenticated_udp_bind == any_address(self@.sockets.authenticated_udp_addr.port),
            router.udp_bind == any_address(self@.sockets.udp_addr.port),
            router.udp_bandwidth == UDP_BW,
            router.current_round == 0,
            router.current_epoch == 0,
            crate::ordered_map::entries_map(router.epoch_validators@) == self@.epoch_validators,
            crate::ordered_map::entry_keys(router.epoch_validators@) == sorted_keys(
                self@.epoch_validators,
            ),
            router.pinned_full_nodes@ == sorted_set(
                self@.dedicated_fullnodes + self@.prioritized_fullnodes + sorted_keys(
                    self@.bootstrap_peers,
                ),
            ),
            router.prioritized_full_nodes@ == sorted_set(self@.prioritized_fullnodes),
            router.fullnode_dedicated@ == self@.dedicated_fullnodes,
            router.full_nodes_prioritized@ == self@.prioritized_fullnodes,
            crate::ordered_map::entries_map(router.bootstrap_peers@) == self@.bootstrap_peers,
            crate::ordered_map::entry_keys(router.bootstrap_peers@) == sorted_keys(
                self@.bootstrap_peers,
            ),
            router.enable_publisher == (self@.node_type == NodeType::Validator),
            router.enable_client == (self@.node_type is Fullnode),
            router.timing == router_timing(),
            router.timing.refresh_period_secs == 5,
            router.timing.request_timeout_secs == 5,
            router.timing.unresponsive_prune_threshold == 5,
            router.timing.last_participation_prune_threshold == 5000,
            router.timing.min_num_peers == 0,
            router.timing.max_num_peers == 200,
            router.timing.max_group_size == 50,
            router.timing.udp_message_max_age_ms == 5000,
            router.timing.round_span == 1200,
            router.timing.invite_lookahead == 1200,
            router.timing.max_invite_wait == 100,
            router.timing.deadline_round_dist == 100,
            router.timing.init_empty_round_span == 201,
            router.timing.max_num_group == 5,
            router.timing.invite_future_dist_min == 1,
            router.timing.invite_future_dist_max == 1200,
            router.timing.invite_accept_heartbeat_ms == 100,
    {
        let mut pinned: Vec<NodeId> = copy_keys(&self.dedicated_fullnodes);
        append_ids(&mut pinned, &self.prioritized_fullnodes);
        append_ids(&mut pinned, &self.bootstrap_peers.key_list());
        let (enable_publisher, enable_client) = match self.node_type {
            NodeType::Validator => (true, false),
            NodeType::Bootnode => (false, false),
            NodeType::Fullnode { .. } => (false, true),
        };
        RouterConfig {
            self_id: self.key.node_id,
            self_record: self.self_record,
            tcp_bind: bind_address(self.sockets.tcp_addr.port),
            authenticated_udp_bind: bind_address(self.sockets.authenticated_udp_addr.port),
            udp_bind: bind_address(self.sockets.udp_addr.port),
            udp_bandwidth: UDP_BW,
            current_round: 0,
            current_epoch: 0,
            epoch_validators: self.epoch_validators.entry_list(),
            pinned_full_nodes: sort_set(&pinned),
            prioritized_full_nodes: sort_set(&self.prioritized_fullnodes),
            fullnode_dedicated: copy_keys(&self.dedicated_fullnodes),
            full_nodes_prioritized: copy_keys(&self.prioritized_fullnodes),
            bootstrap_peers: self.bootstrap_peers.entry_list(),
            enable_publisher,
            enable_client,
            timing: RouterTiming {
                refresh_period_secs: 5,
                request_timeout_secs: 5,
                unresponsive_prune_threshold: 5,
                last_participation_prune_threshold: 5000,
                min_num_peers: 0,
                max_num_peers: 200,
                max_group_size: 50,
                udp_message_max_age_ms: 5000,
                round_span: 1200,
                invite_lookahead: 1200,
                max_invite_wait: 100,
                deadline_round_dist: 100,
                init_empty_round_span: 201,
                max_num_group: 5,
                invite_future_dist_min: 1,
                invite_future_dist_max: 1200,
                invite_accept_heartbeat_ms: 100,
            },
        }
    }
}

/// Every dedicated full node is served by exactly the validator whose turn it is.
pub proof fn law_full_nodes_are_shared_out_in_turn(ids: Seq<NodeId>, position: int, count: int, turn: int)
    requires
        0 <= position < ids.len(),
        count > 0,
        ids.no_duplicates(),
    ensures
        every_turn(ids, turn, count).contains(ids[position]) <==> turn == position % count,
    decreases ids.len(),
{
    let front = ids.drop_last();
    let earlier = every_turn(front, turn, count);
    let last = ids.len() - 1;
    if position < last {
        assert(front[position] == ids[position]);
        assert(front.no_duplicates());
        law_full_nodes_are_shared_out_in_turn(front, position, count, turn);
        if last % count == turn {
            assert(earlier.push(ids.last()).contains(ids[position]) <==> earlier.contains(ids[position]))
                by {
                if earlier.contains(ids[position]) {
                    let i = choose|i: int| 0 <= i < earlier.len() && earlier[i] == ids[position];
                    assert(earlier.push(ids.last())[i] == ids[position]);
                }
            }
        }
    } else {
        lemma_every_turn_members(front, turn, count);
        if earlier.contains(ids.last()) {
            assert(front.contains(ids.last()));
            let i = choose|i: int| 0 <= i < front.len() && front[i] == ids.last();
            assert(ids[i] == ids[last]);
        }
        if last % count == turn {
            assert(earlier.push(ids.last())[earlier.len() as int] == ids.last());
        }
    }
}

proof fn lemma_every_turn_members(ids: Seq<NodeId>, turn: int, count: int)
    ensures
        forall|id: NodeId| every_turn(ids, turn, count).contains(id) ==> #[trigger] ids.contains(id),
    decreases ids.len(),
{
    if ids.len() > 0 {
        let front = ids.drop_last();
        let earlier = every_turn(front, turn, count);
        lemma_every_turn_members(front, turn, count);
        assert forall|id: NodeId| every_turn(ids, turn, count).contains(id) implies #[trigger] ids.contains(
            id,
        ) by {
            let all = every_turn(ids, turn, count);
            let i = choose|i: int| 0 <= i < all.len() && all[i] == id;
            if i < earlier.len() {
                assert(earlier[i] == id);
                assert(front.contains(id));
                let k = choose|k: int| 0 <= k < front.len() && front[k] == id;
                assert(ids[k] == id);
            } else {
                assert(ids[ids.len() - 1] == id);
            }
        }
    }
}

/// The record under which the three addresses of a node are announced.
pub proof fn law_name_record_holds_the_configured_addresses(sockets: NodeSockets)
    ensures
        name_record(sockets).ip == sockets.tcp_addr.ip,
        name_record(sockets).tcp_port == sockets.tcp_addr.port,
        name_record(sockets).udp_port == sockets.udp_addr.port,
        name_record(sockets).authenticated_udp_port == sockets.authenticated_udp_addr.port,
        name_record(sockets).sequence == 0,
{
}

/// The keys of a group are all there, or none is.
proof fn lemma_all_keys(keys: Seq<Result<NodeKey, ClusterError>>)
    ensures
        all_keys(keys) matches Ok(all) ==> all.len() == keys.len() && forall|i: int|
            0 <= i < keys.len() ==> #[trigger] keys[i] == Ok::<NodeKey, ClusterError>(all[i]),
        all_keys(keys) is Ok <==> forall|i: int| 0 <= i < keys.len() ==> #[trigger] keys[i] is Ok,
    decreases keys.len(),
{
    if keys.len() > 0 {
        let fewer = keys.drop_last();
        lemma_all_keys(fewer);
        if all_keys(keys) is Ok {
            let all = all_keys(keys)->Ok_0;
            assert forall|i: int| 0 <= i < keys.len() implies #[trigger] keys[i] == Ok::<
                NodeKey,
                ClusterError,
            >(all[i]) by {
                if i < fewer.len() {
                    assert(fewer[i] == keys[i]);
                }
            }
        }
        if forall|i: int| 0 <= i < keys.len() ==> #[trigger] keys[i] is Ok {
            assert forall|i: int| 0 <= i < fewer.len() implies #[trigger] fewer[i] is Ok by {
                assert(fewer[i] == keys[i]);
            }
            assert(keys[keys.len() - 1] is Ok);
        }
    }
}

/// The records of a group are those of its nodes.
proof fn lemma_records(sockets: Seq<NodeSockets>, keys: Seq<NodeKey>, id: NodeId)
    ensures
        records_of(sockets, keys).contains_key(id) <==> exists|i: int|
            0 <= i < keys.len() && (#[trigger] keys[i]).node_id == id,
        records_of(sockets, keys).dom().finite(),
    decreases keys.len(),
{
    if keys.len() > 0 {
        let fewer = keys.drop_last();
        lemma_records(sockets, fewer, id);
        if records_of(sockets, fewer).contains_key(id) {
            let i = choose|i: int| 0 <= i < fewer.len() && (#[trigger] fewer[i]).node_id == id;
            assert(keys[i] == fewer[i]);
        }
        assert(keys[keys.len() - 1] == keys.last());
        if exists|i: int| 0 <= i < keys.len() && (#[trigger] keys[i]).node_id == id {
            let i = choose|i: int| 0 <= i < keys.len() && (#[trigger] keys[i]).node_id == id;
            if i < fewer.len() {
                assert(fewer[i] == keys[i]);
            }
        }
    }
}

/// Where nodes are distinct, each has the record of its own addresses.
proof fn lemma_own_record(sockets: Seq<NodeSockets>, keys: Seq<NodeKey>, i: int)
    requires
        0 <= i < keys.len(),
        forall|j: int| 0 <= j < keys.len() && j != i ==> (#[trigger] keys[j]).node_id != keys[i].node_id,
    ensures
        records_of(sockets, keys).contains_key(keys[i].node_id),
        records_of(sockets, keys)[keys[i].node_id] == name_record(sockets[i]),
    decreases keys.len(),
{
    let fewer = keys.drop_last();
    if i < fewer.len() {
        assert(fewer[i] == keys[i]);
        assert forall|j: int| 0 <= j < fewer.len() && j != i implies (#[trigger] fewer[j]).node_id
            != fewer[i].node_id by {
            assert(fewer[j] == keys[j]);
        }
        lemma_own_record(sockets, fewer, i);
        assert(keys[keys.len() - 1].node_id != keys[i].node_id);
    }
}

/// Whether every node but the bootnodes starts from `records`, and the nodes of a
/// group are of its kind.
spec fn starts_from(cluster: ClusterView, records: Map<NodeId, NameRecord>) -> bool {
    &&& cluster.bootnodes matches Some(group) && group.records == records
    &&& forall|i: int|
        0 <= i < cluster.bootnodes->Some_0.configs.len() ==> (
        #[trigger] cluster.bootnodes->Some_0.configs[i]).node_type == NodeType::Bootnode
    &&& forall|i: int|
        0 <= i < validator_nodes(cluster.validators).len() ==> (#[trigger] validator_nodes(
            cluster.validators,
        )[i]).bootstrap_peers == records
    &&& forall|i: int|
        0 <= i < group_nodes(cluster.dedicated_fullnodes).len() ==> (#[trigger] group_nodes(
            cluster.dedicated_fullnodes,
        )[i]).bootstrap_peers == records
    &&& forall|i: int|
        0 <= i < group_nodes(cluster.prioritized_fullnodes).len() ==> (#[trigger] group_nodes(
            cluster.prioritized_fullnodes,
        )[i]).bootstrap_peers == records
    &&& forall|i: int|
        0 <= i < group_nodes(cluster.fullnodes).len() ==> (#[trigger] group_nodes(
            cluster.fullnodes,
        )[i]).bootstrap_peers == records
}

proof fn lemma_fullnodes_start_from(
    cluster: ClusterView,
    configs: Seq<FullnodeConfig>,
    keys: Seq<Result<NodeKey, ClusterError>>,
    records: Map<NodeId, NameRecord>,
)
    requires
        starts_from(cluster, records),
    ensures
        adds_dedicated(cluster, configs, keys) matches Ok(after) ==> starts_from(after, records),
        adds_prioritized(cluster, configs, keys) matches Ok(after) ==> starts_from(after, records),
        adds_standard(cluster, configs, keys) matches Ok(after) ==> starts_from(after, records),
{
    if adds_dedicated(cluster, configs, keys) is Ok {
        let after = adds_dedicated(cluster, configs, keys)->Ok_0;
        assert forall|i: int| 0 <= i < validator_nodes(after.validators).len() implies (
        #[trigger] validator_nodes(after.validators)[i]).bootstrap_peers == records by {
            assert(validator_nodes(cluster.validators)[i].bootstrap_peers == records);
        }
        assert forall|i: int| 0 <= i < after.bootnodes->Some_0.configs.len() implies (
        #[trigger] after.bootnodes->Some_0.configs[i]).node_type == NodeType::Bootnode by {
            assert(cluster.bootnodes->Some_0.configs[i].node_type == NodeType::Bootnode);
        }
        assert(starts_from(after, records));
    }
    if adds_prioritized(cluster, configs, keys) is Ok {
        let after = adds_prioritized(cluster, configs, keys)->Ok_0;
        assert forall|i: int| 0 <= i < validator_nodes(after.validators).len() implies (
        #[trigger] validator_nodes(after.validators)[i]).bootstrap_peers == records by {
            assert(validator_nodes(cluster.validators)[i].bootstrap_peers == records);
        }
        assert forall|i: int| 0 <= i < after.bootnodes->Some_0.configs.len() implies (
        #[trigger] after.bootnodes->Some_0.configs[i]).node_type == NodeType::Bootnode by {
            assert(cluster.bootnodes->Some_0.configs[i].node_type == NodeType::Bootnode);
        }
        assert forall|i: int| 0 <= i < group_nodes(after.dedicated_fullnodes).len() implies (
        #[trigger] group_nodes(after.dedicated_fullnodes)[i]).bootstrap_peers == records by {
            assert(group_nodes(cluster.dedicated_fullnodes)[i].bootstrap_peers == records);
        }
        assert(starts_from(after, records));
    }
    if adds_standard(cluster, configs, keys) is Ok {
        let after = adds_standard(cluster, configs, keys)->Ok_0;
        assert forall|i: int| 0 <= i < after.bootnodes->Some_0.configs.len() implies (
        #[trigger] after.bootnodes->Some_0.configs[i]).node_type == NodeType::Bootnode by {
            assert(cluster.bootnodes->Some_0.configs[i].node_type == NodeType::Bootnode);
        }
        assert forall|i: int| 0 <= i < group_nodes(after.dedicated_fullnodes).len() implies (
        #[trigger] group_nodes(after.dedicated_fullnodes)[i]).bootstrap_peers == records by {
            assert(group_nodes(cluster.dedicated_fullnodes)[i].bootstrap_peers == records);
        }
        assert forall|i: int| 0 <= i < group_nodes(after.prioritized_fullnodes).len() implies (
        #[trigger] group_nodes(after.prioritized_fullnodes)[i]).bootstrap_peers == records by {
            assert(group_nodes(cluster.prioritized_fullnodes)[i].bootstrap_peers == records);
        }
        assert(starts_from(after, records));
    }
}

/// In a built cluster, every validator and every full node starts from exactly the
/// configured bootnodes, each under the address and the ports that are configured
/// for it.
pub proof fn law_nodes_start_from_the_bootnodes(
    workload: WorkloadConfig,
    bootnodes: (Seq<BootnodeConfig>, Seq<Result<NodeKey, ClusterError>>),
    validators: (Seq<ValidatorConfig>, Seq<Result<NodeKey, ClusterError>>),
    fullnodes: (Seq<FullnodeConfig>, Seq<Result<NodeKey, ClusterError>>),
    cluster: ClusterView,
    node: int,
    id: NodeId,
)
    requires
        bootnodes.0.len() == bootnodes.1.len(),
        configured_cluster(empty_cluster(workload), bootnodes, validators, fullnodes) == Ok::<
            ClusterView,
            ClusterError,
        >(cluster),
        0 <= node < all_nodes(cluster).len(),
        all_nodes(cluster)[node].node_type != NodeType::Bootnode,
    ensures
        ({
            let peers = all_nodes(cluster)[node].bootstrap_peers;
            &&& peers.contains_key(id) <==> exists|b: int|
                0 <= b < bootnodes.1.len() && (#[trigger] bootnodes.1[b])->Ok_0.node_id == id
            &&& forall|b: int|
                0 <= b < bootnodes.1.len() && (#[trigger] bootnodes.1[b])->Ok_0.node_id == id && (
                forall|other: int|
                    0 <= other < bootnodes.1.len() && other != b ==> (
                    #[trigger] bootnodes.1[other])->Ok_0.node_id != id) ==> peers[id] == (NameRecord {
                    ip: bootnodes.0[b].tcp_addr.ip,
                    tcp_port: bootnodes.0[b].tcp_addr.port,
                    udp_port: bootnodes.0[b].udp_addr.port,
                    authenticated_udp_port: bootnodes.0[b].authenticated_udp_addr.port,
                    sequence: 0,
                })
        }),
{
    let keys = all_keys(bootnodes.1)->Ok_0;
    let sockets = bootnode_sockets(bootnodes.0);
    let records = records_of(sockets, keys);
    let first = adds_bootnodes(empty_cluster(workload), bootnodes.0, bootnodes.1)->Ok_0;
    let second = adds_validators(first, validators.0, validators.1)->Ok_0;
    lemma_all_keys(bootnodes.1);
    assert(starts_from(first, records));
    assert forall|i: int| 0 <= i < second.bootnodes->Some_0.configs.len() implies (
    #[trigger] second.bootnodes->Some_0.configs[i]).node_type == NodeType::Bootnode by {
        assert(first.bootnodes->Some_0.configs[i].node_type == NodeType::Bootnode);
    }
    assert(starts_from(second, records));
    lemma_fullnodes_start_from(second, fullnodes.0, fullnodes.1, records);
    let third = adds_dedicated(second, fullnodes.0, fullnodes.1)->Ok_0;
    lemma_fullnodes_start_from(third, fullnodes.0, fullnodes.1, records);
    let fourth = adds_prioritized(third, fullnodes.0, fullnodes.1)->Ok_0;
    lemma_fullnodes_start_from(fourth, fullnodes.0, fullnodes.1, records);
    assert(starts_from(cluster, records));
    let peers = all_nodes(cluster)[node].bootstrap_peers;
    assert(peers == records) by {
        let a = cluster.bootnodes->Some_0.configs;
        let b = validator_nodes(cluster.validators);
        let c = group_nodes(cluster.dedicated_fullnodes);
        let d = group_nodes(cluster.prioritized_fullnodes);
        let e = group_nodes(cluster.fullnodes);
        if node < a.len() {
            assert(all_nodes(cluster)[node] == a[node]);
        } else if node < a.len() + b.len() {
            assert(all_nodes(cluster)[node] == b[node - a.len()]);
        } else if node < a.len() + b.len() + c.len() {
            assert(all_nodes(cluster)[node] == c[node - a.len() - b.len()]);
        } else if node < a.len() + b.len() + c.len() + d.len() {
            assert(all_nodes(cluster)[node] == d[node - a.len() - b.len() - c.len()]);
        } else {
            assert(all_nodes(cluster)[node] == e[node - a.len() - b.len() - c.len() - d.len()]);
        }
    }
    lemma_records(sockets, keys, id);
    if records.contains_key(id) {
        let i = choose|i: int| 0 <= i < keys.len() && (#[trigger] keys[i]).node_id == id;
        assert(bootnodes.1[i]->Ok_0.node_id == id);
    }
    assert forall|b: int| 0 <= b < bootnodes.1.len() && (#[trigger] bootnodes.1[b])->Ok_0.node_id == id implies keys[b].node_id
        == id by {
        assert(bootnodes.1[b] == Ok::<NodeKey, ClusterError>(keys[b]));
    }
    assert forall|b: int|
        0 <= b < bootnodes.1.len() && (#[trigger] bootnodes.1[b])->Ok_0.node_id == id && (forall|other: int|
            0 <= other < bootnodes.1.len() && other != b ==> (#[trigger] bootnodes.1[other])->Ok_0.node_id
                != id) implies peers[id] == (NameRecord {
        ip: bootnodes.0[b].tcp_addr.ip,
        tcp_port: bootnodes.0[b].tcp_addr.port,
        udp_port: bootnodes.0[b].udp_addr.port,
        authenticated_udp_port: bootnodes.0[b].authenticated_udp_addr.port,
        sequence: 0,
    }) by {
        assert forall|other: int| 0 <= other < keys.len() && other != b implies (
        #[trigger] keys[other]).node_id != keys[b].node_id by {
            assert(bootnodes.1[other] == Ok::<NodeKey, ClusterError>(keys[other]));
        }
        lemma_own_record(sockets, keys, b);
    }
}

proof fn lemma_others_are_the_rest(ids: Seq<NodeId>, own: NodeId, id: NodeId)
    ensures
        others(ids, own).contains(id) <==> ids.contains(id) && id != own,
    decreases ids.len(),
{
    if ids.len() > 0 {
        let fewer = ids.drop_last();
        let rest = others(ids, own);
        let earlier = others(fewer, own);
        lemma_others_are_the_rest(fewer, own, id);
        assert(ids[ids.len() - 1] == ids.last());
        if ids.contains(id) {
            let i = choose|i: int| 0 <= i < ids.len() && ids[i] == id;
            if i < fewer.len() {
                assert(fewer[i] == id);
            }
        }
        if fewer.contains(id) {
            let i = choose|i: int| 0 <= i < fewer.len() && fewer[i] == id;
            assert(ids[i] == id);
        }
        if ids.last() != own {
            assert(rest[rest.len() - 1] == ids.last());
            if earlier.contains(id) {
                let i = choose|i: int| 0 <= i < earlier.len() && earlier[i] == id;
                assert(rest[i] == id);
            }
            if rest.contains(id) {
                let i = choose|i: int| 0 <= i < rest.len() && rest[i] == id;
                if i < earlier.len() {
                    assert(earlier[i] == id);
                }
            }
        }
    }
}

/// The sorted keys of a finite map are its keys.
proof fn lemma_listed(records: Map<NodeId, NameRecord>, id: NodeId)
    requires
        records.dom().finite(),
    ensures
        sorted_keys(records).contains(id) <==> records.contains_key(id),
{
    crate::ordered_map::lemma_sorted_keys(records);
    assert(sorted_keys(records).to_set().contains(id) <==> records.dom().contains(id));
}

/// A bootnode keeps its key and its configured addresses, and knows all other
/// bootnodes but not itself.
pub proof fn law_bootnode_knows_the_other_bootnodes(
    cluster: ClusterView,
    configs: Seq<BootnodeConfig>,
    keys: Seq<Result<NodeKey, ClusterError>>,
    after: ClusterView,
    i: int,
    id: NodeId,
)
    requires
        configs.len() == keys.len(),
        adds_bootnodes(cluster, configs, keys) == Ok::<ClusterView, ClusterError>(after),
        0 <= i < keys.len(),
    ensures
        after.bootnodes is Some,
        after.bootnodes->Some_0.configs.len() == configs.len(),
        ({
            let node = after.bootnodes->Some_0.configs[i];
            let known = id != node.key.node_id && exists|j: int|
                0 <= j < keys.len() && (#[trigger] keys[j])->Ok_0.node_id == id;
            &&& keys[i] == Ok::<NodeKey, ClusterError>(node.key)
            &&& node.node_type == NodeType::Bootnode
            &&& node.sockets.tcp_addr == configs[i].tcp_addr
            &&& node.sockets.udp_addr == configs[i].udp_addr
            &&& node.sockets.authenticated_udp_addr == configs[i].authenticated_udp_addr
            &&& node.self_record == (NameRecord {
                ip: configs[i].tcp_addr.ip,
                tcp_port: configs[i].tcp_addr.port,
                udp_port: configs[i].udp_addr.port,
                authenticated_udp_port: configs[i].authenticated_udp_addr.port,
                sequence: 0,
            })
            &&& node.bootstrap_peers.contains_key(id) <==> known
            &&& node.known_peers.contains(id) <==> known
            &&& node.epoch_validators == Map::<NodeId, u64>::empty()
            &&& node.dedicated_fullnodes.len() == 0
            &&& node.prioritized_fullnodes.len() == 0
        }),
{
    let all = all_keys(keys)->Ok_0;
    let sockets = bootnode_sockets(configs);
    let records = records_of(sockets, all);
    lemma_all_keys(keys);
    lemma_records(sockets, all, id);
    lemma_listed(records, id);
    let node = after.bootnodes->Some_0.configs[i];
    assert(node.key == all[i]);
    lemma_others_are_the_rest(sorted_keys(records), node.key.node_id, id);
    if records.contains_key(id) {
        let j = choose|j: int| 0 <= j < all.len() && (#[trigger] all[j]).node_id == id;
        assert(keys[j]->Ok_0.node_id == id);
    }
    if exists|j: int| 0 <= j < keys.len() && (#[trigger] keys[j])->Ok_0.node_id == id {
        let j = choose|j: int| 0 <= j < keys.len() && (#[trigger] keys[j])->Ok_0.node_id == id;
        assert(all[j].node_id == id);
    }
}

/// A validator keeps its key and its configured addresses, has every validator in
/// its epoch with a stake of one, and knows all bootnodes and all other validators.
pub proof fn law_validator_knows_bootnodes_and_validators(
    cluster: ClusterView,
    configs: Seq<ValidatorConfig>,
    keys: Seq<Result<NodeKey, ClusterError>>,
    after: ClusterView,
    i: int,
    id: NodeId,
)
    requires
        configs.len() == keys.len(),
        adds_validators(cluster, configs, keys) == Ok::<ClusterView, ClusterError>(after),
        cluster.bootnodes->Some_0.records.dom().finite(),
        0 <= i < keys.len(),
    ensures
        cluster.bootnodes is Some,
        after.validators is Some,
        after.validators->Some_0.configs.len() == configs.len(),
        ({
            let node = after.validators->Some_0.configs[i];
            let validates = exists|j: int|
                0 <= j < keys.len() && (#[trigger] keys[j])->Ok_0.node_id == id;
            let boots = cluster.bootnodes->Some_0.records;
            &&& keys[i] == Ok::<NodeKey, ClusterError>(node.key)
            &&& node.node_type == NodeType::Validator
            &&& node.sockets.tcp_addr == configs[i].tcp_addr
            &&& node.sockets.udp_addr == configs[i].udp_addr
            &&& node.sockets.authenticated_udp_addr == configs[i].authenticated_udp_addr
            &&& node.self_record == (NameRecord {
                ip: configs[i].tcp_addr.ip,
                tcp_port: configs[i].tcp_addr.port,
                udp_port: configs[i].udp_addr.port,
                authenticated_udp_port: configs[i].authenticated_udp_addr.port,
                sequence: 0,
            })
            &&& node.bootstrap_peers == boots
            &&& node.epoch_validators.contains_key(id) <==> validates
            &&& validates ==> node.epoch_validators[id] == 1
            &&& node.known_peers.contains(id) <==> id != node.key.node_id && (boots.contains_key(id)
                || validates)
            &&& after.validators->Some_0.stakes == node.epoch_validators
            &&& after.validators->Some_0.records.contains_key(id) <==> validates
            &&& node.dedicated_fullnodes.len() == 0
            &&& node.prioritized_fullnodes.len() == 0
        }),
{
    let all = all_keys(keys)->Ok_0;
    let sockets = validator_sockets(configs);
    let records = records_of(sockets, all);
    let boots = cluster.bootnodes->Some_0.records;
    lemma_all_keys(keys);
    lemma_records(sockets, all, id);
    lemma_listed(records, id);
    lemma_listed(boots, id);
    let node = after.validators->Some_0.configs[i];
    assert(node.key == all[i]);
    let ids = sorted_keys(boots) + sorted_keys(records);
    lemma_others_are_the_rest(ids, node.key.node_id, id);
    assert(ids.contains(id) <==> sorted_keys(boots).contains(id) || sorted_keys(records).contains(id))
        by {
        if sorted_keys(boots).contains(id) {
            let j = choose|j: int| 0 <= j < sorted_keys(boots).len() && sorted_keys(boots)[j] == id;
            assert(ids[j] == id);
        }
        if sorted_keys(records).contains(id) {
            let j = choose|j: int| 0 <= j < sorted_keys(records).len() && sorted_keys(records)[j] == id;
            assert(ids[sorted_keys(boots).len() + j] == id);
        }
    }
    if records.contains_key(id) {
        let j = choose|j: int| 0 <= j < all.len() && (#[trigger] all[j]).node_id == id;
        assert(keys[j]->Ok_0.node_id == id);
    }
    if exists|j: int| 0 <= j < keys.len() && (#[trigger] keys[j])->Ok_0.node_id == id {
        let j = choose|j: int| 0 <= j < keys.len() && (#[trigger] keys[j])->Ok_0.node_id == id;
        assert(all[j].node_id == id);
    }
}

/// Bootnodes learn of the validators: each keeps what it knew, takes the epoch of
/// the validators, and can reach each of them under its configured addresses.
pub proof fn law_bootnodes_learn_of_validators(
    cluster: ClusterView,
    configs: Seq<ValidatorConfig>,
    keys: Seq<Result<NodeKey, ClusterError>>,
    after: ClusterView,
    b: int,
    v: int,
    id: NodeId,
)
    requires
        configs.len() == keys.len(),
        adds_validators(cluster, configs, keys) == Ok::<ClusterView, ClusterError>(after),
        0 <= b < cluster.bootnodes->Some_0.configs.len(),
        0 <= v < keys.len(),
        forall|j: int|
            0 <= j < keys.len() && j != v ==> (#[trigger] keys[j])->Ok_0.node_id
                != keys[v]->Ok_0.node_id,
    ensures
        after.bootnodes is Some,
        after.bootnodes->Some_0.records == cluster.bootnodes->Some_0.records,
        after.bootnodes->Some_0.configs.len() == cluster.bootnodes->Some_0.configs.len(),
        ({
            let before = cluster.bootnodes->Some_0.configs[b];
            let node = after.bootnodes->Some_0.configs[b];
            let validator = keys[v]->Ok_0.node_id;
            &&& node.key == before.key
            &&& node.sockets == before.sockets
            &&& node.self_record == before.self_record
            &&& node.epoch_validators == after.validators->Some_0.stakes
            &&& before.bootstrap_peers.contains_key(id) ==> node.bootstrap_peers.contains_key(id)
            &&& node.bootstrap_peers.contains_key(validator)
            &&& node.bootstrap_peers[validator] == (NameRecord {
                ip: configs[v].tcp_addr.ip,
                tcp_port: configs[v].tcp_addr.port,
                udp_port: configs[v].udp_addr.port,
                authenticated_udp_port: configs[v].authenticated_udp_addr.port,
                sequence: 0,
            })
            &&& node.known_peers.contains(validator)
        }),
{
    let all = all_keys(keys)->Ok_0;
    let sockets = validator_sockets(configs);
    let records = records_of(sockets, all);
    lemma_all_keys(keys);
    let validator = keys[v]->Ok_0.node_id;
    assert(keys[v] == Ok::<NodeKey, ClusterError>(all[v]));
    assert forall|j: int| 0 <= j < all.len() && j != v implies (#[trigger] all[j]).node_id
        != all[v].node_id by {
        assert(keys[j] == Ok::<NodeKey, ClusterError>(all[j]));
    }
    lemma_own_record(sockets, all, v);
    lemma_records(sockets, all, validator);
    lemma_listed(records, validator);
    let before = cluster.bootnodes->Some_0.configs[b];
    let node = after.bootnodes->Some_0.configs[b];
    let k = choose|k: int| 0 <= k < sorted_keys(records).len() && sorted_keys(records)[k] == validator;
    assert(node.known_peers == before.known_peers + sorted_keys(records));
    assert(node.known_peers[before.known_peers.len() + k] == validator);
}

/// A full node keeps its key, its kind and its addresses, starts from the
/// bootnodes, and has the epoch of the validators.
pub proof fn law_full_node_follows_the_validators(
    cluster: ClusterView,
    sockets: Seq<NodeSockets>,
    keys: Seq<NodeKey>,
    node_type: NodeType,
    known_peers: Seq<NodeId>,
    i: int,
)
    requires
        0 <= i < keys.len(),
    ensures
        ({
            let group = fullnode_group(cluster, sockets, keys, node_type, known_peers);
            let node = group.configs[i];
            &&& group.configs.len() == keys.len()
            &&& node.key == keys[i]
            &&& node.node_type == node_type
            &&& node.sockets == sockets[i]
            &&& node.self_record == (NameRecord {
                ip: sockets[i].tcp_addr.ip,
                tcp_port: sockets[i].tcp_addr.port,
                udp_port: sockets[i].udp_addr.port,
                authenticated_udp_port: sockets[i].authenticated_udp_addr.port,
                sequence: 0,
            })
            &&& node.bootstrap_peers == cluster.bootnodes->Some_0.records
            &&& node.epoch_validators == cluster.validators->Some_0.stakes
            &&& node.known_peers == known_peers
            &&& node.dedicated_fullnodes.len() == 0
            &&& node.prioritized_fullnodes.len() == 0
        }),
{
}

/// Whether `selected` is a full node of the configuration with its key.
pub open spec fn is_selected(
    configs: Seq<FullnodeConfig>,
    keys: Seq<Result<NodeKey, ClusterError>>,
    sockets: Seq<NodeSockets>,
    selected: Seq<Result<NodeKey, ClusterError>>,
    config: int,
    place: int,
) -> bool {
    &&& 0 <= place < sockets.len()
    &&& selected[place] == keys[config]
    &&& sockets[place].tcp_addr == configs[config].tcp_addr
    &&& sockets[place].udp_addr == configs[config].udp_addr
    &&& sockets[place].authenticated_udp_addr == configs[config].authenticated_udp_addr
}

/// Every full node of a kind is selected, with its key and its addresses.
pub proof fn law_full_node_of_a_kind_is_selected(
    configs: Seq<FullnodeConfig>,
    keys: Seq<Result<NodeKey, ClusterError>>,
    kind: FullnodeKind,
    config: int,
)
    requires
        0 <= config < configs.len(),
        configs.len() == keys.len(),
        match kind {
            FullnodeKind::Dedicated => configs[config].dedicated,
            FullnodeKind::Prioritized => configs[config].prioritized,
            FullnodeKind::Standard => !configs[config].dedicated && !configs[config].prioritized,
        },
    ensures
        exists|place: int| #[trigger]
            is_selected(
                configs,
                keys,
                kind_sockets(configs, kind),
                kind_keys(configs, keys, kind),
                config,
                place,
            ),
    decreases configs.len(),
{
    lemma_kinds_agree(configs, keys, kind);
    lemma_kinds_agree(configs.drop_last(), keys, kind);
    lemma_kind_keys_prefix(configs.drop_last(), keys, keys.drop_last(), kind);
    let fewer = configs.drop_last();
    let sockets = kind_sockets(configs, kind);
    let selected = kind_keys(configs, keys, kind);
    if config == configs.len() - 1 {
        assert(is_selected(configs, keys, sockets, selected, config, sockets.len() - 1));
    } else {
        assert(fewer[config] == configs[config]);
        law_full_node_of_a_kind_is_selected(fewer, keys.drop_last(), kind, config);
        let place = choose|place: int| #[trigger]
            is_selected(
                fewer,
                keys.drop_last(),
                kind_sockets(fewer, kind),
                kind_keys(fewer, keys.drop_last(), kind),
                config,
                place,
            );
        assert(is_selected(configs, keys, sockets, selected, config, place));
    }
}

proof fn lemma_kinds_agree(
    configs: Seq<FullnodeConfig>,
    keys: Seq<Result<NodeKey, ClusterError>>,
    kind: FullnodeKind,
)
    ensures
        kind_sockets(configs, kind).len() == kind_keys(configs, keys, kind).len(),
    decreases configs.len(),
{
    if configs.len() > 0 {
        lemma_kinds_agree(configs.drop_last(), keys, kind);
    }
}

proof fn lemma_kind_keys_prefix(
    configs: Seq<FullnodeConfig>,
    keys: Seq<Result<NodeKey, ClusterError>>,
    others: Seq<Result<NodeKey, ClusterError>>,
    kind: FullnodeKind,
)
    requires
        configs.len() <= keys.len(),
        configs.len() <= others.len(),
        forall|i: int| 0 <= i < configs.len() ==> #[trigger] keys[i] == others[i],
    ensures
        kind_keys(configs, keys, kind) == kind_keys(configs, others, kind),
    decreases configs.len(),
{
    if configs.len() > 0 {
        lemma_kind_keys_prefix(configs.drop_last(), keys, others, kind);
        assert(keys[configs.len() - 1] == others[configs.len() - 1]);
    }
}

/// A full node that is of at most one special kind is selected exactly once: the
/// three kinds together are all full nodes.
pub proof fn law_kinds_are_all_full_nodes(configs: Seq<FullnodeConfig>)
    requires
        forall|i: int|
            0 <= i < configs.len() ==> !((#[trigger] configs[i]).dedicated && configs[i].prioritized),
    ensures
        kind_sockets(configs, FullnodeKind::Dedicated).len() + kind_sockets(
            configs,
            FullnodeKind::Prioritized,
        ).len() + kind_sockets(configs, FullnodeKind::Standard).len() == configs.len(),
    decreases configs.len(),
{
    if configs.len() > 0 {
        let fewer = configs.drop_last();
        assert forall|i: int| 0 <= i < fewer.len() implies !((#[trigger] fewer[i]).dedicated
            && fewer[i].prioritized) by {
            assert(fewer[i] == configs[i]);
        }
        law_kinds_are_all_full_nodes(fewer);
        assert(configs.last() == configs[configs.len() - 1]);
    }
}

/// Dedicated and prioritized full nodes are shared out among the validators in
/// turn, each in its own list, and every validator and bootnode knows them.
pub proof fn law_validators_serve_full_nodes_in_turn(
    cluster: ClusterView,
    sockets: Seq<NodeSockets>,
    keys: Seq<NodeKey>,
    v: int,
    f: int,
)
    requires
        cluster.validators is Some,
        cluster.bootnodes is Some,
        cluster.dedicated_fullnodes is Some,
        0 <= v < cluster.validators->Some_0.configs.len(),
        cluster.validators->Some_0.configs[v].dedicated_fullnodes.len() == 0,
        cluster.validators->Some_0.configs[v].prioritized_fullnodes.len() == 0,
        0 <= f < keys.len(),
        ids_of(keys).no_duplicates(),
    ensures
        ({
            let count = cluster.validators->Some_0.configs.len() as int;
            let before = cluster.validators->Some_0.configs[v];
            let dedicated = with_dedicated_nodes(cluster, sockets, keys);
            let prioritized = with_prioritized_nodes(cluster, sockets, keys);
            let first = dedicated.validators->Some_0.configs[v];
            let second = prioritized.validators->Some_0.configs[v];
            &&& first.dedicated_fullnodes.contains(keys[f].node_id) <==> v == f % count
            &&& first.prioritized_fullnodes.len() == 0
            &&& second.prioritized_fullnodes.contains(keys[f].node_id) <==> v == f % count
            &&& second.dedicated_fullnodes.len() == 0
            &&& first.known_peers.contains(keys[f].node_id)
            &&& second.known_peers.contains(keys[f].node_id)
            &&& first.bootstrap_peers == before.bootstrap_peers
            &&& second.bootstrap_peers == before.bootstrap_peers
            &&& first.key == before.key && second.key == before.key
            &&& dedicated.dedicated_fullnodes->Some_0.configs[f].node_type == (NodeType::Fullnode {
                dedicated: true,
                prioritized: false,
            })
            &&& prioritized.prioritized_fullnodes->Some_0.configs[f].node_type == (NodeType::Fullnode {
                dedicated: false,
                prioritized: true,
            })
        }),
{
    let validators = cluster.validators->Some_0;
    let count = validators.configs.len() as int;
    let ids = ids_of(keys);
    assert(ids[f] == keys[f].node_id);
    law_full_nodes_are_shared_out_in_turn(ids, f, count, v);
    let before = validators.configs[v];
    let turn = every_turn(ids, v, count);
    assert(before.dedicated_fullnodes + turn =~= turn);
    assert(before.prioritized_fullnodes + turn =~= turn);
    let records = records_of(sockets, keys);
    let id = keys[f].node_id;
    lemma_records(sockets, keys, id);
    lemma_listed(records, id);
    let k = choose|k: int| 0 <= k < sorted_keys(records).len() && sorted_keys(records)[k] == id;
    let known = before.known_peers + sorted_keys(records);
    assert(known[before.known_peers.len() + k] == id);
}

/// Full nodes that are added last know the bootnodes only, and all full nodes
/// before them learn of them.
pub proof fn law_standard_full_nodes_are_introduced(
    cluster: ClusterView,
    sockets: Seq<NodeSockets>,
    keys: Seq<NodeKey>,
    f: int,
    d: int,
)
    requires
        cluster.validators is Some,
        cluster.bootnodes is Some,
        cluster.dedicated_fullnodes is Some,
        cluster.prioritized_fullnodes is Some,
        0 <= f < keys.len(),
        0 <= d < cluster.dedicated_fullnodes->Some_0.configs.len(),
        d < cluster.prioritized_fullnodes->Some_0.configs.len(),
    ensures
        ({
            let after = with_standard_nodes(cluster, sockets, keys);
            let node = after.fullnodes->Some_0.configs[f];
            &&& node.node_type == (NodeType::Fullnode { dedicated: false, prioritized: false })
            &&& node.known_peers == sorted_keys(cluster.bootnodes->Some_0.records)
            &&& after.validators == cluster.validators
            &&& after.dedicated_fullnodes->Some_0.configs[d].known_peers.contains(keys[f].node_id)
            &&& after.prioritized_fullnodes->Some_0.configs[d].known_peers.contains(keys[f].node_id)
        }),
{
    let records = records_of(sockets, keys);
    let id = keys[f].node_id;
    lemma_records(sockets, keys, id);
    lemma_listed(records, id);
    let k = choose|k: int| 0 <= k < sorted_keys(records).len() && sorted_keys(records)[k] == id;
    let first = cluster.dedicated_fullnodes->Some_0.configs[d].known_peers;
    let second = cluster.prioritized_fullnodes->Some_0.configs[d].known_peers;
    assert((first + sorted_keys(records))[first.len() + k] == id);
    assert((second + sorted_keys(records))[second.len() + k] == id);
}

/// The nodes of a cluster are numbered bootnodes first, then validators, then
/// dedicated, prioritized and other full nodes.
pub proof fn law_nodes_are_numbered_by_group(cluster: ClusterView, i: int)
    requires
        cluster.bootnodes is Some,
        cluster.validators is Some,
        cluster.dedicated_fullnodes is Some,
        cluster.prioritized_fullnodes is Some,
        cluster.fullnodes is Some,
    ensures
        ({
            let a = cluster.bootnodes->Some_0.configs;
            let b = cluster.validators->Some_0.configs;
            let c = cluster.dedicated_fullnodes->Some_0.configs;
            let d = cluster.prioritized_fullnodes->Some_0.configs;
            let e = cluster.fullnodes->Some_0.configs;
            let all = all_nodes(cluster);
            &&& all.len() == a.len() + b.len() + c.len() + d.len() + e.len()
            &&& 0 <= i < a.len() ==> all[i] == a[i]
            &&& 0 <= i < b.len() ==> all[a.len() + i] == b[i]
            &&& 0 <= i < c.len() ==> all[a.len() + b.len() + i] == c[i]
            &&& 0 <= i < d.len() ==> all[a.len() + b.len() + c.len() + i] == d[i]
            &&& 0 <= i < e.len() ==> all[a.len() + b.len() + c.len() + d.len() + i] == e[i]
        }),
{
}

/// A cluster is built exactly where all keys are there; the workload is the
/// configured one.
pub proof fn law_cluster_is_built_from_good_keys(
    workload: WorkloadConfig,
    bootnodes: (Seq<BootnodeConfig>, Seq<Result<NodeKey, ClusterError>>),
    validators: (Seq<ValidatorConfig>, Seq<Result<NodeKey, ClusterError>>),
    fullnodes: (Seq<FullnodeConfig>, Seq<Result<NodeKey, ClusterError>>),
)
    requires
        forall|i: int| 0 <= i < bootnodes.1.len() ==> #[trigger] bootnodes.1[i] is Ok,
        forall|i: int| 0 <= i < validators.1.len() ==> #[trigger] validators.1[i] is Ok,
        forall|i: int| 0 <= i < fullnodes.1.len() ==> #[trigger] fullnodes.1[i] is Ok,
        fullnodes.0.len() == fullnodes.1.len(),
    ensures
        configured_cluster(empty_cluster(workload), bootnodes, validators, fullnodes) is Ok,
        configured_cluster(empty_cluster(workload), bootnodes, validators, fullnodes)->Ok_0.workload
            == workload,
{
    lemma_all_keys(bootnodes.1);
    lemma_all_keys(validators.1);
    lemma_kind_keys_are_good(fullnodes.0, fullnodes.1, FullnodeKind::Dedicated);
    lemma_kind_keys_are_good(fullnodes.0, fullnodes.1, FullnodeKind::Prioritized);
    lemma_kind_keys_are_good(fullnodes.0, fullnodes.1, FullnodeKind::Standard);
}

proof fn lemma_kind_keys_are_good(
    configs: Seq<FullnodeConfig>,
    keys: Seq<Result<NodeKey, ClusterError>>,
    kind: FullnodeKind,
)
    requires
        configs.len() <= keys.len(),
        forall|i: int| 0 <= i < keys.len() ==> #[trigger] keys[i] is Ok,
    ensures
        all_keys(kind_keys(configs, keys, kind)) is Ok,
    decreases configs.len(),
{
    if configs.len() > 0 {
        lemma_kind_keys_are_good(configs.drop_last(), keys, kind);
        if is_kind(configs.last(), kind) {
            let all = kind_keys(configs, keys, kind);
            assert(all.drop_last() =~= kind_keys(configs.drop_last(), keys, kind));
            assert(keys[configs.len() - 1] is Ok);
        }
    }
}

/// A port of every local address is that port on the address of four zeros.
pub proof fn law_every_address_is_all_zeros(port: u16, i: int)
    requires
        0 <= i < 4,
    ensures
        any_address(port).port == port,
        any_address(port).ip.octets@[i] == 0,
{
}

/// An addition to a cluster fails exactly where its outcome does, and with its error.
pub proof fn law_builder_has_its_outcome(
    result: Result<ClusterBuilder, ClusterError>,
    outcome: Result<ClusterView, ClusterError>,
)
    requires
        is_outcome(result, outcome),
    ensures
        result is Ok <==> outcome is Ok,
        result is Ok ==> result->Ok_0.wf() && outcome->Ok_0 == result->Ok_0@,
        result is Err ==> outcome->Err_0 == result->Err_0,
{
}

} // verus!
