//! Generating a cluster configuration, and telling its nodes apart.

use crate::cluster::allocator::{
    addresses_fit, create_allocator, node_address, AddressAllocator, Allocator,
};
use crate::cluster::config::{
    BootnodeConfig, ClusterConfig, ClusterInfo, FullnodeConfig, Ipv4, NodeSettings, SocketAddress,
    ValidatorConfig, WorkloadConfig,
};
use crate::cluster::roles::NodeType;
use crate::octets::le_bytes;
use crate::text::{
    byte_text, decimal, encode_hex, hex_text, is_digit, lemma_decimal, lemma_decimal_differs,
    parse_number, parsed_number, push_decimal,
};
use vstd::prelude::*;

verus! {

/// The key material of node `index`: its number in four bytes, lowest first.
pub fn node_ikm(index: usize) -> (ikm: [u8; 4])
    ensures
        ikm@ == le_bytes(index as nat, 4),
{
    let number: u64 = index as u64;
    let ikm: [u8; 4] = [
        (number % 256) as u8,
        (number / 256 % 256) as u8,
        (number / 65536 % 256) as u8,
        (number / 16777216 % 256) as u8,
    ];
    proof {
        reveal_with_fuel(le_bytes, 5);
        assert(index as nat / 256 / 256 == number / 65536);
        assert(index as nat / 256 / 256 / 256 == number / 16777216);
        assert(ikm@ =~= le_bytes(index as nat, 4));
    }
    ikm
}

/// A node's key pair in the form in which a configuration states it.
#[derive(Debug)]
pub struct GeneratedKey {
    pub public_key: Vec<u8>,
    pub private_key: String,
}

/// How many nodes of each kind a cluster has.
#[derive(Clone, Copy, Debug, PartialEq, Eq, Structural)]
pub struct NodeCounts {
    pub validators: usize,
    pub bootnodes: usize,
    pub fullnodes: usize,
    pub dedicated_fullnodes: usize,
    pub prioritized_fullnodes: usize,
}

impl NodeCounts {
    /// The number of full nodes.
    pub open spec fn all_fullnodes(self) -> nat {
        (self.fullnodes + self.dedicated_fullnodes + self.prioritized_fullnodes) as nat
    }

    /// The number of nodes.
    pub open spec fn total(self) -> nat {
        (self.bootnodes + self.validators + self.all_fullnodes()) as nat
    }

    /// The number of nodes.
    pub fn total_nodes(&self) -> (total: usize)
        requires
            self.total() <= usize::MAX,
        ensures
            total == self.total(),
    {
        self.bootnodes + self.validators + self.fullnodes + self.dedicated_fullnodes
            + self.prioritized_fullnodes
    }
}

/// The settings of node `index` of a generated cluster.
pub open spec fn generated_node(
    keys: Seq<GeneratedKey>,
    base_ip: Ipv4,
    base_port: u16,
    index: nat,
) -> NodeSettings {
    let address = node_address(base_ip, base_port, index);
    NodeSettings {
        public_key: hex_text(keys[index as int].public_key@),
        private_key: keys[index as int].private_key@,
        tcp_addr: SocketAddress { ip: address.ip, port: address.tcp_port },
        udp_addr: SocketAddress { ip: address.ip, port: address.udp_port },
        authenticated_udp_addr: SocketAddress { ip: address.ip, port: address.auth_udp_port },
    }
}

/// Takes the next addresses.
fn take_address(allocator: &mut Allocator) -> (sockets: (SocketAddress, SocketAddress, SocketAddress))
    requires
        old(allocator).valid(),
        old(allocator).can_advance(),
    ensures
        *final(allocator) == old(allocator).advanced(),
        sockets.0 == (SocketAddress {
            ip: old(allocator).current().ip,
            port: old(allocator).current().tcp_port,
        }),
        sockets.1 == (SocketAddress {
            ip: old(allocator).current().ip,
            port: old(allocator).current().udp_port,
        }),
        sockets.2 == (SocketAddress {
            ip: old(allocator).current().ip,
            port: old(allocator).current().auth_udp_port,
        }),
{
    let sockets = (
        SocketAddress { ip: allocator.ip(), port: allocator.tcp_port() },
        SocketAddress { ip: allocator.ip(), port: allocator.udp_port() },
        SocketAddress { ip: allocator.ip(), port: allocator.auth_udp_port() },
    );
    allocator.advance();
    sockets
}

/// A cluster with so many nodes. Nodes are numbered in the order bootnodes,
/// validators, dedicated, prioritized, and standard full nodes; node `i` has the
/// key pair `keys[i]` and the addresses at place `i`.
pub fn generate_config(
    counts: NodeCounts,
    base_ip: Ipv4,
    base_port: u16,
    keys: &Vec<GeneratedKey>,
) -> (config: ClusterConfig)
    requires
        keys@.len() == counts.total(),
        addresses_fit(base_ip, base_port, counts.total()),
    ensures
        config.cluster.name@ == "test-cluster"@,
        config.bootnodes@.len() == counts.bootnodes,
        forall|i: int| #![trigger config.bootnodes@[i]]
            0 <= i < counts.bootnodes ==> config.bootnodes@[i]@ == generated_node(
                keys@,
                base_ip,
                base_port,
                i as nat,
            ),
        config.validators@.len() == counts.validators,
        forall|i: int| #![trigger config.validators@[i]]
            0 <= i < counts.validators ==> config.validators@[i]@ == generated_node(
                keys@,
                base_ip,
                base_port,
                (counts.bootnodes + i) as nat,
            ),
        config.fullnodes@.len() == counts.all_fullnodes(),
        forall|i: int| #![trigger config.fullnodes@[i]]
            0 <= i < counts.all_fullnodes() ==> {
                &&& config.fullnodes@[i]@ == generated_node(
                    keys@,
                    base_ip,
                    base_port,
                    (counts.bootnodes + counts.validators + i) as nat,
                )
                &&& config.fullnodes@[i].dedicated == (i < counts.dedicated_fullnodes)
                &&& config.fullnodes@[i].prioritized == (counts.dedicated_fullnodes <= i
                    < counts.dedicated_fullnodes + counts.prioritized_fullnodes)
            },
        config.workload == (WorkloadConfig {
            validator_broadcast_window_ms: 1000,
            validator_message_size_min: 131072,
            validator_message_size_max: 1048576,
            fullnode_p2p_window_ms: 10000,
            fullnode_p2p_targets_min: 1,
            fullnode_p2p_targets_max: 5,
            fullnode_message_size_min: 16384,
            fullnode_message_size_max: 131072,
        }),
{
    let total: usize = keys.len();
    let mut allocator: Allocator = create_allocator(base_ip, base_port);
    let mut bootnodes: Vec<BootnodeConfig> = Vec::new();
    let mut index: usize = 0;
    while bootnodes.len() < counts.bootnodes
        invariant
            total == keys@.len(),
            total == counts.total(),
            addresses_fit(base_ip, base_port, total as nat),
            index == bootnodes@.len(),
            index <= counts.bootnodes,
            allocator.at(base_ip, base_port, index as nat),
            forall|i: int| #![trigger bootnodes@[i]]
                0 <= i < index ==> bootnodes@[i]@ == generated_node(keys@, base_ip, base_port, i as nat),
        decreases counts.bootnodes - index,
    {
        proof {
            allocator.lemma_at(base_ip, base_port, index as nat, total as nat);
        }
        let (tcp_addr, udp_addr, authenticated_udp_addr) = take_address(&mut allocator);
        let node = BootnodeConfig {
            public_key: encode_hex(&keys[index].public_key),
            private_key: keys[index].private_key.clone(),
            tcp_addr,
            udp_addr,
            authenticated_udp_addr,
        };
        assert(node@ =~= generated_node(keys@, base_ip, base_port, index as nat));
        bootnodes.push(node);
        index += 1;
    }
    let mut validators: Vec<ValidatorConfig> = Vec::new();
    while validators.len() < counts.validators
        invariant
            total == keys@.len(),
            total == counts.total(),
            addresses_fit(base_ip, base_port, total as nat),
            index == counts.bootnodes + validators@.len(),
            validators@.len() <= counts.validators,
            allocator.at(base_ip, base_port, index as nat),
            forall|i: int| #![trigger validators@[i]]
                0 <= i < validators@.len() ==> validators@[i]@ == generated_node(
                    keys@,
                    base_ip,
                    base_port,
                    (counts.bootnodes + i) as nat,
                ),
        decreases counts.validators - validators@.len(),
    {
        proof {
            allocator.lemma_at(base_ip, base_port, index as nat, total as nat);
        }
        let (tcp_addr, udp_addr, authenticated_udp_addr) = take_address(&mut allocator);
        let node = ValidatorConfig {
            public_key: encode_hex(&keys[index].public_key),
            private_key: keys[index].private_key.clone(),
            tcp_addr,
            udp_addr,
            authenticated_udp_addr,
        };
        assert(node@ =~= generated_node(keys@, base_ip, base_port, index as nat));
        validators.push(node);
        index += 1;
    }
    let mut fullnodes: Vec<FullnodeConfig> = Vec::new();
    while index < total
        invariant
            total == keys@.len(),
            total == counts.total(),
            addresses_fit(base_ip, base_port, total as nat),
            index == counts.bootnodes + counts.validators + fullnodes@.len(),
            index <= total,
            allocator.at(base_ip, base_port, index as nat),
            forall|i: int| #![trigger fullnodes@[i]]
                0 <= i < fullnodes@.len() ==> {
                    &&& fullnodes@[i]@ == generated_node(
                        keys@,
                        base_ip,
                        base_port,
                        (counts.bootnodes + counts.validators + i) as nat,
                    )
                    &&& fullnodes@[i].dedicated == (i < counts.dedicated_fullnodes)
                    &&& fullnodes@[i].prioritized == (counts.dedicated_fullnodes <= i
                        < counts.dedicated_fullnodes + counts.prioritized_fullnodes)
                },
        decreases total - index,
    {
        proof {
            allocator.lemma_at(base_ip, base_port, index as nat, total as nat);
        }
        let place: usize = fullnodes.len();
        let (tcp_addr, udp_addr, authenticated_udp_addr) = take_address(&mut allocator);
        let node = FullnodeConfig {
            public_key: encode_hex(&keys[index].public_key),
            private_key: keys[index].private_key.clone(),
            tcp_addr,
            udp_addr,
            authenticated_udp_addr,
            dedicated: place < counts.dedicated_fullnodes,
            prioritized: counts.dedicated_fullnodes <= place && place - counts.dedicated_fullnodes
                < counts.prioritized_fullnodes,
        };
        assert(node@ =~= generated_node(keys@, base_ip, base_port, index as nat));
        fullnodes.push(node);
        index += 1;
    }
    ClusterConfig {
        cluster: ClusterInfo { name: "test-cluster".to_owned() },
        validators,
        bootnodes,
        fullnodes,
        workload: WorkloadConfig::default(),
    }
}

/// A full node's class in service names.
#[derive(Clone, Copy, Debug, PartialEq, Eq, Structural)]
pub enum FullnodeClass {
    Dedicated,
    Prioritized,
    Regular,
}

/// The class of a full node; a dedicated one is dedicated whatever else it is.
pub open spec fn fullnode_class(dedicated: bool, prioritized: bool) -> FullnodeClass {
    if dedicated {
        FullnodeClass::Dedicated
    } else if prioritized {
        FullnodeClass::Prioritized
    } else {
        FullnodeClass::Regular
    }
}

/// How many of `fullnodes` are of a class.
pub open spec fn class_count(fullnodes: Seq<FullnodeConfig>, class: FullnodeClass) -> nat
    decreases fullnodes.len(),
{
    if fullnodes.len() == 0 {
        0
    } else {
        let last = fullnodes.last();
        class_count(fullnodes.drop_last(), class) + if fullnode_class(
            last.dedicated,
            last.prioritized,
        ) == class {
            1nat
        } else {
            0nat
        }
    }
}

/// The full nodes before the one with number `place`.
pub open spec fn earlier_fullnodes(fullnodes: Seq<FullnodeConfig>, place: int) -> Seq<FullnodeConfig> {
    if place < fullnodes.len() {
        fullnodes.take(place)
    } else {
        fullnodes
    }
}

/// The name of a node in reports: its kind and its number among its kind.
pub open spec fn service_name(
    bootnode_count: nat,
    validator_count: nat,
    fullnodes: Seq<FullnodeConfig>,
    node_index: nat,
    node_type: NodeType,
) -> Seq<char> {
    match node_type {
        NodeType::Bootnode => "bootnode-"@ + byte_text(decimal(node_index)),
        NodeType::Validator => "validator-"@ + byte_text(
            decimal((node_index - bootnode_count) as nat),
        ),
        NodeType::Fullnode { dedicated, prioritized } => {
            let place = node_index - bootnode_count - validator_count;
            let class = fullnode_class(dedicated, prioritized);
            let prefix = match class {
                FullnodeClass::Dedicated => "fullnode-dedicated-"@,
                FullnodeClass::Prioritized => "fullnode-prioritized-"@,
                FullnodeClass::Regular => "fullnode-"@,
            };
            prefix + byte_text(decimal(class_count(earlier_fullnodes(fullnodes, place), class)))
        },
    }
}

/// The name of a node in reports.
pub fn compute_service_name(cluster_config: &ClusterConfig, node_index: usize, node_type: &NodeType) -> (name:
    String)
    requires
        *node_type == NodeType::Validator ==> cluster_config.bootnodes@.len() <= node_index,
        node_type is Fullnode ==> cluster_config.bootnodes@.len() + cluster_config.validators@.len()
            <= node_index,
    ensures
        name@ == service_name(
            cluster_config.bootnodes@.len(),
            cluster_config.validators@.len(),
            cluster_config.fullnodes@,
            node_index as nat,
            *node_type,
        ),
{
    let bootnode_count: usize = cluster_config.bootnodes.len();
    let validator_count: usize = cluster_config.validators.len();
    match node_type {
        NodeType::Bootnode => {
            let mut name: String = "bootnode-".to_owned();
            push_decimal(&mut name, node_index as u64);
            name
        },
        NodeType::Validator => {
            let mut name: String = "validator-".to_owned();
            push_decimal(&mut name, (node_index - bootnode_count) as u64);
            name
        },
        NodeType::Fullnode { dedicated, prioritized } => {
            let fullnode_idx: usize = node_index - bootnode_count - validator_count;
            let fullnodes: &Vec<FullnodeConfig> = &cluster_config.fullnodes;
            let class: FullnodeClass = if *dedicated {
                FullnodeClass::Dedicated
            } else if *prioritized {
                FullnodeClass::Prioritized
            } else {
                FullnodeClass::Regular
            };
            let end: usize = if fullnode_idx < fullnodes.len() {
                fullnode_idx
            } else {
                fullnodes.len()
            };
            let mut count: usize = 0;
            let mut i: usize = 0;
            while i < end
                invariant
                    i <= end <= fullnodes@.len(),
                    count <= i,
                    count == class_count(fullnodes@.take(i as int), class),
                decreases end - i,
            {
                let config: &FullnodeConfig = &fullnodes[i];
                let own: FullnodeClass = if config.dedicated {
                    FullnodeClass::Dedicated
                } else if config.prioritized {
                    FullnodeClass::Prioritized
                } else {
                    FullnodeClass::Regular
                };
                assert(fullnodes@.take(i + 1).drop_last() =~= fullnodes@.take(i as int));
                if own == class {
                    count += 1;
                }
                i += 1;
            }
            assert(fullnodes@.take(end as int) =~= earlier_fullnodes(fullnodes@, fullnode_idx as int));
            let mut name: String = match class {
                FullnodeClass::Dedicated => "fullnode-dedicated-".to_owned(),
                FullnodeClass::Prioritized => "fullnode-prioritized-".to_owned(),
                FullnodeClass::Regular => "fullnode-".to_owned(),
            };
            push_decimal(&mut name, count as u64);
            name
        },
    }
}

/// Why a node index is not known.
#[derive(Clone, Copy, Debug, PartialEq, Eq, Structural)]
pub enum NodeIndexError {
    /// The environment states something that is not a number.
    InvalidEnvironment,
    /// Neither the environment nor the command line states one.
    Missing,
}

/// The node index: the one of the environment before the one of the command line.
pub fn get_node_index(environment: Option<Vec<u8>>, index_arg: Option<usize>) -> (result: Result<
    usize,
    NodeIndexError,
>)
    ensures
        match environment {
            Some(text) => match parsed_number(text@) {
                Some(number) if number <= usize::MAX => result == Ok::<usize, NodeIndexError>(
                    number as usize,
                ),
                _ => result == Err::<usize, NodeIndexError>(NodeIndexError::InvalidEnvironment),
            },
            None => match index_arg {
                Some(index) => result == Ok::<usize, NodeIndexError>(index),
                None => result == Err::<usize, NodeIndexError>(NodeIndexError::Missing),
            },
        },
{
    match environment {
        Some(text) => {
            let length: usize = text.len();
            assert(text@.subrange(0, length as int) =~= text@);
            match parse_number(&text, 0, length) {
                Some(number) => {
                    if number <= usize::MAX as u64 {
                        Ok(number as usize)
                    } else {
                        Err(NodeIndexError::InvalidEnvironment)
                    }
                },
                None => Err(NodeIndexError::InvalidEnvironment),
            }
        },
        None => match index_arg {
            Some(index) => Ok(index),
            None => Err(NodeIndexError::Missing),
        },
    }
}

/// What the entry at a place of a cluster's list is: the bootnodes come first, then the
/// validators, then the full nodes.
pub open spec fn entry_type(
    bootnode_count: nat,
    validator_count: nat,
    fullnodes: Seq<FullnodeConfig>,
    node_index: nat,
) -> NodeType {
    if node_index < bootnode_count {
        NodeType::Bootnode
    } else if node_index < bootnode_count + validator_count {
        NodeType::Validator
    } else {
        let node = fullnodes[node_index - bootnode_count - validator_count];
        NodeType::Fullnode { dedicated: node.dedicated, prioritized: node.prioritized }
    }
}

/// The part of a service name before its number.
spec fn service_prefix(node_type: NodeType) -> Seq<char> {
    match node_type {
        NodeType::Bootnode => "bootnode-"@,
        NodeType::Validator => "validator-"@,
        NodeType::Fullnode { dedicated, prioritized } => match fullnode_class(dedicated, prioritized) {
            FullnodeClass::Dedicated => "fullnode-dedicated-"@,
            FullnodeClass::Prioritized => "fullnode-prioritized-"@,
            FullnodeClass::Regular => "fullnode-"@,
        },
    }
}

/// Where two service names are equal, so are their prefixes and their numbers.
proof fn lemma_service_names_differ(
    left: NodeType,
    left_number: nat,
    right: NodeType,
    right_number: nat,
)
    requires
        service_prefix(left) + byte_text(decimal(left_number)) == service_prefix(right) + byte_text(
            decimal(right_number),
        ),
    ensures
        service_prefix(left) == service_prefix(right),
        left_number == right_number,
{
    reveal_strlit("bootnode-");
    reveal_strlit("validator-");
    reveal_strlit("fullnode-dedicated-");
    reveal_strlit("fullnode-prioritized-");
    reveal_strlit("fullnode-");
    lemma_decimal(left_number);
    lemma_decimal(right_number);
    let left_digits = byte_text(decimal(left_number));
    let right_digits = byte_text(decimal(right_number));
    let name = service_prefix(left) + left_digits;
    let other = service_prefix(right) + right_digits;
    assert(name[0] == other[0]);
    assert(name[9] == other[9]);
    assert(name[0] == service_prefix(left)[0]);
    assert(other[0] == service_prefix(right)[0]);
    if service_prefix(left).len() == 9 {
        assert(name[9] == left_digits[0]);
        assert(is_digit(decimal(left_number)[0]));
    } else if service_prefix(left).len() > 9 {
        assert(name[9] == service_prefix(left)[9]);
    }
    if service_prefix(right).len() == 9 {
        assert(other[9] == right_digits[0]);
        assert(is_digit(decimal(right_number)[0]));
    } else if service_prefix(right).len() > 9 {
        assert(other[9] == service_prefix(right)[9]);
    }
    assert(service_prefix(left) == service_prefix(right));
    assert(left_digits =~= right_digits) by {
        assert(name.len() == service_prefix(left).len() + left_digits.len());
        assert(other.len() == service_prefix(right).len() + right_digits.len());
        assert(left_digits.len() == right_digits.len());
        assert forall|i: int| 0 <= i < left_digits.len() implies left_digits[i] == right_digits[i] by {
            assert(name[service_prefix(left).len() + i] == left_digits[i]);
            assert(other[service_prefix(right).len() + i] == right_digits[i]);
        }
    }
    lemma_decimal_differs(left_number, right_number);
}

/// No two entries of a cluster's list have the same service name.
pub proof fn law_service_names_differ(
    bootnode_count: nat,
    validator_count: nat,
    fullnodes: Seq<FullnodeConfig>,
    first: nat,
    second: nat,
)
    requires
        first < second < bootnode_count + validator_count + fullnodes.len(),
    ensures
        service_name(
            bootnode_count,
            validator_count,
            fullnodes,
            first,
            entry_type(bootnode_count, validator_count, fullnodes, first),
        ) != service_name(
            bootnode_count,
            validator_count,
            fullnodes,
            second,
            entry_type(bootnode_count, validator_count, fullnodes, second),
        ),
{
    let left = entry_type(bootnode_count, validator_count, fullnodes, first);
    let right = entry_type(bootnode_count, validator_count, fullnodes, second);
    let left_name = service_name(bootnode_count, validator_count, fullnodes, first, left);
    let right_name = service_name(bootnode_count, validator_count, fullnodes, second, right);
    let left_number = service_number(bootnode_count, validator_count, fullnodes, first, left);
    let right_number = service_number(bootnode_count, validator_count, fullnodes, second, right);
    assert(left_name == service_prefix(left) + byte_text(decimal(left_number)));
    assert(right_name == service_prefix(right) + byte_text(decimal(right_number)));
    if left_name == right_name {
        lemma_service_names_differ(left, left_number, right, right_number);
        reveal_strlit("bootnode-");
        reveal_strlit("validator-");
        reveal_strlit("fullnode-dedicated-");
        reveal_strlit("fullnode-prioritized-");
        reveal_strlit("fullnode-");
        assert(service_prefix(left)[0] == service_prefix(right)[0]);
        assert(service_prefix(left).len() == service_prefix(right).len());
        if left is Fullnode {
            let offset = (bootnode_count + validator_count) as int;
            let class = fullnode_class(left->dedicated, left->prioritized);
            law_service_numbers_differ(fullnodes, first - offset, second - offset, class);
        }
    }
}

/// The number in a service name.
spec fn service_number(
    bootnode_count: nat,
    validator_count: nat,
    fullnodes: Seq<FullnodeConfig>,
    node_index: nat,
    node_type: NodeType,
) -> nat {
    match node_type {
        NodeType::Bootnode => node_index,
        NodeType::Validator => (node_index - bootnode_count) as nat,
        NodeType::Fullnode { dedicated, prioritized } => class_count(
            earlier_fullnodes(fullnodes, node_index - bootnode_count - validator_count),
            fullnode_class(dedicated, prioritized),
        ),
    }
}

/// Two full nodes of one class have different numbers in their names.
pub proof fn law_service_numbers_differ(
    fullnodes: Seq<FullnodeConfig>,
    first: int,
    second: int,
    class: FullnodeClass,
)
    requires
        0 <= first < second < fullnodes.len(),
        fullnode_class(fullnodes[first].dedicated, fullnodes[first].prioritized) == class,
        fullnode_class(fullnodes[second].dedicated, fullnodes[second].prioritized) == class,
    ensures
        class_count(earlier_fullnodes(fullnodes, first), class) < class_count(
            earlier_fullnodes(fullnodes, second),
            class,
        ),
    decreases second - first,
{
    let upto = fullnodes.take(first + 1);
    assert(upto.drop_last() =~= fullnodes.take(first));
    assert(upto.last() == fullnodes[first]);
    lemma_class_count_grows(fullnodes, first + 1, second, class);
}

proof fn lemma_class_count_grows(
    fullnodes: Seq<FullnodeConfig>,
    low: int,
    high: int,
    class: FullnodeClass,
)
    requires
        0 <= low <= high <= fullnodes.len(),
    ensures
        class_count(fullnodes.take(low), class) <= class_count(fullnodes.take(high), class),
    decreases high - low,
{
    if low < high {
        lemma_class_count_grows(fullnodes, low, high - 1, class);
        assert(fullnodes.take(high).drop_last() =~= fullnodes.take(high - 1));
    }
}

/// A generated node has the key of its place, in hexadecimal, and the addresses of
/// its place.
pub proof fn law_generated_node_has_its_place(
    keys: Seq<GeneratedKey>,
    base_ip: Ipv4,
    base_port: u16,
    index: nat,
)
    requires
        index < keys.len(),
    ensures
        ({
            let node = generated_node(keys, base_ip, base_port, index);
            let address = node_address(base_ip, base_port, index);
            &&& node.public_key == hex_text(keys[index as int].public_key@)
            &&& node.private_key == keys[index as int].private_key@
            &&& node.tcp_addr.ip == address.ip && node.tcp_addr.port == address.tcp_port
            &&& node.udp_addr.ip == address.ip && node.udp_addr.port == address.udp_port
            &&& node.authenticated_udp_addr.ip == address.ip && node.authenticated_udp_addr.port
                == address.auth_udp_port
        }),
{
}

/// A service is named after what its node does and counted among the nodes that do
/// the same.
pub proof fn law_service_name_counts_among_its_like(
    bootnode_count: nat,
    validator_count: nat,
    fullnodes: Seq<FullnodeConfig>,
    node_index: nat,
)
    requires
        node_index < bootnode_count + validator_count + fullnodes.len(),
    ensures
        ({
            let kind = entry_type(bootnode_count, validator_count, fullnodes, node_index);
            let name = service_name(bootnode_count, validator_count, fullnodes, node_index, kind);
            &&& node_index < bootnode_count ==> name == "bootnode-"@ + byte_text(decimal(node_index))
            &&& bootnode_count <= node_index < bootnode_count + validator_count ==> name
                == "validator-"@ + byte_text(decimal((node_index - bootnode_count) as nat))
            &&& node_index >= bootnode_count + validator_count ==> {
                let place = node_index - bootnode_count - validator_count;
                let node = fullnodes[place];
                let earlier = fullnodes.take(place);
                if node.dedicated {
                    name == "fullnode-dedicated-"@ + byte_text(
                        decimal(class_count(earlier, FullnodeClass::Dedicated)),
                    )
                } else if node.prioritized {
                    name == "fullnode-prioritized-"@ + byte_text(
                        decimal(class_count(earlier, FullnodeClass::Prioritized)),
                    )
                } else {
                    name == "fullnode-"@ + byte_text(
                        decimal(class_count(earlier, FullnodeClass::Regular)),
                    )
                }
            }
        }),
{
}

/// Every full node is counted in exactly one class.
pub proof fn law_classes_count_every_full_node(fullnodes: Seq<FullnodeConfig>)
    ensures
        class_count(fullnodes, FullnodeClass::Dedicated) + class_count(
            fullnodes,
            FullnodeClass::Prioritized,
        ) + class_count(fullnodes, FullnodeClass::Regular) == fullnodes.len(),
        class_count(fullnodes, FullnodeClass::Dedicated) == fullnodes.filter(
            |node: FullnodeConfig| node.dedicated,
        ).len(),
        class_count(fullnodes, FullnodeClass::Regular) == fullnodes.filter(
            |node: FullnodeConfig| !node.dedicated && !node.prioritized,
        ).len(),
    decreases fullnodes.len(),
{
    reveal(Seq::filter);
    if fullnodes.len() > 0 {
        law_classes_count_every_full_node(fullnodes.drop_last());
    }
}

/// A cluster has as many nodes as its bootnodes, validators and full nodes of all
/// sorts together.
pub proof fn law_total_counts_every_sort(counts: NodeCounts)
    ensures
        counts.total() == counts.validators + counts.bootnodes + counts.fullnodes
            + counts.dedicated_fullnodes + counts.prioritized_fullnodes,
        counts.all_fullnodes() == counts.fullnodes + counts.dedicated_fullnodes
            + counts.prioritized_fullnodes,
{
}

} // verus!
