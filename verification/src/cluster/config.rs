//! Cluster configuration.

use vstd::prelude::*;

verus! {

/// An IPv4 address.
#[derive(Clone, Copy, Debug, PartialEq, Eq)]
pub struct Ipv4 {
    pub octets: [u8; 4],
}

/// An IPv4 address and a port.
#[derive(Clone, Copy, Debug, PartialEq, Eq)]
pub struct SocketAddress {
    pub ip: Ipv4,
    pub port: u16,
}

#[derive(Debug)]
pub struct ValidatorConfig {
    pub public_key: String,
    pub private_key: String,
    pub tcp_addr: SocketAddress,
    pub udp_addr: SocketAddress,
    pub authenticated_udp_addr: SocketAddress,
}

#[derive(Debug)]
pub struct BootnodeConfig {
    pub public_key: String,
    pub private_key: String,
    pub tcp_addr: SocketAddress,
    pub udp_addr: SocketAddress,
    pub authenticated_udp_addr: SocketAddress,
}

#[derive(Debug)]
pub struct FullnodeConfig {
    pub public_key: String,
    pub private_key: String,
    pub tcp_addr: SocketAddress,
    pub udp_addr: SocketAddress,
    pub authenticated_udp_addr: SocketAddress,
    pub dedicated: bool,
    pub prioritized: bool,
}

/// What the nodes of a cluster send, and how often.
#[derive(Clone, Copy, Debug, PartialEq, Eq, Structural)]
pub struct WorkloadConfig {
    pub validator_broadcast_window_ms: u64,
    pub validator_message_size_min: usize,
    pub validator_message_size_max: usize,
    pub fullnode_p2p_window_ms: u64,
    pub fullnode_p2p_targets_min: usize,
    pub fullnode_p2p_targets_max: usize,
    pub fullnode_message_size_min: usize,
    pub fullnode_message_size_max: usize,
}

impl Default for WorkloadConfig {
    fn default() -> (config: Self)
        ensures
            config == (WorkloadConfig {
                validator_broadcast_window_ms: 1000,
                validator_message_size_min: 131072,
                validator_message_size_max: 1048576,
                fullnode_p2p_window_ms: 10000,
                fullnode_p2p_targets_min: 1,
                fullnode_p2p_targets_max: 5,
                fullnode_message_size_min: 16384,
                fullnode_message_size_max: 131072,
            }),
    {
        WorkloadConfig {
            validator_broadcast_window_ms: 1000,
            validator_message_size_min: 131072,
            validator_message_size_max: 1048576,
            fullnode_p2p_window_ms: 10000,
            fullnode_p2p_targets_min: 1,
            fullnode_p2p_targets_max: 5,
            fullnode_message_size_min: 16384,
            fullnode_message_size_max: 131072,
        }
    }
}

#[derive(Debug)]
pub struct ClusterInfo {
    pub name: String,
}

impl Default for ClusterInfo {
    fn default() -> (info: Self)
        ensures
            info.name@ == Seq::<char>::empty(),
    {
        ClusterInfo { name: String::new() }
    }
}

/// A cluster as its configuration file describes it.
#[derive(Debug)]
pub struct ClusterConfig {
    pub cluster: ClusterInfo,
    pub validators: Vec<ValidatorConfig>,
    pub bootnodes: Vec<BootnodeConfig>,
    pub fullnodes: Vec<FullnodeConfig>,
    pub workload: WorkloadConfig,
}

/// The part of a node's configuration that all kinds of node share.
#[verifier::ext_equal]
pub struct NodeSettings {
    pub public_key: Seq<char>,
    pub private_key: Seq<char>,
    pub tcp_addr: SocketAddress,
    pub udp_addr: SocketAddress,
    pub authenticated_udp_addr: SocketAddress,
}

impl View for ValidatorConfig {
    type V = NodeSettings;

    open spec fn view(&self) -> NodeSettings {
        NodeSettings {
            public_key: self.public_key@,
            private_key: self.private_key@,
            tcp_addr: self.tcp_addr,
            udp_addr: self.udp_addr,
            authenticated_udp_addr: self.authenticated_udp_addr,
        }
    }
}

impl View for BootnodeConfig {
    type V = NodeSettings;

    open spec fn view(&self) -> NodeSettings {
        NodeSettings {
            public_key: self.public_key@,
            private_key: self.private_key@,
            tcp_addr: self.tcp_addr,
            udp_addr: self.udp_addr,
            authenticated_udp_addr: self.authenticated_udp_addr,
        }
    }
}

impl View for FullnodeConfig {
    type V = NodeSettings;

    open spec fn view(&self) -> NodeSettings {
        NodeSettings {
            public_key: self.public_key@,
            private_key: self.private_key@,
            tcp_addr: self.tcp_addr,
            udp_addr: self.udp_addr,
            authenticated_udp_addr: self.authenticated_udp_addr,
        }
    }
}

/// The settings of a node are the keys and the addresses of its configuration.
pub proof fn law_settings_show_every_field(
    validator: ValidatorConfig,
    bootnode: BootnodeConfig,
    fullnode: FullnodeConfig,
)
    ensures
        validator@.public_key == validator.public_key@,
        validator@.private_key == validator.private_key@,
        validator@.tcp_addr == validator.tcp_addr,
        validator@.udp_addr == validator.udp_addr,
        validator@.authenticated_udp_addr == validator.authenticated_udp_addr,
        bootnode@.public_key == bootnode.public_key@,
        bootnode@.private_key == bootnode.private_key@,
        bootnode@.tcp_addr == bootnode.tcp_addr,
        bootnode@.udp_addr == bootnode.udp_addr,
        bootnode@.authenticated_udp_addr == bootnode.authenticated_udp_addr,
        fullnode@.public_key == fullnode.public_key@,
        fullnode@.private_key == fullnode.private_key@,
        fullnode@.tcp_addr == fullnode.tcp_addr,
        fullnode@.udp_addr == fullnode.udp_addr,
        fullnode@.authenticated_udp_addr == fullnode.authenticated_udp_addr,
{
}

} // verus!
