use monad_runtime::cluster::allocator::{create_allocator, has_addresses, AddressAllocator};
use monad_runtime::cluster::builder::{
    build_cluster_from_config, create_name_record, parse_private_key, ClusterBuilder, ClusterError,
    ClusterKeys, NodeKey, NodeSockets,
};
use monad_runtime::cluster::config::{ClusterConfig, Ipv4, SocketAddress, WorkloadConfig};
use monad_runtime::cluster::generate::{
    compute_service_name, generate_config, get_node_index, node_ikm, GeneratedKey, NodeCounts,
    NodeIndexError,
};
use monad_runtime::cluster::roles::{
    LatencyMetrics, MessageTooShort, MockMessage, NodeType, GAUGE_LATENCY_AVG_US,
    GAUGE_MESSAGES_SENT,
};
use monad_runtime::cluster::workload::{
    draw_delay_ms, draw_size, draw_targets, receive, send_to_peer, target_count, RouterCommand,
    RouterTarget, ValidatorWorkload,
};
use monad_runtime::dkg::ids::NodeId;

const LOOPBACK: Ipv4 = Ipv4 {
    octets: [127, 0, 0, 1],
};

fn node(index: usize) -> NodeId {
    NodeId {
        key: [index as u8 + 1; 33],
    }
}

fn key(index: usize) -> NodeKey {
    NodeKey {
        node_id: node(index),
        private_key: [index as u8 + 1; 32],
    }
}

fn config() -> ClusterConfig {
    let counts = NodeCounts {
        validators: 2,
        bootnodes: 1,
        fullnodes: 2,
        dedicated_fullnodes: 1,
        prioritized_fullnodes: 1,
    };
    assert_eq!(counts.total_nodes(), 7);
    let keys = (0..7)
        .map(|index| GeneratedKey {
            public_key: vec![index as u8 + 1; 2],
            private_key: format!("private-{}", index),
        })
        .collect::<Vec<_>>();
    generate_config(counts, LOOPBACK, 20_000, &keys)
}

fn keys() -> ClusterKeys {
    ClusterKeys {
        bootnodes: vec![Ok(key(0))],
        validators: vec![Ok(key(1)), Ok(key(2))],
        fullnodes: vec![Ok(key(3)), Ok(key(4)), Ok(key(5)), Ok(key(6))],
    }
}

#[test]
fn allocators_step_through_ports_or_addresses() {
    let mut ports = create_allocator(LOOPBACK, 20_000);
    assert_eq!(ports.mode_name(), "port-allocation");
    assert_eq!(ports.tcp_port(), 20_000);
    assert_eq!(ports.auth_udp_port(), 20_001);
    ports.advance();
    assert_eq!(ports.udp_port(), 20_002);
    assert_eq!(ports.ip(), LOOPBACK);

    let mut ips = create_allocator(
        Ipv4 {
            octets: [10, 0, 0, 255],
        },
        8_000,
    );
    assert_eq!(ips.mode_name(), "ip-allocation");
    ips.advance();
    assert_eq!(
        ips.ip(),
        Ipv4 {
            octets: [10, 0, 1, 0]
        }
    );
    assert_eq!(ips.tcp_port(), 8_000);
    assert_eq!(ips.auth_udp_port(), 8_001);
}

#[test]
fn generated_nodes_are_numbered_by_kind() {
    let config = config();
    assert_eq!(config.cluster.name, "test-cluster");
    assert_eq!(config.bootnodes[0].public_key, "0101");
    assert_eq!(config.bootnodes[0].private_key, "private-0");
    assert_eq!(config.validators[0].public_key, "0202");
    assert_eq!(config.validators[0].tcp_addr.port, 20_002);
    assert_eq!(config.validators[0].authenticated_udp_addr.port, 20_003);
    assert_eq!(config.fullnodes.len(), 4);
    assert!(config.fullnodes[0].dedicated);
    assert!(config.fullnodes[1].prioritized);
    assert!(!config.fullnodes[3].dedicated && !config.fullnodes[3].prioritized);
    assert_eq!(config.workload, WorkloadConfig::default());
    assert_eq!(node_ikm(0x0102_0304), [4, 3, 2, 1]);
}

#[test]
fn service_names_count_within_their_kind() {
    let config = config();
    let regular = NodeType::Fullnode {
        dedicated: false,
        prioritized: false,
    };
    let dedicated = NodeType::Fullnode {
        dedicated: true,
        prioritized: false,
    };
    assert_eq!(
        compute_service_name(&config, 0, &NodeType::Bootnode),
        "bootnode-0"
    );
    assert_eq!(
        compute_service_name(&config, 2, &NodeType::Validator),
        "validator-1"
    );
    assert_eq!(
        compute_service_name(&config, 3, &dedicated),
        "fullnode-dedicated-0"
    );
    assert_eq!(compute_service_name(&config, 6, &regular), "fullnode-1");
    assert_eq!(regular.name(), "fullnode");
    assert_eq!(dedicated.name(), "dedicated_fullnode");
}

#[test]
fn service_names_of_a_cluster_differ() {
    let config = config();
    let first_fullnode = config.bootnodes.len() + config.validators.len();
    let names: Vec<String> = (0..first_fullnode + config.fullnodes.len())
        .map(|index| {
            let node_type = if index < config.bootnodes.len() {
                NodeType::Bootnode
            } else if index < first_fullnode {
                NodeType::Validator
            } else {
                let node = &config.fullnodes[index - first_fullnode];
                NodeType::Fullnode {
                    dedicated: node.dedicated,
                    prioritized: node.prioritized,
                }
            };
            compute_service_name(&config, index, &node_type)
        })
        .collect();
    for (index, name) in names.iter().enumerate() {
        assert!(!names[..index].contains(name));
    }
}

#[test]
fn node_index_prefers_the_environment() {
    assert_eq!(get_node_index(Some(b"12".to_vec()), Some(3)), Ok(12));
    assert_eq!(get_node_index(None, Some(3)), Ok(3));
    assert_eq!(
        get_node_index(Some(b"x".to_vec()), Some(3)),
        Err(NodeIndexError::InvalidEnvironment)
    );
    assert_eq!(get_node_index(None, None), Err(NodeIndexError::Missing));
}

#[test]
fn clusters_connect_their_nodes() {
    let config = config();
    let Ok(cluster) = build_cluster_from_config(&config, &keys()) else {
        panic!("the cluster is complete")
    };
    assert_eq!(cluster.total_nodes(), 7);
    assert_eq!(*cluster.workload(), config.workload);

    let bootnode = cluster.get_node_config(0).unwrap();
    assert_eq!(bootnode.node_type, NodeType::Bootnode);
    assert_eq!(bootnode.key.node_id.key, node(0).key);

    let validator = cluster.get_node_config(1).unwrap();
    assert_eq!(validator.node_type, NodeType::Validator);
    assert_eq!(validator.epoch_validators.len(), 2);
    let router = validator.build_router();
    assert!(router.enable_publisher);
    assert!(!router.enable_client);
    assert_eq!(router.udp_bandwidth, 1_000);
    assert_eq!(router.tcp_bind.ip.octets, [0; 4]);
    assert_eq!(router.tcp_bind.port, 20_002);
    assert_eq!(router.timing.max_group_size, 50);

    let fullnode = cluster.get_node_config(6).unwrap();
    assert!(matches!(fullnode.node_type, NodeType::Fullnode { .. }));
    assert!(fullnode.build_router().enable_client);
    assert!(cluster.get_node_config(7).is_none());
}

#[test]
fn clusters_are_built_in_order() {
    let config = config();
    let keys = keys();
    assert!(matches!(
        ClusterBuilder::new()
            .with_validators(&config.validators, &keys.validators)
            .err(),
        Some(ClusterError::BootnodesMissing)
    ));
    let mut bad = self::keys();
    bad.validators[1] = Err(ClusterError::InvalidKey);
    assert!(matches!(
        build_cluster_from_config(&config, &bad).err(),
        Some(ClusterError::InvalidKey)
    ));
}

#[test]
fn private_keys_are_read_from_hex() {
    let text = "0f".repeat(32);
    assert_eq!(parse_private_key(&text), Ok([0x0f; 32]));
    assert_eq!(parse_private_key("xyz"), Err(ClusterError::InvalidHex));
}

#[test]
fn name_records_hold_all_ports() {
    let socket = |port| SocketAddress { ip: LOOPBACK, port };
    let record = create_name_record(&NodeSockets {
        tcp_addr: socket(1),
        udp_addr: socket(2),
        authenticated_udp_addr: socket(3),
    });
    assert_eq!(record.ip, LOOPBACK);
    assert_eq!(
        (
            record.tcp_port,
            record.udp_port,
            record.authenticated_udp_port
        ),
        (1, 2, 3)
    );
}

#[test]
fn latencies_are_summed_up() {
    let mut metrics = LatencyMetrics::new();
    assert_eq!(metrics.avg_latency_us(), 0);
    metrics.record_received(2_000);
    metrics.record_received(4_000);
    metrics.record_sent();
    assert_eq!(metrics.avg_latency_us(), 3);
    assert_eq!(metrics.min_latency_us, 2);
    assert_eq!(metrics.max_latency_us, 4);
    assert_eq!(metrics.last_latency_us, 4);
    let gauges = metrics.metrics();
    assert!(gauges.contains(&(GAUGE_LATENCY_AVG_US, 3)));
    assert!(gauges.contains(&(GAUGE_MESSAGES_SENT, 1)));
}

#[test]
fn latencies_of_a_run_are_counted() {
    let mut metrics = LatencyMetrics::new();
    for latency_ns in [5_999, 1_000, 9_500, 2_000] {
        metrics.record_received(latency_ns);
    }
    assert_eq!(metrics.total_messages_received, 4);
    assert_eq!(metrics.total_messages_sent, 0);
    assert_eq!(metrics.last_latency_us, 2);
    assert_eq!(metrics.min_latency_us, 1);
    assert_eq!(metrics.max_latency_us, 9);
    assert_eq!(metrics.total_latency_sum_us, 5 + 1 + 9 + 2);
}

#[test]
fn messages_carry_their_timestamp() {
    let message = MockMessage::new_with_timestamp(77, 200);
    let wire = message.serialize();
    assert_eq!(wire.len(), 200);
    assert_eq!(wire[..8], 77u64.to_le_bytes());
    assert_ne!(wire[8..], [0u8; 192]);
    let read = MockMessage::deserialize(&wire).unwrap();
    assert_eq!(read.timestamp, 77);
    assert_eq!(read.latency_ns(100), 23);
    assert_eq!(read.latency_ns(50), 0);
    assert_eq!(
        MockMessage::deserialize(&vec![0; 7]).err(),
        Some(MessageTooShort)
    );
    assert_eq!(MockMessage::new_with_timestamp(1, 3).data, vec![0; 3]);
}

#[test]
fn validators_publish_in_rounds() {
    let (mut workload, first) = ValidatorWorkload::start();
    assert!(matches!(
        first,
        RouterCommand::UpdateCurrentRound { epoch: 0, round: 1 }
    ));
    assert!(matches!(
        workload.advance_round(),
        RouterCommand::UpdateCurrentRound { epoch: 0, round: 2 }
    ));
    let mut metrics = LatencyMetrics::new();
    let commands = workload.broadcast(MockMessage::new_with_timestamp(5, 16), &mut metrics);
    assert_eq!(commands.len(), 2);
    assert!(commands.iter().any(|command| matches!(
        command,
        RouterCommand::Publish {
            target: RouterTarget::Raptorcast { epoch: 0 },
            ..
        }
    )));
    assert!(commands.iter().any(|command| matches!(
        command,
        RouterCommand::PublishToFullNodes { round: 2, .. }
    )));

    let command = send_to_peer(node(3), MockMessage::new_with_timestamp(5, 16), &mut metrics);
    assert!(matches!(
        command,
        RouterCommand::Publish {
            target: RouterTarget::PointToPoint { to },
            ..
        } if to.key == node(3).key
    ));
    let latency = receive(
        &MockMessage::new_with_timestamp(5, 16),
        5_005,
        &mut metrics,
    );
    assert_eq!(latency, 5_000);
    assert_eq!(metrics.total_messages_received, 1);
}

#[test]
fn draws_stay_within_their_bounds() {
    let workload = WorkloadConfig::default();
    let peers = (0..9).map(node).collect::<Vec<_>>();
    for _ in 0..50 {
        assert!(draw_delay_ms(10) < 10);
        let size = draw_size(4, 6);
        assert!((4..=6).contains(&size));
        let targets = draw_targets(&workload, &peers);
        assert!((1..=5).contains(&targets.len()));
        for (index, target) in targets.iter().enumerate() {
            assert!(peers.iter().any(|peer| peer.key == target.key));
            assert!(targets[..index]
                .iter()
                .all(|earlier| earlier.key != target.key));
        }
    }
    assert!((0..50).map(|_| draw_delay_ms(1_000_000)).any(|delay| delay > 0));
    assert!(draw_targets(&workload, &Vec::new()).is_empty());
    assert_eq!(target_count(7, 3), 3);
    assert_eq!(target_count(2, 3), 2);
}

#[test]
fn address_ranges_end_where_ports_and_numbers_end() {
    assert!(has_addresses(LOOPBACK, 60000, 0));
    assert!(has_addresses(LOOPBACK, 65534, 1));
    assert!(!has_addresses(LOOPBACK, 65535, 1));
    assert!(!has_addresses(LOOPBACK, 0, 32768));

    let last = Ipv4 {
        octets: [255, 255, 255, 255],
    };
    assert!(has_addresses(last, 8000, 1));
    assert!(!has_addresses(last, 8000, 2));
    assert!(!has_addresses(last, u16::MAX, 1));
}
