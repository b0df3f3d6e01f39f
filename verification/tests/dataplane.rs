use monad_runtime::dataplane::bufring::{ring_entries, BufferRing};
use monad_runtime::dataplane::reader::{
    delivery_stride, handle_completion, handle_ringbuf_completion, initial_ops, ring_size,
    src_addr, Completion, RecvOp, SocketAddr, SocketConfig, UserData, AF_INET, AF_INET6, ENOBUFS,
};
use monad_runtime::dataplane::session::{
    background_step, init_sessions, session_key, AdapterError, BackgroundAction, BackgroundEvent,
    BackgroundStage, SessionConfig,
};
use monad_runtime::dataplane::shared::{
    can_spawn, partition_sockets_for_threads, replicate_configs,
};

fn config(socket_id: usize) -> SocketConfig {
    SocketConfig {
        socket_id,
        socket_addr: SocketAddr::V4 {
            ip: [127, 0, 0, 1],
            port: 9000 + socket_id as u16,
        },
        label: format!("socket-{}", socket_id),
    }
}

#[test]
fn threads_get_consecutive_sockets() {
    let configs = replicate_configs(&vec![config(0), config(1)], 3);
    assert_eq!(
        configs
            .iter()
            .map(|config| config.socket_id)
            .collect::<Vec<_>>(),
        vec![0, 1, 0, 1, 0, 1]
    );
    let allocations = partition_sockets_for_threads(vec![10, 11, 20, 21, 30, 31], configs, 3, 2);
    assert_eq!(allocations.len(), 3);
    for (thread, allocation) in allocations.iter().enumerate() {
        assert_eq!(allocation.thread_id, thread);
        assert_eq!(allocation.socket_count(), 2);
        assert_eq!(
            allocation.sockets,
            vec![10 * (thread + 1), 10 * (thread + 1) + 1]
        );
        assert_eq!(allocation.configs[1].label, "socket-1");
    }
}

#[test]
fn readers_need_threads_and_sockets() {
    assert!(can_spawn(1, 1));
    assert!(can_spawn(16, 4));
    assert!(!can_spawn(0, 1));
    assert!(!can_spawn(17, 1));
    assert!(!can_spawn(4, 0));
}

#[test]
fn tags_name_a_socket_and_a_buffer() {
    let tag = RecvOp::new(3, 17).user_data();
    assert_eq!(tag, (3 << 32) | 17);
    assert_eq!(UserData::encode(3, 17), tag);
    assert_eq!(
        UserData::decode(tag),
        UserData {
            socket_idx: 3,
            buffer_idx: 17
        }
    );
    assert_eq!(ring_size(4, 64), 256);
    let ops = initial_ops(2, 3);
    assert_eq!(ops.len(), 6);
    assert_eq!(ops[4], RecvOp::new(1, 1));
}

#[test]
fn completions_deliver_or_fail() {
    let tag = UserData::encode(2, 5);
    assert_eq!(
        handle_completion(100, tag),
        Completion::Deliver {
            socket_idx: 2,
            buffer_idx: 5,
            len: 100,
            stride: 100
        }
    );
    assert_eq!(
        handle_completion(-11, tag),
        Completion::Failed {
            socket_idx: 2,
            error: 11
        }
    );
    assert_eq!(handle_completion(0, tag), Completion::Nothing);
    assert_eq!(delivery_stride(0), 1);
    let completion = handle_ringbuf_completion(40, Some(7), true);
    assert_eq!(completion.deliver, Some((7, 40)));
    assert!(!completion.resubmit);
    let starved = handle_ringbuf_completion(-ENOBUFS, None, false);
    assert_eq!(starved.error, None);
    assert!(starved.resubmit);
    assert_eq!(
        handle_ringbuf_completion(-5, None, true).error,
        Some(5)
    );
}

#[test]
fn sources_are_read_by_family() {
    assert_eq!(
        src_addr(AF_INET, [10, 0, 0, 1], [0; 16], 80),
        SocketAddr::V4 {
            ip: [10, 0, 0, 1],
            port: 80
        }
    );
    assert_eq!(
        src_addr(AF_INET6, [0; 4], [1; 16], 81),
        SocketAddr::V6 {
            ip: [1; 16],
            port: 81
        }
    );
}

#[test]
fn buffers_return_to_the_ring() {
    assert_eq!(ring_entries(5), 8);
    assert_eq!(ring_entries(8), 8);
    let mut ring = BufferRing::new(4, 2);
    assert_eq!(ring.buf_group_id(), 0xbee2);
    assert_eq!(ring.entry_count(), 4);
    assert_eq!(ring.slot(3), 3);
    assert_eq!(ring.shared_tail(), 4);
    ring.buffer(3)[..3].copy_from_slice(&[1, 2, 3]);
    assert_eq!(ring.copy_data_from_buffer(3, 2), vec![1, 2]);
    ring.return_buffer(3);
    assert_eq!(ring.shared_tail(), 5);
    assert_eq!(ring.copy_data_from_buffer(3, 3), vec![1, 2, 3]);
}

#[test]
fn session_keys_have_their_length() {
    assert_eq!(session_key(&vec![7; 33]).unwrap(), [7; 33]);
    let Err(AdapterError::KeyConversion(text)) = session_key(&vec![7; 32]) else {
        panic!("the key is too short")
    };
    assert_eq!(text, "Invalid public key length: expected 33, got 32");
    let (opened, result) = init_sessions(&vec![vec![1; 33], vec![2; 31], vec![3; 33]]);
    assert_eq!(opened, vec![[1; 33]]);
    assert!(result.is_err());
}

#[test]
fn default_sessions_rekey_after_two_minutes() {
    let config = SessionConfig::default();
    assert_eq!(config.rekey_interval, 120_000);
    assert_eq!(config.handshake_rate_limit, 50);
}

#[test]
fn background_task_sends_before_it_ticks() {
    assert_eq!(
        background_step(BackgroundStage::FirstPacket, BackgroundEvent::Packet(true)),
        Some((BackgroundStage::FirstPacket, BackgroundAction::Send))
    );
    assert_eq!(
        background_step(BackgroundStage::Timers, BackgroundEvent::Timer(Some(9))),
        Some((BackgroundStage::Sleeping, BackgroundAction::Sleep(9)))
    );
    assert_eq!(
        background_step(BackgroundStage::Timers, BackgroundEvent::Timer(Some(0))),
        Some((BackgroundStage::Ticking, BackgroundAction::Tick))
    );
    assert_eq!(
        background_step(BackgroundStage::Ticking, BackgroundEvent::Packet(true)),
        None
    );
}
