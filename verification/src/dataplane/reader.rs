//! What a reader does with a completed receive.

use vstd::prelude::*;

verus! {

/// The address family of IPv4.
pub const AF_INET: i32 = 2;

/// The address family of IPv6.
pub const AF_INET6: i32 = 10;

/// The error of a receive for which no buffer was left.
pub const ENOBUFS: i32 = 105;

/// The entries of a completion ring of a buffer-ring reader.
pub const RINGBUF_RING_SIZE: u32 = 4096;

/// An address that a packet came from or a socket is bound to.
#[allow(inconsistent_fields)]
#[derive(Clone, Copy, Debug, PartialEq, Eq)]
pub enum SocketAddr {
    V4 { ip: [u8; 4], port: u16 },
    V6 { ip: [u8; 16], port: u16 },
}

/// One socket of a reader.
#[derive(Debug)]
pub struct SocketConfig {
    pub socket_id: usize,
    pub socket_addr: SocketAddr,
    pub label: String,
}

impl SocketConfig {
    pub fn duplicate(&self) -> (copy: Self)
        ensures
            copy == *self,
    {
        SocketConfig {
            socket_id: self.socket_id,
            socket_addr: self.socket_addr,
            label: self.label.clone(),
        }
    }
}

/// The source address of a packet, by its address family.
pub fn src_addr(family: i32, ip4: [u8; 4], ip6: [u8; 16], port: u16) -> (addr: SocketAddr)
    requires
        family == AF_INET || family == AF_INET6,
    ensures
        addr == (if family == AF_INET {
            SocketAddr::V4 { ip: ip4, port }
        } else {
            SocketAddr::V6 { ip: ip6, port }
        }),
{
    if family == AF_INET {
        SocketAddr::V4 { ip: ip4, port }
    } else {
        SocketAddr::V6 { ip: ip6, port }
    }
}

/// The socket and the buffer that a receive was submitted for.
#[derive(Clone, Copy, Debug, PartialEq, Eq, Structural)]
pub struct UserData {
    pub socket_idx: usize,
    pub buffer_idx: usize,
}

impl UserData {
    /// Packs a socket and a buffer into the tag of a receive.
    pub fn encode(socket_idx: usize, buffer_idx: usize) -> (tag: u64)
        ensures
            tag == ((socket_idx as u64) << 32) | (buffer_idx as u64),
    {
        ((socket_idx as u64) << 32) | (buffer_idx as u64)
    }

    /// Unpacks the tag of a receive.
    pub fn decode(user_data: u64) -> (data: Self)
        ensures
            data.socket_idx == user_data >> 32,
            data.buffer_idx == user_data & 0xFFFFFFFF,
    {
        assert(user_data >> 32 <= 0xFFFF_FFFF) by (bit_vector);
        assert(user_data & 0xFFFFFFFF <= 0xFFFF_FFFF) by (bit_vector);
        UserData {
            socket_idx: (user_data >> 32) as usize,
            buffer_idx: (user_data & 0xFFFFFFFF) as usize,
        }
    }
}

/// A packed tag unpacks to the socket and the buffer that it was made of.
pub proof fn law_user_data_round_trips(socket_idx: u64, buffer_idx: u64)
    requires
        socket_idx <= 0xFFFF_FFFF,
        buffer_idx <= 0xFFFF_FFFF,
    ensures
        ((socket_idx << 32) | buffer_idx) >> 32 == socket_idx,
        ((socket_idx << 32) | buffer_idx) & 0xFFFFFFFF == buffer_idx,
{
    assert(((socket_idx << 32) | buffer_idx) >> 32 == socket_idx && ((socket_idx << 32) | buffer_idx)
        & 0xFFFFFFFF == buffer_idx) by (bit_vector)
        requires
            socket_idx <= 0xFFFF_FFFF,
            buffer_idx <= 0xFFFF_FFFF,
    ;
}

/// A receive to submit.
#[derive(Clone, Copy, Debug, PartialEq, Eq, Structural)]
pub struct RecvOp {
    pub socket_idx: usize,
    pub buffer_idx: usize,
}

impl RecvOp {
    pub fn new(socket_idx: usize, buffer_idx: usize) -> (op: Self)
        ensures
            op.socket_idx == socket_idx,
            op.buffer_idx == buffer_idx,
    {
        RecvOp { socket_idx, buffer_idx }
    }

    /// The tag of the receive.
    pub fn user_data(&self) -> (tag: u64)
        ensures
            tag == ((self.socket_idx as u64) << 32) | (self.buffer_idx as u64),
    {
        UserData::encode(self.socket_idx, self.buffer_idx)
    }
}

/// The receives that a reader submits first: one for each buffer of each socket.
pub fn initial_ops(num_sockets: usize, batch_size: usize) -> (ops: Vec<RecvOp>)
    requires
        num_sockets * batch_size <= usize::MAX,
    ensures
        ops@.len() == num_sockets * batch_size,
        forall|s: int, b: int|
            0 <= s < num_sockets && 0 <= b < batch_size ==> #[trigger] ops@[s * batch_size + b] == (RecvOp {
                socket_idx: s as usize,
                buffer_idx: b as usize,
            }),
{
    let mut ops: Vec<RecvOp> = Vec::new();
    let mut socket_idx: usize = 0;
    assert(0 * batch_size == 0) by (nonlinear_arith);
    while socket_idx < num_sockets
        invariant
            socket_idx <= num_sockets,
            ops@.len() == socket_idx * batch_size,
            forall|s: int, b: int|
                0 <= s < socket_idx && 0 <= b < batch_size ==> #[trigger] ops@[s * batch_size + b]
                    == (RecvOp { socket_idx: s as usize, buffer_idx: b as usize }),
        decreases num_sockets - socket_idx,
    {
        let ghost earlier = ops@;
        let mut buffer_idx: usize = 0;
        while buffer_idx < batch_size
            invariant
                buffer_idx <= batch_size,
                earlier.len() == socket_idx * batch_size,
                ops@.len() == earlier.len() + buffer_idx,
                ops@.take(earlier.len() as int) == earlier,
                forall|b: int|
                    0 <= b < buffer_idx ==> #[trigger] ops@[earlier.len() + b] == (RecvOp {
                        socket_idx,
                        buffer_idx: b as usize,
                    }),
            decreases batch_size - buffer_idx,
        {
            let ghost before = ops@;
            ops.push(RecvOp::new(socket_idx, buffer_idx));
            assert(ops@.take(earlier.len() as int) =~= before.take(earlier.len() as int));
            buffer_idx += 1;
        }
        proof {
            assert((socket_idx + 1) * batch_size == socket_idx * batch_size + batch_size)
                by (nonlinear_arith);
            assert forall|s: int, b: int|
                0 <= s < socket_idx + 1 && 0 <= b < batch_size implies #[trigger] ops@[s * batch_size + b]
                == (RecvOp { socket_idx: s as usize, buffer_idx: b as usize }) by {
                if s < socket_idx {
                    assert(0 <= s * batch_size + b < socket_idx * batch_size) by (nonlinear_arith)
                        requires
                            0 <= s < socket_idx,
                            0 <= b < batch_size,
                    ;
                    assert(ops@.take(earlier.len() as int)[s * batch_size + b] == earlier[s * batch_size
                        + b]);
                } else {
                    assert(ops@[earlier.len() + b] == (RecvOp {
                        socket_idx,
                        buffer_idx: b as usize,
                    }));
                }
            }
        }
        socket_idx += 1;
    }
    ops
}

/// The entries of a completion ring that holds one receive for each buffer.
pub fn ring_size(num_sockets: usize, batch_size: usize) -> (entries: u32)
    requires
        num_sockets > 0,
        num_sockets * batch_size <= u32::MAX,
    ensures
        entries == num_sockets * batch_size,
{
    assert(num_sockets * batch_size <= usize::MAX);
    (num_sockets * batch_size) as u32
}

/// What a reader does with a completion.
#[derive(Clone, Copy, Debug, PartialEq, Eq, Structural)]
pub enum Completion {
    /// Deliver the first `len` bytes of a buffer, then receive into it again.
    Deliver { socket_idx: usize, buffer_idx: usize, len: usize, stride: u16 },
    /// Report an error of the operating system.
    Failed { socket_idx: usize, error: i32 },
    /// Nothing was received.
    Nothing,
}

/// The length of a received packet as the stride of its delivery: never zero.
pub fn delivery_stride(result: i32) -> (stride: u16)
    requires
        result <= u16::MAX,
    ensures
        stride == (if result >= 1 {
            result
        } else {
            1
        }),
{
    if result >= 1 {
        result as u16
    } else {
        1
    }
}

/// What a reader does with the result of a receive.
pub fn handle_completion(result: i32, user_data: u64) -> (completion: Completion)
    requires
        i32::MIN < result <= u16::MAX,
    ensures
        completion == (if result > 0 {
            Completion::Deliver {
                socket_idx: (user_data >> 32) as usize,
                buffer_idx: (user_data & 0xFFFFFFFF) as usize,
                len: result as usize,
                stride: result as u16,
            }
        } else if result < 0 {
            Completion::Failed { socket_idx: (user_data >> 32) as usize, error: (-result) as i32 }
        } else {
            Completion::Nothing
        }),
{
    let data: UserData = UserData::decode(user_data);
    if result > 0 {
        Completion::Deliver {
            socket_idx: data.socket_idx,
            buffer_idx: data.buffer_idx,
            len: result as usize,
            stride: delivery_stride(result),
        }
    } else if result < 0 {
        Completion::Failed { socket_idx: data.socket_idx, error: -result }
    } else {
        Completion::Nothing
    }
}

/// What a buffer-ring reader does with a completion, and whether it asks for
/// more packets of the socket.
#[derive(Clone, Copy, Debug, PartialEq, Eq)]
pub struct RingbufCompletion {
    /// The buffer and the length of a packet to deliver; the buffer then goes
    /// back to the ring.
    pub deliver: Option<(u16, usize)>,
    /// An error to report.
    pub error: Option<i32>,
    /// Whether the receive has to be submitted again.
    pub resubmit: bool,
}

/// What a buffer-ring reader does with the result of a receive. `bid` is the
/// buffer that the kernel chose; `more` says that the receive is still active.
pub fn handle_ringbuf_completion(result: i32, bid: Option<u16>, more: bool) -> (completion:
    RingbufCompletion)
    requires
        result > 0 ==> bid is Some,
        i32::MIN < result <= u16::MAX,
    ensures
        completion.deliver == (if result > 0 {
            Some((bid->Some_0, result as usize))
        } else {
            None
        }),
        completion.error == (if result < 0 && result != -ENOBUFS {
            Some((-result) as i32)
        } else {
            None
        }),
        completion.resubmit == !more,
{
    let deliver: Option<(u16, usize)> = match bid {
        Some(bid) if result > 0 => Some((bid, result as usize)),
        _ => None,
    };
    let error: Option<i32> = if result < 0 && result != -ENOBUFS {
        Some(-result)
    } else {
        None
    };
    RingbufCompletion { deliver, error, resubmit: !more }
}

/// Whether the operating system gave a socket less receive buffer than requested.
pub fn recv_buffer_too_small(actual_size: i32, requested_size: usize) -> (small: bool)
    requires
        actual_size >= 0,
    ensures
        small == (actual_size < requested_size),
{
    (actual_size as usize) < requested_size
}

} // verus!
