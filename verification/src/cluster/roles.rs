//! What the nodes of a cluster do.

use crate::octets::{
    byte_range, copy_bytes, le_bytes, le_number, lemma_le_bytes, read_le, write_le,
};
use vstd::prelude::*;

verus! {

/// The part that a node plays.
#[derive(Clone, Copy, Debug, PartialEq, Eq, Structural)]
pub enum NodeType {
    Validator,
    Bootnode,
    Fullnode { dedicated: bool, prioritized: bool },
}

impl NodeType {
    /// The part's name in logs.
    pub fn name(&self) -> (name: &'static str)
        ensures
            name@ == (match *self {
                NodeType::Validator => "validator"@,
                NodeType::Bootnode => "bootnode"@,
                NodeType::Fullnode { dedicated: true, .. } => "dedicated_fullnode"@,
                NodeType::Fullnode { dedicated: false, prioritized: true } => "prioritized_fullnode"@,
                NodeType::Fullnode { dedicated: false, prioritized: false } => "fullnode"@,
            }),
    {
        match self {
            NodeType::Validator => "validator",
            NodeType::Bootnode => "bootnode",
            NodeType::Fullnode { dedicated, prioritized } => {
                if *dedicated {
                    "dedicated_fullnode"
                } else if *prioritized {
                    "prioritized_fullnode"
                } else {
                    "fullnode"
                }
            },
        }
    }
}

pub const GAUGE_LATENCY_LAST_US: &'static str = "raptorcast.latency.last_us";

pub const GAUGE_LATENCY_MIN_US: &'static str = "raptorcast.latency.min_us";

pub const GAUGE_LATENCY_MAX_US: &'static str = "raptorcast.latency.max_us";

pub const GAUGE_LATENCY_AVG_US: &'static str = "raptorcast.latency.avg_us";

pub const GAUGE_MESSAGES_RECEIVED: &'static str = "raptorcast.messages.received";

pub const GAUGE_MESSAGES_SENT: &'static str = "raptorcast.messages.sent";

pub const GAUGE_UPTIME_US: &'static str = "raptorcast.uptime_us";

/// Counts and latencies of the messages of one node.
#[derive(Clone, Copy, Debug, PartialEq, Eq, Structural)]
pub struct LatencyMetrics {
    pub total_messages_received: u64,
    pub total_messages_sent: u64,
    pub last_latency_us: u64,
    pub min_latency_us: u64,
    pub max_latency_us: u64,
    pub total_latency_sum_us: u64,
}

impl Default for LatencyMetrics {
    fn default() -> (metrics: Self)
        ensures
            metrics == (LatencyMetrics {
                total_messages_received: 0,
                total_messages_sent: 0,
                last_latency_us: 0,
                min_latency_us: 0,
                max_latency_us: 0,
                total_latency_sum_us: 0,
            }),
    {
        LatencyMetrics {
            total_messages_received: 0,
            total_messages_sent: 0,
            last_latency_us: 0,
            min_latency_us: 0,
            max_latency_us: 0,
            total_latency_sum_us: 0,
        }
    }
}

impl LatencyMetrics {
    /// Whether the totals and bounds are those of some messages.
    pub open spec fn wf(self) -> bool {
        if self.total_messages_received == 0 {
            self.total_latency_sum_us == 0
        } else {
            &&& self.total_messages_received * self.min_latency_us <= self.total_latency_sum_us
            &&& self.total_latency_sum_us <= self.total_messages_received * self.max_latency_us
        }
    }

    /// The metrics after one more message.
    pub open spec fn received(self, latency_ns: u64) -> Self {
        let latency_us = latency_ns / 1_000;
        LatencyMetrics {
            total_messages_received: (self.total_messages_received + 1) as u64,
            last_latency_us: latency_us,
            min_latency_us: if latency_us < self.min_latency_us {
                latency_us
            } else {
                self.min_latency_us
            },
            max_latency_us: if latency_us > self.max_latency_us {
                latency_us
            } else {
                self.max_latency_us
            },
            total_latency_sum_us: (self.total_latency_sum_us + latency_us) as u64,
            ..self
        }
    }

    /// The metrics after messages with these latencies, in order.
    pub open spec fn received_all(self, latencies_ns: Seq<u64>) -> Self
        decreases latencies_ns.len(),
    {
        if latencies_ns.len() == 0 {
            self
        } else {
            self.received_all(latencies_ns.drop_last()).received(latencies_ns.last())
        }
    }

    /// The mean latency, rounded down.
    pub open spec fn average(self) -> u64 {
        if self.total_messages_received > 0 {
            self.total_latency_sum_us / self.total_messages_received
        } else {
            0
        }
    }

    pub fn new() -> (metrics: Self)
        ensures
            metrics == (LatencyMetrics {
                total_messages_received: 0,
                total_messages_sent: 0,
                last_latency_us: 0,
                min_latency_us: u64::MAX,
                max_latency_us: 0,
                total_latency_sum_us: 0,
            }),
            metrics.wf(),
    {
        LatencyMetrics {
            total_messages_received: 0,
            total_messages_sent: 0,
            last_latency_us: 0,
            min_latency_us: u64::MAX,
            max_latency_us: 0,
            total_latency_sum_us: 0,
        }
    }

    /// Counts a received message with its latency in nanoseconds.
    pub fn record_received(&mut self, latency_ns: u64)
        requires
            old(self).total_messages_received < u64::MAX,
            old(self).total_latency_sum_us + latency_ns / 1_000 <= u64::MAX,
        ensures
            *final(self) == old(self).received(latency_ns),
    {
        let latency_us: u64 = latency_ns / 1_000;
        self.total_messages_received += 1;
        self.last_latency_us = latency_us;
        if latency_us < self.min_latency_us {
            self.min_latency_us = latency_us;
        }
        if latency_us > self.max_latency_us {
            self.max_latency_us = latency_us;
        }
        self.total_latency_sum_us += latency_us;
    }

    /// Counts a sent message.
    pub fn record_sent(&mut self)
        requires
            old(self).total_messages_sent < u64::MAX,
        ensures
            *final(self) == (LatencyMetrics {
                total_messages_sent: (old(self).total_messages_sent + 1) as u64,
                ..*old(self)
            }),
    {
        self.total_messages_sent += 1;
    }

    pub fn avg_latency_us(&self) -> (average: u64)
        ensures
            average == self.average(),
    {
        if self.total_messages_received > 0 {
            self.total_latency_sum_us / self.total_messages_received
        } else {
            0
        }
    }

    /// The gauges to export, by name.
    pub fn metrics(&self) -> (gauges: Vec<(&'static str, u64)>)
        ensures
            gauges@.len() == 6,
            gauges@[0] == (GAUGE_LATENCY_LAST_US, self.last_latency_us),
            gauges@[1] == (
                GAUGE_LATENCY_MIN_US,
                if self.min_latency_us == u64::MAX {
                    0
                } else {
                    self.min_latency_us
                },
            ),
            gauges@[2] == (GAUGE_LATENCY_MAX_US, self.max_latency_us),
            gauges@[3] == (GAUGE_LATENCY_AVG_US, self.average()),
            gauges@[4] == (GAUGE_MESSAGES_RECEIVED, self.total_messages_received),
            gauges@[5] == (GAUGE_MESSAGES_SENT, self.total_messages_sent),
    {
        let smallest: u64 = if self.min_latency_us == u64::MAX {
            0
        } else {
            self.min_latency_us
        };
        vec![
            (GAUGE_LATENCY_LAST_US, self.last_latency_us),
            (GAUGE_LATENCY_MIN_US, smallest),
            (GAUGE_LATENCY_MAX_US, self.max_latency_us),
            (GAUGE_LATENCY_AVG_US, self.avg_latency_us()),
            (GAUGE_MESSAGES_RECEIVED, self.total_messages_received),
            (GAUGE_MESSAGES_SENT, self.total_messages_sent),
        ]
    }
}

/// Receiving a message keeps totals and bounds consistent.
pub proof fn law_received_keeps_totals(metrics: LatencyMetrics, latency_ns: u64)
    requires
        metrics.wf(),
        metrics.total_messages_received < u64::MAX,
        metrics.total_latency_sum_us + latency_ns / 1_000 <= u64::MAX,
    ensures
        metrics.received(latency_ns).wf(),
{
    let after = metrics.received(latency_ns);
    let n = metrics.total_messages_received as int;
    let us = (latency_ns / 1_000) as int;
    let low = after.min_latency_us as int;
    let high = after.max_latency_us as int;
    let old_low = metrics.min_latency_us as int;
    let old_high = metrics.max_latency_us as int;
    assert(n * low <= n * old_low) by (nonlinear_arith)
        requires
            low <= old_low,
            n >= 0,
    ;
    assert(n * old_high <= n * high) by (nonlinear_arith)
        requires
            old_high <= high,
            n >= 0,
    ;
    assert((n + 1) * low == n * low + low) by (nonlinear_arith);
    assert((n + 1) * high == n * high + high) by (nonlinear_arith);
    if n == 0 {
        assert(n * low == 0 && n * high == 0) by (nonlinear_arith)
            requires
                n == 0,
        ;
    }
}

/// The sum of latencies in microseconds, each rounded down.
pub open spec fn latency_sum_us(latencies_ns: Seq<u64>) -> nat
    decreases latencies_ns.len(),
{
    if latencies_ns.len() == 0 {
        0
    } else {
        latency_sum_us(latencies_ns.drop_last()) + (latencies_ns.last() / 1_000) as nat
    }
}

/// After a run of received messages the metrics count each of them, know the last,
/// the smallest and the largest latency and the sum of all, and count none as sent.
pub proof fn law_metrics_of_a_run(fresh: LatencyMetrics, latencies_ns: Seq<u64>)
    requires
        fresh == (LatencyMetrics {
            total_messages_received: 0,
            total_messages_sent: 0,
            last_latency_us: 0,
            min_latency_us: u64::MAX,
            max_latency_us: 0,
            total_latency_sum_us: 0,
        }),
        0 < latencies_ns.len() <= u64::MAX,
        latency_sum_us(latencies_ns) <= u64::MAX,
    ensures
        ({
            let metrics = fresh.received_all(latencies_ns);
            &&& metrics.wf()
            &&& metrics.total_messages_received == latencies_ns.len()
            &&& metrics.total_messages_sent == 0
            &&& metrics.last_latency_us == latencies_ns.last() / 1_000
            &&& metrics.total_latency_sum_us == latency_sum_us(latencies_ns)
            &&& forall|i: int|
                0 <= i < latencies_ns.len() ==> metrics.min_latency_us <= #[trigger] latencies_ns[i]
                    / 1_000 <= metrics.max_latency_us
            &&& exists|i: int|
                0 <= i < latencies_ns.len() && #[trigger] latencies_ns[i] / 1_000
                    == metrics.min_latency_us
            &&& exists|i: int|
                0 <= i < latencies_ns.len() && #[trigger] latencies_ns[i] / 1_000
                    == metrics.max_latency_us
        }),
    decreases latencies_ns.len(),
{
    let earlier = latencies_ns.drop_last();
    let before = fresh.received_all(earlier);
    let metrics = fresh.received_all(latencies_ns);
    let last = latencies_ns.len() - 1;
    assert(metrics == before.received(latencies_ns.last()));
    if earlier.len() == 0 {
        assert(before == fresh);
        law_received_keeps_totals(before, latencies_ns.last());
        assert(latencies_ns[last] / 1_000 == metrics.min_latency_us);
        assert(latencies_ns[last] / 1_000 == metrics.max_latency_us);
    } else {
        law_metrics_of_a_run(fresh, earlier);
        law_received_keeps_totals(before, latencies_ns.last());
        assert forall|i: int| 0 <= i < latencies_ns.len() implies metrics.min_latency_us
            <= #[trigger] latencies_ns[i] / 1_000 <= metrics.max_latency_us by {
            if i < last {
                assert(earlier[i] == latencies_ns[i]);
            }
        }
        if metrics.min_latency_us == before.min_latency_us {
            let i = choose|i: int|
                0 <= i < earlier.len() && #[trigger] earlier[i] / 1_000 == before.min_latency_us;
            assert(latencies_ns[i] == earlier[i]);
        } else {
            assert(latencies_ns[last] / 1_000 == metrics.min_latency_us);
        }
        if metrics.max_latency_us == before.max_latency_us {
            let i = choose|i: int|
                0 <= i < earlier.len() && #[trigger] earlier[i] / 1_000 == before.max_latency_us;
            assert(latencies_ns[i] == earlier[i]);
        } else {
            assert(latencies_ns[last] / 1_000 == metrics.max_latency_us);
        }
    }
}

/// The mean latency lies between the smallest and the largest.
pub proof fn law_average_is_between_bounds(metrics: LatencyMetrics)
    requires
        metrics.wf(),
        metrics.total_messages_received > 0,
    ensures
        metrics.min_latency_us <= metrics.average() <= metrics.max_latency_us,
{
    let n = metrics.total_messages_received as int;
    let sum = metrics.total_latency_sum_us as int;
    let low = metrics.min_latency_us as int;
    let high = metrics.max_latency_us as int;
    assert(low <= sum / n <= high) by (nonlinear_arith)
        requires
            n > 0,
            n * low <= sum,
            sum <= n * high,
    ;
}

/// A message of the simulated workload. Its data starts with its timestamp.
#[derive(Debug)]
pub struct MockMessage {
    pub timestamp: u64,
    pub data: Vec<u8>,
}

/// A byte string is too short for a message.
#[derive(Clone, Copy, Debug, PartialEq, Eq, Structural)]
pub struct MessageTooShort;

/// Fills a whole byte string by `rand::Rng::fill` on the thread's generator. Claims
/// that the length stays: the bytes are random.
#[verifier::external_body]
fn fill_randomly(bytes: &mut Vec<u8>)
    ensures
        final(bytes)@.len() == old(bytes)@.len(),
{
    rand::Rng::fill(&mut rand::thread_rng(), &mut bytes[..]);
}

impl MockMessage {
    /// A message of `message_len` bytes made at `timestamp`, random after the
    /// timestamp. A message too short for a timestamp is all zero.
    pub fn new_with_timestamp(timestamp: u64, message_len: usize) -> (message: Self)
        ensures
            message.timestamp == timestamp,
            message.data@.len() == message_len,
            message_len >= 8 ==> message.data@.take(8) == le_bytes(timestamp as nat, 8),
            message_len < 8 ==> forall|i: int| 0 <= i < message_len ==> #[trigger] message.data@[i] == 0,
    {
        let mut data: Vec<u8> = Vec::new();
        let mut i: usize = 0;
        while i < message_len
            invariant
                i <= message_len,
                data@.len() == i,
                forall|j: int| 0 <= j < i ==> #[trigger] data@[j] == 0,
            decreases message_len - i,
        {
            data.push(0);
            i += 1;
        }
        if data.len() > 8 {
            fill_randomly(&mut data);
        }
        if data.len() >= 8 {
            write_le(&mut data, timestamp);
            proof {
                lemma_le_bytes(timestamp as nat, 8);
                assert(data@.take(8) =~= le_bytes(timestamp as nat, 8));
            }
        }
        MockMessage { timestamp, data }
    }

    /// The bytes on the wire.
    pub fn serialize(&self) -> (bytes: Vec<u8>)
        ensures
            bytes@ == self.data@,
    {
        copy_bytes(&self.data)
    }

    /// Reads a message from the wire.
    pub fn deserialize(message: &Vec<u8>) -> (result: Result<Self, MessageTooShort>)
        ensures
            match result {
                Ok(read) => message@.len() >= 8 && read.data@ == message@ && read.timestamp == le_number(
                    message@.take(8),
                ),
                Err(_) => message@.len() < 8,
            },
    {
        if message.len() < 8 {
            return Err(MessageTooShort);
        }
        Ok(MockMessage { timestamp: read_le(message), data: copy_bytes(message) })
    }

    /// How long the message was on its way, in nanoseconds.
    pub fn latency_ns(&self, now: u64) -> (latency: u64)
        ensures
            latency == (if now > self.timestamp {
                now - self.timestamp
            } else {
                0
            }),
    {
        if now > self.timestamp {
            now - self.timestamp
        } else {
            0
        }
    }
}

/// A message read from the wire carries the timestamp it was made with.
pub proof fn law_timestamp_survives_the_wire(timestamp: u64, data: Seq<u8>)
    requires
        data.len() >= 8,
        data.take(8) == le_bytes(timestamp as nat, 8),
    ensures
        le_number(data.take(8)) == timestamp,
{
    reveal_with_fuel(byte_range, 9);
    lemma_le_bytes(timestamp as nat, 8);
}

/// The average is the sum of the latencies over their number, rounded down.
pub proof fn law_average_divides_the_sum(metrics: LatencyMetrics)
    ensures
        metrics.total_messages_received == 0 ==> metrics.average() == 0,
        metrics.total_messages_received > 0 ==> metrics.average() * metrics.total_messages_received
            <= metrics.total_latency_sum_us < (metrics.average() + 1) * metrics.total_messages_received,
{
    let n = metrics.total_messages_received as int;
    let sum = metrics.total_latency_sum_us as int;
    if n > 0 {
        let average = sum / n;
        assert(average * n <= sum < (average + 1) * n) by (nonlinear_arith)
            requires
                n > 0,
                sum >= 0,
                average == sum / n,
        ;
    }
}

} // verus!
