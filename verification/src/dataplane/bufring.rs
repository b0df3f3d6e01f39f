//! A ring of receive buffers that the kernel fills.

use vstd::prelude::*;

verus! {

/// The length of a receive buffer.
pub const RECV_BUFFER_LEN: usize = 1500;

/// The first buffer group; each thread has the one at its number.
pub const BUFFER_GROUP_BASE: u16 = 0xbee0;

/// The most buffers of a ring.
pub const MAX_RING_ENTRIES: usize = 32768;

/// Two to the power of `exponent`.
pub open spec fn power_of_two(exponent: nat) -> nat
    decreases exponent,
{
    if exponent == 0 {
        1
    } else {
        2 * power_of_two((exponent - 1) as nat)
    }
}

/// Whether `entries` is the smallest power of two that is at least `count`.
pub open spec fn is_ring_size(entries: nat, count: nat) -> bool {
    &&& exists|exponent: nat| entries == #[trigger] power_of_two(exponent)
    &&& count <= entries
    &&& entries > 1 ==> entries < 2 * count
}

/// The smallest power of two that is at least `count`.
pub fn ring_entries(count: usize) -> (entries: u16)
    requires
        count <= MAX_RING_ENTRIES,
    ensures
        is_ring_size(entries as nat, count as nat),
        1 <= entries <= MAX_RING_ENTRIES,
{
    let mut entries: u16 = 1;
    let ghost mut exponent: nat = 0;
    assert(power_of_two(0) == 1 && power_of_two(15) == 32768) by {
        reveal_with_fuel(power_of_two, 16);
    }
    while (entries as usize) < count
        invariant
            count <= MAX_RING_ENTRIES,
            entries == power_of_two(exponent),
            1 <= entries <= MAX_RING_ENTRIES,
            entries > 1 ==> entries < 2 * count,
            exponent <= 15,
            entries == 1 || exponent > 0,
            power_of_two(15) == 32768,
        decreases MAX_RING_ENTRIES - entries,
    {
        proof {
            if exponent >= 15 {
                assert(entries == 32768);
            }
            assert(power_of_two(exponent + 1) == 2 * power_of_two(exponent));
            lemma_powers_grow(exponent + 1, 15);
            exponent = exponent + 1;
        }
        entries = entries * 2;
    }
    entries
}

proof fn lemma_powers_grow(low: nat, high: nat)
    requires
        low <= high,
    ensures
        power_of_two(low) <= power_of_two(high),
    decreases high - low,
{
    if low < high {
        lemma_powers_grow(low, (high - 1) as nat);
    }
}

/// The ring of one thread: its buffers, which buffer stands in which slot, and
/// how many buffers were handed to the kernel so far.
#[derive(Debug)]
pub struct BufferRing {
    buffers: Vec<Vec<u8>>,
    slots: Vec<Option<u16>>,
    entries: u16,
    tail: u16,
    group: u16,
}

impl BufferRing {
    /// The contents of each buffer.
    pub closed spec fn buffers(self) -> Seq<Vec<u8>> {
        self.buffers@
    }

    /// The buffer in each slot.
    pub closed spec fn slots(self) -> Seq<Option<u16>> {
        self.slots@
    }

    /// The number of slots.
    pub closed spec fn entries(self) -> u16 {
        self.entries
    }

    /// The buffers handed to the kernel, counted modulo the range of 16-bit numbers.
    pub closed spec fn tail(self) -> u16 {
        self.tail
    }

    /// The buffer group of the ring.
    pub closed spec fn group(self) -> u16 {
        self.group
    }

    /// Every buffer has a slot of its own.
    pub open spec fn wf(self) -> bool {
        &&& is_ring_size(self.entries() as nat, self.buffers().len())
        &&& 1 <= self.entries() <= MAX_RING_ENTRIES
        &&& self.slots().len() == self.entries()
        &&& forall|i: int| 0 <= i < self.buffers().len() ==> (#[trigger] self.buffers()[i])@.len()
            == RECV_BUFFER_LEN
        &&& forall|i: int| 0 <= i < self.buffers().len() ==> #[trigger] self.slots()[i] == Some(i as u16)
        &&& forall|i: int| self.buffers().len() <= i < self.slots().len() ==> #[trigger] self.slots()[i]
            == None::<u16>
    }

    /// A ring of zero-filled buffers, all handed to the kernel.
    pub fn new(total_buf_count: usize, thread_id: usize) -> (ring: Self)
        requires
            total_buf_count <= MAX_RING_ENTRIES,
            BUFFER_GROUP_BASE + thread_id <= u16::MAX,
        ensures
            ring.wf(),
            ring.buffers().len() == total_buf_count,
            ring.tail() == total_buf_count,
            ring.group() == BUFFER_GROUP_BASE + thread_id,
            forall|i: int, j: int|
                0 <= i < total_buf_count && 0 <= j < RECV_BUFFER_LEN ==> #[trigger] ring.buffers()[i]@[j]
                    == 0,
    {
        let entries: u16 = ring_entries(total_buf_count);
        let mut buffers: Vec<Vec<u8>> = Vec::new();
        let mut slots: Vec<Option<u16>> = Vec::new();
        let mut bid: usize = 0;
        while bid < total_buf_count
            invariant
                bid <= total_buf_count <= entries,
                1 <= entries <= MAX_RING_ENTRIES,
                buffers@.len() == bid,
                slots@.len() == bid,
                forall|i: int| 0 <= i < bid ==> (#[trigger] buffers@[i])@.len() == RECV_BUFFER_LEN,
                forall|i: int, j: int|
                    0 <= i < bid && 0 <= j < RECV_BUFFER_LEN ==> #[trigger] buffers@[i]@[j] == 0,
                forall|i: int| 0 <= i < bid ==> #[trigger] slots@[i] == Some(i as u16),
            decreases total_buf_count - bid,
        {
            buffers.push(zero_buffer());
            slots.push(Some(bid as u16));
            bid += 1;
        }
        let mut slot: usize = total_buf_count;
        while slot < entries as usize
            invariant
                total_buf_count <= slot <= entries,
                slots@.len() == slot,
                forall|i: int| 0 <= i < total_buf_count ==> #[trigger] slots@[i] == Some(i as u16),
                forall|i: int| total_buf_count <= i < slot ==> #[trigger] slots@[i] == None::<u16>,
            decreases entries - slot,
        {
            slots.push(None);
            slot += 1;
        }
        BufferRing {
            buffers,
            slots,
            entries,
            tail: total_buf_count as u16,
            group: BUFFER_GROUP_BASE + thread_id as u16,
        }
    }

    /// The buffer group of the ring.
    pub fn buf_group_id(&self) -> (group: u16)
        ensures
            group == self.group(),
    {
        self.group
    }

    /// The number of slots.
    pub fn entry_count(&self) -> (entries: u16)
        ensures
            entries == self.entries(),
    {
        self.entries
    }

    /// The buffers handed to the kernel, as the kernel counts them.
    pub fn shared_tail(&self) -> (tail: u16)
        ensures
            tail == self.tail(),
    {
        self.tail
    }

    /// The slot that a buffer stands in.
    pub fn slot(&self, bid: u16) -> (slot: usize)
        requires
            self.wf(),
            bid < self.buffers().len(),
        ensures
            slot == bid,
            self.slots()[slot as int] == Some(bid),
    {
        proof {
            vstd::arithmetic::div_mod::lemma_small_mod(bid as nat, self.entries as nat);
        }
        (bid % self.entries) as usize
    }

    /// The memory of a buffer, for the kernel to write to.
    pub fn buffer(&mut self, bid: u16) -> (buffer: &mut Vec<u8>)
        requires
            old(self).wf(),
            bid < old(self).buffers().len(),
        ensures
            *buffer == old(self).buffers()[bid as int],
            final(self).buffers() == old(self).buffers().update(bid as int, *final(buffer)),
            final(self).entries() == old(self).entries(),
            final(self).slots() == old(self).slots(),
            final(self).tail() == old(self).tail(),
            final(self).group() == old(self).group(),
            final(buffer)@.len() == RECV_BUFFER_LEN ==> final(self).wf(),
    {
        &mut self.buffers[bid as usize]
    }

    /// The first `data_len` bytes of a buffer.
    pub fn copy_data_from_buffer(&self, bid: u16, data_len: usize) -> (payload: Vec<u8>)
        requires
            self.wf(),
            bid < self.buffers().len(),
            data_len <= RECV_BUFFER_LEN,
        ensures
            payload@ == self.buffers()[bid as int]@.take(data_len as int),
    {
        let ghost buffer = self.buffers()[bid as int];
        let payload: Vec<u8> = crate::octets::copy_range(&self.buffers[bid as usize], 0, data_len);
        assert(payload@ =~= buffer@.take(data_len as int));
        payload
    }

    /// Hands a buffer to the kernel again, in its slot.
    pub fn return_buffer(&mut self, bid: u16)
        requires
            old(self).wf(),
            bid < old(self).buffers().len(),
        ensures
            final(self).wf(),
            final(self).buffers() == old(self).buffers(),
            final(self).slots() == old(self).slots(),
            final(self).entries() == old(self).entries(),
            final(self).group() == old(self).group(),
            final(self).tail() == (if old(self).tail() == u16::MAX {
                0
            } else {
                old(self).tail() + 1
            }),
    {
        let ghost before = self.slots@;
        let slot: usize = self.slot(bid);
        self.slots.set(slot, Some(bid));
        assert(self.slots@ =~= before);
        self.tail = self.tail.wrapping_add(1);
    }
}

fn zero_buffer() -> (buffer: Vec<u8>)
    ensures
        buffer@.len() == RECV_BUFFER_LEN,
        forall|i: int| 0 <= i < buffer@.len() ==> #[trigger] buffer@[i] == 0,
{
    let mut buffer: Vec<u8> = Vec::new();
    let mut i: usize = 0;
    while i < RECV_BUFFER_LEN
        invariant
            i <= RECV_BUFFER_LEN,
            buffer@.len() == i,
            forall|j: int| 0 <= j < i ==> #[trigger] buffer@[j] == 0,
        decreases RECV_BUFFER_LEN - i,
    {
        buffer.push(0);
        i += 1;
    }
    buffer
}

/// A ring is as small as it can be: no smaller power of two holds so many buffers, and
/// half of it does not.
pub proof fn law_ring_is_the_smallest(entries: nat, count: nat, exponent: nat)
    requires
        is_ring_size(entries, count),
    ensures
        count <= entries,
        1 <= entries,
        entries > 1 ==> entries < 2 * count,
        count <= power_of_two(exponent) ==> entries <= power_of_two(exponent),
        power_of_two(exponent + 1) == power_of_two(exponent) + power_of_two(exponent),
        power_of_two(0) == 1,
{
    let own = choose|own: nat| entries == #[trigger] power_of_two(own);
    lemma_powers_grow(0, own);
    lemma_powers_grow(0, exponent);
    if count <= power_of_two(exponent) && exponent < own {
        lemma_powers_grow(exponent + 1, own);
        assert(power_of_two(exponent + 1) == 2 * power_of_two(exponent));
    } else if exponent >= own {
        lemma_powers_grow(own, exponent);
    }
}

} // verus!
