//! Sharing sockets out among reader threads.

use crate::dataplane::reader::SocketConfig;
use vstd::prelude::*;

verus! {

/// The most reader threads.
pub const MAX_READER_THREADS: usize = 16;

/// The sockets of one reader thread.
#[derive(Debug)]
pub struct ThreadAllocation<Socket> {
    pub thread_id: usize,
    pub sockets: Vec<Socket>,
    pub configs: Vec<SocketConfig>,
}

/// The items of thread `thread` where every thread has `count` of them.
pub open spec fn share<T>(items: Seq<T>, thread: int, count: int) -> Seq<T> {
    items.subrange(thread * count, thread * count + count)
}

impl<Socket> ThreadAllocation<Socket> {
    pub fn socket_count(&self) -> (count: usize)
        requires
            self.sockets@.len() == self.configs@.len(),
        ensures
            count == self.sockets@.len(),
    {
        self.sockets.len()
    }
}

/// Moves the first `count` items out of `items`.
fn take_front<T>(items: &mut Vec<T>, count: usize) -> (front: Vec<T>)
    requires
        count <= old(items)@.len(),
    ensures
        front@ == old(items)@.take(count as int),
        final(items)@ == old(items)@.skip(count as int),
{
    let ghost whole = items@;
    let mut front: Vec<T> = items.split_off(count);
    std::mem::swap(items, &mut front);
    assert(front@ =~= whole.take(count as int));
    assert(items@ =~= whole.skip(count as int));
    front
}

/// Gives each thread the next `sockets_per_thread` sockets with their configurations.
pub fn partition_sockets_for_threads<Socket>(
    all_sockets: Vec<Socket>,
    replicated_configs: Vec<SocketConfig>,
    num_threads: usize,
    sockets_per_thread: usize,
) -> (allocations: Vec<ThreadAllocation<Socket>>)
    requires
        all_sockets@.len() == num_threads * sockets_per_thread,
        replicated_configs@.len() == num_threads * sockets_per_thread,
    ensures
        allocations@.len() == num_threads,
        forall|t: int| #![trigger allocations@[t]]
            0 <= t < num_threads ==> {
                &&& allocations@[t].thread_id == t
                &&& allocations@[t].sockets@ == share(all_sockets@, t, sockets_per_thread as int)
                &&& allocations@[t].configs@ == share(
                    replicated_configs@,
                    t,
                    sockets_per_thread as int,
                )
            },
{
    let ghost sockets_whole = all_sockets@;
    let ghost configs_whole = replicated_configs@;
    let mut sockets_left: Vec<Socket> = all_sockets;
    let mut configs_left: Vec<SocketConfig> = replicated_configs;
    let mut allocations: Vec<ThreadAllocation<Socket>> = Vec::new();
    let mut thread_id: usize = 0;
    proof {
        assert(0 * sockets_per_thread == 0) by (nonlinear_arith);
        assert(sockets_whole.skip(0) =~= sockets_whole);
        assert(configs_whole.skip(0) =~= configs_whole);
    }
    while thread_id < num_threads
        invariant
            thread_id <= num_threads,
            sockets_whole.len() == num_threads * sockets_per_thread,
            configs_whole.len() == num_threads * sockets_per_thread,
            thread_id * sockets_per_thread <= num_threads * sockets_per_thread,
            sockets_left@ == sockets_whole.skip(thread_id * sockets_per_thread),
            configs_left@ == configs_whole.skip(thread_id * sockets_per_thread),
            allocations@.len() == thread_id,
            forall|t: int| #![trigger allocations@[t]]
                0 <= t < thread_id ==> {
                    &&& allocations@[t].thread_id == t
                    &&& allocations@[t].sockets@ == share(sockets_whole, t, sockets_per_thread as int)
                    &&& allocations@[t].configs@ == share(configs_whole, t, sockets_per_thread as int)
                },
        decreases num_threads - thread_id,
    {
        let ghost start = thread_id * sockets_per_thread;
        proof {
            assert((thread_id + 1) * sockets_per_thread == start + sockets_per_thread)
                by (nonlinear_arith)
                requires
                    start == thread_id * sockets_per_thread,
            ;
            assert((thread_id + 1) * sockets_per_thread <= num_threads * sockets_per_thread)
                by (nonlinear_arith)
                requires
                    thread_id + 1 <= num_threads,
            ;
        }
        let sockets: Vec<Socket> = take_front(&mut sockets_left, sockets_per_thread);
        let configs: Vec<SocketConfig> = take_front(&mut configs_left, sockets_per_thread);
        proof {
            assert(sockets@ =~= share(sockets_whole, thread_id as int, sockets_per_thread as int));
            assert(configs@ =~= share(configs_whole, thread_id as int, sockets_per_thread as int));
            assert(sockets_left@ =~= sockets_whole.skip(start + sockets_per_thread));
            assert(configs_left@ =~= configs_whole.skip(start + sockets_per_thread));
        }
        allocations.push(ThreadAllocation { thread_id, sockets, configs });
        thread_id += 1;
    }
    allocations
}

/// The configurations of all threads: every thread has a socket for each of
/// `socket_configs`.
pub fn replicate_configs(socket_configs: &Vec<SocketConfig>, num_threads: usize) -> (replicated: Vec<
    SocketConfig,
>)
    requires
        socket_configs@.len() * num_threads <= usize::MAX,
    ensures
        replicated@.len() == num_threads * socket_configs@.len(),
        forall|t: int|
            0 <= t < num_threads ==> #[trigger] share(replicated@, t, socket_configs@.len() as int)
                == socket_configs@,
{
    let count: usize = socket_configs.len();
    let mut replicated: Vec<SocketConfig> = Vec::new();
    let mut thread: usize = 0;
    assert(0 * count == 0) by (nonlinear_arith);
    while thread < num_threads
        invariant
            count == socket_configs@.len(),
            thread <= num_threads,
            replicated@.len() == thread * count,
            forall|t: int|
                0 <= t < thread ==> #[trigger] share(replicated@, t, count as int) == socket_configs@,
        decreases num_threads - thread,
    {
        let ghost earlier = replicated@;
        let mut i: usize = 0;
        while i < count
            invariant
                i <= count,
                count == socket_configs@.len(),
                replicated@ == earlier + socket_configs@.take(i as int),
            decreases count - i,
        {
            replicated.push(socket_configs[i].duplicate());
            assert(socket_configs@.take(i + 1) =~= socket_configs@.take(i as int).push(
                socket_configs@[i as int],
            ));
            i += 1;
        }
        proof {
            assert(socket_configs@.take(count as int) =~= socket_configs@);
            assert((thread + 1) * count == thread * count + count) by (nonlinear_arith);
            assert forall|t: int| 0 <= t < thread + 1 implies #[trigger] share(
                replicated@,
                t,
                count as int,
            ) == socket_configs@ by {
                if t < thread {
                    assert(0 <= t * count && t * count + count <= thread * count) by (nonlinear_arith)
                        requires
                            0 <= t < thread,
                            count >= 0,
                    ;
                    assert(share(replicated@, t, count as int) =~= share(earlier, t, count as int));
                } else {
                    assert(share(replicated@, t, count as int) =~= socket_configs@);
                }
            }
        }
        thread += 1;
    }
    replicated
}

/// Whether readers can be started with so many threads and sockets.
pub fn can_spawn(num_threads: usize, socket_count: usize) -> (can: bool)
    ensures
        can == (1 <= num_threads <= MAX_READER_THREADS && socket_count > 0),
{
    num_threads > 0 && num_threads <= MAX_READER_THREADS && socket_count > 0
}

/// The share of a thread is as long as that of every other, and holds the items that
/// follow those of the threads before it.
pub proof fn law_shares_follow_each_other<T>(items: Seq<T>, thread: int, count: int, i: int)
    requires
        0 <= thread,
        0 <= i < count,
        thread * count + count <= items.len(),
    ensures
        share(items, thread, count).len() == count,
        share(items, thread, count)[i] == items[thread * count + i],
{
    assert(0 <= thread * count) by (nonlinear_arith)
        requires
            0 <= thread,
            0 <= count,
    ;
}

} // verus!
