//! Pure decision logic of worker bootstrap: how many workers each
//! configuration spawns, which global index and peer count each local worker
//! receives, which processes a cluster member dials, and the channel
//! bookkeeping each worker's allocator performs.

use vstd::prelude::*;
use crate::config::Configuration;
use std::collections::VecDeque;

verus! {

impl Configuration {
    /// How many local worker threads this configuration spawns: one builder,
    /// and so one worker thread, per requested local thread.
    pub fn local_threads(&self) -> (r: usize)
        ensures
            r == match *self {
                Configuration::Thread => 1usize,
                Configuration::Process(n) => n,
                Configuration::Cluster(t, _, _, _) => t,
            },
    {
        match self {
            Configuration::Thread => 1,
            Configuration::Process(n) => *n,
            Configuration::Cluster(t, _, _, _) => *t,
        }
    }

    /// How many processes participate in the computation.
    pub fn processes(&self) -> (r: usize)
        ensures
            r == match *self {
                Configuration::Thread => 1int,
                Configuration::Process(_) => 1int,
                Configuration::Cluster(_, _, addresses, _) => addresses@.len() as int,
            },
    {
        match self {
            Configuration::Thread => 1,
            Configuration::Process(_) => 1,
            Configuration::Cluster(_, _, addresses, _) => addresses.len(),
        }
    }

    /// The total peer count every worker observes: local threads times
    /// processes. `None` when that product does not fit a machine word.
    pub fn peers(&self) -> (r: Option<usize>)
        ensures
            match r {
                Some(p) => p == self.local_threads_spec() * self.processes_spec(),
                None => self.local_threads_spec() * self.processes_spec() > usize::MAX,
            },
    {
        self.local_threads().checked_mul(self.processes())
    }

    /// Spec twin of `local_threads`.
    pub open spec fn local_threads_spec(&self) -> usize {
        match *self {
            Configuration::Thread => 1usize,
            Configuration::Process(n) => n,
            Configuration::Cluster(t, _, _, _) => t,
        }
    }

    /// Spec twin of `processes`.
    pub open spec fn processes_spec(&self) -> int {
        match *self {
            Configuration::Thread => 1,
            Configuration::Process(_) => 1,
            Configuration::Cluster(_, _, addresses, _) => addresses@.len() as int,
        }
    }
}

/// The global worker indices of the local workers of process `process`:
/// worker `w` of that process is peer `process * threads + w`.
pub fn worker_indices(threads: usize, process: usize, processes: usize) -> (r: Vec<usize>)
    requires
        process < processes,
        processes * threads <= usize::MAX,
    ensures
        r@.len() == threads,
        forall|w: int| 0 <= w < threads ==> r@[w] == process * threads + w,
{
    proof {
        assert((process + 1) * threads <= processes * threads) by (nonlinear_arith)
            requires
                process < processes,
                threads >= 0,
        ;
        assert(process * threads + threads == (process + 1) * threads) by (nonlinear_arith);
    }
    let base = process * threads;
    let mut r: Vec<usize> = Vec::new();
    let mut w: usize = 0;
    while w < threads
        invariant
            0 <= w <= threads,
            base == process * threads,
            base + threads <= usize::MAX,
            r@.len() == w,
            forall|k: int| 0 <= k < w ==> r@[k] == process * threads + k,
        decreases threads - w,
    {
        r.push(base + w);
        w = w + 1;
    }
    r
}

/// The processes a cluster member dials during connection establishment:
/// every process with a higher index. Together with accepting a connection
/// from every process with a lower index, each unordered pair of processes
/// shares exactly one connection.
pub fn peers_to_dial(process: usize, processes: usize) -> (r: Vec<usize>)
    requires
        process < processes,
    ensures
        r@.len() == processes - process - 1,
        forall|k: int| 0 <= k < r@.len() ==> r@[k] == process + 1 + k,
{
    let mut r: Vec<usize> = Vec::new();
    let mut q: usize = process + 1;
    while q < processes
        invariant
            process + 1 <= q <= processes,
            r@.len() == q - process - 1,
            forall|k: int| 0 <= k < r@.len() ==> r@[k] == process + 1 + k,
        decreases processes - q,
    {
        r.push(q);
        q = q + 1;
    }
    r
}

/// The number of connections a cluster member accepts: one from every
/// process with a lower index.
pub fn connections_to_accept(process: usize) -> (r: usize)
    ensures
        r == process,
{
    process
}

/// Channel bookkeeping for one worker's allocator: its index among all
/// peers, the total peer count, and the identifier the next allocated
/// channel will carry.
pub struct AllocatorState {
    index: usize,
    peers: usize,
    allocated: usize,
}

impl AllocatorState {
    /// The worker's index among all peers.
    pub closed spec fn index_spec(&self) -> usize {
        self.index
    }

    /// The total peer count.
    pub closed spec fn peers_spec(&self) -> usize {
        self.peers
    }

    /// How many channels have been allocated so far; also the identifier of
    /// the next channel.
    pub closed spec fn allocated_spec(&self) -> usize {
        self.allocated
    }

    /// A fresh allocator state for worker `index` among `peers` workers.
    pub fn new(index: usize, peers: usize) -> (r: AllocatorState)
        requires
            index < peers,
        ensures
            r.index_spec() == index,
            r.peers_spec() == peers,
            r.allocated_spec() == 0,
    {
        AllocatorState { index, peers, allocated: 0 }
    }

    /// The worker's index.
    pub fn index(&self) -> (r: usize)
        ensures
            r == self.index_spec(),
    {
        self.index
    }

    /// The total peer count.
    pub fn peers(&self) -> (r: usize)
        ensures
            r == self.peers_spec(),
    {
        self.peers
    }

    /// Assigns the next channel identifier. Identifiers are handed out
    /// monotonically in allocation order, so workers that allocate their
    /// channels in the same order agree on every identifier.
    pub fn allocate(&mut self) -> (channel: usize)
        requires
            old(self).allocated_spec() < usize::MAX,
        ensures
            channel == old(self).allocated_spec(),
            final(self).allocated_spec() == old(self).allocated_spec() + 1,
            final(self).index_spec() == old(self).index_spec(),
            final(self).peers_spec() == old(self).peers_spec(),
    {
        let channel = self.allocated;
        self.allocated = self.allocated + 1;
        channel
    }
}

/// An in-memory message queue with first-in first-out delivery: the receiver
/// observes messages in exactly the order they were sent.
pub struct ChannelQueue<T> {
    buffer: VecDeque<T>,
}

impl<T> View for ChannelQueue<T> {
    type V = Seq<T>;

    closed spec fn view(&self) -> Seq<T> {
        self.buffer@
    }
}

impl<T> ChannelQueue<T> {
    /// Creates an empty queue.
    pub fn new() -> (r: ChannelQueue<T>)
        ensures
            r@ == Seq::<T>::empty(),
    {
        ChannelQueue { buffer: VecDeque::new() }
    }

    /// Enqueues a message at the back.
    pub fn send(&mut self, message: T)
        ensures
            final(self)@ == old(self)@.push(message),
    {
        self.buffer.push_back(message);
    }

    /// Dequeues the oldest message, if any: delivery is in send order.
    pub fn recv(&mut self) -> (r: Option<T>)
        ensures
            match r {
                Some(m) => old(self)@.len() > 0 && m == old(self)@[0] && final(self)@ == old(
                    self,
                )@.skip(1),
                None => old(self)@.len() == 0 && final(self)@ == old(self)@,
            },
    {
        let r = self.buffer.pop_front();
        proof {
            if old(self)@.len() > 0 {
                assert(old(self)@.subrange(1, old(self)@.len() as int) =~= old(self)@.skip(1));
            }
        }
        r
    }

    /// The number of queued messages.
    pub fn len(&self) -> (r: usize)
        ensures
            r == self@.len(),
    {
        self.buffer.len()
    }
}

} // verus!
