//! The block fetcher pool as a counted state machine: levels queued for
//! the workers, fetches in progress, and fetched blocks waiting for the
//! consumer.  Both channels are bounded by the worker count, which bounds
//! how many blocks are ever in flight at once.

use vstd::prelude::*;

verus! {

/// The pool's counters: `workers_cap` workers between a level channel and
/// a block channel, each of capacity `workers_cap`.
pub struct FetcherPool {
    pub workers_cap: usize,
    pub queued: usize,
    pub fetching: usize,
    pub ready: usize,
}

impl FetcherPool {
    /// The channel bounds and worker bound hold.
    pub open spec fn wf(self) -> bool {
        &&& 1 <= self.workers_cap <= 0x7fffffff
        &&& self.queued <= self.workers_cap
        &&& self.fetching <= self.workers_cap
        &&& self.ready + self.fetching <= self.workers_cap * 2
    }

    /// Blocks in flight: being fetched or waiting for the consumer.
    pub open spec fn in_flight(self) -> int {
        self.fetching + self.ready
    }

    /// A fresh pool of `workers_cap` workers (at least one), idle.
    pub fn new(workers_cap: usize) -> (r: Self)
        requires
            1 <= workers_cap <= 0x7fffffff,
        ensures
            r.wf(),
            r.in_flight() == 0,
            r.workers_cap == workers_cap,
    {
        FetcherPool { workers_cap, queued: 0, fetching: 0, ready: 0 }
    }

    /// The orchestrator queues a level; blocks (returns unchanged) when
    /// the level channel is full.
    pub fn send_level(&mut self) -> (accepted: bool)
        requires
            old(self).wf(),
        ensures
            final(self).wf(),
            accepted == (old(self).queued < old(self).workers_cap),
            accepted ==> *final(self) == (FetcherPool {
                queued: (old(self).queued + 1) as usize,
                ..*old(self)
            }),
            !accepted ==> *final(self) == *old(self),
            final(self).in_flight() == old(self).in_flight(),
    {
        if self.queued < self.workers_cap {
            self.queued = self.queued + 1;
            true
        } else {
            false
        }
    }

    /// An idle worker takes a queued level and starts fetching; blocks
    /// when nothing is queued or every worker is busy.
    pub fn start_fetch(&mut self) -> (started: bool)
        requires
            old(self).wf(),
        ensures
            final(self).wf(),
            started == (old(self).queued > 0 && old(self).fetching < old(self).workers_cap
                && old(self).ready + old(self).fetching < old(self).workers_cap * 2),
            started ==> final(self).in_flight() == old(self).in_flight() + 1,
            !started ==> *final(self) == *old(self),
            final(self).in_flight() <= final(self).workers_cap * 2,
    {
        if self.queued > 0 && self.fetching < self.workers_cap && self.ready + self.fetching
            < self.workers_cap * 2 {
            self.queued = self.queued - 1;
            self.fetching = self.fetching + 1;
            true
        } else {
            false
        }
    }

    /// A worker finishes its fetch and sends the block; blocks when the
    /// block channel is full.
    pub fn finish_fetch(&mut self) -> (sent: bool)
        requires
            old(self).wf(),
        ensures
            final(self).wf(),
            sent == (old(self).fetching > 0 && old(self).ready < old(self).workers_cap),
            sent ==> final(self).in_flight() == old(self).in_flight(),
            !sent ==> *final(self) == *old(self),
    {
        if self.fetching > 0 && self.ready < self.workers_cap {
            self.fetching = self.fetching - 1;
            self.ready = self.ready + 1;
            true
        } else {
            false
        }
    }

    /// The consumer takes one fetched block.
    pub fn consume(&mut self) -> (taken: bool)
        requires
            old(self).wf(),
        ensures
            final(self).wf(),
            taken == (old(self).ready > 0),
            taken ==> final(self).in_flight() == old(self).in_flight() - 1,
            !taken ==> *final(self) == *old(self),
    {
        if self.ready > 0 {
            self.ready = self.ready - 1;
            true
        } else {
            false
        }
    }
}

/// Backpressure: with `workers_cap` workers and both channels bounded by
/// it, at most twice `workers_cap` blocks are ever in flight at once, in
/// every reachable pool state.
pub proof fn lemma_backpressure(p: FetcherPool)
    requires
        p.wf(),
    ensures
        p.in_flight() <= p.workers_cap * 2,
{
}

} // verus!
