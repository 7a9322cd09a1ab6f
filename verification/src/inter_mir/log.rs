//! Ids of the entries of the type solver's log.
use vstd::prelude::*;

verus! {

/// Where fresh log ids come from: the next id to hand out.
pub struct LogIdCounter {
    pub next: u32,
}

impl LogIdCounter {
    pub fn new() -> (r: LogIdCounter)
        ensures
            r.next == 0,
    {
        LogIdCounter { next: 0 }
    }
}

/// The id of a pair of log entries (a start and its end).
#[derive(Clone, Copy, Debug, PartialEq, Eq, Structural)]
pub struct LogId(pub u32);

/// The counter after handing out one id: it counts up and wraps to 0 after
/// `u32::MAX`.
pub open spec fn next_log_id(n: u32) -> u32 {
    if n == u32::MAX {
        0
    } else {
        (n + 1) as u32
    }
}

impl LogId {
    /// A fresh id: the counter's value, after which the counter moves on.
    pub fn new(counter: &mut LogIdCounter) -> (r: LogId)
        ensures
            r == LogId(old(counter).next),
            final(counter).next == next_log_id(old(counter).next),
    {
        let id = counter.next;
        counter.next = if id == u32::MAX {
            0
        } else {
            id + 1
        };
        LogId(id)
    }
}

/// The id that a counter starting at `start` hands out at its `k`-th call.
pub open spec fn nth_log_id(start: u32, k: nat) -> u32
    decreases k,
{
    if k == 0 {
        start
    } else {
        next_log_id(nth_log_id(start, (k - 1) as nat))
    }
}

proof fn lemma_nth_log_id(start: u32, k: nat)
    ensures
        nth_log_id(start, k) == (start + k) % 0x1_0000_0000,
    decreases k,
{
    if k > 0 {
        lemma_nth_log_id(start, (k - 1) as nat);
    }
}

/// Ids handed out by one counter are distinct until it has handed out
/// 2^32 of them.
pub proof fn lemma_log_ids_distinct(start: u32, j: nat, k: nat)
    requires
        j < k < 0x1_0000_0000,
    ensures
        nth_log_id(start, j) != nth_log_id(start, k),
{
    lemma_nth_log_id(start, j);
    lemma_nth_log_id(start, k);
}

} // verus!
