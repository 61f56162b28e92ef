//! The decisions of a counting barrier for a fixed number of threads.
//!
//! A thread that reaches the barrier waits while the barrier is closed,
//! counts itself in, and blocks unless it is the last. The last thread
//! closes the barrier and wakes the others; each thread counts itself
//! out as it leaves, and the one that leaves last opens the barrier
//! again. Locks and condition variables are the caller's.

use vstd::prelude::*;

verus! {

/// Whether threads may enter the barrier.
#[derive(Debug, Clone, Copy, PartialEq, Eq, Structural)]
pub enum BarrierState {
    Closed,
    Open,
}

/// What a thread does as it leaves the barrier.
#[derive(Debug, Clone, Copy, PartialEq, Eq, Structural)]
pub struct Departure {
    /// How many threads are still inside.
    pub waiting: u32,
    /// Close the barrier and wake the threads that block inside.
    pub close: bool,
    /// Open the barrier and wake the threads that wait to enter.
    pub open: bool,
}

/// Whether a thread must wait before it enters.
pub fn must_wait(state: BarrierState) -> (r: bool)
    ensures
        r == (state == BarrierState::Closed),
{
    match state {
        BarrierState::Closed => true,
        BarrierState::Open => false,
    }
}

/// Counts a thread in. Returns the new count and whether the thread
/// must block until the last one has arrived.
pub fn arrive(waiting: u32, nthread: u32) -> (r: (u32, bool))
    requires
        waiting < u32::MAX,
    ensures
        r.0 == waiting + 1,
        r.1 == (waiting + 1 != nthread),
{
    let waiting = waiting + 1;
    (waiting, waiting != nthread)
}

/// Counts a thread out. The thread that finds all threads inside is the
/// last to have arrived and closes the barrier; the thread that leaves
/// nobody inside opens it.
pub fn depart(waiting: u32, nthread: u32) -> (d: Departure)
    requires
        waiting > 0,
    ensures
        d.waiting == waiting - 1,
        d.close == (waiting == nthread),
        d.open == (waiting == 1),
{
    let close = waiting == nthread;
    let waiting = waiting - 1;
    Departure { waiting, close, open: waiting == 0 }
}

} // verus!
