//! The waiting strategy of a party that finds its slot not ready yet.
//!
//! A waiting producer or consumer first spins, which answers quickly when the
//! other party is about to finish, and after `SPIN_LIMIT` spins yields to
//! the scheduler instead, so as not to waste the processor on a long wait.
//! This module decides which of the two the next wait is; the caller carries
//! it out.
use vstd::prelude::*;

verus! {

/// Number of spins before a waiting party starts yielding to the scheduler.
pub const SPIN_LIMIT: usize = 64;

/// What a waiting party does on its next wait.
#[derive(Debug, Clone, Copy, PartialEq, Eq, Structural)]
pub enum WaitStep {
    /// Busy-wait once, with a spin-loop hint to the processor.
    Spin,
    /// Yield the thread to the scheduler.
    Yield,
}

/// The next wait of a party that has spun `spin` times so far, and the spin
/// count to pass to the following call.
pub open spec fn backoff_spec(spin: int) -> (int, WaitStep) {
    if spin < SPIN_LIMIT {
        (spin + 1, WaitStep::Spin)
    } else {
        (spin, WaitStep::Yield)
    }
}

/// The spin count after `k` waits, starting from a count of zero.
pub open spec fn spins_after(k: nat) -> int
    decreases k,
{
    if k == 0 {
        0
    } else {
        backoff_spec(spins_after((k - 1) as nat)).0
    }
}

/// Adaptive backoff: decides the next wait of a party that has spun `spin`
/// times so far.
///
/// Below `SPIN_LIMIT` it spins and counts the spin; from then on it yields,
/// and the count stays where it is.
pub fn backoff(spin: usize) -> (r: (usize, WaitStep))
    ensures
        spin < SPIN_LIMIT ==> r.0 == spin + 1 && r.1 == WaitStep::Spin,
        spin >= SPIN_LIMIT ==> r.0 == spin && r.1 == WaitStep::Yield,
        (r.0 as int, r.1) == backoff_spec(spin as int),
{
    if spin < SPIN_LIMIT {
        (spin + 1, WaitStep::Spin)
    } else {
        (spin, WaitStep::Yield)
    }
}

/// Spin, then yield: a party that starts waiting with a count of zero spins
/// on exactly its first `SPIN_LIMIT` waits and yields on every wait after
/// them, and its count never passes `SPIN_LIMIT`.
pub proof fn law_spin_then_yield(k: nat)
    ensures
        spins_after(k) == if k < SPIN_LIMIT { k as int } else { SPIN_LIMIT as int },
        backoff_spec(spins_after(k)).1 == (if k < SPIN_LIMIT { WaitStep::Spin } else { WaitStep::Yield }),
    decreases k,
{
    if k > 0 {
        law_spin_then_yield((k - 1) as nat);
    }
}

} // verus!
