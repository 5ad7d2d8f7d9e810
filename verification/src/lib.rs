//! A bounded FIFO queue of fixed, power-of-two capacity, organised as a ring
//! of slots that producers and consumers claim by ticket, after Dmitry
//! Vyukov's bounded queue design.
//!
//! - `ticket`: ticket counters, their wrap-around, and the slot each ticket uses.
//! - `slot`: the slots and the sequence-number protocol on them.
//! - `queue`: the queue, its operations and their contracts over `q@`, the
//!   sequence of values sent and not yet received.
//! - `laws`: what any sequence of sends and receives does.
//! - `backoff`: how a party that has to wait for a slot spins, then yields.
pub mod backoff;
pub mod laws;
pub mod queue;
mod slot;
pub mod ticket;

pub use backoff::{backoff, WaitStep, SPIN_LIMIT};
pub use queue::{Queue, RecvError, SendError};
