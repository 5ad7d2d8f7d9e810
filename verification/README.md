# turbo_mpmc

A bounded FIFO queue of power-of-two capacity, organised as a ring of slots
that producers and consumers claim by ticket (Dmitry Vyukov's bounded queue
design), verified with Verus.

- `src/` is the verified library: ticket arithmetic and its wrap-around
  (`ticket.rs`), the slot sequence-number protocol (`slot.rs`), the queue and
  its contracts over its contents `q@` (`queue.rs`), laws about any sequence
  of sends and receives (`laws.rs`), and the spin-then-yield backoff decision
  (`backoff.rs`). The queue is verified for a single owner: its operations
  take `&mut self`.
- `app/` wraps the queue for use by many threads at once (`SharedQueue`),
  and carries out the waits that the library's backoff step decides.
- `tests/` runs the library on concrete values.
