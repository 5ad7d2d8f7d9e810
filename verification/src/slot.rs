//! Slots of the ring buffer and the sequence-number protocol they follow.
//!
//! Every slot carries a sequence number that says which ticket may touch it
//! next. A free slot waiting for the producer holding ticket `t` has sequence
//! `t`; once that producer has written it, the sequence becomes `t + 1`,
//! which is what the consumer holding ticket `t` waits for; once the consumer
//! has taken the value, the sequence becomes `t + CAP`, the ticket of the next
//! producer to land on the same slot.
//!
//! `ring_ok(slots, cap, base, lo, hi)` describes the ring as seen from the
//! ticket `base`: the `cap` positions `base, base + 1, ..` are, in order,
//! `lo` slots already consumed, `hi - lo` slots holding a value, and free
//! slots.
use crate::ticket::{
    lemma_distinct_slots, lemma_ticket_after_after, lemma_wrap_keeps_slot, ticket_after,
    ticket_space, valid_capacity,
};
use vstd::arithmetic::div_mod::{lemma_add_mod_noop, lemma_mod_sub_multiples_vanish, lemma_small_mod};
use vstd::prelude::*;

verus! {

/// A plain wrapper around each ticket counter.
///
/// It has no alignment of its own: it only marks the two counters as the
/// separately held values they are.
pub(crate) struct CachePadded<T> {
    pub(crate) value: T,
}

impl<T> CachePadded<T> {
    pub(crate) fn new(value: T) -> (r: Self)
        ensures
            r.value == value,
    {
        CachePadded { value }
    }
}

/// A single slot of the ring: its sequence number and, while it is
/// published, the value.
pub(crate) struct Slot<T> {
    pub(crate) sequence: usize,
    pub(crate) value: Option<T>,
}

impl<T> Slot<T> {
    /// An empty slot waiting for the producer with ticket `seq`.
    pub(crate) fn new(seq: usize) -> (r: Self)
        ensures
            r.sequence == seq,
            r.value is None,
    {
        Slot { sequence: seq, value: None }
    }
}

/// The slot that serves position `k` counted from ticket `base`.
pub(crate) open spec fn slot_at<T>(slots: Seq<Slot<T>>, cap: int, base: int, k: int) -> Slot<T> {
    slots[(base + k) % cap]
}

/// The state of position `k` counted from ticket `base`: consumed below
/// `lo`, holding a value from `lo` up to `hi`, free from `hi` on.
pub(crate) open spec fn slot_state<T>(
    slots: Seq<Slot<T>>,
    cap: int,
    base: int,
    k: int,
    lo: int,
    hi: int,
) -> bool {
    let slot = slot_at(slots, cap, base, k);
    if k < lo {
        slot.sequence == ticket_after(base, k + cap) && slot.value is None
    } else if k < hi {
        slot.sequence == ticket_after(base, k + 1) && slot.value is Some
    } else {
        slot.sequence == ticket_after(base, k) && slot.value is None
    }
}

/// The whole ring, seen from ticket `base`, is in the state described by `lo` and `hi`.
pub(crate) open spec fn ring_ok<T>(slots: Seq<Slot<T>>, cap: int, base: int, lo: int, hi: int) -> bool {
    &&& valid_capacity(cap)
    &&& slots.len() == cap
    &&& 0 <= base < ticket_space()
    &&& 0 <= lo <= hi <= cap
    &&& forall|k: int| 0 <= k < cap ==> #[trigger] slot_state(slots, cap, base, k, lo, hi)
}

/// The slot a producer writes after publishing its value.
pub(crate) open spec fn written<T>(base: int, hi: int, v: T) -> Slot<T> {
    Slot { sequence: ticket_after(base, hi + 1) as usize, value: Some(v) }
}

/// The slot a consumer leaves behind after taking the value.
pub(crate) open spec fn emptied<T>(base: int, lo: int, cap: int) -> Slot<T> {
    Slot { sequence: ticket_after(base, lo + cap) as usize, value: None }
}

/// A ticket is a value of the ticket space.
proof fn lemma_ticket_in_range(t: int, k: int)
    ensures
        0 <= ticket_after(t, k) < ticket_space(),
{
}

/// A producer that writes the first free position turns it into a published one,
/// and touches no other position.
pub(crate) proof fn lemma_fill<T>(slots: Seq<Slot<T>>, cap: int, base: int, lo: int, hi: int, v: T)
    requires
        ring_ok(slots, cap, base, lo, hi),
        hi < cap,
    ensures
        slot_at(slots, cap, base, hi).sequence == ticket_after(base, hi),
        slot_at(slots, cap, base, hi).value is None,
        ({
            let next = slots.update((base + hi) % cap, written(base, hi, v));
            &&& ring_ok(next, cap, base, lo, hi + 1)
            &&& forall|k: int|
                0 <= k < cap && k != hi ==> #[trigger] slot_at(next, cap, base, k) == slot_at(
                    slots,
                    cap,
                    base,
                    k,
                )
        }),
{
    assert(slot_state(slots, cap, base, hi, lo, hi));
    let next = slots.update((base + hi) % cap, written(base, hi, v));
    lemma_ticket_in_range(base, hi + 1);
    assert forall|k: int| 0 <= k < cap && k != hi implies #[trigger] slot_at(next, cap, base, k)
        == slot_at(slots, cap, base, k) by {
        lemma_distinct_slots(base, k, hi, cap);
    }
    assert forall|k: int| 0 <= k < cap implies #[trigger] slot_state(next, cap, base, k, lo, hi + 1) by {
        if k != hi {
            lemma_distinct_slots(base, k, hi, cap);
            assert(slot_state(slots, cap, base, k, lo, hi));
        }
    }
}

/// A consumer that takes the first published position turns it into a consumed one,
/// and touches no other position.
pub(crate) proof fn lemma_drain<T>(slots: Seq<Slot<T>>, cap: int, base: int, lo: int, hi: int)
    requires
        ring_ok(slots, cap, base, lo, hi),
        lo < hi,
    ensures
        slot_at(slots, cap, base, lo).sequence == ticket_after(base, lo + 1),
        slot_at(slots, cap, base, lo).value is Some,
        ({
            let next = slots.update((base + lo) % cap, emptied::<T>(base, lo, cap));
            &&& ring_ok(next, cap, base, lo + 1, hi)
            &&& forall|k: int|
                0 <= k < cap && k != lo ==> #[trigger] slot_at(next, cap, base, k) == slot_at(
                    slots,
                    cap,
                    base,
                    k,
                )
        }),
{
    assert(slot_state(slots, cap, base, lo, lo, hi));
    let next = slots.update((base + lo) % cap, emptied::<T>(base, lo, cap));
    lemma_ticket_in_range(base, lo + cap);
    assert forall|k: int| 0 <= k < cap && k != lo implies #[trigger] slot_at(next, cap, base, k)
        == slot_at(slots, cap, base, k) by {
        lemma_distinct_slots(base, k, lo, cap);
    }
    assert forall|k: int| 0 <= k < cap implies #[trigger] slot_state(next, cap, base, k, lo + 1, hi) by {
        if k != lo {
            lemma_distinct_slots(base, k, lo, cap);
            assert(slot_state(slots, cap, base, k, lo, hi));
        }
    }
}

/// Position `k` counted from the ticket `a` places after `b` is served by the
/// slot of position `a + k` counted from `b`.
pub(crate) proof fn lemma_slot_shift(b: int, a: int, k: int, cap: int)
    requires
        valid_capacity(cap),
    ensures
        (ticket_after(b, a) + k) % cap == (b + a + k) % cap,
{
    let w = ticket_space();
    lemma_add_mod_noop(b + a, k, w);
    lemma_add_mod_noop(ticket_after(b, a), k, w);
    lemma_small_mod(ticket_after(b, a) as nat, w as nat);
    lemma_small_mod((k % w) as nat, w as nat);
    assert((ticket_after(b, a) + k) % w == (b + a + k) % w);
    lemma_wrap_keeps_slot(ticket_after(b, a) + k, cap);
    lemma_wrap_keeps_slot(b + a + k, cap);
}

/// Once the first `lo` positions are consumed, the ring seen from the ticket
/// `lo` places further on is a ring with nothing consumed.
pub(crate) proof fn lemma_rebase<T>(slots: Seq<Slot<T>>, cap: int, base: int, lo: int, hi: int)
    requires
        ring_ok(slots, cap, base, lo, hi),
    ensures
        ring_ok(slots, cap, ticket_after(base, lo), 0, hi - lo),
        forall|k: int|
            0 <= k < cap ==> #[trigger] slot_at(slots, cap, ticket_after(base, lo), k) == slot_at(
                slots,
                cap,
                base,
                lo + k,
            ),
{
    let nb = ticket_after(base, lo);
    lemma_ticket_in_range(base, lo);
    assert forall|k: int| 0 <= k < cap implies #[trigger] slot_at(slots, cap, nb, k) == slot_at(
        slots,
        cap,
        base,
        lo + k,
    ) by {
        lemma_slot_shift(base, lo, k, cap);
        assert(base + (lo + k) == base + lo + k);
    }
    assert forall|k: int| 0 <= k < cap implies #[trigger] slot_state(slots, cap, nb, k, 0, hi - lo) by {
        lemma_slot_shift(base, lo, k, cap);
        lemma_ticket_after_after(base, lo, k);
        lemma_ticket_after_after(base, lo, k + 1);
        if k < cap - lo {
            let j = k + lo;
            assert(slot_state(slots, cap, base, j, lo, hi));
            assert(base + j == base + lo + k);
            assert(lo + k + 1 == j + 1);
        } else {
            let j = k + lo - cap;
            assert(slot_state(slots, cap, base, j, lo, hi));
            lemma_mod_sub_multiples_vanish(base + lo + k, cap);
            assert(-cap + (base + lo + k) == base + j);
            assert(j + cap == lo + k);
        }
    }
}

} // verus!
