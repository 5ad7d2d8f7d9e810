//! Ticket arithmetic.
//!
//! Producers and consumers are numbered by tickets: `usize` counters that
//! grow by one per message and wrap around at the end of the `usize` range.
//! A ticket is served by the buffer slot `ticket % CAP`, computed with a bit
//! mask. This module proves that the mask is the remainder, and that the
//! wrap-around of the counters never disturbs the slot a ticket lands in,
//! because a power-of-two capacity divides the number of tickets.
use vstd::arithmetic::div_mod::{
    lemma_add_mod_noop, lemma_add_mod_noop_right, lemma_fundamental_div_mod,
    lemma_mod_add_multiples_vanish, lemma_mod_mod, lemma_mod_multiples_basic,
    lemma_mod_sub_multiples_vanish, lemma_small_mod, lemma_sub_mod_noop,
};
use vstd::arithmetic::power2::{lemma_pow2_adds, lemma_pow2_pos, lemma_pow2_strictly_increases, pow2};
use vstd::bits::{low_bits_mask, lemma_usize_low_bits_mask_is_mod};
use vstd::layout::unsigned_int_max_values;
use vstd::prelude::*;

verus! {

/// How many distinct values a ticket counter takes before it wraps around.
pub open spec fn ticket_space() -> int {
    usize::MAX as int + 1
}

/// `n` is a power of two: `n == 2^e` for some natural `e`.
pub open spec fn is_power_of_two(n: int) -> bool {
    exists|e: nat| pow2(e) == n
}

/// The capacities a queue can be made with.
pub open spec fn valid_capacity(cap: int) -> bool {
    &&& 0 < cap <= usize::MAX
    &&& is_power_of_two(cap)
}

/// The ticket `k` places after `t`, wrapping around the ticket space.
pub open spec fn ticket_after(t: int, k: int) -> int {
    (t + k) % ticket_space()
}

/// The number of tickets from `from` up to `to`, wrapping around the ticket space.
pub open spec fn ticket_gap(to: int, from: int) -> int {
    (to - from) % ticket_space()
}

/// A valid capacity is `2^e` for some `e` below the width of `usize`, and it
/// divides the number of tickets.
pub proof fn lemma_capacity_exponent(cap: int) -> (e: nat)
    requires
        valid_capacity(cap),
    ensures
        pow2(e) == cap,
        e < usize::BITS,
        ticket_space() % cap == 0,
        ticket_space() == cap * (ticket_space() / cap),
{
    let e = choose|e: nat| pow2(e) == cap;
    unsigned_int_max_values();
    let bits = usize::BITS as nat;
    if e >= bits {
        if e > bits {
            lemma_pow2_strictly_increases(bits, e);
        }
        assert(false);
    }
    let rest = (bits - e) as nat;
    assert(e + rest == bits);
    lemma_pow2_adds(e, rest);
    assert(pow2(bits) == pow2(e) * pow2(rest));
    assert(pow2(e) * pow2(rest) == pow2(rest) * pow2(e)) by (nonlinear_arith);
    lemma_pow2_pos(rest);
    lemma_mod_multiples_basic(pow2(rest) as int, cap);
    assert(ticket_space() == pow2(rest) * cap);
    lemma_fundamental_div_mod(ticket_space(), cap);
    e
}

/// Wrapping a ticket around the ticket space keeps its slot.
pub proof fn lemma_wrap_keeps_slot(x: int, cap: int)
    requires
        valid_capacity(cap),
    ensures
        (x % ticket_space()) % cap == x % cap,
{
    lemma_capacity_exponent(cap);
    let q = ticket_space() / cap;
    assert(q > 0) by (nonlinear_arith)
        requires
            ticket_space() == cap * q,
            cap > 0,
            ticket_space() > 0,
    ;
    lemma_mod_mod(x, cap, q);
}

/// Consecutive tickets within one lap of the buffer land in distinct slots.
pub proof fn lemma_distinct_slots(h: int, j: int, k: int, cap: int)
    requires
        0 < cap,
        0 <= j < cap,
        0 <= k < cap,
        j != k,
    ensures
        (h + j) % cap != (h + k) % cap,
{
    lemma_fundamental_div_mod(h + j, cap);
    lemma_fundamental_div_mod(h + k, cap);
    if (h + j) % cap == (h + k) % cap {
        let a = (h + j) / cap;
        let b = (h + k) / cap;
        assert(cap * a - cap * b == j - k);
        assert(cap * (a - b) == j - k) by (nonlinear_arith)
            requires
                cap * a - cap * b == j - k,
        ;
        assert(false) by (nonlinear_arith)
            requires
                cap * (a - b) == j - k,
                j != k,
                -cap < j - k < cap,
                cap > 0,
        ;
    }
}

/// Consecutive tickets are served by consecutive slots, cyclically, also
/// where the ticket counter wraps around from `usize::MAX` to `0`.
pub proof fn law_next_ticket_next_slot(t: usize, cap: int)
    requires
        valid_capacity(cap),
    ensures
        ticket_after(t as int, 1) % cap == (t as int % cap + 1) % cap,
{
    lemma_wrap_keeps_slot(t + 1, cap);
    lemma_add_mod_noop_right(1, t as int, cap);
    assert(1 + t as int % cap == t as int % cap + 1);
    assert(1 + t as int == t as int + 1);
}

/// Stepping `k` further from a wrapped ticket is stepping `k` further from the unwrapped one.
pub proof fn lemma_ticket_after_after(t: int, j: int, k: int)
    ensures
        ticket_after(ticket_after(t, j), k) == ticket_after(t, j + k),
{
    let w = ticket_space();
    lemma_add_mod_noop(t + j, k, w);
    lemma_add_mod_noop((t + j) % w, k, w);
    lemma_mod_mod_self(t + j, w);
    assert(t + j + k == (t + j) + k);
}

/// Reducing twice by the same modulus changes nothing.
proof fn lemma_mod_mod_self(x: int, m: int)
    requires
        m > 0,
    ensures
        (x % m) % m == x % m,
{
    lemma_small_mod((x % m) as nat, m as nat);
}

/// A ticket counter's own value is its own ticket.
pub proof fn lemma_ticket_of_counter(t: usize)
    ensures
        ticket_after(t as int, 0) == t,
        t as int % ticket_space() == t,
{
    lemma_small_mod(t as nat, ticket_space() as nat);
}

/// The gap between two counters, taken from the first counter, gives back the second.
pub proof fn lemma_gap_closes(to: usize, from: usize)
    ensures
        ticket_after(from as int, ticket_gap(to as int, from as int)) == to,
{
    let w = ticket_space();
    lemma_sub_mod_noop(to as int, from as int, w);
    lemma_add_mod_noop(from as int, to - from, w);
    lemma_mod_mod_self(to - from, w);
    lemma_small_mod(from as nat, w as nat);
    lemma_small_mod(to as nat, w as nat);
    assert(from + (to - from) == to);
}

/// The gap between a ticket and the ticket `n` places after it is `n`.
pub proof fn lemma_gap_of_after(h: usize, n: int)
    requires
        0 <= n < ticket_space(),
    ensures
        ticket_gap(ticket_after(h as int, n), h as int) == n,
        0 <= ticket_after(h as int, n) < ticket_space(),
{
    let w = ticket_space();
    lemma_sub_mod_noop(h + n, h as int, w);
    lemma_small_mod(h as nat, w as nat);
    lemma_small_mod(n as nat, w as nat);
    lemma_small_mod(ticket_after(h as int, n) as nat, w as nat);
    assert(h + n - h == n);
}

/// Two counters are equal exactly when no ticket lies between them.
pub proof fn lemma_gap_zero_iff_equal(to: usize, from: usize)
    ensures
        ticket_gap(to as int, from as int) == 0 <==> to == from,
{
    let w = ticket_space();
    if to >= from {
        lemma_small_mod((to - from) as nat, w as nat);
    } else {
        lemma_mod_add_multiples_vanish(to - from, w);
        lemma_small_mod((to - from + w) as nat, w as nat);
    }
}

/// `t + k`, wrapping around the ticket space.
pub fn advance_ticket(t: usize, k: usize) -> (r: usize)
    ensures
        r == ticket_after(t as int, k as int),
{
    let r = t.wrapping_add(k);
    proof {
        let w = ticket_space();
        if t + k > usize::MAX {
            lemma_small_mod((t + k - w) as nat, w as nat);
            lemma_mod_sub_multiples_vanish(t + k, w);
        } else {
            lemma_small_mod((t + k) as nat, w as nat);
        }
    }
    r
}

/// The number of tickets from `from` up to `to`, wrapping around the ticket space.
pub fn tickets_between(to: usize, from: usize) -> (r: usize)
    ensures
        r == ticket_gap(to as int, from as int),
{
    let r = to.wrapping_sub(from);
    proof {
        let w = ticket_space();
        if to - from < 0 {
            lemma_small_mod((to - from + w) as nat, w as nat);
            lemma_mod_add_multiples_vanish(to - from, w);
        } else {
            lemma_small_mod((to - from) as nat, w as nat);
        }
    }
    r
}

/// The buffer slot that serves `ticket`: the low bits of the ticket, which
/// for a power-of-two capacity are the remainder by the capacity.
pub fn slot_index(ticket: usize, cap: usize) -> (i: usize)
    requires
        valid_capacity(cap as int),
    ensures
        i == ticket as int % cap as int,
        i < cap,
{
    let mask: usize = cap - 1;
    proof {
        let e = lemma_capacity_exponent(cap as int);
        assert(low_bits_mask(e) == cap - 1);
        lemma_usize_low_bits_mask_is_mod(ticket, e);
    }
    ticket & mask
}

} // verus!
