//! The queue: a ring of `CAP` slots and two ticket counters.
//!
//! Producers take tickets from `tail`, consumers from `head`; ticket `t` is
//! served by slot `t % CAP`. The queue holds the messages of the tickets from
//! `head` up to `tail`, in ticket order, so it is first in, first out.
use crate::slot::{
    emptied, lemma_drain, lemma_fill, lemma_rebase, ring_ok, slot_at, written, CachePadded, Slot,
};
use crate::ticket::{
    advance_ticket, is_power_of_two, lemma_gap_closes, lemma_gap_of_after, lemma_gap_zero_iff_equal,
    lemma_ticket_after_after, lemma_ticket_of_counter, lemma_wrap_keeps_slot, slot_index,
    ticket_after, ticket_gap, ticket_space, tickets_between,
};
use vstd::arithmetic::div_mod::lemma_small_mod;
use vstd::prelude::*;

verus! {

/// Error returned when a value cannot be sent because the queue is full.
///
/// It hands the value that could not be sent back to the caller.
#[derive(Debug, Clone, Copy, PartialEq, Eq)]
pub struct SendError<T>(pub T);

impl<T> SendError<T> {
    /// The message of this error.
    pub fn to_string(&self) -> (r: String)
        ensures
            r@ == "queue is full"@,
    {
        String::from_str("queue is full")
    }
}

/// Error returned when a value cannot be received because the queue is empty.
#[derive(Debug, Clone, Copy, PartialEq, Eq)]
pub struct RecvError;

impl RecvError {
    /// The message of this error.
    pub fn to_string(&self) -> (r: String)
        ensures
            r@ == "queue is empty"@,
    {
        String::from_str("queue is empty")
    }
}

/// A bounded FIFO queue of capacity `CAP`, which must be a power of two.
///
/// Its contents, `q@`, is the sequence of messages sent and not yet
/// received, oldest first.
pub struct Queue<T, const CAP: usize> {
    buffer: Vec<Slot<T>>,
    tail: CachePadded<usize>,
    head: CachePadded<usize>,
}

/// The number of tickets from `head` up to `tail`.
spec fn occupancy(tail: usize, head: usize) -> int {
    ticket_gap(tail as int, head as int)
}

/// The items of `v` in reverse order: the last item first.
fn reversed<T>(v: Vec<T>) -> (r: Vec<T>)
    ensures
        r@ == v@.reverse(),
{
    let ghost all = v@;
    let mut rest = v;
    let mut out: Vec<T> = Vec::new();
    while rest.len() > 0
        invariant
            rest@ == all.subrange(0, rest@.len() as int),
            out@ == all.subrange(rest@.len() as int, all.len() as int).reverse(),
            rest@.len() <= all.len(),
        decreases rest@.len(),
    {
        let ghost m = rest@.len() as int;
        let x = rest.pop().unwrap();
        out.push(x);
        assert(rest@ =~= all.subrange(0, m - 1));
        assert(out@ =~= all.subrange(m - 1, all.len() as int).reverse());
    }
    assert(out@ =~= all.reverse());
    out
}

impl<T, const CAP: usize> Queue<T, CAP> {
    /// The number of messages in the queue.
    closed spec fn count(&self) -> int {
        occupancy(self.tail.value, self.head.value)
    }

    /// The well-formedness of a queue: a valid capacity, at most `CAP`
    /// messages, and every slot in the state its position calls for.
    pub closed spec fn wf(&self) -> bool {
        &&& self.count() <= CAP
        &&& ring_ok(self.buffer@, CAP as int, self.head.value as int, 0, self.count())
    }

    /// The messages in the queue, oldest first.
    pub closed spec fn items(&self) -> Seq<T> {
        Seq::new(
            self.count() as nat,
            |k: int| slot_at(self.buffer@, CAP as int, self.head.value as int, k).value->0,
        )
    }

    /// Creates an empty queue.
    ///
    /// The capacity must be greater than zero and a power of two.
    pub fn new() -> (q: Self)
        requires
            CAP > 0,
            is_power_of_two(CAP as int),
        ensures
            q.wf(),
            q@ == Seq::<T>::empty(),
    {
        let mut v: Vec<Slot<T>> = Vec::with_capacity(CAP);
        let mut i: usize = 0;
        while i < CAP
            invariant
                i <= CAP,
                v@.len() == i,
                forall|j: int| 0 <= j < i ==> (#[trigger] v@[j]).sequence == j && v@[j].value is None,
            decreases CAP - i,
        {
            v.push(Slot::new(i));
            i = i + 1;
        }
        let q = Queue {
            buffer: v,
            tail: CachePadded::new(0),
            head: CachePadded::new(0),
        };
        proof {
            lemma_gap_of_after(0, 0);
            assert forall|k: int| 0 <= k < CAP implies #[trigger] crate::slot::slot_state(
                q.buffer@,
                CAP as int,
                0,
                k,
                0,
                0,
            ) by {
                lemma_small_mod(k as nat, CAP as nat);
                lemma_small_mod(k as nat, ticket_space() as nat);
            }
            assert(q.items() =~= Seq::<T>::empty());
        }
        q
    }

    /// Sends a value into the queue.
    ///
    /// The queue must have room: with no other party to make room, sending
    /// into a full queue would wait forever.
    pub fn send(&mut self, value: T)
        requires
            old(self).wf(),
            old(self)@.len() < CAP,
        ensures
            final(self).wf(),
            final(self)@ == old(self)@.push(value),
    {
        let ghost base = self.head.value as int;
        let ghost n = self.count();
        let ghost old_slots = self.buffer@;
        let ticket = self.tail.value;
        proof {
            lemma_gap_closes(self.tail.value, self.head.value);
            lemma_fill(self.buffer@, CAP as int, base, 0, n, value);
            lemma_wrap_keeps_slot(base + n, CAP as int);
        }
        self.tail.value = advance_ticket(ticket, 1);
        let idx = slot_index(ticket, CAP);
        // The claimed slot is ready for this ticket: it is free and its
        // sequence number is the ticket itself.
        assert(self.buffer@[idx as int].sequence == ticket);
        self.buffer[idx].value = Some(value);
        self.buffer[idx].sequence = advance_ticket(ticket, 1);
        proof {
            lemma_ticket_after_after(base, n, 1);
            assert(self.buffer@ == old_slots.update((base + n) % (CAP as int), written(base, n, value)));
            lemma_gap_of_after(self.head.value, n + 1);
            assert(self.items() =~= old(self).items().push(value));
        }
    }

    /// Receives the oldest value of the queue.
    ///
    /// The queue must hold a value: with no other party to send one,
    /// receiving from an empty queue would wait forever.
    pub fn recv(&mut self) -> (v: T)
        requires
            old(self).wf(),
            old(self)@.len() > 0,
        ensures
            final(self).wf(),
            v == old(self)@[0],
            final(self)@ == old(self)@.drop_first(),
    {
        let ghost base = self.head.value as int;
        let ghost n = self.count();
        let ghost old_slots = self.buffer@;
        let ticket = self.head.value;
        proof {
            lemma_gap_closes(self.tail.value, self.head.value);
            lemma_drain(self.buffer@, CAP as int, base, 0, n);
            lemma_ticket_of_counter(self.head.value);
        }
        self.head.value = advance_ticket(ticket, 1);
        let idx = slot_index(ticket, CAP);
        // The claimed slot holds the value of this ticket: its sequence number
        // is the ticket plus one.
        assert(self.buffer@[idx as int].sequence == ticket_after(ticket as int, 1));
        let v = self.buffer[idx].value.take().unwrap();
        self.buffer[idx].sequence = advance_ticket(ticket, CAP);
        proof {
            assert(self.buffer@ == old_slots.update(base % (CAP as int), emptied::<T>(base, 0, CAP as int)));
            lemma_rebase(self.buffer@, CAP as int, base, 1, n);
            lemma_ticket_after_after(base, 1, n - 1);
            lemma_gap_of_after(self.head.value, n - 1);
            assert(self.items() =~= old(self).items().drop_first());
        }
        v
    }

    /// Attempts to send a value without waiting.
    ///
    /// Returns `Ok(())` when the value was sent, or `Err(SendError(value))`,
    /// handing the value back, when the queue is full.
    pub fn try_send(&mut self, value: T) -> (r: Result<(), SendError<T>>)
        requires
            old(self).wf(),
        ensures
            final(self).wf(),
            r is Ok <==> old(self)@.len() < CAP,
            r is Ok ==> final(self)@ == old(self)@.push(value),
            r is Err ==> r == Err::<(), SendError<T>>(SendError(value)) && *final(self) == *old(self),
    {
        let head = self.head.value;
        let tail = self.tail.value;
        if tickets_between(tail, head) >= CAP {
            return Err(SendError(value));
        }
        self.send(value);
        Ok(())
    }

    /// Attempts to receive a value without waiting.
    ///
    /// Returns `Ok(value)` with the oldest value, or `Err(RecvError)` when
    /// the queue is empty.
    pub fn try_recv(&mut self) -> (r: Result<T, RecvError>)
        requires
            old(self).wf(),
        ensures
            final(self).wf(),
            r is Err <==> old(self)@.len() == 0,
            r is Ok ==> r == Ok::<T, RecvError>(old(self)@[0]) && final(self)@ == old(self)@.drop_first(),
            r is Err ==> r == Err::<T, RecvError>(RecvError) && *final(self) == *old(self),
    {
        let tail = self.tail.value;
        let head = self.head.value;
        proof {
            lemma_gap_zero_iff_equal(tail, head);
        }
        if tail == head {
            return Err(RecvError);
        }
        Ok(self.recv())
    }

    /// Sends several values with a single reservation of tickets.
    ///
    /// `items[0]` is sent first, `items[1]` second, and so on. The queue must
    /// have room for all of them.
    pub fn send_batch(&mut self, items: Vec<T>)
        requires
            old(self).wf(),
            old(self)@.len() + items@.len() <= CAP,
        ensures
            final(self).wf(),
            final(self)@ == old(self)@ + items@,
    {
        let n = items.len();
        if n == 0 {
            assert(old(self)@ + items@ =~= old(self)@);
            return;
        }
        let ghost base = self.head.value as int;
        let ghost n0 = self.count();
        let ghost all = items@;
        let first_ticket = self.tail.value;
        proof {
            lemma_gap_closes(self.tail.value, self.head.value);
            lemma_ticket_after_after(base, n0, n as int);
        }
        // Reserve `n` tickets at once.
        self.tail.value = advance_ticket(first_ticket, n);
        // Reverse once, so that popping yields the items in their original order.
        let mut rest = reversed(items);
        let mut i: usize = 0;
        while i < n
            invariant
                0 <= i <= n,
                n == all.len(),
                n0 + n <= CAP,
                n0 == old(self)@.len(),
                self.head.value == base,
                self.tail.value == ticket_after(base, n0 + n),
                first_ticket == ticket_after(base, n0),
                ring_ok(self.buffer@, CAP as int, base, 0, n0 + i),
                rest@ == all.subrange(i as int, n as int).reverse(),
                forall|k: int|
                    #![trigger slot_at(self.buffer@, CAP as int, base, k)]
                    0 <= k < n0 ==> slot_at(self.buffer@, CAP as int, base, k).value->0
                        == old(self)@[k],
                forall|k: int|
                    #![trigger slot_at(self.buffer@, CAP as int, base, k)]
                    n0 <= k < n0 + i ==> slot_at(self.buffer@, CAP as int, base, k).value->0
                        == all[k - n0],
            decreases n - i,
        {
            let ticket = advance_ticket(first_ticket, i);
            let idx = slot_index(ticket, CAP);
            let ghost slots = self.buffer@;
            proof {
                lemma_ticket_after_after(base, n0, i as int);
                lemma_wrap_keeps_slot(base + n0 + i, CAP as int);
                assert(rest@.last() == all[i as int]);
            }
            let v = rest.pop().unwrap();
            proof {
                lemma_fill(slots, CAP as int, base, 0, n0 + i, v);
                lemma_ticket_after_after(base, n0 + i, 1);
                assert(rest@ =~= all.subrange(i + 1, n as int).reverse());
            }
            // The claimed slot is free and waits for exactly this ticket.
            assert(self.buffer@[idx as int].sequence == ticket);
            self.buffer[idx].value = Some(v);
            self.buffer[idx].sequence = advance_ticket(ticket, 1);
            assert(self.buffer@ == slots.update((base + n0 + i) % (CAP as int), written(base, n0 + i, v)));
            assert(base + (n0 + i) == base + n0 + i);
            assert(slot_at(self.buffer@, CAP as int, base, n0 + i).value->0 == all[i as int]);
            i = i + 1;
        }
        proof {
            lemma_gap_of_after(self.head.value, n0 + n);
            assert(self.items() =~= old(self)@ + all);
        }
    }

    /// Receives `n` values with a single reservation of tickets.
    ///
    /// The values are returned oldest first. The queue must hold at least `n`
    /// values.
    pub fn recv_batch(&mut self, n: usize) -> (out: Vec<T>)
        requires
            old(self).wf(),
            n <= old(self)@.len(),
        ensures
            final(self).wf(),
            out@ == old(self)@.take(n as int),
            final(self)@ == old(self)@.skip(n as int),
    {
        if n == 0 {
            assert(old(self)@.skip(0) =~= old(self)@);
            return Vec::new();
        }
        let ghost base = self.head.value as int;
        let ghost n0 = self.count();
        let first_ticket = self.head.value;
        proof {
            lemma_gap_closes(self.tail.value, self.head.value);
            lemma_ticket_of_counter(self.head.value);
        }
        // Reserve `n` tickets at once.
        self.head.value = advance_ticket(first_ticket, n);
        let mut out: Vec<T> = Vec::with_capacity(n);
        let mut i: usize = 0;
        while i < n
            invariant
                0 <= i <= n,
                n <= n0 <= CAP,
                n0 == old(self)@.len(),
                first_ticket == base,
                self.head.value == ticket_after(base, n as int),
                self.tail.value == old(self).tail.value,
                ring_ok(self.buffer@, CAP as int, base, i as int, n0),
                out@ == old(self)@.take(i as int),
                forall|k: int|
                    #![trigger slot_at(self.buffer@, CAP as int, base, k)]
                    i <= k < n0 ==> slot_at(self.buffer@, CAP as int, base, k).value->0
                        == old(self)@[k],
            decreases n - i,
        {
            let ticket = advance_ticket(first_ticket, i);
            let idx = slot_index(ticket, CAP);
            let ghost slots = self.buffer@;
            proof {
                lemma_wrap_keeps_slot(base + i, CAP as int);
                lemma_drain(slots, CAP as int, base, i as int, n0);
            }
            // The claimed slot holds the value of exactly this ticket.
            assert(self.buffer@[idx as int].sequence == ticket_after(base, i + 1));
            assert(slot_at(slots, CAP as int, base, i as int).value->0 == old(self)@[i as int]);
            let v = self.buffer[idx].value.take().unwrap();
            self.buffer[idx].sequence = advance_ticket(ticket, CAP);
            proof {
                lemma_ticket_after_after(base, i as int, CAP as int);
                assert(self.buffer@ == slots.update((base + i) % (CAP as int), emptied::<T>(base, i as int, CAP as int)));
            }
            out.push(v);
            assert(out@ =~= old(self)@.take(i + 1));
            i = i + 1;
        }
        proof {
            lemma_rebase(self.buffer@, CAP as int, base, n as int, n0);
            lemma_ticket_after_after(base, n as int, n0 - n);
            lemma_gap_of_after(self.head.value, n0 - n);
            assert(self.items() =~= old(self)@.skip(n as int));
        }
        out
    }

    /// The capacity of the queue.
    pub fn capacity(&self) -> (r: usize)
        ensures
            r == CAP,
    {
        CAP
    }

    /// The number of values in the queue, which never exceeds its capacity.
    pub fn len(&self) -> (r: usize)
        requires
            self.wf(),
        ensures
            r == self@.len(),
            r <= CAP,
    {
        let head = self.head.value;
        let tail = self.tail.value;
        tickets_between(tail, head)
    }

    /// Whether the queue holds no value.
    pub fn is_empty(&self) -> (r: bool)
        requires
            self.wf(),
        ensures
            r == (self@.len() == 0),
    {
        self.len() == 0
    }

    /// A well-formed queue never holds more values than its capacity, and its
    /// capacity is a power of two.
    pub proof fn law_len_at_most_capacity(&self)
        requires
            self.wf(),
        ensures
            self@.len() <= CAP,
            CAP > 0,
            is_power_of_two(CAP as int),
    {
    }
}

impl<T, const CAP: usize> View for Queue<T, CAP> {
    type V = Seq<T>;

    open spec fn view(&self) -> Seq<T> {
        self.items()
    }
}

} // verus!
