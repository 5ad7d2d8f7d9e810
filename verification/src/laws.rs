//! Laws of the queue, stated over its contents `q@`.
//!
//! A single `send` appends to the contents and a single `recv` takes the
//! first element off them (see their contracts). `sends` and `receives`
//! repeat those two steps, so the laws below speak of any sequence of sends
//! and receives.
use vstd::prelude::*;

verus! {

/// The contents after sending the values of `xs` one at a time, in order,
/// into a queue holding `s`.
pub open spec fn sends<T>(s: Seq<T>, xs: Seq<T>) -> Seq<T>
    decreases xs.len(),
{
    if xs.len() == 0 {
        s
    } else {
        sends(s.push(xs[0]), xs.drop_first())
    }
}

/// The values received, and the contents left, after receiving `n` values
/// one at a time from a queue holding `s`.
pub open spec fn receives<T>(s: Seq<T>, n: nat) -> (Seq<T>, Seq<T>)
    decreases n,
{
    if n == 0 {
        (Seq::empty(), s)
    } else {
        let rest = receives(s.drop_first(), (n - 1) as nat);
        (seq![s[0]] + rest.0, rest.1)
    }
}

/// Sending a batch has the effect of sending its values one at a time, in
/// order: `send_batch(xs)` on contents `s` leaves `s + xs`, which is what
/// `xs.len()` calls of `send` leave.
pub proof fn law_send_batch_is_repeated_send<T>(s: Seq<T>, xs: Seq<T>)
    ensures
        sends(s, xs) == s + xs,
    decreases xs.len(),
{
    if xs.len() == 0 {
        assert(s + xs =~= s);
    } else {
        law_send_batch_is_repeated_send(s.push(xs[0]), xs.drop_first());
        assert(s.push(xs[0]) + xs.drop_first() =~= s + xs);
    }
}

/// Receiving a batch of `n` values has the effect of receiving them one at a
/// time: `recv_batch(n)` on contents `s` returns `s.take(n)` and leaves
/// `s.skip(n)`, which is what `n` calls of `recv` return and leave.
pub proof fn law_recv_batch_is_repeated_recv<T>(s: Seq<T>, n: nat)
    requires
        n <= s.len(),
    ensures
        receives(s, n) == (s.take(n as int), s.skip(n as int)),
    decreases n,
{
    if n == 0 {
        assert(s.take(0) =~= Seq::<T>::empty());
        assert(s.skip(0) =~= s);
    } else {
        law_recv_batch_is_repeated_recv(s.drop_first(), (n - 1) as nat);
        assert(seq![s[0]] + s.drop_first().take(n - 1) =~= s.take(n as int));
        assert(s.drop_first().skip(n - 1) =~= s.skip(n as int));
    }
}

/// First in, first out: after values `xs` are sent into a queue holding `s`,
/// receiving everything yields the values of `s` and then those of `xs`, each
/// in the order it was sent, and leaves the queue empty.
pub proof fn law_fifo<T>(s: Seq<T>, xs: Seq<T>)
    ensures
        receives(sends(s, xs), s.len() + xs.len()) == (s + xs, Seq::<T>::empty()),
{
    law_send_batch_is_repeated_send(s, xs);
    law_recv_batch_is_repeated_recv(s + xs, s.len() + xs.len());
    assert((s + xs).take((s.len() + xs.len()) as int) =~= s + xs);
    assert((s + xs).skip((s.len() + xs.len()) as int) =~= Seq::<T>::empty());
}

/// A value sent into an empty queue is the value the next receive returns,
/// and that receive leaves the queue empty again.
pub proof fn law_send_then_recv<T>(v: T)
    ensures
        receives(sends(Seq::<T>::empty(), seq![v]), 1) == (seq![v], Seq::<T>::empty()),
{
    law_fifo(Seq::<T>::empty(), seq![v]);
    assert(Seq::<T>::empty() + seq![v] =~= seq![v]);
}

} // verus!
