use turbo_mpmc::{backoff, Queue, RecvError, SendError, WaitStep, SPIN_LIMIT};

#[test]
fn fifo_keeps_order_of_existing_and_new_values() {
    let mut q = Queue::<u32, 8>::new();
    q.send(1);
    q.send(2);
    q.send_batch(vec![3, 4, 5]);
    let mut got = Vec::new();
    while !q.is_empty() {
        got.push(q.recv());
    }
    assert_eq!(got, vec![1, 2, 3, 4, 5]);
    assert_eq!(q.try_recv(), Err(RecvError));
}

#[test]
fn send_batch_matches_repeated_send() {
    let mut a = Queue::<u32, 16>::new();
    let mut b = Queue::<u32, 16>::new();
    a.send(7);
    b.send(7);
    a.send_batch(vec![10, 20, 30]);
    for v in [10, 20, 30] {
        b.send(v);
    }
    assert_eq!(a.len(), b.len());
    assert_eq!(a.recv_batch(4), b.recv_batch(4));
}

#[test]
fn recv_batch_matches_repeated_recv() {
    let mut a = Queue::<u32, 8>::new();
    let mut b = Queue::<u32, 8>::new();
    a.send_batch(vec![1, 2, 3, 4, 5]);
    b.send_batch(vec![1, 2, 3, 4, 5]);
    let batch = a.recv_batch(3);
    let single = vec![b.recv(), b.recv(), b.recv()];
    assert_eq!(batch, single);
    assert_eq!(a.len(), 2);
    assert_eq!(b.len(), 2);
    assert_eq!(a.recv(), 4);
    assert_eq!(b.recv(), 4);
}

#[test]
fn send_then_recv_restores_empty_queue() {
    let mut q = Queue::<String, 4>::new();
    q.send("x".to_string());
    assert_eq!(q.recv(), "x");
    assert!(q.is_empty());
    assert_eq!(q.len(), 0);
}

#[test]
fn empty_batches_change_nothing() {
    let mut q = Queue::<u8, 4>::new();
    q.send(9);
    q.send_batch(Vec::new());
    assert_eq!(q.recv_batch(0), Vec::<u8>::new());
    assert_eq!(q.len(), 1);
    assert_eq!(q.recv(), 9);
}

#[test]
fn len_never_exceeds_capacity() {
    let mut q = Queue::<u8, 4>::new();
    for i in 0..10u8 {
        let _ = q.try_send(i);
        assert!(q.len() <= q.capacity());
    }
    assert_eq!(q.len(), 4);
    assert_eq!(q.recv_batch(4), vec![0, 1, 2, 3]);
}

#[test]
fn failed_send_leaves_queue_unchanged() {
    let mut q = Queue::<u8, 2>::new();
    q.send_batch(vec![1, 2]);
    assert_eq!(q.try_send(3), Err(SendError(3)));
    assert_eq!(q.len(), 2);
    assert_eq!(q.recv_batch(2), vec![1, 2]);
}

#[test]
fn capacity_one_queue() {
    let mut q = Queue::<u8, 1>::new();
    for i in 0..5u8 {
        assert_eq!(q.try_send(i), Ok(()));
        assert_eq!(q.try_send(100), Err(SendError(100)));
        assert_eq!(q.try_recv(), Ok(i));
        assert_eq!(q.try_recv(), Err(RecvError));
    }
}

#[test]
fn batches_wrap_around_the_ring() {
    let mut q = Queue::<u32, 4>::new();
    for round in 0..20u32 {
        q.send_batch(vec![round, round + 1, round + 2]);
        assert_eq!(q.recv_batch(3), vec![round, round + 1, round + 2]);
    }
    q.send(1);
    q.send_batch(vec![2, 3, 4]);
    assert_eq!(q.recv_batch(4), vec![1, 2, 3, 4]);
}

#[test]
fn error_messages() {
    assert_eq!(SendError(5u8).to_string(), "queue is full");
    assert_eq!(RecvError.to_string(), "queue is empty");
}

#[test]
fn backoff_spins_below_limit() {
    assert_eq!(backoff(0), (1, WaitStep::Spin));
    assert_eq!(backoff(63), (64, WaitStep::Spin));
}

#[test]
fn backoff_yields_from_limit() {
    assert_eq!(backoff(64), (64, WaitStep::Yield));
    assert_eq!(backoff(usize::MAX), (usize::MAX, WaitStep::Yield));
}

#[test]
fn backoff_spins_limit_times_then_yields() {
    let mut spin = 0usize;
    for k in 0..200usize {
        let (next, step) = backoff(spin);
        if k < SPIN_LIMIT {
            assert_eq!(step, WaitStep::Spin);
        } else {
            assert_eq!(step, WaitStep::Yield);
        }
        spin = next;
        assert!(spin <= SPIN_LIMIT);
    }
    assert_eq!(spin, SPIN_LIMIT);
}
