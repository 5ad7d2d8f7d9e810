use std::cell::Cell;
use std::rc::Rc;
use turbo_mpmc::{Queue, RecvError, SendError};

#[test]
fn smoke() {
    let mut q = Queue::<i32, 8>::new();
    q.send(42);
    assert_eq!(q.recv(), 42);
}

#[test]
fn try_send_try_recv() {
    let mut q = Queue::<i32, 4>::new();
    assert!(q.try_recv().is_err());
    for i in 0..4 {
        assert!(q.try_send(i).is_ok());
    }
    assert!(q.try_send(99).is_err());
    for _ in 0..4 {
        assert!(q.try_recv().is_ok());
    }
    assert!(q.try_recv().is_err());
}

#[test]
fn batch_roundtrip() {
    let mut q = Queue::<usize, 64>::new();
    q.send_batch(vec![1, 2, 3, 4]);
    let v = q.recv_batch(4);
    assert_eq!(v, vec![1, 2, 3, 4]);
}

#[test]
fn test_basic_send_recv() {
    let mut queue = Queue::<i32, 8>::new();

    queue.send(42);
    assert_eq!(queue.recv(), 42);
}

#[test]
fn test_fifo_order() {
    let mut queue = Queue::<i32, 16>::new();

    for i in 0..10 {
        queue.send(i);
    }

    for i in 0..10 {
        assert_eq!(queue.recv(), i);
    }
}

#[test]
fn test_full_queue() {
    let mut queue = Queue::<i32, 4>::new();

    for i in 0..4 {
        assert!(queue.try_send(i).is_ok());
    }

    assert_eq!(queue.try_send(99), Err(SendError(99)));
}

#[test]
fn test_empty_queue() {
    let mut queue = Queue::<i32, 4>::new();
    assert_eq!(queue.try_recv(), Err(RecvError));
}

#[test]
fn test_capacity() {
    let queue = Queue::<i32, 1024>::new();
    assert_eq!(queue.capacity(), 1024);
}

#[test]
fn test_len_and_empty() {
    let mut queue = Queue::<i32, 8>::new();

    assert!(queue.is_empty());
    assert_eq!(queue.len(), 0);

    queue.send(1);
    queue.send(2);

    assert!(!queue.is_empty());
    assert!(queue.len() > 0);
}

#[derive(Debug)]
struct DropCounter(Rc<Cell<usize>>);

impl Drop for DropCounter {
    fn drop(&mut self) {
        self.0.set(self.0.get() + 1);
    }
}

#[test]
fn test_drop_elements() {
    let drops = Rc::new(Cell::new(0usize));
    {
        let mut queue = Queue::<DropCounter, 8>::new();
        for _ in 0..5 {
            queue.try_send(DropCounter(drops.clone())).unwrap();
        }
    }

    assert_eq!(drops.get(), 5);
}

#[test]
fn test_alternating_send_recv() {
    let mut queue = Queue::<i32, 4>::new();

    for i in 0..100 {
        queue.try_send(i).unwrap();
        assert_eq!(queue.try_recv().unwrap(), i);
    }
}

#[test]
fn test_wrap_around() {
    let mut queue = Queue::<usize, 8>::new();

    for round in 0..10 {
        for i in 0..8 {
            queue.try_send(round * 100 + i).unwrap();
        }
        for i in 0..8 {
            assert_eq!(queue.try_recv().unwrap(), round * 100 + i);
        }
    }
}

#[test]
fn test_send_error_returns_value() {
    let mut queue = Queue::<String, 2>::new();

    queue.try_send("first".to_string()).unwrap();
    queue.try_send("second".to_string()).unwrap();

    let result = queue.try_send("third".to_string());
    match result {
        Err(SendError(value)) => {
            assert_eq!(value, "third");
        }
        _ => panic!("Expected SendError"),
    }
}
