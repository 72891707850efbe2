use std::time::Duration;

use streamline::channel::{BackpressurePolicy, Offer, Pipe, SendResult, DEFAULT_CAPACITY};

const BLOCK: BackpressurePolicy = BackpressurePolicy::Block { timeout: Duration::from_millis(20) };

#[test]
fn items_come_out_in_order() {
    let (tx, rx) = Pipe::<u32>::new(4).split();
    for i in 0..4 {
        assert_eq!(tx.send(i, BackpressurePolicy::Drop), Ok(()));
    }
    assert_eq!(rx.try_recv(), Some(0));
    assert_eq!(rx.recv(), Some(1));
    assert_eq!(rx.recv_timeout(Duration::from_millis(5)), Some(2));
    assert_eq!(rx.try_recv(), Some(3));
    assert_eq!(rx.try_recv(), None);
}

#[test]
fn a_full_pipe_gives_the_item_back() {
    let (tx, rx) = Pipe::<u32>::new(1).split();
    assert_eq!(tx.send(1, BackpressurePolicy::Drop), Ok(()));
    assert!(tx.is_full());
    assert_eq!(tx.send(2, BackpressurePolicy::Drop), Err(2));
    assert_eq!(tx.send(3, BLOCK), Err(3));
    assert!(matches!(tx.offer(4, BackpressurePolicy::Drop), Offer::Full(4)));
    assert!(matches!(tx.offer(5, BLOCK), Offer::Full(5)));
    assert_eq!(tx.deliver(6, BackpressurePolicy::Drop).result(), SendResult::Dropped);
    assert_eq!(rx.len(), 1);
    assert_eq!(rx.recv(), Some(1));
    assert_eq!(tx.send(7, BLOCK), Ok(()));
    assert_eq!(rx.recv(), Some(7));
}

#[test]
fn a_pipe_without_receiver_gives_the_item_back() {
    let (tx, rx) = Pipe::<u32>::new(2).split();
    drop(rx);
    assert_eq!(tx.send(1, BackpressurePolicy::Drop), Err(1));
    assert!(matches!(tx.offer(2, BackpressurePolicy::Drop), Offer::Disconnected(2)));
    assert!(matches!(tx.offer(3, BLOCK), Offer::Disconnected(3)));
    assert_eq!(tx.deliver(4, BLOCK).result(), SendResult::Disconnected);
}

#[test]
fn a_pipe_without_sender_is_drained_and_then_ends() {
    let (tx, rx) = Pipe::<u32>::new(2).split();
    let other = tx.clone();
    assert_eq!(other.send(1, BackpressurePolicy::Drop), Ok(()));
    drop(tx);
    drop(other);
    assert_eq!(rx.recv(), Some(1));
    assert_eq!(rx.recv(), None);
    assert_eq!(rx.recv_timeout(Duration::from_millis(1)), None);
}

#[test]
fn a_pipe_knows_its_size() {
    let (tx, rx) = Pipe::<u64>::new(DEFAULT_CAPACITY).split();
    assert_eq!(tx.capacity(), 1024);
    assert_eq!(tx.clone().capacity(), 1024);
    assert!(rx.is_empty());
    assert_eq!(tx.deliver(1, BackpressurePolicy::Drop).result(), SendResult::Sent);
    assert_eq!((tx.len(), rx.len()), (1, 1));
    assert!(!rx.is_empty());
    assert!(!tx.is_full());
}

#[test]
fn a_pipe_of_no_capacity_holds_nothing() {
    let (tx, rx) = Pipe::<u32>::new(0).split();
    assert_eq!(tx.capacity(), 0);
    assert!(tx.is_full());
    assert!(rx.is_empty());
    assert_eq!(tx.send(1, BackpressurePolicy::Drop), Err(1));
    assert_eq!(tx.len(), 0);
}

#[test]
fn a_capacity_beyond_memory_is_refused() {
    assert!(Pipe::<u64>::try_new(usize::MAX).is_none());
    assert!(Pipe::<u64>::try_new(usize::MAX / 32).is_none());
    assert!(Pipe::<u64>::try_new(16).is_some());
}
