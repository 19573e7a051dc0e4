use std::sync::atomic::{AtomicUsize, Ordering};
use std::sync::Arc;

use sproqet::fifo::RingBuffer;

#[test]
fn try_push_pop_roundtrip() {
    let mut r = RingBuffer::<u32>::new(4);
    assert_eq!(r.try_pop(), None);
    r.try_push(1).unwrap();
    r.try_push(2).unwrap();
    r.try_push(3).unwrap();
    r.try_push(4).unwrap();
    assert!(r.try_push(5).is_err()); // full
    assert_eq!(r.try_pop(), Some(1));
    assert_eq!(r.try_pop(), Some(2));
    r.try_push(5).unwrap();
    assert_eq!(r.try_pop(), Some(3));
    assert_eq!(r.try_pop(), Some(4));
    assert_eq!(r.try_pop(), Some(5));
    assert_eq!(r.try_pop(), None);
}

#[test]
fn full_push_hands_item_back() {
    let mut r = RingBuffer::<String>::new(1);
    r.try_push("a".to_string()).unwrap();
    assert_eq!(r.try_push("b".to_string()), Err("b".to_string()));
    assert_eq!(r.try_pop(), Some("a".to_string()));
}

#[test]
fn len_and_is_empty_follow_contents() {
    let mut r = RingBuffer::<u8>::new(3);
    assert!(r.is_empty());
    r.try_push(7).unwrap();
    r.try_push(8).unwrap();
    assert_eq!(r.len(), 2);
    assert_eq!(r.try_pop(), Some(7));
    assert_eq!(r.len(), 1);
    assert!(!r.is_empty());
}

#[test]
fn ring_wraps_around_in_order() {
    let mut r = RingBuffer::<u64>::new(3);
    for round in 0..10u64 {
        r.try_push(round * 2).unwrap();
        r.try_push(round * 2 + 1).unwrap();
        assert_eq!(r.len(), 2);
        assert_eq!(r.try_pop(), Some(round * 2));
        assert_eq!(r.try_pop(), Some(round * 2 + 1));
        assert!(r.is_empty());
    }
    assert_eq!(r.try_pop(), None);
}

struct Counted(Arc<AtomicUsize>);

impl Drop for Counted {
    fn drop(&mut self) {
        self.0.fetch_add(1, Ordering::SeqCst);
    }
}

#[test]
fn drop_drains_remaining_items() {
    let dropped = Arc::new(AtomicUsize::new(0));
    {
        let mut r = RingBuffer::<Counted>::new(8);
        assert!(r.try_push(Counted(dropped.clone())).is_ok());
        assert!(r.try_push(Counted(dropped.clone())).is_ok());
        assert!(r.try_push(Counted(dropped.clone())).is_ok());
    }
    assert_eq!(dropped.load(Ordering::SeqCst), 3);
}
