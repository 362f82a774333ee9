use firewall::constants::MAX_ENQUEUED_PACKETS;
use firewall::queue::FrameQueue;

#[test]
fn queue_is_first_in_first_out() {
    let mut q = FrameQueue::new();
    assert!(q.is_empty());
    assert!(q.push(vec![1]));
    assert!(q.push(vec![2, 2]));
    assert_eq!(q.len(), 2);
    assert_eq!(q.pop(), Some(vec![1]));
    assert_eq!(q.pop(), Some(vec![2, 2]));
    assert_eq!(q.pop(), None);
}

#[test]
fn push_on_full_queue_is_discarded() {
    let mut q = FrameQueue::new();
    for i in 0..MAX_ENQUEUED_PACKETS {
        assert!(q.push(vec![i as u8]));
    }
    assert!(!q.push(vec![0xee]));
    assert_eq!(q.len(), MAX_ENQUEUED_PACKETS);
    assert_eq!(q.pop(), Some(vec![0]));
}

#[test]
fn enqueue_all_stops_at_capacity() {
    let mut q = FrameQueue::new();
    for _ in 0..MAX_ENQUEUED_PACKETS - 2 {
        q.push(vec![0]);
    }
    q.enqueue_all(vec![vec![1], vec![2], vec![3]]);
    assert_eq!(q.len(), MAX_ENQUEUED_PACKETS);
    for _ in 0..MAX_ENQUEUED_PACKETS - 2 {
        assert_eq!(q.pop(), Some(vec![0]));
    }
    assert_eq!(q.pop(), Some(vec![1]));
    assert_eq!(q.pop(), Some(vec![2]));
    assert_eq!(q.pop(), None);
}

#[test]
fn enqueue_all_keeps_order() {
    let mut q = FrameQueue::new();
    q.push(vec![9]);
    q.enqueue_all(vec![vec![1], vec![2], vec![3]]);
    q.enqueue_all(Vec::new());
    assert_eq!(q.pop(), Some(vec![9]));
    assert_eq!(q.pop(), Some(vec![1]));
    assert_eq!(q.pop(), Some(vec![2]));
    assert_eq!(q.pop(), Some(vec![3]));
    assert!(q.is_empty());
}
