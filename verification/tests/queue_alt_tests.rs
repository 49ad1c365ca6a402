use brackets::queue_alt::{LinkedQueue, RingBufferQueue};

#[test]
fn queue_alt_ring_buffer_basic_operations() {
    let mut queue = RingBufferQueue::with_capacity(3);

    // Test empty queue state
    assert!(queue.is_empty());
    assert_eq!(queue.len(), 0);
    assert_eq!(queue.capacity(), 3);
    assert!(queue.dequeue().is_none());
    assert!(queue.peek().is_none());

    // Test enqueue operations
    assert!(queue.enqueue(1).is_ok());
    assert!(queue.enqueue(2).is_ok());
    assert!(!queue.is_empty());
    assert_eq!(queue.len(), 2);

    // Test peek functionality
    assert_eq!(queue.peek(), Some(&1));
    assert_eq!(queue.len(), 2); // peek doesn't change length

    // Test dequeue operations and FIFO ordering
    assert_eq!(queue.dequeue(), Some(1));
    assert_eq!(queue.dequeue(), Some(2));
    assert!(queue.is_empty());
    assert!(queue.dequeue().is_none());
}

#[test]
fn queue_alt_ring_buffer_wrap_around() {
    let mut queue = RingBufferQueue::with_capacity(3);

    // Fill to capacity
    assert!(queue.enqueue(1).is_ok());
    assert!(queue.enqueue(2).is_ok());
    assert!(queue.enqueue(3).is_ok());
    assert!(queue.is_full());

    // Test overflow behavior - should return the value that couldn't be inserted
    assert_eq!(queue.enqueue(4), Err(4));

    // Create space and test wrap-around
    assert_eq!(queue.dequeue(), Some(1));
    assert!(queue.enqueue(4).is_ok());

    // Verify FIFO order is maintained through wrap-around
    assert_eq!(queue.dequeue(), Some(2));
    assert_eq!(queue.dequeue(), Some(3));
    assert_eq!(queue.dequeue(), Some(4));
    assert!(queue.is_empty());
}

#[test]
fn queue_alt_linked_queue_basic_operations() {
    let mut queue = LinkedQueue::new();

    // Test empty queue state
    assert!(queue.is_empty());
    assert_eq!(queue.len(), 0);
    assert!(queue.dequeue().is_none());
    assert!(queue.peek().is_none());

    // Test enqueue operations - no capacity limit
    queue.enqueue("first");
    queue.enqueue("second");
    assert!(!queue.is_empty());
    assert_eq!(queue.len(), 2);

    // Test peek functionality
    assert_eq!(queue.peek(), Some(&"first"));
    assert_eq!(queue.len(), 2); // peek doesn't change length

    // Test dequeue operations and FIFO ordering
    assert_eq!(queue.dequeue(), Some("first"));
    assert_eq!(queue.dequeue(), Some("second"));
    assert!(queue.is_empty());
    assert!(queue.dequeue().is_none());
}

#[test]
fn queue_alt_linked_queue_large_sequence() {
    let mut queue = LinkedQueue::new();

    // Enqueue a large number of elements
    for i in 0..1000 {
        queue.enqueue(i);
    }
    assert_eq!(queue.len(), 1000);

    // Dequeue all elements and verify FIFO order
    for i in 0..1000 {
        assert_eq!(queue.dequeue(), Some(i));
    }
    assert!(queue.is_empty());
}
