use brackets::queue::{LinkedQueue, RingBufferQueue};

#[test]
fn queue_ring_buffer_basic_operations() {
    let mut queue = RingBufferQueue::with_capacity(3);

    // Test empty queue
    assert!(queue.is_empty());
    assert!(!queue.is_full());
    assert_eq!(queue.len(), 0);
    assert_eq!(queue.capacity(), 3);
    assert_eq!(queue.dequeue(), None);
    assert_eq!(queue.peek(), None);

    // Test enqueue
    assert!(queue.enqueue(1).is_ok());
    assert_eq!(queue.len(), 1);
    assert!(!queue.is_empty());
    assert_eq!(queue.peek(), Some(&1));

    // Fill queue
    assert!(queue.enqueue(2).is_ok());
    assert!(queue.enqueue(3).is_ok());
    assert!(queue.is_full());
    assert_eq!(queue.len(), 3);

    // Test full queue
    assert_eq!(queue.enqueue(4), Err(4));
    assert_eq!(queue.len(), 3);

    // Test dequeue FIFO order
    assert_eq!(queue.dequeue(), Some(1));
    assert_eq!(queue.dequeue(), Some(2));
    assert_eq!(queue.len(), 1);
    assert!(!queue.is_full());

    // Test wrap-around
    assert!(queue.enqueue(4).is_ok());
    assert!(queue.enqueue(5).is_ok());
    assert_eq!(queue.dequeue(), Some(3));
    assert_eq!(queue.dequeue(), Some(4));
    assert_eq!(queue.dequeue(), Some(5));
    assert!(queue.is_empty());
}

#[test]
fn queue_linked_queue_basic_operations() {
    let mut queue = LinkedQueue::new();

    // Test empty queue
    assert!(queue.is_empty());
    assert_eq!(queue.len(), 0);
    assert_eq!(queue.dequeue(), None);
    assert_eq!(queue.peek(), None);

    // Test enqueue
    queue.enqueue(1);
    assert_eq!(queue.len(), 1);
    assert!(!queue.is_empty());
    assert_eq!(queue.peek(), Some(&1));

    // Test multiple enqueue
    queue.enqueue(2);
    queue.enqueue(3);
    assert_eq!(queue.len(), 3);

    // Test dequeue FIFO order
    assert_eq!(queue.dequeue(), Some(1));
    assert_eq!(queue.dequeue(), Some(2));
    assert_eq!(queue.len(), 1);

    // Test mixed operations
    queue.enqueue(4);
    assert_eq!(queue.dequeue(), Some(3));
    assert_eq!(queue.dequeue(), Some(4));
    assert!(queue.is_empty());
}

#[test]
fn queue_ring_buffer_wrap_around() {
    let mut queue = RingBufferQueue::with_capacity(2);

    // Fill and empty multiple times to test wrap-around
    for cycle in 0..3 {
        assert!(queue.enqueue(cycle * 2).is_ok());
        assert!(queue.enqueue(cycle * 2 + 1).is_ok());
        assert!(queue.is_full());

        assert_eq!(queue.dequeue(), Some(cycle * 2));
        assert_eq!(queue.dequeue(), Some(cycle * 2 + 1));
        assert!(queue.is_empty());
    }
}

#[test]
fn queue_linked_queue_large_sequence() {
    let mut queue = LinkedQueue::new();

    // Test with larger sequence to ensure memory management works
    for i in 0..100 {
        queue.enqueue(i);
    }
    assert_eq!(queue.len(), 100);

    for i in 0..50 {
        assert_eq!(queue.dequeue(), Some(i));
    }
    assert_eq!(queue.len(), 50);

    // Add more while some remain
    for i in 100..150 {
        queue.enqueue(i);
    }
    assert_eq!(queue.len(), 100);

    // Drain remaining
    for i in 50..100 {
        assert_eq!(queue.dequeue(), Some(i));
    }
    for i in 100..150 {
        assert_eq!(queue.dequeue(), Some(i));
    }
    assert!(queue.is_empty());
}

#[test]
fn ring_buffer_enqueue_overwrite_basic() {
    let mut queue = RingBufferQueue::with_capacity(3);

    // Test normal enqueue when not full
    assert_eq!(queue.enqueue_overwrite(1), None);
    assert_eq!(queue.enqueue_overwrite(2), None);
    assert_eq!(queue.enqueue_overwrite(3), None);
    assert_eq!(queue.len(), 3);
    assert!(queue.is_full());

    // Test overwrite when full
    assert_eq!(queue.enqueue_overwrite(4), Some(1)); // Overwrote 1
    assert_eq!(queue.len(), 3); // Still full
    assert_eq!(queue.enqueue_overwrite(5), Some(2)); // Overwrote 2
    assert_eq!(queue.enqueue_overwrite(6), Some(3)); // Overwrote 3

    // Verify FIFO order of remaining elements
    assert_eq!(queue.dequeue(), Some(4));
    assert_eq!(queue.dequeue(), Some(5));
    assert_eq!(queue.dequeue(), Some(6));
    assert!(queue.is_empty());
}

#[test]
fn ring_buffer_enqueue_overwrite_single_capacity() {
    let mut queue = RingBufferQueue::with_capacity(1);

    // First element goes in normally
    assert_eq!(queue.enqueue_overwrite(1), None);
    assert_eq!(queue.len(), 1);
    assert!(queue.is_full());

    // Subsequent elements overwrite
    assert_eq!(queue.enqueue_overwrite(2), Some(1));
    assert_eq!(queue.enqueue_overwrite(3), Some(2));
    assert_eq!(queue.enqueue_overwrite(4), Some(3));

    // Only the last element remains
    assert_eq!(queue.dequeue(), Some(4));
    assert!(queue.is_empty());
}

#[test]
fn ring_buffer_enqueue_overwrite_mixed_operations() {
    let mut queue = RingBufferQueue::with_capacity(4);

    // Fill queue normally
    assert_eq!(queue.enqueue_overwrite(1), None);
    assert_eq!(queue.enqueue_overwrite(2), None);
    assert_eq!(queue.enqueue_overwrite(3), None);
    assert_eq!(queue.enqueue_overwrite(4), None);

    // Dequeue some elements
    assert_eq!(queue.dequeue(), Some(1));
    assert_eq!(queue.dequeue(), Some(2));
    assert_eq!(queue.len(), 2);

    // Add more elements (should not overwrite since space available)
    assert_eq!(queue.enqueue_overwrite(5), None);
    assert_eq!(queue.enqueue_overwrite(6), None);
    assert!(queue.is_full());

    // Now overwrite again
    assert_eq!(queue.enqueue_overwrite(7), Some(3)); // Overwrote 3
    assert_eq!(queue.enqueue_overwrite(8), Some(4)); // Overwrote 4

    // Verify final order
    assert_eq!(queue.dequeue(), Some(5));
    assert_eq!(queue.dequeue(), Some(6));
    assert_eq!(queue.dequeue(), Some(7));
    assert_eq!(queue.dequeue(), Some(8));
    assert!(queue.is_empty());
}

#[test]
fn ring_buffer_enqueue_overwrite_wrap_around() {
    let mut queue = RingBufferQueue::with_capacity(3);

    // Fill queue completely
    assert_eq!(queue.enqueue_overwrite(1), None);
    assert_eq!(queue.enqueue_overwrite(2), None);
    assert_eq!(queue.enqueue_overwrite(3), None);
    assert!(queue.is_full());

    // Now test multiple overwrite cycles to ensure wrap-around works
    assert_eq!(queue.enqueue_overwrite(4), Some(1)); // [2, 3, 4]
    assert_eq!(queue.enqueue_overwrite(5), Some(2)); // [3, 4, 5]
    assert_eq!(queue.enqueue_overwrite(6), Some(3)); // [4, 5, 6]

    // Verify the queue wrapped around correctly
    assert_eq!(queue.dequeue(), Some(4));
    assert_eq!(queue.dequeue(), Some(5));
    assert_eq!(queue.dequeue(), Some(6));
    assert!(queue.is_empty());

    // Test wrap-around after partial operations
    queue.enqueue_overwrite(10);
    queue.enqueue_overwrite(20);
    assert_eq!(queue.dequeue(), Some(10)); // Partial drain

    // Fill again
    queue.enqueue_overwrite(30);
    queue.enqueue_overwrite(40); // Should fill without overwrite
    assert_eq!(queue.len(), 3);

    // Now overwrite should happen
    assert_eq!(queue.enqueue_overwrite(50), Some(20)); // Overwrote 20
    assert_eq!(queue.dequeue(), Some(30));
    assert_eq!(queue.dequeue(), Some(40));
    assert_eq!(queue.dequeue(), Some(50));
}

#[test]
fn ring_buffer_enqueue_overwrite_maintains_peek() {
    let mut queue = RingBufferQueue::with_capacity(2);

    // Fill queue
    queue.enqueue_overwrite(1);
    queue.enqueue_overwrite(2);
    assert_eq!(queue.peek(), Some(&1));

    // Overwrite - peek should now show the new front
    assert_eq!(queue.enqueue_overwrite(3), Some(1));
    assert_eq!(queue.peek(), Some(&2)); // 2 is now at front

    assert_eq!(queue.enqueue_overwrite(4), Some(2));
    assert_eq!(queue.peek(), Some(&3)); // 3 is now at front

    // Verify by dequeuing
    assert_eq!(queue.dequeue(), Some(3));
    assert_eq!(queue.dequeue(), Some(4));
}

#[test]
fn ring_buffer_enqueue_overwrite_type_safety() {
    // Test with different types to ensure generic implementation works
    let mut string_queue = RingBufferQueue::with_capacity(2);
    assert_eq!(string_queue.enqueue_overwrite("first".to_string()), None);
    assert_eq!(string_queue.enqueue_overwrite("second".to_string()), None);
    assert_eq!(
        string_queue.enqueue_overwrite("third".to_string()),
        Some("first".to_string())
    );

    let mut option_queue = RingBufferQueue::with_capacity(2);
    assert_eq!(option_queue.enqueue_overwrite(Some(1)), None);
    assert_eq!(option_queue.enqueue_overwrite(None), None);
    assert_eq!(option_queue.enqueue_overwrite(Some(2)), Some(Some(1)));
}
