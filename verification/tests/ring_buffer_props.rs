use cyma::ring_buffer::RingBuffer;

/// Oldest-surviving invariant: after `k > n` enqueues into a buffer of
/// capacity `n`, the length is `n` and index 0 holds the `(k - n)`-th
/// enqueued element (0-indexed).
#[test]
fn oldest_surviving_after_overflow() {
    let n: usize = 3;
    let values: [i64; 5] = [10, 20, 30, 40, 50];
    let mut buf = RingBuffer::new(n, 0i64);
    for v in values {
        buf.enqueue(v);
    }
    assert_eq!(buf.len(), n);
    // k - n = 5 - 3 = 2: the oldest surviving element is values[2].
    assert_eq!(buf.index(0), values[2]);
    assert_eq!(buf.index(1), values[3]);
    assert_eq!(buf.index(2), values[4]);
}

/// Filling exactly to capacity keeps every element in order.
#[test]
fn fill_phase_keeps_order() {
    let mut buf = RingBuffer::new(4, 0i64);
    buf.enqueue(1);
    buf.enqueue(2);
    assert_eq!(buf.len(), 2);
    assert_eq!(buf.index(0), 1);
    assert_eq!(buf.index(1), 2);
    assert_eq!(buf.peek(), 2);
}

/// Clear resets every slot to the fill value and keeps the length.
#[test]
fn clear_fills_and_keeps_length() {
    let mut buf = RingBuffer::new(4, 7i64);
    buf.enqueue(100);
    buf.enqueue(200);
    buf.enqueue(300);
    let len_before = buf.len();
    buf.clear();
    assert_eq!(buf.len(), len_before);
    for i in 0..buf.len() {
        assert_eq!(buf.index(i), 7);
    }
}

/// Grow followed by shrink to the same capacity leaves an empty buffer
/// of that capacity, matching a fresh construction.
#[test]
fn grow_then_shrink_matches_fresh() {
    let mut buf = RingBuffer::new(4, 0i64);
    buf.enqueue(5);
    buf.enqueue(6);
    buf.grow(6);
    buf.shrink(6);
    let fresh = RingBuffer::new(6, 0i64);
    assert_eq!(buf.len(), fresh.len());
    assert_eq!(buf.len(), 0);
    assert_eq!(buf.capacity(), 6);
    assert_eq!(fresh.capacity(), 6);
}

/// Chronological writes land at the chronological index.
#[test]
fn set_index_replaces_element() {
    let mut buf = RingBuffer::new(2, 0i64);
    buf.enqueue(1);
    buf.enqueue(2);
    buf.enqueue(3); // overwrites the oldest; contents now [2, 3]
    buf.set_index(0, 9);
    assert_eq!(buf.index(0), 9);
    assert_eq!(buf.index(1), 3);
    assert_eq!(buf.to_vec(), vec![9, 3]);
}

/// The forward iteration yields the valid elements oldest first;
/// walking it backwards is the reverse iteration.
#[test]
fn to_vec_is_chronological() {
    let mut buf = RingBuffer::new(3, 0i64);
    for v in [1i64, 2, 3, 4] {
        buf.enqueue(v);
    }
    let forward = buf.to_vec();
    assert_eq!(forward, vec![2, 3, 4]);
    let reverse: Vec<i64> = forward.iter().rev().copied().collect();
    assert_eq!(reverse, vec![4, 3, 2]);
}

/// A buffer of capacity one holds exactly the newest element.
#[test]
fn capacity_one_keeps_newest() {
    let mut buf = RingBuffer::new(1, 0i64);
    assert_eq!(buf.len(), 0);
    buf.enqueue(4);
    buf.enqueue(5);
    assert_eq!(buf.len(), 1);
    assert_eq!(buf.index(0), 5);
    assert_eq!(buf.peek(), 5);
}
