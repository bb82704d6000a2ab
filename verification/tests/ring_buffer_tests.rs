use tg_rcore::ring_buffer::{OverflowStrategy, RingBuffer};

#[test]
fn ring_buffer_is_fifo() {
    let mut rb: RingBuffer<u8, 4> = RingBuffer::new(OverflowStrategy::DropNewest);
    assert!(rb.is_empty());
    assert_eq!(rb.push(1), Ok(()));
    assert_eq!(rb.push(2), Ok(()));
    assert_eq!(rb.pop(), Some(1));
    assert_eq!(rb.pop(), Some(2));
    assert_eq!(rb.pop(), None);
}

#[test]
fn ring_buffer_drop_newest_rejects_when_full() {
    let mut rb: RingBuffer<u32, 2> = RingBuffer::new(OverflowStrategy::DropNewest);
    assert_eq!(rb.push(10), Ok(()));
    assert_eq!(rb.push(20), Ok(()));
    assert!(rb.is_full());
    assert_eq!(rb.push(30), Err(30));
    assert_eq!(rb.pop(), Some(10));
    assert_eq!(rb.pop(), Some(20));
    assert!(rb.is_empty());
}

#[test]
fn ring_buffer_drop_oldest_overwrites() {
    let mut rb: RingBuffer<u32, 2> = RingBuffer::new(OverflowStrategy::DropOldest);
    assert_eq!(rb.push(1), Ok(()));
    assert_eq!(rb.push(2), Ok(()));
    assert_eq!(rb.push(3), Ok(()));
    assert!(rb.is_full());
    assert_eq!(rb.pop(), Some(2));
    assert_eq!(rb.pop(), Some(3));
    assert_eq!(rb.pop(), None);
}

#[test]
fn ring_buffer_wraps_around_many_times() {
    let mut rb: RingBuffer<u16, 3> = RingBuffer::new(OverflowStrategy::DropNewest);
    for i in 0..10u16 {
        assert_eq!(rb.push(i), Ok(()));
        assert_eq!(rb.pop(), Some(i));
    }
    assert!(rb.is_empty());
    assert!(!rb.is_full());
}
