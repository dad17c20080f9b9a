use delay_effects::ring_buffer::RingBuffer;

#[test]
fn test_initialization_and_capacity() {
    let buffer: RingBuffer<i32> = RingBuffer::new(5);
    assert_eq!(buffer.capacity(), 5);
    assert_eq!(buffer.len(), 0);
}

#[test]
fn test_push_and_size() {
    let mut buffer = RingBuffer::new(3);
    buffer.push(1);
    buffer.push(2);
    assert_eq!(buffer.len(), 2);
    buffer.push(3);
    assert_eq!(buffer.len(), 3);

    buffer.push(4);
    assert_eq!(buffer.len(), 3);
}

#[test]
fn test_pop() {
    let mut buffer = RingBuffer::new(3);
    buffer.push(1);
    buffer.push(2);
    buffer.push(3);
    assert_eq!(buffer.pop(), 1);
    assert_eq!(buffer.len(), 2);
    assert_eq!(buffer.pop(), 2);
    assert_eq!(buffer.pop(), 3);

    assert_eq!(buffer.pop(), 0);
}

#[test]
fn test_overwrite() {
    let mut buffer = RingBuffer::new(2);
    buffer.push(1);
    buffer.push(2);

    buffer.push(3);
    assert_eq!(buffer.pop(), 2);
    assert_eq!(buffer.pop(), 3);
}

#[test]
fn test_wrap_around() {
    let mut buffer = RingBuffer::new(3);
    for i in 1..=5 {
        buffer.push(i);
    }

    assert_eq!(buffer.pop(), 3);
    assert_eq!(buffer.pop(), 4);
    assert_eq!(buffer.pop(), 5);
}

#[test]
fn test_get_with_offset() {
    let mut buffer = RingBuffer::new(5);
    for i in 0..5 {
        buffer.push(i);
    }

    assert_eq!(buffer.get(0), 0);
    assert_eq!(buffer.get(4), 4);

    buffer.push(5);
    assert_eq!(buffer.get(0), 1);
    assert_eq!(buffer.get(4), 5);
}
