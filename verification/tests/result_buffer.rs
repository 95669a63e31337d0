use parallel_worker::internal::result_buffer::ResultBuffer;

#[test]
fn test_result_buffer() {
    let mut buffer = ResultBuffer::new();
    buffer.insert(1, 0);
    buffer.insert(2, 1);
    buffer.insert(3, 2);

    assert_eq!(buffer.get(), Some(1));
    assert_eq!(buffer.get(), Some(2));
    assert_eq!(buffer.get(), Some(3));
    assert_eq!(buffer.get(), None);
}

#[test]
fn test_result_buffer_with_gaps() {
    let mut buffer = ResultBuffer::new();
    buffer.insert(1, 0);
    buffer.insert(3, 2);
    buffer.insert(2, 1);

    assert_eq!(buffer.get(), Some(1));
    assert_eq!(buffer.get(), Some(2));
    assert_eq!(buffer.get(), Some(3));
    assert_eq!(buffer.get(), None);
}

#[test]
fn test_result_buffer_with_empty_slots() {
    let mut buffer = ResultBuffer::new();
    buffer.insert(1, 0);
    buffer.insert(3, 2);
    buffer.insert(2, 1);
    buffer.insert(5, 4);
    buffer.insert(4, 3);

    assert_eq!(buffer.get(), Some(1));
    assert_eq!(buffer.get(), Some(2));

    buffer.insert(7, 6);
    buffer.insert(6, 5);
    buffer.insert(9, 8);
    buffer.insert(8, 7);
    assert_eq!(buffer.get(), Some(3));
    buffer.insert(11, 10);
    buffer.insert(10, 9);
    buffer.insert(13, 12);
    buffer.insert(12, 11);
    assert_eq!(buffer.get(), Some(4));
    buffer.insert(14, 13);
    buffer.insert(16, 15);
    buffer.insert(15, 14);
    buffer.insert(17, 16);

    assert_eq!(buffer.get(), Some(5));
    assert_eq!(buffer.get(), Some(6));
    assert_eq!(buffer.get(), Some(7));
    assert_eq!(buffer.get(), Some(8));
    assert_eq!(buffer.get(), Some(9));
    assert_eq!(buffer.get(), Some(10));
    assert_eq!(buffer.get(), Some(11));
    assert_eq!(buffer.get(), Some(12));
    assert_eq!(buffer.get(), Some(13));
    assert_eq!(buffer.get(), Some(14));
    assert_eq!(buffer.get(), Some(15));
    assert_eq!(buffer.get(), Some(16));
    assert_eq!(buffer.get(), Some(17));

    assert_eq!(buffer.get(), None);
}

#[test]
fn result_buffer_peek_leaves_result_in_place() {
    let mut buffer = ResultBuffer::new();
    assert_eq!(buffer.peek(), None);
    buffer.insert(20, 1);
    assert_eq!(buffer.peek(), None);
    assert_eq!(buffer.get(), None);
    buffer.insert(10, 0);
    assert_eq!(buffer.peek(), Some(&10));
    assert_eq!(buffer.peek(), Some(&10));
    assert_eq!(buffer.get(), Some(10));
    assert_eq!(buffer.peek(), Some(&20));
    assert_eq!(buffer.get(), Some(20));
    assert_eq!(buffer.peek(), None);
}

#[test]
fn result_buffer_insert_replaces() {
    let mut buffer = ResultBuffer::new();
    buffer.insert("a", 0);
    buffer.insert("b", 0);
    assert_eq!(buffer.get(), Some("b"));
    assert_eq!(buffer.get(), None);
}

#[test]
fn result_buffer_far_position_after_offset() {
    let mut buffer = ResultBuffer::new();
    buffer.insert(0u8, 0);
    buffer.insert(1u8, 1);
    assert_eq!(buffer.get(), Some(0));
    assert_eq!(buffer.get(), Some(1));
    buffer.insert(9u8, 9);
    for _ in 0..7 {
        assert_eq!(buffer.get(), None);
    }
    for p in 2..9 {
        buffer.insert(p as u8, p);
    }
    for p in 2..10u8 {
        assert_eq!(buffer.get(), Some(p));
    }
    assert_eq!(buffer.get(), None);
}

#[test]
fn result_buffer_any_insert_order_drains_then_none() {
    for order in [[2, 0, 3, 1], [3, 2, 1, 0], [1, 3, 0, 2]] {
        let mut buffer = ResultBuffer::new();
        for i in order {
            buffer.insert(i * 7, i);
        }
        for i in 0..4 {
            assert_eq!(buffer.get(), Some(i * 7));
        }
        assert_eq!(buffer.get(), None);
    }
}
