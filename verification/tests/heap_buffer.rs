use parallel_worker::internal::heap_buffer::HeapBuffer;
use parallel_worker::internal::non_zero::NonZeroIndex;
use parallel_worker::internal::ordered_result::OrderedResult;

fn pos(n: usize) -> NonZeroIndex {
    NonZeroIndex::new(n).unwrap()
}

#[test]
fn heap_buffer_hands_out_in_position_order() {
    let mut heap = HeapBuffer::new();
    assert_eq!(heap.current_indx().get(), 1);
    heap.push("c", pos(3));
    heap.push("a", pos(1));
    heap.push("b", pos(2));
    assert_eq!(heap.get(), Some("a"));
    assert_eq!(heap.current_indx().get(), 2);
    assert_eq!(heap.get(), Some("b"));
    assert_eq!(heap.get(), Some("c"));
    assert_eq!(heap.get(), None);
    assert_eq!(heap.current_indx().get(), 4);
}

#[test]
fn heap_buffer_waits_for_missing_position() {
    let mut heap = HeapBuffer::new();
    heap.push(20, pos(2));
    assert_eq!(heap.get(), None);
    assert_eq!(heap.current_indx().get(), 1);
    heap.push(10, pos(1));
    assert_eq!(heap.get(), Some(10));
    assert_eq!(heap.get(), Some(20));
    assert_eq!(heap.get(), None);
}

#[test]
fn heap_buffer_skip_moves_past_a_position() {
    let mut heap = HeapBuffer::new();
    heap.push(20, pos(2));
    heap.skip();
    assert_eq!(heap.current_indx().get(), 2);
    assert_eq!(heap.get(), Some(20));
}

#[test]
fn heap_buffer_stale_lower_position_blocks() {
    let mut heap = HeapBuffer::new();
    heap.skip();
    heap.skip();
    heap.push(1, pos(1));
    heap.push(3, pos(3));
    assert_eq!(heap.get(), None);
    assert_eq!(heap.current_indx().get(), 3);
}

#[test]
fn heap_buffer_position_saturates() {
    assert_eq!(pos(usize::MAX).saturating_add(1).get(), usize::MAX);
    assert_eq!(pos(5).saturating_add(2).get(), 7);
    assert!(NonZeroIndex::new(0).is_none());
}

#[test]
fn ordered_result_compares_by_position_reversed() {
    let a = OrderedResult { result: "x", indx: pos(1) };
    let b = OrderedResult { result: "y", indx: pos(2) };
    let c = OrderedResult { result: "z", indx: pos(1) };
    assert!(a == c);
    assert!(a != b);
    assert!(a > b);
    assert!(b < a);
    assert_eq!(a.partial_cmp(&b), Some(std::cmp::Ordering::Greater));
    assert_eq!(a.partial_cmp(&c), Some(std::cmp::Ordering::Equal));
}

#[test]
fn heap_buffer_any_push_order_drains_in_order() {
    for order in [[3, 1, 4, 2], [4, 3, 2, 1], [2, 4, 1, 3]] {
        let mut heap = HeapBuffer::new();
        for i in order {
            heap.push(i * 10, pos(i));
        }
        for i in 1..=4 {
            assert_eq!(heap.get(), Some(i * 10));
        }
        assert_eq!(heap.get(), None);
        assert_eq!(heap.current_indx().get(), 5);
    }
}

#[test]
fn heap_buffer_position_counts_gets_and_skips() {
    let mut heap = HeapBuffer::new();
    heap.push('a', pos(1));
    heap.push('c', pos(3));
    assert_eq!(heap.get(), Some('a'));
    assert_eq!(heap.get(), None);
    heap.skip();
    assert_eq!(heap.get(), Some('c'));
    // two results handed out and one skip: 1 + 2 + 1
    assert_eq!(heap.current_indx().get(), 4);
}
