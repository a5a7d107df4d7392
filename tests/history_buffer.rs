use bandwidth_tracker::history_buffer::HistoryBuffer;

fn forward<const N: usize>(buffer: &HistoryBuffer<N, u8>) -> Vec<u8> {
    let mut it = buffer.iter();
    let mut out = Vec::new();
    while let Some(x) = it.next() {
        out.push(*x);
    }
    out
}

fn backward<const N: usize>(buffer: &HistoryBuffer<N, u8>) -> Vec<u8> {
    let mut it = buffer.iter();
    let mut out = Vec::new();
    while let Some(x) = it.next_back() {
        out.push(*x);
    }
    out
}

#[test]
fn test_default_size_of_buffer_is_1() {
    let buffer = HistoryBuffer::<10, u8>::init(4);

    assert_eq!(buffer.len(), 1);
}

#[test]
fn test_pushing_element_increase_the_size() {
    let mut buffer = HistoryBuffer::<10, u8>::init(1);
    buffer.push(2);

    assert_eq!(buffer.len(), 2);
}

#[test]
fn test_wrapping_when_max_size_is_reached() {
    let mut buffer = HistoryBuffer::<1, u8>::init(1);
    buffer.push(2);

    assert_eq!(buffer.len(), 1);
    assert_eq!(*buffer.index(0), 2);
}

#[test]
fn test_iter_buffer_not_at_max_capacity() {
    let mut buffer = HistoryBuffer::<3, u8>::init(1);
    buffer.push(2);

    let result = forward(&buffer);

    assert_eq!(result.len(), 2);
    assert_eq!(result[0], 1);
    assert_eq!(result[1], 2);
}

#[test]
fn test_iter_buffer_at_max_capacity() {
    let mut buffer = HistoryBuffer::<3, u8>::init(1);
    buffer.push(2);
    buffer.push(3);

    let result = forward(&buffer);

    assert_eq!(result.len(), 3);
    assert_eq!(result[0], 1);
    assert_eq!(result[1], 2);
    assert_eq!(result[2], 3);
}

#[test]
fn test_iter_buffer_at_max_capacity_that_wrapped_around() {
    let mut buffer = HistoryBuffer::<3, u8>::init(1);
    buffer.push(2);
    buffer.push(3);
    buffer.push(4);

    let result = forward(&buffer);

    assert_eq!(result.len(), 3);
    assert_eq!(result[0], 2);
    assert_eq!(result[1], 3);
    assert_eq!(result[2], 4);
}

#[test]
fn test_reverse_iter_buffer_not_at_max_capacity() {
    let mut buffer = HistoryBuffer::<3, u8>::init(1);
    buffer.push(2);

    let result = backward(&buffer);

    assert_eq!(result.len(), 2);
    assert_eq!(result[0], 2);
    assert_eq!(result[1], 1);
}

#[test]
fn test_reverse_iter_buffer_at_max_capacity_that_wrapped_around() {
    let mut buffer = HistoryBuffer::<3, u8>::init(1);
    buffer.push(2);
    buffer.push(3);
    buffer.push(4);

    let result = backward(&buffer);

    assert_eq!(result.len(), 3);
    assert_eq!(result[0], 4);
    assert_eq!(result[1], 3);
    assert_eq!(result[2], 2);
}

#[test]
fn ring_keeps_newest_after_many_pushes() {
    // capacity 4, one initial sample then 9 pushes: 5..=13
    let mut buffer = HistoryBuffer::<4, u8>::init(0);
    for m in 1..=9u8 {
        buffer.push(m + 4);
        let expected_len = std::cmp::min(1 + m as usize, 4);
        assert_eq!(buffer.len(), expected_len);
    }
    // pushes were 5..=13; m = 9, N = 4: oldest is push number 9 - 4 + 1 = 6, i.e. 10
    assert_eq!(*buffer.index(0), 10);
    assert_eq!(*buffer.last(), 13);
    assert_eq!(forward(&buffer), vec![10, 11, 12, 13]);
}

#[test]
fn forward_reversed_equals_backward_at_each_fill_level() {
    let mut buffer = HistoryBuffer::<3, u8>::init(7);
    for x in 8..15u8 {
        let mut f = forward(&buffer);
        f.reverse();
        assert_eq!(f, backward(&buffer));
        buffer.push(x);
    }
}

#[test]
fn get_past_the_end_is_none() {
    let mut buffer = HistoryBuffer::<3, u8>::init(1);
    buffer.push(2);
    assert_eq!(buffer.get(1), Some(&2));
    assert_eq!(buffer.get(2), None);
    assert_eq!(buffer.get(100), None);
}

#[test]
fn mixed_iteration_meets_in_the_middle() {
    let mut buffer = HistoryBuffer::<4, u8>::init(1);
    buffer.push(2);
    buffer.push(3);
    let mut it = buffer.iter();
    assert_eq!(it.next(), Some(&1));
    assert_eq!(it.next_back(), Some(&3));
    assert_eq!(it.next(), Some(&2));
    assert_eq!(it.next_back(), None);
    assert_eq!(it.next(), None);
}
