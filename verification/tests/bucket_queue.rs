use puzzle_kit::bucket_queue::FixedPriorityQueue;
use puzzle_kit::distance::{distance, set_distance, unreached_table, UNREACHED};
use puzzle_kit::route::{Axis, State};

#[test]
fn new_queue_is_drained() {
    let mut queue = FixedPriorityQueue::<u8>::new(27);
    assert_eq!(queue.pop(), None);
}

#[test]
fn pop_returns_least_priority_first() {
    let mut queue = FixedPriorityQueue::new(27);
    queue.push(5, 'e');
    queue.push(0, 'a');
    queue.push(27, 'z');
    queue.push(3, 'c');
    assert_eq!(queue.pop(), Some((0, 'a')));
    assert_eq!(queue.pop(), Some((3, 'c')));
    assert_eq!(queue.pop(), Some((5, 'e')));
    assert_eq!(queue.pop(), Some((27, 'z')));
    assert_eq!(queue.pop(), None);
}

#[test]
fn equal_priorities_leave_last_in_first_out() {
    let mut queue = FixedPriorityQueue::new(3);
    queue.push(2, 1);
    queue.push(2, 2);
    queue.push(2, 3);
    assert_eq!(queue.pop(), Some((2, 3)));
    assert_eq!(queue.pop(), Some((2, 2)));
    assert_eq!(queue.pop(), Some((2, 1)));
    assert_eq!(queue.pop(), None);
}

#[test]
fn window_moves_with_the_base_and_wraps_round() {
    let mut queue = FixedPriorityQueue::new(3);
    queue.push(3, "three");
    assert_eq!(queue.pop(), Some((3, "three")));
    // the base is 3 now, so 3 to 6 are in the window
    queue.push(6, "six");
    queue.push(4, "four");
    queue.push(3, "three again");
    assert_eq!(queue.pop(), Some((3, "three again")));
    assert_eq!(queue.pop(), Some((4, "four")));
    queue.push(7, "seven");
    queue.push(5, "five");
    assert_eq!(queue.pop(), Some((5, "five")));
    assert_eq!(queue.pop(), Some((6, "six")));
    assert_eq!(queue.pop(), Some((7, "seven")));
    assert_eq!(queue.pop(), None);
}

#[test]
fn drained_queue_has_moved_past_its_window() {
    let mut queue = FixedPriorityQueue::new(9);
    assert_eq!(queue.pop(), None);
    // ten buckets were scanned, so the base is 10 and 10 to 19 are in the window
    queue.push(19, 'b');
    queue.push(10, 'a');
    assert_eq!(queue.pop(), Some((10, 'a')));
    assert_eq!(queue.pop(), Some((19, 'b')));
}

#[test]
fn queue_with_a_single_bucket() {
    let mut queue = FixedPriorityQueue::new(0);
    queue.push(0, 'x');
    queue.push(0, 'y');
    assert_eq!(queue.pop(), Some((0, 'y')));
    assert_eq!(queue.pop(), Some((0, 'x')));
    assert_eq!(queue.pop(), None);
    queue.push(1, 'z');
    assert_eq!(queue.pop(), Some((1, 'z')));
}

#[test]
fn largest_priority_can_be_queued() {
    let mut queue = FixedPriorityQueue::new(1);
    queue.push(1, 'a');
    assert_eq!(queue.pop(), Some((1, 'a')));
    assert_eq!(queue.pop(), None);
    assert_eq!(queue.pop(), None);
}

#[test]
fn distance_table_starts_unreached_and_keeps_what_is_set() {
    let mut table = unreached_table(2, 3);
    assert_eq!(table.len(), 2);
    assert_eq!(table[0].len(), 3);
    let here = State { row: 1, col: 2, axis: Axis::Vertical };
    let there = State { row: 1, col: 2, axis: Axis::Horizontal };
    assert_eq!(distance(&table, here), UNREACHED);
    assert_eq!(UNREACHED, u32::MAX);
    set_distance(&mut table, here, 17);
    assert_eq!(distance(&table, here), 17);
    assert_eq!(distance(&table, there), UNREACHED);
    assert_eq!(table[1][2], [UNREACHED, 17]);
}
