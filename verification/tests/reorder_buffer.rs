use satellite_constellation_system::udp_receiver::ReorderBuffer;

#[test]
fn in_order_packets_pass_straight_through() {
    let mut b: ReorderBuffer<&str> = ReorderBuffer::new(50);
    assert_eq!(b.insert(7, 1, "a"), vec!["a"]);
    assert_eq!(b.insert(7, 2, "b"), vec!["b"]);
    assert_eq!(b.insert(7, 3, "c"), vec!["c"]);
    assert_eq!(b.pending_count(7), 0);
    assert_eq!(b.last_delivered_seq(7), 3);
}

#[test]
fn out_of_order_packets_are_held_then_released_in_order() {
    let mut b: ReorderBuffer<u64> = ReorderBuffer::new(50);
    assert_eq!(b.insert(1, 3, 30), Vec::<u64>::new());
    assert_eq!(b.insert(1, 2, 20), Vec::<u64>::new());
    assert_eq!(b.pending_count(1), 2);
    assert_eq!(b.insert(1, 1, 10), vec![10, 20, 30]);
    assert_eq!(b.pending_count(1), 0);
    assert_eq!(b.last_delivered_seq(1), 3);
}

#[test]
fn gap_holds_later_packets() {
    let mut b: ReorderBuffer<u64> = ReorderBuffer::new(50);
    assert_eq!(b.insert(1, 1, 10), vec![10]);
    assert_eq!(b.insert(1, 3, 30), Vec::<u64>::new());
    assert_eq!(b.insert(1, 4, 40), Vec::<u64>::new());
    assert_eq!(b.last_delivered_seq(1), 1);
    assert_eq!(b.insert(1, 2, 20), vec![20, 30, 40]);
}

#[test]
fn overflow_delivers_oldest_and_fills_gap() {
    let mut b: ReorderBuffer<u64> = ReorderBuffer::new(2);
    // Packet 1 never arrives.
    assert_eq!(b.insert(5, 3, 30), Vec::<u64>::new());
    assert_eq!(b.insert(5, 2, 20), Vec::<u64>::new());
    // Third held packet overflows: the oldest (2) is forced out, then 3 and 4 follow.
    assert_eq!(b.insert(5, 4, 40), vec![20, 30, 40]);
    assert_eq!(b.last_delivered_seq(5), 4);
    assert_eq!(b.pending_count(5), 0);
}

#[test]
fn overflow_with_remaining_gap_keeps_the_rest() {
    let mut b: ReorderBuffer<u64> = ReorderBuffer::new(2);
    assert_eq!(b.insert(5, 10, 100), Vec::<u64>::new());
    assert_eq!(b.insert(5, 20, 200), Vec::<u64>::new());
    assert_eq!(b.insert(5, 30, 300), vec![100]);
    assert_eq!(b.last_delivered_seq(5), 10);
    assert_eq!(b.pending_count(5), 2);
}

#[test]
fn zero_capacity_delivers_everything_at_once() {
    let mut b: ReorderBuffer<u64> = ReorderBuffer::new(0);
    assert_eq!(b.insert(2, 9, 90), vec![90]);
    assert_eq!(b.last_delivered_seq(2), 9);
    // A late packet is dropped, not delivered.
    assert_eq!(b.insert(2, 4, 40), Vec::<u64>::new());
    assert_eq!(b.last_delivered_seq(2), 9);
    assert_eq!(b.insert(2, 12, 120), vec![120]);
    assert_eq!(b.last_delivered_seq(2), 12);
}

#[test]
fn stale_and_duplicate_packets_are_dropped() {
    let mut b: ReorderBuffer<u64> = ReorderBuffer::new(2);
    assert_eq!(b.insert(3, 1, 10), vec![10]);
    assert_eq!(b.insert(3, 2, 20), vec![20]);
    // A repeat of packet 1 is late: dropped, nothing held.
    assert_eq!(b.insert(3, 1, 11), Vec::<u64>::new());
    assert_eq!(b.pending_count(3), 0);
    assert_eq!(b.insert(3, 4, 40), Vec::<u64>::new());
    assert_eq!(b.insert(3, 5, 50), Vec::<u64>::new());
    assert_eq!(b.pending_count(3), 2);
    // Overflow forces out the oldest held packet; the run continues from it.
    assert_eq!(b.insert(3, 6, 60), vec![40, 50, 60]);
    assert_eq!(b.last_delivered_seq(3), 6);
    assert_eq!(b.pending_count(3), 0);
}

#[test]
fn equal_numbers_keep_arrival_order() {
    let mut b: ReorderBuffer<&str> = ReorderBuffer::new(10);
    assert_eq!(b.insert(1, 2, "first"), Vec::<&str>::new());
    assert_eq!(b.insert(1, 2, "second"), Vec::<&str>::new());
    // The earlier of two equal numbers is delivered; the later is a repeat and dropped.
    assert_eq!(b.insert(1, 1, "one"), vec!["one", "first"]);
    assert_eq!(b.pending_count(1), 0);
}

#[test]
fn satellites_are_independent() {
    let mut b: ReorderBuffer<u64> = ReorderBuffer::new(50);
    assert_eq!(b.insert(1, 2, 12), Vec::<u64>::new());
    assert_eq!(b.insert(2, 1, 21), vec![21]);
    assert_eq!(b.pending_count(1), 1);
    assert_eq!(b.last_delivered_seq(1), 0);
    assert_eq!(b.last_delivered_seq(2), 1);
    assert_eq!(b.max_buffer_size(), 50);
}

#[test]
fn buffer_never_exceeds_capacity() {
    let mut b: ReorderBuffer<u64> = ReorderBuffer::new(3);
    for seq in (10..40u64).rev() {
        let _ = b.insert(4, seq, seq);
        assert!(b.pending_count(4) <= 3);
    }
}

#[test]
fn delivered_numbers_strictly_increase() {
    let mut b: ReorderBuffer<u64> = ReorderBuffer::new(4);
    let order = [5u64, 3, 9, 1, 2, 2, 8, 7, 6, 4, 12, 11, 10, 3, 13, 1, 20, 21, 22, 23, 24];
    let mut delivered = Vec::new();
    for &s in order.iter() {
        delivered.extend(b.insert(9, s, s));
    }
    for w in delivered.windows(2) {
        assert!(w[0] < w[1]);
    }
    // 4 arrives after the gap before 5 was filled by overflow: it is late and dropped.
    assert_eq!(delivered, vec![1, 2, 3, 5, 6, 7, 8, 9, 10, 11, 12, 13, 20, 21, 22, 23, 24]);
    assert_eq!(b.last_delivered_seq(9), *delivered.last().unwrap());
}
