use splice_core::diagnostics::{Traffic, TrafficSnapshot};

#[test]
fn the_order_of_counting_does_not_matter() {
    let mut one = Traffic::default();
    one.queued(3);
    one.sent(true, 40, 7, 2);
    one.sent(false, 60, 90, 5);
    one.queued(1);
    let early = one.snapshot();
    let mut other = Traffic::default();
    other.sent(false, 60, 90, 5);
    other.queued(1);
    assert_eq!(other.snapshot().max_queue_depth, 1);
    other.queued(3);
    other.sent(true, 40, 7, 2);
    assert_eq!(early, other.snapshot());
    assert_eq!(
        early,
        TrafficSnapshot {
            frames_sent: 2,
            input_frames_sent: 1,
            bytes_sent: 100,
            max_queue_depth: 3,
            max_input_queue_us: 7,
            max_write_us: 5,
        }
    );
    assert_eq!(Traffic::default().snapshot(), TrafficSnapshot::default());
}
