use logplot::cursor::ClientTracker;
use logplot::logrecord::ParsedBlock;
use logplot::retention::RetentionBuffer;

fn block(ts: i64) -> ParsedBlock {
    let mut b = ParsedBlock::new();
    b.set_ts(ts);
    b
}

fn stamps(v: &[ParsedBlock]) -> Vec<i64> {
    v.iter().map(|b| b.get_ts()).collect()
}

fn buffer_stamps(buf: &RetentionBuffer) -> Vec<i64> {
    (0..buf.len()).map(|i| buf.get(i).get_ts()).collect()
}

#[test]
fn eviction_bounds_the_span() {
    let mut buf = RetentionBuffer::new(Some(10));
    for ts in [0, 4, 8, 12, 15, 30] {
        buf.append(block(ts));
        let s = buffer_stamps(&buf);
        assert!(s[0] - s[s.len() - 1] <= 10);
    }
    assert_eq!(buffer_stamps(&buf), vec![30]);
}

#[test]
fn eviction_keeps_order() {
    let mut buf = RetentionBuffer::new(Some(5));
    for ts in [1, 2, 3, 4, 5, 6, 7] {
        buf.append(block(ts));
    }
    assert_eq!(buffer_stamps(&buf), vec![7, 6, 5, 4, 3, 2]);
}

#[test]
fn no_duration_keeps_everything() {
    let mut buf = RetentionBuffer::new(None);
    for ts in [1, 100, 10_000] {
        buf.append(block(ts));
    }
    assert_eq!(buffer_stamps(&buf), vec![10_000, 100, 1]);
}

#[test]
fn negative_duration_keeps_nothing() {
    let mut buf = RetentionBuffer::new(Some(-1));
    buf.append(block(3));
    assert_eq!(buf.len(), 0);
}

#[test]
fn polls_deliver_each_block_once() {
    let mut buf = RetentionBuffer::new(None);
    let mut tracker = ClientTracker::new();
    let mut seen = Vec::new();
    buf.append(block(1_000_000));
    buf.append(block(2_000_000));
    seen.extend(stamps(&tracker.deliver("a", &buf)));
    buf.append(block(3_000_000));
    seen.extend(stamps(&tracker.deliver("a", &buf)));
    seen.extend(stamps(&tracker.deliver("a", &buf)));
    buf.append(block(4_000_000));
    buf.append(block(5_000_000));
    seen.extend(stamps(&tracker.deliver("a", &buf)));
    assert_eq!(seen, vec![1_000_000, 2_000_000, 3_000_000, 4_000_000, 5_000_000]);
    assert_eq!(tracker.cursor("a"), 5_000_000);
}

#[test]
fn repeated_poll_is_empty_and_keeps_cursor() {
    let mut buf = RetentionBuffer::new(None);
    let mut tracker = ClientTracker::new();
    buf.append(block(7));
    assert_eq!(stamps(&tracker.deliver("x", &buf)), vec![7]);
    assert_eq!(tracker.cursor("x"), 7);
    assert!(tracker.deliver("x", &buf).is_empty());
    assert_eq!(tracker.cursor("x"), 7);
}

#[test]
fn consumers_are_independent() {
    let mut buf = RetentionBuffer::new(None);
    let mut tracker = ClientTracker::new();
    buf.append(block(1));
    assert_eq!(stamps(&tracker.deliver("a", &buf)), vec![1]);
    buf.append(block(2));
    assert_eq!(stamps(&tracker.deliver("b", &buf)), vec![1, 2]);
    assert_eq!(stamps(&tracker.deliver("a", &buf)), vec![2]);
    assert_eq!(tracker.cursor("unknown"), 0);
}

#[test]
fn lagging_consumer_loses_evicted_blocks() {
    let mut buf = RetentionBuffer::new(Some(2));
    let mut tracker = ClientTracker::new();
    for ts in 1..=6 {
        buf.append(block(ts));
    }
    assert_eq!(stamps(&tracker.deliver("slow", &buf)), vec![4, 5, 6]);
}

#[test]
fn blocks_at_zero_are_not_new() {
    let mut buf = RetentionBuffer::new(None);
    let mut tracker = ClientTracker::new();
    buf.append(block(0));
    assert!(tracker.deliver("c", &buf).is_empty());
    assert_eq!(tracker.cursor("c"), 0);
}

#[test]
fn prune_forgets_consumers_behind_the_buffer() {
    let mut buf = RetentionBuffer::new(None);
    let mut tracker = ClientTracker::new();
    buf.append(block(1));
    tracker.deliver("old", &buf);
    buf.append(block(5));
    tracker.deliver("new", &buf);
    assert_eq!(buf.oldest_ts(), Some(1));
    tracker.prune(3);
    assert_eq!(tracker.cursor("old"), 0);
    assert_eq!(tracker.cursor("new"), 5);
    // a forgotten consumer starts over
    assert_eq!(stamps(&tracker.deliver("old", &buf)), vec![1, 5]);
}

#[test]
fn oldest_of_empty_buffer() {
    let buf = RetentionBuffer::new(Some(1));
    assert_eq!(buf.oldest_ts(), None);
}

#[test]
fn prune_with_bound_at_zero_keeps_everyone() {
    let mut buf = RetentionBuffer::new(None);
    let mut tracker = ClientTracker::new();
    buf.append(block(-4));
    buf.append(block(2));
    assert_eq!(stamps(&tracker.deliver("a", &buf)), vec![2]);
    tracker.prune(0);
    assert_eq!(tracker.cursor("a"), 2);
    tracker.prune(-1);
    assert_eq!(tracker.cursor("a"), 2);
}
