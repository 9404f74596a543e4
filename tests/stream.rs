use jelly_engine::{EventStream, STREAM_SIZE_BLOCK};

fn collect(v: Vec<&u32>) -> Vec<u32> {
    v.into_iter().copied().collect()
}

#[test]
fn subscriber_reads_events_published_after_subscribing() {
    let mut s: EventStream<u32> = EventStream::new();
    let t = s.subscribe();
    s.publish(1);
    s.publish(2);
    s.publish(3);
    assert_eq!(collect(s.read(&t)), vec![1, 2, 3]);
    assert_eq!(collect(s.read(&t)), Vec::<u32>::new());
}

#[test]
fn late_subscriber_sees_no_backlog() {
    let mut s: EventStream<u32> = EventStream::new();
    let s1 = s.subscribe();
    s.publish(1);
    let s2 = s.subscribe();
    s.publish(2);
    assert_eq!(collect(s.read(&s1)), vec![1, 2]);
    assert_eq!(collect(s.read(&s2)), vec![2]);
}

#[test]
fn lagging_subscriber_forces_growth_without_loss() {
    let mut s: EventStream<u32> = EventStream::new();
    let slow = s.subscribe();
    let fast = s.subscribe();
    for i in 0..35u32 {
        s.publish(i);
        assert_eq!(collect(s.read(&fast)), vec![i]);
    }
    assert_eq!(collect(s.read(&slow)), (0..35).collect::<Vec<u32>>());
    assert_eq!(s.read_last(), Some(&34));
    assert!(s.buffer_capacity() >= 35);
}

#[test]
fn no_subscriber_means_overwrite_in_place() {
    let mut s: EventStream<u32> = EventStream::new();
    for i in 0..25u32 {
        s.publish(i);
    }
    assert_eq!(s.buffer_capacity(), STREAM_SIZE_BLOCK);
    assert_eq!(s.read_last(), Some(&24));
    let t = s.subscribe();
    s.publish(100);
    assert_eq!(collect(s.read(&t)), vec![100]);
}

#[test]
fn caught_up_subscriber_does_not_force_growth() {
    let mut s: EventStream<u32> = EventStream::new();
    let t = s.subscribe();
    for i in 0..30u32 {
        s.publish(i);
        assert_eq!(collect(s.read(&t)), vec![i]);
    }
    assert_eq!(s.buffer_capacity(), STREAM_SIZE_BLOCK);
}

#[test]
fn growth_happens_exactly_when_full_and_needed() {
    let mut s: EventStream<u32> = EventStream::new();
    let t = s.subscribe();
    for i in 0..10u32 {
        s.publish(i);
    }
    assert_eq!(s.buffer_capacity(), 10);
    s.publish(10);
    assert_eq!(s.buffer_capacity(), 20);
    assert_eq!(collect(s.read(&t)), (0..11).collect::<Vec<u32>>());
}

#[test]
fn read_last_on_empty_stream() {
    let s: EventStream<u32> = EventStream::new();
    assert_eq!(s.read_last(), None);
}

#[test]
fn unsubscribe_relaxes_retention() {
    let mut s: EventStream<u32> = EventStream::new();
    let slow = s.subscribe();
    let fast = s.subscribe();
    s.unsubscribe(slow);
    assert!(!s.is_subscribed(&slow));
    assert!(s.is_subscribed(&fast));
    for i in 0..40u32 {
        s.publish(i);
        assert_eq!(collect(s.read(&fast)), vec![i]);
    }
    assert_eq!(s.buffer_capacity(), STREAM_SIZE_BLOCK);
}

#[test]
fn tokens_are_distinct() {
    let mut s: EventStream<u32> = EventStream::new();
    let a = s.subscribe();
    let b = s.subscribe();
    s.unsubscribe(a);
    let c = s.subscribe();
    assert_ne!(a, b);
    assert_ne!(a, c);
    assert_ne!(b, c);
}

#[test]
fn wrapped_buffer_reads_in_order() {
    let mut s: EventStream<u32> = EventStream::new();
    let t = s.subscribe();
    for i in 0..8u32 {
        s.publish(i);
    }
    assert_eq!(collect(s.read(&t)), (0..8).collect::<Vec<u32>>());
    for i in 8..17u32 {
        s.publish(i);
    }
    assert_eq!(s.buffer_capacity(), 10);
    assert_eq!(collect(s.read(&t)), (8..17).collect::<Vec<u32>>());
}

#[test]
fn published_counts_every_event() {
    let mut s: EventStream<u32> = EventStream::new();
    assert_eq!(s.published(), 0);
    for i in 0..23u32 {
        s.publish(i);
    }
    assert_eq!(s.published(), 23);
}
