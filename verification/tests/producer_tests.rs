use kafka_clone::producer::{next_backoff, partition_for, CircularBuffer};

#[test]
fn fresh_buffer_accepts_its_capacity_then_refuses() {
    let mut ring = CircularBuffer::new(3);
    assert_eq!(ring.capacity(), 3);
    assert_eq!(ring.express_to_producer(5), 1);
    assert_eq!(ring.express_to_producer(6), 1);
    assert_eq!(ring.express_to_producer(7), 1);
    assert_eq!(ring.express_to_producer(8), 0);
    assert_eq!(ring.express_to_producer(9), 0);
}

#[test]
fn zero_leaves_the_slot_free() {
    let mut ring = CircularBuffer::new(1);
    assert_eq!(ring.express_to_producer(0), 1);
    assert_eq!(ring.express_to_producer(4), 1);
    assert_eq!(ring.express_to_producer(4), 0);
}

#[test]
fn sent_slot_is_freed() {
    let mut ring = CircularBuffer::new(2);
    assert_eq!(ring.express_to_producer(3), 1);
    assert_eq!(ring.express_to_producer(4), 1);
    assert_eq!(ring.express_to_producer(5), 0);
    ring.sending();
    assert_eq!(ring.express_to_producer(5), 1);
    assert_eq!(ring.express_to_producer(6), 0);
    ring.sending();
    assert_eq!(ring.express_to_producer(6), 1);
}

#[test]
fn sending_ahead_keeps_slots_free() {
    let mut ring = CircularBuffer::new(2);
    ring.sending();
    ring.sending();
    assert_eq!(ring.express_to_producer(3), 1);
    assert_eq!(ring.express_to_producer(4), 1);
    assert_eq!(ring.express_to_producer(5), 0);
}

#[test]
fn sending_on_empty_buffer_does_nothing() {
    let mut ring = CircularBuffer::new(0);
    ring.sending();
    assert_eq!(ring.capacity(), 0);
}

#[test]
fn backoff_doubles_up_to_a_minute() {
    let mut waits = vec![1u64];
    for _ in 0..8 {
        let next = next_backoff(*waits.last().unwrap());
        waits.push(next);
    }
    assert_eq!(waits, vec![1, 2, 4, 8, 16, 32, 64, 64, 64]);
    assert_eq!(next_backoff(59), 118);
    assert_eq!(next_backoff(60), 60);
}

#[test]
fn events_go_round_robin() {
    let parts: Vec<usize> = (0..7).map(|i| partition_for(i, 3)).collect();
    assert_eq!(parts, vec![0, 1, 2, 0, 1, 2, 0]);
    assert_eq!(partition_for(5, 1), 0);
}
