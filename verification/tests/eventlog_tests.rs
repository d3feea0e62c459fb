use kafka_clone::eventlog::{
    consume_reply, event_readable, index_entry, locate_event, publish_record, read_event,
};

/// Builds the two files by publishing `names` in order.
fn publish_all(names: &[&str]) -> (Vec<u8>, Vec<u8>) {
    let mut events = Vec::new();
    let mut index = Vec::new();
    for name in names {
        let (bytes, entry) = publish_record(events.len() as u64, &name.to_string());
        events.extend_from_slice(&bytes);
        index.extend_from_slice(&entry);
    }
    (events, index)
}

#[test]
fn index_entry_is_little_endian() {
    assert_eq!(index_entry(258), vec![2, 1, 0, 0, 0, 0, 0, 0]);
    assert_eq!(index_entry(0), vec![0; 8]);
    assert_eq!(index_entry(u64::MAX), vec![255; 8]);
}

#[test]
fn publish_record_holds_name_bytes_and_entry() {
    let (bytes, entry) = publish_record(5, &"héllo".to_string());
    assert_eq!(bytes, "héllo".as_bytes().to_vec());
    assert_eq!(entry, vec![5, 0, 0, 0, 0, 0, 0, 0]);
}

#[test]
fn published_events_read_back() {
    let names = ["a", "bc", "", "défg", "h"];
    let (events, index) = publish_all(&names);
    for (k, name) in names.iter().enumerate() {
        assert!(event_readable(&index, &events, k as u64));
        assert_eq!(read_event(&index, &events, k as u64), *name);
    }
}

#[test]
fn locate_event_uses_next_entry_or_log_end() {
    let (events, index) = publish_all(&["ab", "cde", "f"]);
    assert_eq!(locate_event(&index, 0, events.len() as u64), (0, 2));
    assert_eq!(locate_event(&index, 1, events.len() as u64), (2, 5));
    assert_eq!(locate_event(&index, 2, events.len() as u64), (5, 6));
    assert_eq!(locate_event(&index, 2, 40), (5, 40));
}

#[test]
fn unreadable_events_are_detected() {
    let (events, index) = publish_all(&["ab", "cd"]);
    assert!(!event_readable(&index, &events, 2));
    assert!(!event_readable(&[], &events, 0));
    assert!(!event_readable(&index, &events[..1], 0));
    assert!(event_readable(&index, &events[..3], 1));
    let mut backwards = index_entry(4);
    backwards.extend_from_slice(&index_entry(1));
    assert!(!event_readable(&backwards, &events, 0));
}

#[test]
fn invalid_utf8_reads_as_empty() {
    let events = vec![0xff, 0xfe, b'o', b'k'];
    let mut index = index_entry(0);
    index.extend_from_slice(&index_entry(2));
    assert_eq!(read_event(&index, &events, 0), "");
    assert_eq!(read_event(&index, &events, 1), "ok");
}

#[test]
fn consumer_gets_one_fixed_event() {
    let events = consume_reply(1_700_000_000);
    assert_eq!(events.len(), 1);
    assert_eq!(events[0].event_name, "event 1");
    let ts = events[0].timestamp.unwrap();
    assert_eq!((ts.seconds, ts.nanos), (1_700_000_000, 0));
}

#[test]
fn consume_event_reads_and_replies_by_the_clock() {
    let (events, index) = publish_all(&["abc", "de"]);
    let (content, reply) = kafka_clone::eventlog::consume_event(&index, &events, 1, 42);
    assert_eq!(content, "de");
    let (other_content, other_reply) = kafka_clone::eventlog::consume_event(&index, &events, 0, 42);
    assert_eq!(other_content, "abc");
    assert_eq!(reply.len(), 1);
    assert_eq!(other_reply.len(), 1);
    assert_eq!(reply[0].event_name, other_reply[0].event_name);
    assert_eq!(reply[0].timestamp, other_reply[0].timestamp);
}

#[test]
fn published_layout_is_prefix_sums() {
    let names = ["ab", "", "cde", "é"];
    let (events, index) = publish_all(&names);
    assert_eq!(index.len(), 8 * names.len());
    assert_eq!(events, "abcdeé".as_bytes().to_vec());
    let mut offset = 0u64;
    for (i, name) in names.iter().enumerate() {
        let word = u64::from_le_bytes(index[8 * i..8 * i + 8].try_into().unwrap());
        assert_eq!(word, offset);
        offset += name.len() as u64;
    }
}
