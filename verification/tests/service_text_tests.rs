use kafka_clone::timestamp::{describe_rendering, publish_ack_message, timestamp_to_string, Timestamp};

fn ts(seconds: i64, nanos: i32) -> Option<Timestamp> {
    Some(Timestamp { seconds, nanos })
}

#[test]
fn missing_timestamp() {
    assert_eq!(timestamp_to_string(None), "No timestamp provided");
}

#[test]
fn epoch_in_rfc3339() {
    assert_eq!(timestamp_to_string(ts(0, 0)), "1970-01-01T00:00:00+00:00");
    assert_eq!(timestamp_to_string(ts(1_431_648_000, 0)), "2015-05-15T00:00:00+00:00");
    assert_eq!(timestamp_to_string(ts(0, 500_000_000)), "1970-01-01T00:00:00.500+00:00");
}

#[test]
fn negative_nanos_are_invalid() {
    assert_eq!(timestamp_to_string(ts(0, -1)), "Invalid timestamp");
}

#[test]
fn nanos_limits() {
    assert_eq!(timestamp_to_string(ts(0, 2_000_000_000)), "Invalid timestamp");
    assert_eq!(timestamp_to_string(ts(58, 1_500_000_000)), "Invalid timestamp");
    assert_ne!(timestamp_to_string(ts(59, 1_500_000_000)), "Invalid timestamp");
    assert_ne!(timestamp_to_string(ts(-1, 1_000_000_000)), "Invalid timestamp");
}

#[test]
fn seconds_range_limits() {
    assert_ne!(timestamp_to_string(ts(8_210_266_876_799, 0)), "Invalid timestamp");
    assert_eq!(timestamp_to_string(ts(8_210_266_876_800, 0)), "Invalid timestamp");
    assert_ne!(timestamp_to_string(ts(-8_334_601_228_800, 0)), "Invalid timestamp");
    assert_eq!(timestamp_to_string(ts(-8_334_601_228_801, 0)), "Invalid timestamp");
    assert_eq!(timestamp_to_string(ts(i64::MAX, 0)), "Invalid timestamp");
}

#[test]
fn rendering_outcome_text() {
    assert_eq!(describe_rendering(None), "Invalid timestamp");
    assert_eq!(describe_rendering(Some("x".to_string())), "x");
}

#[test]
fn publish_acknowledgement() {
    assert_eq!(
        publish_ack_message(&"a".to_string(), ts(0, 0), -42),
        "successfully rx event with name a and timestamp 1970-01-01T00:00:00+00:00 and number -42"
    );
    assert_eq!(
        publish_ack_message(&"b".to_string(), None, 2147483647),
        "successfully rx event with name b and timestamp No timestamp provided and number 2147483647"
    );
    assert_eq!(
        publish_ack_message(&"c".to_string(), ts(0, 0), i32::MIN),
        "successfully rx event with name c and timestamp 1970-01-01T00:00:00+00:00 and number -2147483648"
    );
}
