use vstd::bytes::{spec_u64_from_le_bytes, spec_u64_to_le_bytes, u64_from_le_bytes, u64_to_le_bytes};
use vstd::prelude::*;
use vstd::slice::{slice_subrange, slice_to_vec};
use vstd::utf8::{decode_utf8, encode_utf8, valid_utf8};
use crate::timestamp::Timestamp;

verus! {

broadcast use vstd::utf8::encode_utf8_valid_utf8, vstd::utf8::encode_utf8_decode_utf8;

// The broker keeps two append-only files. The event log holds the bytes
// of every published event name, one after another. The index table
// holds, for each event, the position in the event log at which its bytes
// start, as an 8-byte little-endian number. An event ends where the next
// one starts; the last one ends at the end of the event log.

/// The position stored in the `k`-th entry of an index table.
pub open spec fn entry_at(index: Seq<u8>, k: int) -> int {
    spec_u64_from_le_bytes(index.subrange(8 * k, 8 * k + 8)) as int
}

/// The number of whole entries in an index table.
pub open spec fn event_count(index: Seq<u8>) -> int {
    (index.len() / 8) as int
}

/// Where event `n` starts and ends in an event log of `log_size` bytes.
pub open spec fn event_bounds(index: Seq<u8>, n: int, log_size: int) -> (int, int) {
    (
        entry_at(index, n),
        if n == event_count(index) - 1 {
            log_size
        } else {
            entry_at(index, n + 1)
        },
    )
}

/// Whether event `n` can be read: the index table has an entry for it, and
/// the bounds it gives lie in order inside the event log.
pub open spec fn readable(index: Seq<u8>, events: Seq<u8>, n: int) -> bool {
    let (start, end) = event_bounds(index, n, events.len() as int);
    &&& 0 <= n < event_count(index)
    &&& start <= end <= events.len()
}

/// The text of event `n`: its bytes decoded as UTF-8, or the empty text
/// when they are not valid UTF-8.
pub open spec fn event_content(index: Seq<u8>, events: Seq<u8>, n: int) -> Seq<char> {
    let (start, end) = event_bounds(index, n, events.len() as int);
    let bytes = events.subrange(start, end);
    if valid_utf8(bytes) {
        decode_utf8(bytes)
    } else {
        Seq::empty()
    }
}

/// The event log after publishing `names` in order into an empty log.
pub open spec fn published_events(names: Seq<Seq<char>>) -> Seq<u8>
    decreases names.len(),
{
    if names.len() == 0 {
        Seq::empty()
    } else {
        published_events(names.drop_last()) + encode_utf8(names.last())
    }
}

/// The index table after publishing `names` in order into an empty log.
pub open spec fn published_index(names: Seq<Seq<char>>) -> Seq<u8>
    decreases names.len(),
{
    if names.len() == 0 {
        Seq::empty()
    } else {
        published_index(names.drop_last()) + spec_u64_to_le_bytes(
            published_events(names.drop_last()).len() as u64,
        )
    }
}

/// An event as the broker hands it to a consumer.
pub struct Event {
    pub event_name: String,
    pub timestamp: Option<Timestamp>,
}

/// Whether `events` is the broker's answer to a consumer at clock reading
/// `now_seconds`: a single event named "event 1", stamped with
/// `now_seconds` and no nanoseconds.
pub open spec fn is_consume_reply(events: Seq<Event>, now_seconds: i64) -> bool {
    &&& events.len() == 1
    &&& events[0].event_name@ == "event 1"@
    &&& events[0].timestamp == Some(Timestamp { seconds: now_seconds, nanos: 0 })
}

/// What the broker answers a consumer at clock reading `now_seconds`.
pub fn consume_reply(now_seconds: i64) -> (events: Vec<Event>)
    ensures
        is_consume_reply(events@, now_seconds),
{
    let mut events: Vec<Event> = Vec::new();
    events.push(Event {
        event_name: "event 1".to_owned(),
        timestamp: Some(Timestamp { seconds: now_seconds, nanos: 0 }),
    });
    events
}

/// What the broker does for a consumer that asks for event `event_num` at
/// clock reading `now_seconds`: it reads the event's text (which it only
/// prints) and answers with a reply that depends on the clock alone.
pub fn consume_event(index_table: &[u8], events_log: &[u8], event_num: u64, now_seconds: i64) -> (outcome: (String, Vec<Event>))
    requires
        readable(index_table@, events_log@, event_num as int),
    ensures
        outcome.0@ == event_content(index_table@, events_log@, event_num as int),
        is_consume_reply(outcome.1@, now_seconds),
{
    let content = read_event(index_table, events_log, event_num);
    (content, consume_reply(now_seconds))
}

/// The answer to a consumer depends on the clock alone: two answers given
/// at the same clock reading agree, whatever event was asked for and
/// whatever the files held.
pub proof fn lemma_reply_ignores_files(a: Seq<Event>, b: Seq<Event>, now_seconds: i64)
    requires
        is_consume_reply(a, now_seconds),
        is_consume_reply(b, now_seconds),
    ensures
        a.len() == b.len(),
        forall|i: int| 0 <= i < a.len() ==> a[i].event_name@ == b[i].event_name@ && a[i].timestamp == b[i].timestamp,
{
}

/// `String::from_utf8`: decodes `bytes` as UTF-8, giving `None` exactly
/// when they are not valid UTF-8 (as std documents, and as vstd's
/// `valid_utf8` and `decode_utf8` state the encoding).
#[verifier::external_body]
fn string_from_utf8(bytes: Vec<u8>) -> (decoded: Option<String>)
    ensures
        match decoded {
            Some(text) => valid_utf8(bytes@) && text@ == decode_utf8(bytes@),
            None => !valid_utf8(bytes@),
        },
{
    String::from_utf8(bytes).ok()
}

/// The index-table entry that records an event starting at `start_index`
/// in the event log.
pub fn index_entry(start_index: u64) -> (entry: Vec<u8>)
    ensures
        entry@ == spec_u64_to_le_bytes(start_index),
        entry@.len() == 8,
{
    u64_to_le_bytes(start_index)
}

/// What publishing `event_name` appends: its UTF-8 bytes to the event log,
/// and the entry for `start_index` (where those bytes begin) to the index
/// table.
pub fn publish_record(start_index: u64, event_name: &String) -> (record: (Vec<u8>, Vec<u8>))
    ensures
        record.0@ == encode_utf8(event_name@),
        record.1@ == spec_u64_to_le_bytes(start_index),
{
    let bytes = slice_to_vec(event_name.as_str().as_bytes());
    (bytes, index_entry(start_index))
}

/// The position stored in entry `k` of the index table.
fn entry_value(index_table: &[u8], k: usize) -> (value: u64)
    requires
        8 * k + 8 <= index_table@.len(),
    ensures
        value == entry_at(index_table@, k as int),
{
    let table_len = index_table.len();
    assert(8 * k + 8 <= table_len);
    let from = 8 * k;
    let entry = slice_subrange(index_table, from, from + 8);
    u64_from_le_bytes(entry)
}

/// Where event `event_num` starts and ends, for an event log of
/// `log_size` bytes. The index table must hold an entry for the event.
pub fn locate_event(index_table: &[u8], event_num: u64, log_size: u64) -> (bounds: (u64, u64))
    requires
        event_num < event_count(index_table@),
    ensures
        (bounds.0 as int, bounds.1 as int) == event_bounds(index_table@, event_num as int, log_size as int),
{
    let index_length = index_table.len();
    let k = event_num as usize;
    let start = entry_value(index_table, k);
    if k == index_length / 8 - 1 {
        (start, log_size)
    } else {
        (start, entry_value(index_table, k + 1))
    }
}

/// Whether event `event_num` can be read from these files.
pub fn event_readable(index_table: &[u8], events_log: &[u8], event_num: u64) -> (ok: bool)
    ensures
        ok == readable(index_table@, events_log@, event_num as int),
{
    if event_num >= (index_table.len() / 8) as u64 {
        return false;
    }
    let (start, end) = locate_event(index_table, event_num, events_log.len() as u64);
    start <= end && end <= events_log.len() as u64
}

/// The text of event `event_num`: its bytes in the event log decoded as
/// UTF-8, or the empty text when they are not valid UTF-8.
pub fn read_event(index_table: &[u8], events_log: &[u8], event_num: u64) -> (content: String)
    requires
        readable(index_table@, events_log@, event_num as int),
    ensures
        content@ == event_content(index_table@, events_log@, event_num as int),
{
    let (start, end) = locate_event(index_table, event_num, events_log.len() as u64);
    let bytes = slice_to_vec(slice_subrange(events_log, start as usize, end as usize));
    match string_from_utf8(bytes) {
        Some(text) => text,
        None => String::new(),
    }
}

proof fn lemma_published_index_len(names: Seq<Seq<char>>)
    ensures
        published_index(names).len() == 8 * names.len(),
    decreases names.len(),
{
    if names.len() > 0 {
        lemma_published_index_len(names.drop_last());
        vstd::bytes::lemma_auto_spec_u64_to_from_le_bytes();
    }
}

/// Reading back what was published: in a log built by publishing `names`
/// one after another, event `k` reads as the `k`-th name, as long as the
/// log's size fits the 8-byte positions of the index table.
pub proof fn lemma_read_returns_published(names: Seq<Seq<char>>, k: int)
    requires
        published_events(names).len() <= u64::MAX,
        0 <= k < names.len(),
    ensures
        readable(published_index(names), published_events(names), k),
        event_content(published_index(names), published_events(names), k) == names[k],
    decreases names.len(),
{
    let n = names.len() as int;
    let prev = names.drop_last();
    let index = published_index(names);
    let events = published_events(names);
    let prev_index = published_index(prev);
    let prev_events = published_events(prev);
    lemma_published_index_len(names);
    lemma_published_index_len(prev);
    vstd::bytes::lemma_auto_spec_u64_to_from_le_bytes();
    assert(index == prev_index + spec_u64_to_le_bytes(prev_events.len() as u64));
    assert(events == prev_events + encode_utf8(names.last()));
    assert(event_count(index) == n);
    // the last entry records where the previous events end
    assert(index.subrange(8 * (n - 1), 8 * (n - 1) + 8) =~= spec_u64_to_le_bytes(prev_events.len() as u64));
    assert(entry_at(index, n - 1) == prev_events.len());
    if k == n - 1 {
        assert(events.subrange(prev_events.len() as int, events.len() as int) =~= encode_utf8(names.last()));
    } else {
        lemma_read_returns_published(prev, k);
        assert(prev[k] == names[k]);
        assert(index.subrange(8 * k, 8 * k + 8) =~= prev_index.subrange(8 * k, 8 * k + 8));
        if k < n - 2 {
            assert(index.subrange(8 * (k + 1), 8 * (k + 1) + 8) =~= prev_index.subrange(8 * (k + 1), 8 * (k + 1) + 8));
        }
        let (start, end) = event_bounds(prev_index, k, prev_events.len() as int);
        assert(event_bounds(index, k, events.len() as int) == (start, end));
        assert(events.subrange(start, end) =~= prev_events.subrange(start, end));
    }
}

/// How many bytes the first `i` of `names` take in the event log: the sum
/// of their UTF-8 lengths.
pub open spec fn byte_offset(names: Seq<Seq<char>>, i: int) -> int
    decreases i,
{
    if i <= 0 {
        0
    } else {
        byte_offset(names, i - 1) + encode_utf8(names[i - 1]).len()
    }
}

proof fn lemma_byte_offset_prefix(names: Seq<Seq<char>>, shorter: Seq<Seq<char>>, i: int)
    requires
        0 <= i <= shorter.len() <= names.len(),
        forall|j: int| 0 <= j < shorter.len() ==> shorter[j] == names[j],
    ensures
        byte_offset(shorter, i) == byte_offset(names, i),
    decreases i,
{
    if i > 0 {
        lemma_byte_offset_prefix(names, shorter, i - 1);
    }
}

proof fn lemma_byte_offset_monotone(names: Seq<Seq<char>>, i: int, j: int)
    requires
        0 <= i <= j,
    ensures
        byte_offset(names, i) <= byte_offset(names, j),
    decreases j,
{
    if i < j {
        lemma_byte_offset_monotone(names, i, j - 1);
    }
}

/// The shape of the two files after publishing `names` one after another
/// into empty files: the event log is the names' UTF-8 bytes in order; the
/// index table has one 8-byte entry per name, and entry `i` is the sum of
/// the byte lengths of the names before it, so the entries never decrease
/// and none passes the end of the event log. The entries are 8-byte
/// numbers, so this holds while the log's size fits in them.
pub proof fn lemma_published_layout(names: Seq<Seq<char>>, i: int, j: int)
    requires
        published_events(names).len() <= u64::MAX,
        0 <= i <= j < names.len(),
    ensures
        published_index(names).len() == 8 * names.len(),
        published_events(names).len() == byte_offset(names, names.len() as int),
        published_events(names).subrange(byte_offset(names, i), byte_offset(names, i + 1)) == encode_utf8(names[i]),
        entry_at(published_index(names), i) == byte_offset(names, i),
        entry_at(published_index(names), i) <= entry_at(published_index(names), j) <= published_events(names).len(),
    decreases names.len(),
{
    let n = names.len() as int;
    let prev = names.drop_last();
    let index = published_index(names);
    let events = published_events(names);
    let prev_events = published_events(prev);
    lemma_published_index_len(names);
    lemma_published_index_len(prev);
    vstd::bytes::lemma_auto_spec_u64_to_from_le_bytes();
    lemma_byte_offset_prefix(names, prev, n - 1);
    lemma_byte_offset_monotone(names, i, j);
    lemma_byte_offset_monotone(names, j, n);
    lemma_byte_offset_monotone(names, i + 1, n);
    assert(events == prev_events + encode_utf8(names.last()));
    if n > 1 {
        lemma_published_layout(prev, 0, 0);
        assert(prev_events.len() == byte_offset(prev, n - 1));
    }
    assert(prev_events.len() == byte_offset(names, n - 1));
    assert(events.len() == byte_offset(names, n));
    assert(index.subrange(8 * (n - 1), 8 * (n - 1) + 8) =~= spec_u64_to_le_bytes(prev_events.len() as u64));
    assert(entry_at(index, n - 1) == byte_offset(names, n - 1));
    assert forall|k: int| 0 <= k < n implies #[trigger] entry_at(index, k) == byte_offset(names, k)
        && events.subrange(byte_offset(names, k), byte_offset(names, k + 1)) == encode_utf8(names[k]) by {
        if k == n - 1 {
            assert(events.subrange(byte_offset(names, k), byte_offset(names, k + 1)) =~= encode_utf8(names[k]));
        } else {
            lemma_published_layout(prev, k, k);
            lemma_byte_offset_prefix(names, prev, k);
            lemma_byte_offset_prefix(names, prev, k + 1);
            lemma_byte_offset_monotone(names, k + 1, n - 1);
            assert(index.subrange(8 * k, 8 * k + 8) =~= published_index(prev).subrange(8 * k, 8 * k + 8));
            assert(prev[k] == names[k]);
            assert(events.subrange(byte_offset(names, k), byte_offset(names, k + 1))
                =~= prev_events.subrange(byte_offset(names, k), byte_offset(names, k + 1)));
        }
    }
    assert(entry_at(index, i) == byte_offset(names, i));
    assert(entry_at(index, j) == byte_offset(names, j));
}

} // verus!
