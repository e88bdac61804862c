use journal_watcher::codec::{be64_at, deserialize_event, serialize_event, u64_to_be_bytes};
use journal_watcher::event::Event;

#[test]
fn be64_bytes_are_big_endian() {
    let b = u64_to_be_bytes(0x0102030405060708);
    assert_eq!(b, vec![1, 2, 3, 4, 5, 6, 7, 8]);
    assert_eq!(be64_at(&b, 0), 0x0102030405060708);
}

#[test]
fn be64_order_matches_numeric_order() {
    // A decimal-string encoding would order 9 after 10; this one must not.
    let nine = u64_to_be_bytes(9);
    let ten = u64_to_be_bytes(10);
    assert!(nine < ten);
    let big = u64_to_be_bytes(1 << 40);
    assert!(ten < big);
}

#[test]
fn round_trip_plain_event() {
    let ev = Event {
        timestamp: 1700000000,
        attributes: vec![
            ("user".to_string(), "alice".to_string()),
            ("code".to_string(), "42".to_string()),
        ],
    };
    let bytes = serialize_event(&ev);
    let back = deserialize_event(&bytes).expect("round trip");
    assert_eq!(back, ev);
}

#[test]
fn round_trip_empty_attributes() {
    let ev = Event { timestamp: 0, attributes: vec![] };
    let back = deserialize_event(&serialize_event(&ev)).expect("round trip");
    assert_eq!(back, ev);
}

#[test]
fn round_trip_unicode_attributes() {
    let ev = Event {
        timestamp: u64::MAX,
        attributes: vec![
            ("ключ".to_string(), "значение 🎉".to_string()),
            ("empty".to_string(), String::new()),
        ],
    };
    let back = deserialize_event(&serialize_event(&ev)).expect("round trip");
    assert_eq!(back, ev);
}

#[test]
fn truncated_bytes_do_not_decode() {
    let ev = Event { timestamp: 7, attributes: vec![("k".to_string(), "v".to_string())] };
    let mut bytes = serialize_event(&ev);
    bytes.pop();
    assert!(deserialize_event(&bytes).is_none());
    assert!(deserialize_event(&vec![1, 2, 3]).is_none());
}

#[test]
fn trailing_bytes_do_not_decode() {
    let ev = Event { timestamp: 7, attributes: vec![] };
    let mut bytes = serialize_event(&ev);
    bytes.push(0);
    assert!(deserialize_event(&bytes).is_none());
}
