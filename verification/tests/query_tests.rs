use chrono::TimeZone;
use journal_watcher::event::Event;
use journal_watcher::patterns::{compile, RawEventPattern};
use journal_watcher::query::{handle, parse_timestamp_loosely, parse_u64, resolve_bounds};
use journal_watcher::store::EventStore;

#[test]
fn plain_seconds_parse_exactly() {
    assert_eq!(parse_timestamp_loosely("1700000000"), Some(1700000000));
    assert_eq!(parse_u64("0"), Some(0));
    assert_eq!(parse_u64("18446744073709551615"), Some(u64::MAX));
    assert_eq!(parse_u64("18446744073709551616"), None);
    assert_eq!(parse_u64(""), None);
    assert_eq!(parse_u64("12a"), None);
}

#[test]
fn rfc3339_with_offset_parses() {
    assert_eq!(
        parse_timestamp_loosely("2023-11-14T22:13:20Z"),
        Some(1700000000)
    );
    assert_eq!(
        parse_timestamp_loosely("2023-11-14T23:13:20+01:00"),
        Some(1700000000)
    );
}

#[test]
fn bare_date_is_local_midnight() {
    let expected = chrono::Local
        .datetime_from_str("2023-11-14T00:00:00", "%FT%T")
        .unwrap()
        .timestamp() as u64;
    assert_eq!(parse_timestamp_loosely("2023-11-14"), Some(expected));
}

#[test]
fn local_datetime_without_offset_parses() {
    let expected = chrono::Local
        .datetime_from_str("2023-11-14T22:13:20", "%FT%T")
        .unwrap()
        .timestamp() as u64;
    assert_eq!(parse_timestamp_loosely("2023-11-14T22:13:20"), Some(expected));
}

#[test]
fn unparseable_bounds_fall_back_to_defaults() {
    assert_eq!(parse_timestamp_loosely("not a time"), None);
    assert_eq!(
        resolve_bounds(Some("not a time"), Some("also not")),
        (0, u64::MAX)
    );
    assert_eq!(resolve_bounds(None, None), (0, u64::MAX));
    assert_eq!(resolve_bounds(Some("5"), Some("9")), (5, 9));
}

#[test]
fn handle_answers_every_definition_even_empty() {
    let defs = compile(&vec![
        RawEventPattern {
            event: "alpha".to_string(),
            pattern: r"alpha".to_string(),
            attribute_patterns: vec![],
        },
        RawEventPattern {
            event: "beta".to_string(),
            pattern: r"beta".to_string(),
            attribute_patterns: vec![],
        },
    ])
    .unwrap();
    let db = sled::Config::new().temporary(true).open().unwrap();
    let mut store = EventStore::new(db);
    let ev = Event { timestamp: 50, attributes: vec![] };
    store.insert("alpha", 50, &ev).unwrap();
    let out = handle(&store, &defs, 0, u64::MAX).unwrap();
    assert_eq!(out.len(), 2);
    assert_eq!(out[0].0, "alpha");
    assert_eq!(out[1].0, "beta");
    assert_eq!(out[0].1.len(), 1);
    assert!(out[1].1.is_empty());
    let none = handle(&store, &defs, 60, u64::MAX).unwrap();
    assert!(none[0].1.is_empty());
}

#[test]
fn pre_epoch_instants_are_out_of_domain() {
    // An instant before the epoch has no unsigned timestamp; it must
    // fall back to the bound's default, never wrap to a huge value.
    assert_eq!(parse_timestamp_loosely("1969-12-31T23:59:59Z"), None);
    assert_eq!(parse_timestamp_loosely("1902-03-04T05:06:07+00:00"), None);
    assert_eq!(
        resolve_bounds(
            Some("1969-07-20T20:17:00Z"),
            Some("1969-12-31T23:59:59Z")
        ),
        (0, u64::MAX)
    );
    assert_eq!(parse_timestamp_loosely("1970-01-01T00:00:00Z"), Some(0));
}
