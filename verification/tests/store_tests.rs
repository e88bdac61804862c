use journal_watcher::event::Event;
use journal_watcher::ingest::ingest_line;
use journal_watcher::patterns::{compile, RawEventPattern};
use journal_watcher::store::EventStore;

fn temp_store() -> EventStore {
    let db = sled::Config::new().temporary(true).open().unwrap();
    EventStore::new(db)
}

fn tagged(timestamp: u64, tag: &str) -> Event {
    Event {
        timestamp,
        attributes: vec![("tag".to_string(), tag.to_string())],
    }
}

#[test]
fn range_query_half_open_with_duplicate_timestamps() {
    let mut store = temp_store();
    store.insert("ns", 10, &tagged(10, "a")).unwrap();
    store.insert("ns", 20, &tagged(20, "b")).unwrap();
    store.insert("ns", 20, &tagged(20, "c")).unwrap();
    store.insert("ns", 30, &tagged(30, "d")).unwrap();
    let hits = store.range_query("ns", 15, 25).unwrap();
    assert_eq!(hits.len(), 2);
    assert!(hits.iter().all(|e| e.timestamp == 20));
    let mut tags: Vec<String> = hits.iter().map(|e| e.attributes[0].1.clone()).collect();
    tags.sort();
    assert_eq!(tags, vec!["b".to_string(), "c".to_string()]);
}

#[test]
fn range_bounds_are_inclusive_start_exclusive_end() {
    let mut store = temp_store();
    store.insert("ns", 10, &tagged(10, "a")).unwrap();
    store.insert("ns", 20, &tagged(20, "b")).unwrap();
    store.insert("ns", 30, &tagged(30, "c")).unwrap();
    let hits = store.range_query("ns", 10, 30).unwrap();
    let ts: Vec<u64> = hits.iter().map(|e| e.timestamp).collect();
    assert_eq!(ts, vec![10, 20]);
}

#[test]
fn results_come_in_ascending_timestamp_order() {
    let mut store = temp_store();
    store.insert("ns", 30, &tagged(30, "late")).unwrap();
    store.insert("ns", 10, &tagged(10, "early")).unwrap();
    store.insert("ns", 20, &tagged(20, "middle")).unwrap();
    let hits = store.range_query("ns", 0, u64::MAX).unwrap();
    let ts: Vec<u64> = hits.iter().map(|e| e.timestamp).collect();
    assert_eq!(ts, vec![10, 20, 30]);
}

#[test]
fn unknown_namespace_yields_empty_not_error() {
    let store = temp_store();
    let hits = store.range_query("never_written", 0, u64::MAX).unwrap();
    assert!(hits.is_empty());
}

#[test]
fn empty_range_yields_empty() {
    let mut store = temp_store();
    store.insert("ns", 10, &tagged(10, "a")).unwrap();
    assert!(store.range_query("ns", 25, 15).unwrap().is_empty());
    assert!(store.range_query("ns", 15, 15).unwrap().is_empty());
}

#[test]
fn namespaces_are_independent() {
    let mut store = temp_store();
    store.insert("first", 10, &tagged(10, "a")).unwrap();
    store.insert("second", 10, &tagged(10, "b")).unwrap();
    let first = store.range_query("first", 0, u64::MAX).unwrap();
    let second = store.range_query("second", 0, u64::MAX).unwrap();
    assert_eq!(first.len(), 1);
    assert_eq!(second.len(), 1);
    assert_eq!(first[0].attributes[0].1, "a");
    assert_eq!(second[0].attributes[0].1, "b");
}

#[test]
fn ingest_line_writes_one_event_per_match() {
    let defs = compile(&vec![
        RawEventPattern {
            event: "err".to_string(),
            pattern: r"ERROR".to_string(),
            attribute_patterns: vec![("what".to_string(), r"ERROR: (\w+)".to_string())],
        },
        RawEventPattern {
            event: "disk".to_string(),
            pattern: r"disk".to_string(),
            attribute_patterns: vec![],
        },
    ])
    .unwrap();
    let mut store = temp_store();
    ingest_line(&mut store, "ERROR: disk", &defs, 77).unwrap();
    ingest_line(&mut store, "nothing notable", &defs, 78).unwrap();
    let errs = store.range_query("err", 0, u64::MAX).unwrap();
    let disks = store.range_query("disk", 0, u64::MAX).unwrap();
    assert_eq!(errs.len(), 1);
    assert_eq!(disks.len(), 1);
    assert_eq!(errs[0].timestamp, 77);
    assert_eq!(
        errs[0].attributes,
        vec![("what".to_string(), "disk".to_string())]
    );
}
