use journal_watcher::ingest::{extract_attributes, process_line};
use journal_watcher::patterns::{compile, RawEventPattern};

fn raw(event: &str, pattern: &str, attrs: &[(&str, &str)]) -> RawEventPattern {
    RawEventPattern {
        event: event.to_string(),
        pattern: pattern.to_string(),
        attribute_patterns: attrs
            .iter()
            .map(|(k, v)| (k.to_string(), v.to_string()))
            .collect(),
    }
}

#[test]
fn one_event_per_matching_definition() {
    let defs = compile(&vec![
        raw("has_error", r"ERROR", &[]),
        raw("has_disk", r"disk", &[]),
        raw("never", r"unrelated", &[]),
    ])
    .unwrap();
    let produced = process_line("ERROR: disk is full", &defs, 100);
    assert_eq!(produced.len(), 2);
    assert_eq!(produced[0].0, "has_error");
    assert_eq!(produced[1].0, "has_disk");
    assert_eq!(produced[0].1.timestamp, 100);
    assert_eq!(produced[1].1.timestamp, 100);
}

#[test]
fn non_matching_line_yields_nothing() {
    let defs = compile(&vec![raw("evt", r"ERROR", &[])]).unwrap();
    let produced = process_line("all quiet", &defs, 1);
    assert!(produced.is_empty());
}

#[test]
fn unmatched_attribute_is_absent_not_empty() {
    let defs = compile(&vec![raw(
        "evt",
        r"ERROR",
        &[("code", r"code=(\d+)"), ("user", r"user=(\w+)")],
    )])
    .unwrap();
    let produced = process_line("ERROR user=bob", &defs, 5);
    assert_eq!(produced.len(), 1);
    let attrs = &produced[0].1.attributes;
    assert!(attrs.iter().all(|(k, _)| k != "code"));
    assert_eq!(attrs, &vec![("user".to_string(), "bob".to_string())]);
}

#[test]
fn capture_groups_join_left_to_right() {
    let attrs = compile(&vec![raw(
        "evt",
        r".*",
        &[("pair", r"a=(\w+) b=(\w+)")],
    )])
    .unwrap();
    let produced = process_line("a=left b=right", &attrs, 0);
    assert_eq!(
        produced[0].1.attributes,
        vec![("pair".to_string(), "left, right".to_string())]
    );
}

#[test]
fn three_groups_join_in_group_order() {
    let defs = compile(&vec![raw(
        "evt",
        r".*",
        &[("triple", r"(\d+)-(\d+)-(\d+)")],
    )])
    .unwrap();
    let produced = process_line("date 2023-11-14 here", &defs, 0);
    assert_eq!(
        produced[0].1.attributes,
        vec![("triple".to_string(), "2023, 11, 14".to_string())]
    );
}

#[test]
fn group_outside_the_match_is_skipped() {
    let defs = compile(&vec![raw("evt", r".*", &[("alt", r"(left)|(right)")])]).unwrap();
    let produced = process_line("right", &defs, 0);
    assert_eq!(
        produced[0].1.attributes,
        vec![("alt".to_string(), "right".to_string())]
    );
}

#[test]
fn extract_attributes_directly() {
    let defs = compile(&vec![raw("evt", r".*", &[("n", r"n=(\d+)")])]).unwrap();
    let out = extract_attributes("n=17", &defs[0].attribute_patterns);
    assert_eq!(out, vec![("n".to_string(), "17".to_string())]);
    let none = extract_attributes("nothing here", &defs[0].attribute_patterns);
    assert!(none.is_empty());
}
