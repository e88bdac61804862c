use journal_watcher::patterns::{compile, EventPattern, RawEventPattern};

fn raw(event: &str, pattern: &str, attrs: &[(&str, &str)]) -> RawEventPattern {
    RawEventPattern {
        event: event.to_string(),
        pattern: pattern.to_string(),
        attribute_patterns: attrs
            .iter()
            .map(|(k, v)| (k.to_string(), v.to_string()))
            .collect(),
    }
}

#[test]
fn compile_keeps_count_and_order() {
    let defs = vec![
        raw("login", r"session opened", &[("user", r"for user (\w+)")]),
        raw("error", r"ERROR", &[]),
        raw("oom", r"out of memory", &[("pid", r"pid (\d+)")]),
    ];
    let compiled = compile(&defs).expect("all patterns are valid");
    assert_eq!(compiled.len(), 3);
    assert_eq!(compiled[0].event, "login");
    assert_eq!(compiled[1].event, "error");
    assert_eq!(compiled[2].event, "oom");
}

#[test]
fn bad_line_pattern_names_event_and_pattern() {
    let defs = vec![
        raw("fine", r"ok", &[]),
        raw("broken", r"(unclosed", &[("a", r"x")]),
    ];
    let err = compile(&defs).expect_err("line pattern does not compile");
    assert_eq!(err.event, "broken");
    assert_eq!(err.attribute, None);
    assert_eq!(err.pattern, "(unclosed");
}

#[test]
fn bad_attribute_pattern_names_attribute() {
    let defs = vec![raw(
        "evt",
        r"fine",
        &[("good", r"g=(\d+)"), ("bad", r"[unclosed")],
    )];
    let err = compile(&defs).expect_err("attribute pattern does not compile");
    assert_eq!(err.event, "evt");
    assert_eq!(err.attribute, Some("bad".to_string()));
    assert_eq!(err.pattern, "[unclosed");
}

#[test]
fn first_failing_definition_wins() {
    let defs = vec![
        raw("first_bad", r"(", &[]),
        raw("second_bad", r"[", &[]),
    ];
    let err = compile(&defs).expect_err("both are bad; the first is reported");
    assert_eq!(err.event, "first_bad");
}

#[test]
fn try_from_single_definition() {
    let def = raw("evt", r"hello (\w+)", &[("who", r"hello (\w+)")]);
    let ep = EventPattern::try_from(&def).expect("compiles");
    assert_eq!(ep.event, "evt");
    assert_eq!(ep.attribute_patterns.len(), 1);
    assert_eq!(ep.attribute_patterns[0].0, "who");
}
