use des_inspect::logs::{capture_event, span_chain, Event, LogRegistry, ModuleLog, Span};

fn event(fields: &str, span: &str, module: Option<&str>) -> Event {
    Event {
        time: 0,
        level: "INFO".to_string(),
        target: "test".to_string(),
        module: module.map(str::to_string),
        span: span.to_string(),
        fields: fields.to_string(),
    }
}

#[test]
fn matches_is_a_substring_test_over_fields_span_and_module() {
    let e = event("PONG", "pinger{state=1}", Some("ping"));
    assert!(e.matches("PONG"));
    assert!(!e.matches("xyz"));
    assert!(e.matches("state=1"));
    assert!(e.matches("ping"));
    assert!(e.matches(""));
    let anon = event("PONG", "", None);
    assert!(anon.matches("PONG"));
    assert!(!anon.matches("pinger"));
}

#[test]
fn matches_is_case_sensitive() {
    let e = event("PONG", "", None);
    assert!(!e.matches("pong"));
}

#[test]
fn output_keeps_append_order() {
    let mut log = ModuleLog::new();
    for i in 0..5 {
        log.append(event(&format!("msg{i}"), "", Some("m")));
    }
    let out = log.output();
    assert_eq!(out.len(), 5);
    for i in 0..5 {
        assert_eq!(out[i].fields, format!("msg{i}"));
    }
    log.append(event("late", "", Some("m")));
    let out = log.output();
    assert_eq!(out.len(), 6);
    for i in 0..5 {
        assert_eq!(out[i].fields, format!("msg{i}"));
    }
    assert_eq!(out[5].fields, "late");
}

#[test]
fn filtered_keeps_order_and_drops_misses() {
    let mut log = ModuleLog::new();
    log.append(event("alpha PONG", "", Some("m")));
    log.append(event("beta", "", Some("m")));
    log.append(event("gamma PONG", "", Some("m")));
    let hits = log.filtered("PONG");
    assert_eq!(hits.len(), 2);
    assert_eq!(hits[0].fields, "alpha PONG");
    assert_eq!(hits[1].fields, "gamma PONG");
}

#[test]
fn span_chain_renders_names_fields_and_separators() {
    let spans = vec![
        Span { name: "outer".to_string(), fields: "a=1".to_string() },
        Span { name: "mid".to_string(), fields: String::new() },
        Span { name: "inner".to_string(), fields: "b=2".to_string() },
    ];
    assert_eq!(span_chain(&spans), "outer{a=1}:mid:inner{b=2}");
    assert_eq!(span_chain(&Vec::new()), "");
    let single = vec![Span { name: "only".to_string(), fields: String::new() }];
    assert_eq!(span_chain(&single), "only");
}

#[test]
fn capture_routes_events_to_their_entity_stream() {
    let mut reg = LogRegistry::new();
    let spans = vec![Span { name: "pinger".to_string(), fields: "state=1".to_string() }];
    let recorded = capture_event(
        &mut reg,
        7,
        "INFO".to_string(),
        "test".to_string(),
        Some("ping".to_string()),
        &spans,
        "PONG".to_string(),
    );
    assert!(recorded);
    let recorded2 = capture_event(
        &mut reg,
        8,
        "INFO".to_string(),
        "test".to_string(),
        Some("pong".to_string()),
        &Vec::new(),
        "PING".to_string(),
    );
    assert!(recorded2);

    let ping = reg.stream("ping").expect("stream ping");
    assert_eq!(ping.output().len(), 1);
    let e = &ping.output()[0];
    assert_eq!(e.time, 7);
    assert_eq!(e.span, "pinger{state=1}");
    assert_eq!(e.fields, "PONG");
    assert!(e.matches("PONG"));

    let pong = reg.stream("pong").expect("stream pong");
    assert_eq!(pong.output().len(), 1);
    assert_eq!(pong.output()[0].span, "");
}

#[test]
fn ownerless_emissions_are_dropped() {
    let mut reg = LogRegistry::new();
    let recorded = capture_event(
        &mut reg,
        1,
        "WARN".to_string(),
        "test".to_string(),
        None,
        &Vec::new(),
        "orphan".to_string(),
    );
    assert!(!recorded);
    assert!(reg.stream("orphan").is_none());
}
