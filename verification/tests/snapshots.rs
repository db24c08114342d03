use des_inspect::path::resolve;
use des_inspect::snapshot::Snapshot;
use des_inspect::stepping::ExecutionParameters;
use des_inspect::value::{value_eq, Value};

#[test]
fn refresh_unifies_and_prunes_fresh_attributes() {
    let mut snap = Snapshot::new();
    snap.refresh(
        "node".to_string(),
        vec![
            ("counter".to_string(), Value::Number(4)),
            ("inet@v6.addr".to_string(), Value::Text("::1".to_string())),
            ("inet@v4.addr".to_string(), Value::Text("127.0.0.1".to_string())),
            ("hollow".to_string(), Value::Sequence(vec![])),
        ],
    );
    let tree = snap.get("node").expect("watched entity");
    let counter = resolve(tree, "counter").expect("counter");
    assert!(value_eq(counter, &Value::Number(4)));
    let v6 = resolve(tree, "inet.v6.addr").expect("v6 addr");
    assert!(value_eq(v6, &Value::Text("::1".to_string())));
    assert!(resolve(tree, "hollow").is_none());
}

#[test]
fn refresh_replaces_wholesale_and_remove_unwatches() {
    let mut snap = Snapshot::new();
    snap.refresh("node".to_string(), vec![("a".to_string(), Value::Number(1))]);
    snap.refresh("node".to_string(), vec![("b".to_string(), Value::Number(2))]);
    assert_eq!(snap.len(), 1);
    let tree = snap.get("node").expect("watched entity");
    assert!(resolve(tree, "a").is_none());
    assert!(resolve(tree, "b").is_some());
    assert!(snap.remove("node"));
    assert!(snap.get("node").is_none());
    assert!(!snap.remove("node"));
}

#[test]
fn step_budget_counts_down_and_saturates() {
    let mut p = ExecutionParameters::new();
    assert_eq!(p.limit, Some(0));
    assert!(!p.can_progress(true, 10));
    assert!(p.can_progress(false, 0));
    p.single_step();
    assert!(p.can_progress(true, 10));
    assert!(!p.can_progress(true, 0));
    p.consume(3);
    assert_eq!(p.limit, Some(0));
    p.run_free();
    assert!(p.can_progress(true, 1));
    p.consume(100);
    assert_eq!(p.limit, None);
    p.stop();
    assert!(!p.can_progress(true, 1));
    p.set_batch(16);
    assert_eq!(p.pre_frame_count, 16);
    assert!(p.should_finish(true, false, 0));
    assert!(p.should_finish(true, true, 5));
    assert!(!p.should_finish(false, true, 0));
    assert!(!p.should_finish(true, false, 5));
}
