use des_inspect::breakpoint::{toggle_breakpoint, Breakpoint, BreakpointKind};
use des_inspect::snapshot::Snapshot;
use des_inspect::value::{Mapping, Value};

/// Snapshot where entity "mod" shows `x` with the given value, or no `x`.
fn observe(snap: &mut Snapshot, x: Option<i64>) {
    let mut m = Mapping::new();
    if let Some(n) = x {
        m.insert("x".to_string(), Value::Number(n));
    }
    snap.set("mod".to_string(), Value::Mapping(m));
}

fn bp(kind: BreakpointKind, last: Option<i64>) -> Breakpoint {
    Breakpoint {
        path: "mod".to_string(),
        key: "x".to_string(),
        kind,
        last: last.map(Value::Number),
        triggered: false,
    }
}

fn run(kind: BreakpointKind, seed: Option<i64>, steps: &[Option<i64>]) -> Vec<bool> {
    let mut snap = Snapshot::new();
    let mut b = bp(kind, seed);
    let mut fired = Vec::new();
    for s in steps {
        observe(&mut snap, *s);
        let halt = b.update(&snap);
        assert_eq!(halt, b.triggered);
        fired.push(halt);
    }
    fired
}

#[test]
fn appeared_triggers_exactly_once_on_third_step() {
    let fired = run(
        BreakpointKind::OnValueAppeared,
        None,
        &[None, None, Some(1), Some(2)],
    );
    assert_eq!(fired, vec![false, false, true, false]);
}

#[test]
fn changed_triggers_exactly_once_on_third_step() {
    let fired = run(
        BreakpointKind::OnValueChanged,
        Some(1),
        &[Some(1), Some(1), Some(2), Some(2)],
    );
    assert_eq!(fired, vec![false, false, true, false]);
}

#[test]
fn disappeared_triggers_on_second_step() {
    let fired = run(BreakpointKind::OnValueDisappeared, Some(1), &[Some(1), None]);
    assert_eq!(fired, vec![false, true]);
}

#[test]
fn disabled_never_triggers() {
    let fired = run(
        BreakpointKind::Disabled,
        None,
        &[None, Some(1), Some(2), None, Some(3)],
    );
    assert_eq!(fired, vec![false; 5]);
}

#[test]
fn changed_triggers_on_disappearance_too() {
    let fired = run(BreakpointKind::OnValueChanged, Some(1), &[Some(1), None]);
    assert_eq!(fired, vec![false, true]);
}

#[test]
fn unwatched_entity_observes_nothing() {
    let snap = Snapshot::new();
    let mut b = bp(BreakpointKind::OnValueDisappeared, Some(1));
    assert!(b.update(&snap));
    assert!(b.last.is_none());
}

#[test]
fn toggle_adds_then_removes() {
    let mut bps: Vec<Breakpoint> = Vec::new();
    toggle_breakpoint(&mut bps, "mod".to_string(), "x".to_string(), Some(Value::Number(1)));
    assert_eq!(bps.len(), 1);
    assert_eq!(bps[0].path, "mod");
    assert_eq!(bps[0].key, "x");
    assert!(matches!(bps[0].kind, BreakpointKind::OnValueChanged));
    assert!(!bps[0].triggered);
    toggle_breakpoint(&mut bps, "mod".to_string(), "y".to_string(), None);
    assert_eq!(bps.len(), 2);
    toggle_breakpoint(&mut bps, "mod".to_string(), "x".to_string(), None);
    assert_eq!(bps.len(), 1);
    assert_eq!(bps[0].key, "y");
}
