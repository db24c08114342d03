use des_inspect::value::{deep_clone, value_eq, Mapping, Value};

fn sample() -> Value {
    let mut inner = Mapping::new();
    inner.insert("k".to_string(), Value::Text("v".to_string()));
    let mut m = Mapping::new();
    m.insert("nested".to_string(), Value::Mapping(inner));
    m.insert(
        "seq".to_string(),
        Value::Sequence(vec![Value::Number(1), Value::Bool(false), Value::Null]),
    );
    m.insert(
        "tagged".to_string(),
        Value::Tagged("unit".to_string(), Box::new(Value::Number(3))),
    );
    Value::Mapping(m)
}

#[test]
fn deep_clone_preserves_the_whole_tree() {
    let v = sample();
    let c = deep_clone(&v);
    assert!(value_eq(&v, &c));
}

#[test]
fn equality_is_structural_and_deep() {
    assert!(value_eq(&sample(), &sample()));
    assert!(!value_eq(&Value::Number(1), &Value::Number(2)));
    assert!(!value_eq(&Value::Number(1), &Value::Bool(true)));
    assert!(!value_eq(
        &Value::Text("a".to_string()),
        &Value::Text("b".to_string())
    ));
    let a = Value::Sequence(vec![Value::Number(1)]);
    let b = Value::Sequence(vec![Value::Number(1), Value::Number(2)]);
    assert!(!value_eq(&a, &b));
    let mut m1 = Mapping::new();
    m1.insert("x".to_string(), Value::Number(1));
    let mut m2 = Mapping::new();
    m2.insert("x".to_string(), Value::Number(2));
    assert!(!value_eq(&Value::Mapping(m1), &Value::Mapping(m2)));
}

#[test]
fn insert_replaces_in_place_and_keeps_order() {
    let mut m = Mapping::new();
    m.insert("a".to_string(), Value::Number(1));
    m.insert("b".to_string(), Value::Number(2));
    m.insert("a".to_string(), Value::Number(9));
    assert_eq!(m.len(), 2);
    assert_eq!(m.key_at(0), "a");
    assert_eq!(m.key_at(1), "b");
    assert!(value_eq(m.get("a").unwrap(), &Value::Number(9)));
    assert!(m.remove("a"));
    assert_eq!(m.len(), 1);
    assert!(m.get("a").is_none());
}
