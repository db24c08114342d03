use des_inspect::path::resolve;
use des_inspect::value::{value_eq, Mapping, Value};

fn map(entries: Vec<(&str, Value)>) -> Mapping {
    let mut m = Mapping::new();
    for (k, v) in entries {
        m.insert(k.to_string(), v);
    }
    m
}

fn mapv(entries: Vec<(&str, Value)>) -> Value {
    Value::Mapping(map(entries))
}

#[test]
fn empty_path_returns_value_itself() {
    let values = vec![
        Value::Null,
        Value::Bool(true),
        Value::Number(42),
        Value::Text("hi".to_string()),
        Value::Sequence(vec![Value::Number(1)]),
        mapv(vec![("a", Value::Number(1))]),
        Value::Tagged("t".to_string(), Box::new(Value::Null)),
    ];
    for v in values {
        let r = resolve(&v, "").expect("empty path must resolve");
        assert!(value_eq(r, &v));
    }
}

#[test]
fn literal_dotted_key_and_nested_tree_resolve_alike() {
    let x = Value::Number(7);
    let flat = mapv(vec![("a.b", Value::Number(7))]);
    let nested = mapv(vec![("a", mapv(vec![("b", Value::Number(7))]))]);
    let rf = resolve(&flat, "a.b").expect("flat key must resolve");
    let rn = resolve(&nested, "a.b").expect("nested tree must resolve");
    assert!(value_eq(rf, &x));
    assert!(value_eq(rn, &x));
}

#[test]
fn mixed_nesting_with_dotted_leaf() {
    let leaf = Value::Sequence(vec![Value::Text("a".to_string()), Value::Text("b".to_string())]);
    let tree = mapv(vec![(
        "inet",
        mapv(vec![(
            "v6.solicitations",
            Value::Sequence(vec![Value::Text("a".to_string()), Value::Text("b".to_string())]),
        )]),
    )]);
    let r = resolve(&tree, "inet.v6.solicitations").expect("must resolve");
    assert!(value_eq(r, &leaf));
}

#[test]
fn missing_field_is_absence_not_error() {
    let tree = mapv(vec![("a", Value::Number(1))]);
    assert!(resolve(&tree, "b").is_none());
    assert!(resolve(&tree, "a.b").is_none());
}

#[test]
fn sequence_indexing() {
    let tree = mapv(vec![(
        "xs",
        Value::Sequence(vec![
            Value::Number(10),
            mapv(vec![("y", Value::Number(20))]),
        ]),
    )]);
    let r0 = resolve(&tree, "xs.0").expect("index 0 must resolve");
    assert!(value_eq(r0, &Value::Number(10)));
    let r1 = resolve(&tree, "xs.1.y").expect("nested index must resolve");
    assert!(value_eq(r1, &Value::Number(20)));
    assert!(resolve(&tree, "xs.2").is_none());
    assert!(resolve(&tree, "xs.notanumber").is_none());
}

#[test]
fn scalars_do_not_descend() {
    assert!(resolve(&Value::Number(1), "a").is_none());
    assert!(resolve(&Value::Bool(true), "a").is_none());
    assert!(resolve(&Value::Null, "a").is_none());
    let tagged = Value::Tagged("t".to_string(), Box::new(mapv(vec![("a", Value::Null)])));
    assert!(resolve(&tagged, "a").is_none());
}

#[test]
fn longest_prefix_wins_and_commits() {
    // both "a.b" and "a" are keys: the longer prefix "a.b" is tried first
    // and the resolver commits to it, even though "a" also leads to a "c"
    let tree = mapv(vec![
        ("a.b", mapv(vec![("c", Value::Number(1))])),
        ("a", mapv(vec![("b", mapv(vec![("c", Value::Number(2))]))])),
    ]);
    let r = resolve(&tree, "a.b.c").expect("must resolve through the longest prefix");
    assert!(value_eq(r, &Value::Number(1)));
}
