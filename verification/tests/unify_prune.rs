use des_inspect::unify::{check_flat_key, remove_empty, unify};
use des_inspect::value::{value_eq, Mapping, Value};

fn get_eq(m: &Mapping, key: &str, expected: &Value) {
    let got = m.get(key).unwrap_or_else(|| panic!("key {key} missing"));
    assert!(value_eq(got, expected), "value under {key} differs");
}

#[test]
fn single_attribute_keeps_its_flat_name() {
    let m = unify(vec![("plain".to_string(), Value::Number(3))]);
    assert_eq!(m.len(), 1);
    get_eq(&m, "plain", &Value::Number(3));

    let m2 = unify(vec![("odd..key@".to_string(), Value::Bool(true))]);
    assert_eq!(m2.len(), 1);
    get_eq(&m2, "odd..key@", &Value::Bool(true));
}

#[test]
fn selector_groups_become_nested_mappings() {
    let m = unify(vec![
        ("inet@v6.addr".to_string(), Value::Text("::1".to_string())),
        ("inet@v4.addr".to_string(), Value::Text("127.0.0.1".to_string())),
    ]);
    assert_eq!(m.len(), 1);
    let inet = m.get("inet").expect("group inet");
    match inet {
        Value::Mapping(sub) => {
            assert_eq!(sub.len(), 2);
            get_eq(sub, "v6.addr", &Value::Text("::1".to_string()));
            get_eq(sub, "v4.addr", &Value::Text("127.0.0.1".to_string()));
        }
        _ => panic!("inet must be a mapping"),
    }
}

#[test]
fn single_member_groups_are_hoisted_flat() {
    let m = unify(vec![
        ("counter".to_string(), Value::Number(1)),
        ("key".to_string(), Value::Text("value".to_string())),
    ]);
    assert_eq!(m.len(), 2);
    get_eq(&m, "counter", &Value::Number(1));
    get_eq(&m, "key", &Value::Text("value".to_string()));
}

#[test]
fn empty_selector_inserts_directly() {
    let m = unify(vec![
        ("@top".to_string(), Value::Number(9)),
        ("grp@x".to_string(), Value::Number(1)),
        ("grp@y".to_string(), Value::Number(2)),
    ]);
    get_eq(&m, "top", &Value::Number(9));
    let grp = m.get("grp").expect("group grp");
    match grp {
        Value::Mapping(sub) => {
            get_eq(sub, "x", &Value::Number(1));
            get_eq(sub, "y", &Value::Number(2));
        }
        _ => panic!("grp must be a mapping"),
    }
}

#[test]
fn prune_drops_empty_containers_recursively() {
    let mut outer = Mapping::new();
    outer.insert("empty_map".to_string(), Value::Mapping(Mapping::new()));
    outer.insert("empty_seq".to_string(), Value::Sequence(vec![]));
    outer.insert("kept".to_string(), Value::Number(5));
    let mut inner = Mapping::new();
    inner.insert("hollow".to_string(), Value::Mapping(Mapping::new()));
    outer.insert("nested".to_string(), Value::Mapping(inner));

    remove_empty(&mut outer);
    assert_eq!(outer.len(), 1);
    get_eq(&outer, "kept", &Value::Number(5));
    assert!(outer.get("empty_map").is_none());
    assert!(outer.get("empty_seq").is_none());
    assert!(outer.get("nested").is_none());
}

#[test]
fn prune_twice_equals_prune_once() {
    let mut a = Mapping::new();
    a.insert("m".to_string(), Value::Mapping(Mapping::new()));
    a.insert("n".to_string(), Value::Number(1));
    a.insert("s".to_string(), Value::Sequence(vec![Value::Null]));
    let mut b_entries = Mapping::new();
    b_entries.insert("m".to_string(), Value::Mapping(Mapping::new()));
    b_entries.insert("n".to_string(), Value::Number(1));
    b_entries.insert("s".to_string(), Value::Sequence(vec![Value::Null]));

    remove_empty(&mut a);
    remove_empty(&mut b_entries);
    remove_empty(&mut b_entries);
    assert_eq!(a.len(), b_entries.len());
    assert!(value_eq(
        &Value::Mapping(a),
        &Value::Mapping(b_entries)
    ));
}

#[test]
fn prune_keeps_non_empty_leaves() {
    let mut m = Mapping::new();
    m.insert("text".to_string(), Value::Text(String::new()));
    m.insert("zero".to_string(), Value::Number(0));
    m.insert("null".to_string(), Value::Null);
    m.insert("seq".to_string(), Value::Sequence(vec![Value::Number(1)]));
    remove_empty(&mut m);
    assert_eq!(m.len(), 4);
}

#[test]
fn flat_key_well_formedness() {
    assert!(check_flat_key(""));
    assert!(check_flat_key("@anything..even@this"));
    assert!(check_flat_key("inet@v6.addr"));
    assert!(check_flat_key("a.b.c"));
    assert!(!check_flat_key(".leading"));
    assert!(!check_flat_key("trailing."));
    assert!(!check_flat_key("dou..ble"));
    assert!(!check_flat_key("dot.@at"));
}
