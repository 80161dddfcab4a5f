use json_diff::{apply, diff, revert, Change, Delta, Number, Value};

fn conv(v: &serde_json::Value) -> Value {
    match v {
        serde_json::Value::Null => Value::Null,
        serde_json::Value::Bool(b) => Value::Bool(*b),
        serde_json::Value::Number(n) => Value::Number(if let Some(u) = n.as_u64() {
            Number::PosInt(u)
        } else if let Some(i) = n.as_i64() {
            Number::NegInt(i)
        } else {
            Number::Float(n.as_f64().unwrap().to_bits())
        }),
        serde_json::Value::String(s) => Value::String(s.clone()),
        serde_json::Value::Array(items) => Value::Array(items.iter().map(conv).collect()),
        serde_json::Value::Object(m) => {
            Value::Object(m.iter().map(|(k, x)| (k.clone(), conv(x))).collect())
        }
    }
}

fn j(text: &str) -> Value {
    conv(&serde_json::from_str(text).unwrap())
}

fn modify(before: &str, after: &str) -> Change {
    Change::Modify { before: j(before), after: j(after) }
}

#[test]
fn diff_of_equal_documents_is_empty() {
    for text in ["{}", "null", "[1, 2]", r#"{"a": {"b": [true, null]}, "c": "x"}"#, "3.5"] {
        let x = j(text);
        assert!(diff(&x, &x).is_empty());
        assert_eq!(diff(&x, &j(text)), Delta::new());
    }
}

#[test]
fn round_trip_and_inverse_round_trip() {
    let pairs = [
        (r#"{"a": 1, "b": {"c": [1], "d": {}}}"#, r#"{"b": {"c": [2], "e": null}, "f": "g"}"#),
        (r#"{}"#, r#"{"x": {"y": {"z": 1}}}"#),
        (r#"{"x": {"y": 1}}"#, r#"{"x": 5}"#),
        (r#"{"k": [1, {"a": 2}]}"#, r#"{"k": {"0": 1}}"#),
    ];
    for (b, a) in pairs {
        let before = j(b);
        let after = j(a);
        let delta = diff(&before, &after);
        assert_eq!(apply(&before, &delta), after);
        assert_eq!(revert(&after, &delta), before);
    }
}

#[test]
fn double_inversion_of_each_change() {
    let changes = [Change::Add(j("1")), Change::Remove(j(r#"{"a": []}"#)), modify("true", "\"t\"")];
    let copies = [Change::Add(j("1")), Change::Remove(j(r#"{"a": []}"#)), modify("true", "\"t\"")];
    for (c, copy) in changes.into_iter().zip(copies) {
        assert_eq!(c.inverse().inverse(), copy);
    }
    assert_eq!(Change::Add(j("1")).inverse(), Change::Remove(j("1")));
    assert_eq!(Change::Remove(j("1")).inverse(), Change::Add(j("1")));
    assert_eq!(modify("1", "2").inverse(), modify("2", "1"));
}

#[test]
fn arrays_are_compared_whole() {
    let delta = diff(&j(r#"{"x": [1, 2, 3]}"#), &j(r#"{"x": [1, 2, 4]}"#));
    assert_eq!(delta.len(), 1);
    assert_eq!(delta.get("x"), Some(&modify("[1, 2, 3]", "[1, 2, 4]")));
    assert_eq!(delta.get("x.2"), None);
}

#[test]
fn removed_subtree_is_one_entry() {
    let delta = diff(&j(r#"{"a": {"b": {"c": 1}}, "d": 2}"#), &j(r#"{"d": 2}"#));
    assert_eq!(delta.len(), 1);
    assert_eq!(delta.get("a"), Some(&Change::Remove(j(r#"{"b": {"c": 1}}"#))));
    assert_eq!(delta.get("a.b.c"), None);
}

#[test]
fn addition_and_removal_are_symmetric() {
    let small = j(r#"{"name": "Soap"}"#);
    let large = j(r#"{"name": "Soap", "description": "Fragrant"}"#);
    let mut added = Delta::new();
    added.insert("description".to_string(), Change::Add(j("\"Fragrant\"")));
    let mut removed = Delta::new();
    removed.insert("description".to_string(), Change::Remove(j("\"Fragrant\"")));
    assert_eq!(diff(&small, &large), added);
    assert_eq!(diff(&large, &small), removed);
}

#[test]
fn every_key_of_either_side_is_visited() {
    let delta = diff(&j(r#"{"0": "zero", "1": "one"}"#), &j(r#"{"0": "ZERO", "2": "two"}"#));
    assert_eq!(delta.len(), 3);
    assert_eq!(delta.get("0"), Some(&modify("\"zero\"", "\"ZERO\"")));
    assert_eq!(delta.get("1"), Some(&Change::Remove(j("\"one\""))));
    assert_eq!(delta.get("2"), Some(&Change::Add(j("\"two\""))));
}

#[test]
fn apply_leaves_the_original_alone() {
    let original = j(r#"{"a": {"b": 1}}"#);
    let mut delta = Delta::new();
    delta.insert("a.b".to_string(), Change::Modify { before: j("1"), after: j("2") });
    let mut result = apply(&original, &delta);
    assert_eq!(result, j(r#"{"a": {"b": 2}}"#));
    if let Value::Object(entries) = &mut result {
        entries.clear();
    }
    assert_eq!(result, j("{}"));
    assert_eq!(original, j(r#"{"a": {"b": 1}}"#));
}

#[test]
fn empty_delta_applies_as_identity() {
    for text in ["{}", "7", r#"{"a": [1, {"b": null}]}"#] {
        let v = j(text);
        assert_eq!(apply(&v, &Delta::new()), v);
        assert_eq!(revert(&v, &Delta::new()), v);
    }
}

#[test]
fn differing_roots_give_a_modification_at_the_empty_path() {
    let delta = diff(&j("1"), &j("[1]"));
    assert_eq!(delta.len(), 1);
    assert_eq!(delta.get(""), Some(&modify("1", "[1]")));
    // The empty path names the key "" of an object root; a scalar root is kept.
    assert_eq!(apply(&j("1"), &delta), j("1"));
    assert_eq!(apply(&j(r#"{"a": 1}"#), &delta), j(r#"{"a": 1, "": [1]}"#));
}

#[test]
fn navigation_replaces_non_objects_and_creates_missing_ones() {
    let mut delta = Delta::new();
    delta.insert("a.b.c".to_string(), Change::Add(j("1")));
    delta.insert("d.e.f".to_string(), Change::Remove(j("0")));
    let result = apply(&j(r#"{"a": [5], "x": true}"#), &delta);
    assert_eq!(result, j(r#"{"a": {"b": {"c": 1}}, "d": {"e": {}}, "x": true}"#));
    // The parent of the last key is not replaced when it is not an object.
    let mut shallow = Delta::new();
    shallow.insert("a.b".to_string(), Change::Add(j("1")));
    assert_eq!(apply(&j(r#"{"a": [5]}"#), &shallow), j(r#"{"a": [5]}"#));
}

#[test]
fn removing_an_absent_key_changes_nothing() {
    let mut delta = Delta::new();
    delta.insert("zzz".to_string(), Change::Remove(j("1")));
    assert_eq!(apply(&j(r#"{"a": 1}"#), &delta), j(r#"{"a": 1}"#));
}

#[test]
fn last_segment_under_a_scalar_is_not_set() {
    let mut delta = Delta::new();
    delta.insert("a".to_string(), Change::Add(j("1")));
    assert_eq!(apply(&j("\"s\""), &delta), j("\"s\""));
}

#[test]
fn paths_are_applied_in_ascending_order() {
    let mut delta = Delta::new();
    delta.insert("a.b".to_string(), Change::Add(j("2")));
    delta.insert("a".to_string(), Change::Add(j(r#"{"x": 0}"#)));
    let paths: Vec<String> = delta.pairs().iter().map(|(p, _)| p.clone()).collect();
    assert_eq!(paths, vec!["a".to_string(), "a.b".to_string()]);
    assert_eq!(apply(&j("{}"), &delta), j(r#"{"a": {"x": 0, "b": 2}}"#));
}

#[test]
fn delta_insert_replaces_the_change_at_a_path() {
    let mut delta = Delta::new();
    delta.insert("k".to_string(), Change::Add(j("1")));
    delta.insert("k".to_string(), Change::Remove(j("2")));
    assert_eq!(delta.len(), 1);
    assert_eq!(delta.get("k"), Some(&Change::Remove(j("2"))));
    assert_eq!(delta.get("other"), None);
}

#[test]
fn revert_inverts_each_change() {
    let mut delta = Delta::new();
    delta.insert("a".to_string(), Change::Add(j("1")));
    delta.insert("b".to_string(), Change::Remove(j("2")));
    delta.insert("c".to_string(), modify("3", "4"));
    let result = revert(&j(r#"{"a": 1, "c": 4}"#), &delta);
    assert_eq!(result, j(r#"{"b": 2, "c": 3}"#));
}

#[test]
fn zeros_of_either_sign_are_equal() {
    let pos = Value::Number(Number::Float(0.0f64.to_bits()));
    let neg = Value::Number(Number::Float((-0.0f64).to_bits()));
    assert_eq!(pos, neg);
    assert!(diff(&pos, &neg).is_empty());
    assert_ne!(Value::Number(Number::PosInt(1)), Value::Number(Number::Float(1.0f64.to_bits())));
}

#[test]
fn object_equality_ignores_entry_order_and_takes_the_last_duplicate() {
    let a = Value::Object(vec![("x".to_string(), j("1")), ("y".to_string(), j("2"))]);
    let b = Value::Object(vec![("y".to_string(), j("2")), ("x".to_string(), j("1"))]);
    assert_eq!(a, b);
    let dup = Value::Object(vec![("x".to_string(), j("0")), ("x".to_string(), j("1"))]);
    assert_eq!(dup, j(r#"{"x": 1}"#));
    assert_eq!(dup.get("x"), Some(&j("1")));
    assert_eq!(dup.get("y"), None);
}

#[test]
fn nested_paths_are_joined_with_dots() {
    let delta = diff(&j(r#"{"a": {"b": {"c": 1}}}"#), &j(r#"{"a": {"b": {"c": 2}}}"#));
    assert_eq!(delta.get("a.b.c"), Some(&modify("1", "2")));
    assert_eq!(delta.len(), 1);
}

#[test]
fn deep_copy_is_equal_and_independent() {
    let v = j(r#"{"a": [1, {"b": "c"}]}"#);
    let mut w = v.deep_copy();
    assert_eq!(v, w);
    w = Value::Null;
    assert_ne!(v, w);
}
