use value_diff::diff::{diff, ChangeType, Recorder};
use value_diff::value::Value;

fn dict(entries: Vec<(&str, Value)>) -> Value {
    let mut pairs: Vec<(String, Value)> = Vec::new();
    for (k, v) in entries {
        pairs.push((k.to_string(), v));
    }
    Value::Dict(pairs)
}

fn ints(items: Vec<i128>) -> Value {
    let mut out: Vec<Value> = Vec::new();
    for i in items {
        out.push(Value::Int(i));
    }
    Value::Array(out)
}

fn run(left: &Value, right: &Value, root: &str) -> Recorder {
    let mut recorder = Recorder::new();
    diff(left, right, &mut recorder, root.to_string());
    recorder
}

fn expect_modified_int(c: &ChangeType, path: &str, from: i128, to: i128) {
    match c {
        ChangeType::Modified(p, f, t) => {
            assert_eq!(p.as_str(), path);
            assert!(matches!(f, Value::Int(x) if *x == from));
            assert!(matches!(t, Value::Int(x) if *x == to));
        }
        _ => panic!("expected Modified at {}", path),
    }
}

fn expect_added_int(c: &ChangeType, path: &str, new: i128) {
    match c {
        ChangeType::Added(p, v) => {
            assert_eq!(p.as_str(), path);
            assert!(matches!(v, Value::Int(x) if *x == new));
        }
        _ => panic!("expected Added at {}", path),
    }
}

fn expect_removed_int(c: &ChangeType, path: &str, gone: i128) {
    match c {
        ChangeType::Removed(p, v) => {
            assert_eq!(p.as_str(), path);
            assert!(matches!(v, Value::Int(x) if *x == gone));
        }
        _ => panic!("expected Removed at {}", path),
    }
}

#[test]
fn reflexive_scalar() {
    let x = Value::Int(42);
    let r = run(&x, &x, "root");
    assert_eq!(r.calls().len(), 0);
}

#[test]
fn reflexive_nested() {
    let make = || {
        dict(vec![
            ("a", Value::Int(1)),
            ("b", dict(vec![("x", Value::Text("hi".to_string())), ("y", ints(vec![1, 2, 3]))])),
            ("c", Value::Bool(true)),
        ])
    };
    let left = make();
    let right = make();
    let r = run(&left, &right, "root");
    assert_eq!(r.calls().len(), 0);
}

#[test]
fn scalar_modified() {
    let r = run(&Value::Int(1), &Value::Int(2), "root");
    assert_eq!(r.calls().len(), 1);
    expect_modified_int(&r.calls()[0], "root", 1, 2);
}

#[test]
fn type_change_scalar_vs_mapping() {
    let left = Value::Int(7);
    let right = dict(vec![("a", Value::Int(7))]);
    let r = run(&left, &right, "root");
    assert_eq!(r.calls().len(), 1);
    match &r.calls()[0] {
        ChangeType::Modified(p, f, t) => {
            assert_eq!(p.as_str(), "root");
            assert!(f.deep_eq(&left));
            assert!(t.deep_eq(&right));
        }
        _ => panic!("expected Modified"),
    }
}

#[test]
fn type_change_sequence_vs_scalar() {
    let left = ints(vec![1, 2]);
    let right = Value::Bool(false);
    let r = run(&left, &right, "root");
    assert_eq!(r.calls().len(), 1);
    match &r.calls()[0] {
        ChangeType::Modified(p, f, t) => {
            assert_eq!(p.as_str(), "root");
            assert!(f.deep_eq(&left));
            assert!(t.deep_eq(&right));
        }
        _ => panic!("expected Modified"),
    }
}

#[test]
fn disjoint_mappings() {
    let left = dict(vec![("a", Value::Int(1))]);
    let right = dict(vec![("c", Value::Int(3)), ("b", Value::Int(2))]);
    let r = run(&left, &right, "root");
    assert_eq!(r.calls().len(), 3);
    expect_added_int(&r.calls()[0], "root.b", 2);
    expect_added_int(&r.calls()[1], "root.c", 3);
    expect_removed_int(&r.calls()[2], "root.a", 1);
}

#[test]
fn deterministic_repeat() {
    let left = dict(vec![
        ("a", Value::Int(1)),
        ("b", dict(vec![("x", Value::Int(1))])),
        ("d", Value::Int(9)),
    ]);
    let right = dict(vec![
        ("a", Value::Int(2)),
        ("b", dict(vec![("x", Value::Int(1)), ("y", Value::Int(2))])),
        ("c", Value::Int(3)),
    ]);
    let r1 = run(&left, &right, "root");
    let r2 = run(&left, &right, "root");
    assert_eq!(r1.calls().len(), r2.calls().len());
    for i in 0..r1.calls().len() {
        match (&r1.calls()[i], &r2.calls()[i]) {
            (ChangeType::Added(p1, v1), ChangeType::Added(p2, v2)) => {
                assert_eq!(p1, p2);
                assert!(v1.deep_eq(v2));
            }
            (ChangeType::Removed(p1, v1), ChangeType::Removed(p2, v2)) => {
                assert_eq!(p1, p2);
                assert!(v1.deep_eq(v2));
            }
            (ChangeType::Modified(p1, f1, t1), ChangeType::Modified(p2, f2, t2)) => {
                assert_eq!(p1, p2);
                assert!(f1.deep_eq(f2));
                assert!(t1.deep_eq(t2));
            }
            _ => panic!("records differ in kind at {}", i),
        }
    }
}

#[test]
fn path_composition_nested() {
    let left = dict(vec![("b", dict(vec![("a", Value::Int(1))]))]);
    let right = dict(vec![("b", dict(vec![("a", Value::Int(2))]))]);
    let r = run(&left, &right, "root");
    assert_eq!(r.calls().len(), 1);
    expect_modified_int(&r.calls()[0], "root.b.a", 1, 2);
}

#[test]
fn concrete_scenario() {
    let left = dict(vec![("a", Value::Int(1)), ("b", dict(vec![("x", Value::Int(1))]))]);
    let right = dict(vec![
        ("a", Value::Int(2)),
        ("b", dict(vec![("x", Value::Int(1)), ("y", Value::Int(2))])),
        ("c", Value::Int(3)),
    ]);
    let r = run(&left, &right, "root");
    assert_eq!(r.calls().len(), 3);
    expect_modified_int(&r.calls()[0], "root.a", 1, 2);
    expect_added_int(&r.calls()[1], "root.b.y", 2);
    expect_added_int(&r.calls()[2], "root.c", 3);
}

#[test]
fn sequence_shift() {
    let left = ints(vec![1, 2, 3]);
    let right = ints(vec![0, 1, 2, 3]);
    let r = run(&left, &right, "root");
    assert_eq!(r.calls().len(), 4);
    expect_modified_int(&r.calls()[0], "root.0", 1, 0);
    expect_modified_int(&r.calls()[1], "root.1", 2, 1);
    expect_modified_int(&r.calls()[2], "root.2", 3, 2);
    expect_added_int(&r.calls()[3], "root.3", 3);
}

#[test]
fn sequence_truncated() {
    let left = ints(vec![1, 2, 3]);
    let right = ints(vec![1]);
    let r = run(&left, &right, "root");
    assert_eq!(r.calls().len(), 2);
    expect_removed_int(&r.calls()[0], "root.1", 2);
    expect_removed_int(&r.calls()[1], "root.2", 3);
}

#[test]
fn long_sequence_keys_sort_lexicographically() {
    // Index keys are decimal strings, so "10" and "11" sort between "1"
    // and "2" when a sequence has more than ten elements.
    let left = ints(vec![0, 1, 2, 3, 4, 5, 6, 7, 8, 9, 10, 11]);
    let right = ints(vec![1, 2, 3, 4, 5, 6, 7, 8, 9, 10, 11, 12]);
    let r = run(&left, &right, "root");
    assert_eq!(r.calls().len(), 12);
    let expected = [
        "root.0", "root.1", "root.10", "root.11", "root.2", "root.3", "root.4", "root.5",
        "root.6", "root.7", "root.8", "root.9",
    ];
    for (i, want) in expected.iter().enumerate() {
        match &r.calls()[i] {
            ChangeType::Modified(p, _, _) => assert_eq!(p.as_str(), *want),
            _ => panic!("expected Modified at {}", want),
        }
    }
}

#[test]
fn empty_mappings_are_equal() {
    let left = dict(vec![]);
    let right = dict(vec![]);
    let r = run(&left, &right, "root");
    assert_eq!(r.calls().len(), 0);
}

#[test]
fn mapping_vs_empty_mapping() {
    let left = dict(vec![("a", Value::Int(1))]);
    let right = dict(vec![]);
    let r = run(&left, &right, "root");
    assert_eq!(r.calls().len(), 1);
    expect_removed_int(&r.calls()[0], "root.a", 1);
}

#[test]
fn sequence_and_mapping_compare_by_key() {
    // A sequence element under index key "0" matches a mapping entry named
    // "0": both sides are containers, so their children are compared purely
    // by key.
    let left = ints(vec![5]);
    let right = dict(vec![("0", Value::Int(5))]);
    let r = run(&left, &right, "root");
    assert_eq!(r.calls().len(), 0);
}

#[test]
fn scalar_kind_payloads() {
    // Equal blobs, dates, uids and real bit patterns report nothing.
    let pairs = vec![
        (Value::Data(vec![1, 2, 3]), Value::Data(vec![1, 2, 3])),
        (Value::Date(100, 500), Value::Date(100, 500)),
        (Value::Uid(7), Value::Uid(7)),
        (Value::Real(0x3ff0000000000000), Value::Real(0x3ff0000000000000)),
        (Value::Text("hi".to_string()), Value::Text("hi".to_string())),
        (Value::Bool(true), Value::Bool(true)),
    ];
    for (l, r) in &pairs {
        let rec = run(l, r, "root");
        assert_eq!(rec.calls().len(), 0);
    }
    // Differing ones report exactly one Modified at the root label.
    let diffs = vec![
        (Value::Data(vec![1, 2, 3]), Value::Data(vec![1, 2])),
        (Value::Date(100, 500), Value::Date(100, 501)),
        (Value::Uid(7), Value::Uid(8)),
        (Value::Real(0x3ff0000000000000), Value::Real(0x4000000000000000)),
        (Value::Text("hi".to_string()), Value::Text("ho".to_string())),
        (Value::Bool(true), Value::Bool(false)),
        (Value::Text("1".to_string()), Value::Int(1)),
    ];
    for (l, r) in &diffs {
        let rec = run(l, r, "root");
        assert_eq!(rec.calls().len(), 1);
        match &rec.calls()[0] {
            ChangeType::Modified(p, f, t) => {
                assert_eq!(p.as_str(), "root");
                assert!(f.deep_eq(l));
                assert!(t.deep_eq(r));
            }
            _ => panic!("expected Modified"),
        }
    }
}

#[test]
fn nested_mixed_containers() {
    let left = dict(vec![("seq", ints(vec![1, 2])), ("map", dict(vec![("k", Value::Int(1))]))]);
    let right = dict(vec![
        ("seq", ints(vec![1, 3])),
        ("map", dict(vec![("k", Value::Int(1)), ("m", Value::Int(4))])),
    ]);
    let r = run(&left, &right, "root");
    assert_eq!(r.calls().len(), 2);
    expect_added_int(&r.calls()[0], "root.map.m", 4);
    expect_modified_int(&r.calls()[1], "root.seq.1", 2, 3);
}

#[test]
fn mapping_insertion_order_insignificant() {
    let left = dict(vec![("a", Value::Int(1)), ("b", Value::Int(2))]);
    let right = dict(vec![("b", Value::Int(2)), ("a", Value::Int(1))]);
    let r = run(&left, &right, "root");
    assert_eq!(r.calls().len(), 0);
}

#[test]
fn deep_eq_and_clone_agree() {
    let v = dict(vec![
        ("a", ints(vec![1, 2, 3])),
        ("b", Value::Data(vec![9, 8])),
        ("c", dict(vec![("inner", Value::Real(12))])),
    ]);
    let c = v.deep_clone();
    assert!(v.deep_eq(&c));
    assert!(c.deep_eq(&v));
    let other = dict(vec![("a", ints(vec![1, 2, 3]))]);
    assert!(!v.deep_eq(&other));
}
