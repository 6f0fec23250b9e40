use std::cmp::Ordering;
use value_ord::{cmp_number, cmp_object, resolve_external, sorted_keys, type_rank, Number, ObjMap, Value};

fn num(i: i64) -> Value {
    Value::Number(Number::from_i64(i))
}

fn text(t: &str) -> Value {
    Value::String(String::from(t))
}

fn ext(v: Value) -> Value {
    Value::External(Box::new(v))
}

fn obj(pairs: Vec<(&str, Value)>) -> Value {
    let mut m = ObjMap::new();
    for (k, v) in pairs {
        m.insert(String::from(k), v);
    }
    Value::Object(m)
}

fn sample(i: usize) -> Value {
    let mut vs = samples();
    vs.remove(i)
}

fn samples() -> Vec<Value> {
    vec![
        Value::Null,
        Value::Bool(false),
        Value::Bool(true),
        num(-3),
        num(0),
        num(7),
        text(""),
        text("apple"),
        text("banana"),
        Value::Array(vec![]),
        Value::Array(vec![num(1), num(2)]),
        Value::Array(vec![num(1), num(3)]),
        obj(vec![]),
        obj(vec![("a", num(1))]),
        obj(vec![("a", num(2))]),
        obj(vec![("b", num(1))]),
        obj(vec![("a", num(1)), ("b", num(2))]),
        ext(num(7)),
        ext(ext(text("apple"))),
    ]
}

#[test]
fn totality_and_reflexivity() {
    let vs = samples();
    for a in &vs {
        assert_eq!(a.cmp(a), Ordering::Equal);
        for b in &vs {
            let c = a.cmp(b);
            let count = [Ordering::Less, Ordering::Equal, Ordering::Greater]
                .iter()
                .filter(|o| **o == c)
                .count();
            assert_eq!(count, 1);
        }
    }
}

#[test]
fn antisymmetry() {
    let vs = samples();
    for a in &vs {
        for b in &vs {
            let ab = a.cmp(b);
            let ba = b.cmp(a);
            match ab {
                Ordering::Less => assert_eq!(ba, Ordering::Greater),
                Ordering::Equal => assert_eq!(ba, Ordering::Equal),
                Ordering::Greater => assert_eq!(ba, Ordering::Less),
            }
        }
    }
}

#[test]
fn transitivity_across_ranks() {
    let vs = samples();
    for a in &vs {
        for b in &vs {
            for c in &vs {
                if a.cmp(b) == Ordering::Less && b.cmp(c) == Ordering::Less {
                    assert_eq!(a.cmp(c), Ordering::Less);
                }
                if a.cmp(b) == Ordering::Equal && b.cmp(c) == Ordering::Equal {
                    assert_eq!(a.cmp(c), Ordering::Equal);
                }
            }
        }
    }
}

#[test]
fn rank_dominance_chain() {
    let chain = vec![
        Value::Null,
        Value::Bool(true),
        num(5),
        text("s"),
        Value::Array(vec![num(1)]),
        obj(vec![("k", num(1))]),
    ];
    for i in 0..chain.len() {
        for j in 0..chain.len() {
            if i < j {
                assert_eq!(chain[i].cmp(&chain[j]), Ordering::Less);
                assert_eq!(chain[j].cmp(&chain[i]), Ordering::Greater);
            }
        }
    }
}

#[test]
fn type_rank_values() {
    assert_eq!(type_rank(&Value::Null), 0);
    assert_eq!(type_rank(&Value::Bool(false)), 1);
    assert_eq!(type_rank(&num(9)), 2);
    assert_eq!(type_rank(&text("x")), 3);
    assert_eq!(type_rank(&Value::Array(vec![])), 4);
    assert_eq!(type_rank(&obj(vec![])), 5);
    assert_eq!(type_rank(&ext(ext(text("x")))), 3);
}

#[test]
fn external_transparency() {
    let n = samples().len();
    for i in 0..n {
        let v = sample(i);
        let wrapped = ext(sample(i));
        assert_eq!(wrapped.cmp(&v), Ordering::Equal);
        assert_eq!(v.cmp(&wrapped), Ordering::Equal);
        let twice = ext(ext(sample(i)));
        assert_eq!(twice.cmp(&v), Ordering::Equal);
        for j in 0..n {
            let w = sample(j);
            assert_eq!(wrapped.cmp(&w), v.cmp(&w));
            assert_eq!(w.cmp(&wrapped), w.cmp(&v));
        }
    }
}

#[test]
fn resolve_external_unwraps() {
    let v = ext(ext(num(4)));
    let r = resolve_external(&v);
    assert_eq!(r.cmp(&num(4)), Ordering::Equal);
    assert_eq!(type_rank(r), 2);
    let plain = text("p");
    assert_eq!(resolve_external(&plain).cmp(&plain), Ordering::Equal);
}

#[test]
fn numeric_compare() {
    assert_eq!(num(1).cmp(&num(2)), Ordering::Less);
    assert_eq!(num(5).cmp(&num(5)), Ordering::Equal);
    assert_eq!(num(2).cmp(&num(1)), Ordering::Greater);
    assert_eq!(num(-10).cmp(&num(3)), Ordering::Less);
}

#[test]
fn cmp_number_direct() {
    let a = Number::from_i64(1);
    let b = Number::from_i64(2);
    assert_eq!(cmp_number(&a, &b), Ordering::Less);
    assert_eq!(cmp_number(&b, &a), Ordering::Greater);
    assert_eq!(cmp_number(&a, &a), Ordering::Equal);
    assert_eq!(a.as_i64(), Some(1));
}

#[test]
fn bool_ordering() {
    assert_eq!(Value::Bool(false).cmp(&Value::Bool(true)), Ordering::Less);
    assert_eq!(Value::Bool(true).cmp(&Value::Bool(false)), Ordering::Greater);
    assert_eq!(Value::Bool(true).cmp(&Value::Bool(true)), Ordering::Equal);
}

#[test]
fn string_compare() {
    assert_eq!(text("apple").cmp(&text("banana")), Ordering::Less);
    assert_eq!(text("banana").cmp(&text("apple")), Ordering::Greater);
    assert_eq!(text("apple").cmp(&text("apple")), Ordering::Equal);
    assert_eq!(text("").cmp(&text("a")), Ordering::Less);
    assert_eq!(text("app").cmp(&text("apple")), Ordering::Less);
}

#[test]
fn array_prefix_rule() {
    let a12 = Value::Array(vec![num(1), num(2)]);
    let a13 = Value::Array(vec![num(1), num(3)]);
    let a123 = Value::Array(vec![num(1), num(2), num(3)]);
    let empty = Value::Array(vec![]);
    assert_eq!(a12.cmp(&a123), Ordering::Less);
    assert_eq!(a13.cmp(&a123), Ordering::Greater);
    assert_eq!(empty.cmp(&Value::Array(vec![])), Ordering::Equal);
    assert_eq!(empty.cmp(&a12), Ordering::Less);
}

#[test]
fn object_keyset_dominance() {
    let a1 = obj(vec![("a", num(1))]);
    let b1 = obj(vec![("b", num(1))]);
    assert_eq!(a1.cmp(&b1), Ordering::Less);
    // key-set shape decides before any value content
    let a_big = obj(vec![("a", num(99))]);
    let b_small = obj(vec![("b", num(0))]);
    assert_eq!(a_big.cmp(&b_small), Ordering::Less);
    let ab = obj(vec![("a", num(1)), ("b", num(2))]);
    assert_eq!(ab.cmp(&a1), Ordering::Greater);
    assert_eq!(a1.cmp(&ab), Ordering::Less);
}

#[test]
fn object_value_fallback() {
    let a1 = obj(vec![("a", num(1))]);
    let a2 = obj(vec![("a", num(2))]);
    assert_eq!(a1.cmp(&a2), Ordering::Less);
    assert_eq!(a2.cmp(&a1), Ordering::Greater);
    let ab1 = obj(vec![("a", num(1)), ("b", num(5))]);
    let ab2 = obj(vec![("a", num(1)), ("b", num(6))]);
    assert_eq!(ab1.cmp(&ab2), Ordering::Less);
}

#[test]
fn empty_objects_equal() {
    assert_eq!(obj(vec![]).cmp(&obj(vec![])), Ordering::Equal);
    assert_eq!(obj(vec![]).cmp(&obj(vec![("a", num(1))])), Ordering::Less);
}

#[test]
fn iteration_order_independence() {
    let forward = obj(vec![("a", num(1)), ("b", num(2)), ("c", num(3))]);
    let backward = obj(vec![("c", num(3)), ("b", num(2)), ("a", num(1))]);
    let shuffled = obj(vec![("b", num(2)), ("c", num(3)), ("a", num(1))]);
    assert_eq!(forward.cmp(&backward), Ordering::Equal);
    assert_eq!(forward.cmp(&shuffled), Ordering::Equal);
    assert_eq!(backward.cmp(&shuffled), Ordering::Equal);
    // and the order against any third object is the same for both
    let other = obj(vec![("a", num(1)), ("b", num(2)), ("d", num(3))]);
    assert_eq!(forward.cmp(&other), backward.cmp(&other));
}

#[test]
fn sorted_keys_canonical() {
    let mut m = ObjMap::new();
    m.insert(String::from("b"), num(2));
    m.insert(String::from("a"), num(1));
    m.insert(String::from("c"), num(3));
    let ks = sorted_keys(&m);
    assert_eq!(ks, vec![String::from("a"), String::from("b"), String::from("c")]);
}

#[test]
fn cmp_object_direct() {
    let mut m1 = ObjMap::new();
    m1.insert(String::from("a"), num(1));
    let mut m2 = ObjMap::new();
    m2.insert(String::from("a"), num(2));
    assert_eq!(cmp_object(&m1, &m2), Ordering::Less);
    assert_eq!(m1.cmp(&m2), Ordering::Less);
    assert_eq!(m1.partial_cmp(&m2), Some(Ordering::Less));
}

#[test]
fn map_insert_and_get() {
    let mut m = ObjMap::new();
    m.insert(String::from("k"), num(1));
    m.insert(String::from("k"), num(2));
    match m.get("k") {
        Some(v) => assert_eq!(v.cmp(&num(2)), Ordering::Equal),
        None => panic!(),
    }
    assert!(m.get("missing").is_none());
    let ks = m.keys();
    assert_eq!(ks, vec![String::from("k")]);
}

#[test]
fn partial_cmp_always_some() {
    let vs = samples();
    for a in &vs {
        for b in &vs {
            assert_eq!(a.partial_cmp(b), Some(a.cmp(b)));
        }
    }
}

#[test]
fn accessors() {
    assert_eq!(Value::Bool(true).as_bool(), Some(true));
    assert_eq!(num(1).as_bool(), None);
    assert_eq!(text("hi").as_str(), Some("hi"));
    assert_eq!(Value::Null.as_str(), None);
}

#[test]
fn nested_structures() {
    let inner1 = obj(vec![("x", Value::Array(vec![num(1), num(2)]))]);
    let inner2 = obj(vec![("x", Value::Array(vec![num(1), num(3)]))]);
    let o1 = obj(vec![("n", inner1)]);
    let o2 = obj(vec![("n", inner2)]);
    assert_eq!(o1.cmp(&o2), Ordering::Less);
    let arr1 = Value::Array(vec![obj(vec![("a", num(1))]), ext(num(5))]);
    let arr2 = Value::Array(vec![obj(vec![("a", num(1))]), num(5)]);
    assert_eq!(arr1.cmp(&arr2), Ordering::Equal);
}
