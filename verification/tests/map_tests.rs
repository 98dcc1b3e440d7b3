use thethacore::{OrderedMap, Value};

#[test]
fn new_map_is_empty() {
    let map: OrderedMap<i32> = OrderedMap::new();
    assert_eq!(map.len(), 0);
    assert!(map.is_empty());
    assert_eq!(map.get("a"), None);
    assert_eq!(map.position("a"), None);
    assert!(!map.contains_key("a"));
}

#[test]
fn insert_and_get() {
    let mut map: OrderedMap<i32> = OrderedMap::new();
    map.insert("one".to_string(), 1);
    map.insert("two".to_string(), 2);
    map.insert("three".to_string(), 3);
    assert_eq!(map.len(), 3);
    assert!(!map.is_empty());
    assert_eq!(map.get("one"), Some(&1));
    assert_eq!(map.get("two"), Some(&2));
    assert_eq!(map.get("three"), Some(&3));
    assert_eq!(map.get("four"), None);
    assert_eq!(map.get("One"), None);
    assert_eq!(map.get(""), None);
    assert_eq!(map.position("one"), Some(0));
    assert_eq!(map.position("three"), Some(2));
    assert!(map.contains_key("two"));
    assert!(!map.contains_key("tw"));
}

#[test]
fn insert_keeps_the_order_of_first_insertion() {
    let mut map: OrderedMap<i32> = OrderedMap::new();
    map.insert("b".to_string(), 1);
    map.insert("a".to_string(), 2);
    map.insert("c".to_string(), 3);
    map.insert("a".to_string(), 4);
    map.insert("b".to_string(), 5);
    assert_eq!(map.len(), 3);
    assert_eq!(
        map.entries,
        vec![("b".to_string(), 5), ("a".to_string(), 4), ("c".to_string(), 3)]
    );
}

#[test]
fn empty_key_is_a_key() {
    let mut map: OrderedMap<i32> = OrderedMap::new();
    map.insert(String::new(), 7);
    assert_eq!(map.get(""), Some(&7));
    assert_eq!(map.len(), 1);
}

#[test]
fn clone_of_a_map() {
    let mut map: OrderedMap<Value> = OrderedMap::new();
    map.insert("x".to_string(), Value::Integer(1));
    map.insert("y".to_string(), Value::Array(vec![Value::Null]));
    let copy = map.clone();
    assert_eq!(copy.len(), 2);
    assert_eq!(copy.entries[0].0, "x");
    assert_eq!(copy.entries[1].0, "y");
    assert_eq!(copy.get("x"), Some(&Value::Integer(1)));
    assert_eq!(copy.get("y"), Some(&Value::Array(vec![Value::Null])));
}

#[test]
fn values_compare_by_what_they_hold() {
    assert_eq!(Value::Null, Value::Null);
    assert_eq!(Value::Integer(3), Value::Integer(3));
    assert_ne!(Value::Integer(3), Value::Integer(4));
    assert_ne!(Value::Integer(1), Value::Float("1".to_string()));
    assert_ne!(Value::Integer(1), Value::String("1".to_string()));
    assert_ne!(Value::Boolean(true), Value::Boolean(false));
    assert_ne!(Value::Null, Value::Boolean(false));
    assert_eq!(Value::String("a".to_string()), Value::String("a".to_string()));
    assert_ne!(Value::String("a".to_string()), Value::String("b".to_string()));
    assert_ne!(Value::String("1.5".to_string()), Value::Float("1.5".to_string()));
    assert_eq!(Value::Float("1.5".to_string()), Value::Float("1.5".to_string()));
    assert_eq!(
        Value::Array(vec![Value::Integer(1), Value::Null]),
        Value::Array(vec![Value::Integer(1), Value::Null])
    );
    assert_ne!(
        Value::Array(vec![Value::Integer(1), Value::Null]),
        Value::Array(vec![Value::Null, Value::Integer(1)])
    );
    assert_ne!(Value::Array(vec![Value::Null]), Value::Array(vec![Value::Null, Value::Null]));
    assert_ne!(Value::Array(vec![]), Value::Object(OrderedMap::new()));
}

#[test]
fn objects_compare_without_regard_to_order() {
    let mut a: OrderedMap<Value> = OrderedMap::new();
    a.insert("x".to_string(), Value::Integer(1));
    a.insert("y".to_string(), Value::Array(vec![Value::Boolean(true)]));
    let mut b: OrderedMap<Value> = OrderedMap::new();
    b.insert("y".to_string(), Value::Array(vec![Value::Boolean(true)]));
    b.insert("x".to_string(), Value::Integer(1));
    let mut c: OrderedMap<Value> = OrderedMap::new();
    c.insert("x".to_string(), Value::Integer(1));
    c.insert("y".to_string(), Value::Array(vec![Value::Boolean(false)]));
    let mut d: OrderedMap<Value> = OrderedMap::new();
    d.insert("x".to_string(), Value::Integer(1));
    let mut e: OrderedMap<Value> = OrderedMap::new();
    e.insert("x".to_string(), Value::Integer(1));
    e.insert("z".to_string(), Value::Array(vec![Value::Boolean(true)]));
    let (a, b, c, d, e) =
        (Value::Object(a), Value::Object(b), Value::Object(c), Value::Object(d), Value::Object(e));
    assert_eq!(a, b);
    assert_eq!(b, a);
    assert!(a.equals(&b));
    assert_ne!(a, c);
    assert_ne!(a, d);
    assert_ne!(d, a);
    assert_ne!(a, e);
    assert!(!a.equals(&e));
    let nested_a = Value::Array(vec![a.clone(), Value::Null]);
    let nested_b = Value::Array(vec![b.clone(), Value::Null]);
    assert_eq!(nested_a, nested_b);
}

#[test]
fn clone_of_a_value() {
    let mut inner: OrderedMap<Value> = OrderedMap::new();
    inner.insert("k".to_string(), Value::Float("2.5".to_string()));
    let value = Value::Array(vec![
        Value::String("s".to_string()),
        Value::Integer(-1),
        Value::Boolean(true),
        Value::Null,
        Value::Object(inner),
    ]);
    let copy = value.clone();
    assert_eq!(copy, value);
    match copy {
        Value::Array(items) => {
            assert_eq!(items.len(), 5);
            assert_eq!(items[0], Value::String("s".to_string()));
            match &items[4] {
                Value::Object(map) => {
                    assert_eq!(map.get("k"), Some(&Value::Float("2.5".to_string())))
                }
                other => panic!("not an object: {:?}", other),
            }
        }
        other => panic!("not an array: {:?}", other),
    }
}
