use carcara::utils::{HashCache, MultiSetDifference};
use std::collections::hash_map::DefaultHasher;
use std::hash::{Hash, Hasher};

fn hash_of<T: Hash>(x: &T) -> u64 {
    let mut h = DefaultHasher::new();
    x.hash(&mut h);
    h.finish()
}

#[test]
fn hash_cache_round_trip_equality_and_hash() {
    let v = String::from("some value");
    assert_eq!(HashCache::new(v.clone()).unwrap(), v);
    let a = HashCache::new(vec![1u64, 2, 3]);
    let b = HashCache::new(vec![1u64, 2, 3]);
    let c = HashCache::new(vec![4u64]);
    assert!(a == b);
    assert!(a != c);
    assert_eq!(hash_of(&a), hash_of(&b));
    assert_eq!(*a.as_ref(), vec![1u64, 2, 3]);
}

#[test]
fn hash_map_stack_scopes() {
    let mut stack: carcara::utils::HashMapStack<String, u32> = carcara::utils::HashMapStack::new();
    assert_eq!(stack.height(), 1);
    assert!(stack.is_empty());
    stack.insert("x".to_string(), 1);
    assert!(!stack.is_empty());
    stack.push_scope();
    assert_eq!(stack.height(), 2);
    assert_eq!(stack.get("x"), Some(&1));
    assert_eq!(stack.get_top("x"), None);
    stack.insert("x".to_string(), 2);
    stack.insert("y".to_string(), 3);
    assert_eq!(stack.get("x"), Some(&2));
    assert_eq!(stack.get_with_depth("x"), Some((1, &2)));
    assert_eq!(stack.get_top("y"), Some(&3));
    assert_eq!(stack.get("z"), None);
    stack.pop_scope();
    assert_eq!(stack.height(), 1);
    assert_eq!(stack.get_with_depth("x"), Some((0, &1)));
    assert_eq!(stack.get("y"), None);
    stack.push_scope();
    assert!(!stack.is_empty());
    stack.clear();
    assert_eq!(stack.height(), 1);
    assert!(stack.is_empty());
    assert_eq!(stack.get("x"), None);
}

#[test]
fn hash_map_stack_integer_keys() {
    let mut stack: carcara::utils::HashMapStack<u64, &str> = carcara::utils::HashMapStack::default();
    stack.insert(7, "a");
    stack.push_scope();
    stack.push_scope();
    stack.insert(7, "b");
    assert_eq!(stack.get_with_depth(&7), Some((2, &"b")));
    stack.pop_scope();
    assert_eq!(stack.get_with_depth(&7), Some((0, &"a")));
    assert_eq!(stack.get(&8), None);
}

#[test]
fn multiset_counts() {
    let mut m: carcara::utils::MultiSet<u64> = carcara::utils::MultiSet::new();
    assert!(m.is_empty());
    assert_eq!(m.insert(3), 1);
    assert_eq!(m.insert(3), 2);
    assert_eq!(m.insert_n(5, 4), 4);
    assert_eq!(m.insert_n(7, 0), 0);
    assert_eq!(m.len(), 2);
    assert_eq!(m.get(&3), 2);
    assert_eq!(m.get(&7), 0);
    assert!(m.contains(&5));
    assert!(!m.contains(&7));
    assert_eq!(m.remove(&3), 1);
    assert_eq!(m.remove_n(&5, 2), 2);
    assert_eq!(m.remove_n(&5, 10), 0);
    assert!(!m.contains(&5));
    assert_eq!(m.remove(&9), 0);
    assert_eq!(m.len(), 1);
    assert_eq!(m.remove(&3), 0);
    assert!(m.is_empty());
}

#[test]
fn multiset_symmetric_difference() {
    let mut a: carcara::utils::MultiSet<String> = carcara::utils::MultiSet::new();
    let mut b: carcara::utils::MultiSet<String> = carcara::utils::MultiSet::new();
    a.insert("x".to_string());
    a.insert("y".to_string());
    b.insert("y".to_string());
    b.insert("x".to_string());
    assert!(matches!(a.symmetric_difference(&b), MultiSetDifference::NoDifference));
    a.insert("y".to_string());
    assert!(matches!(a.symmetric_difference(&b), MultiSetDifference::Extra(e) if e == "y"));
    assert!(matches!(b.symmetric_difference(&a), MultiSetDifference::Missing(e) if e == "y"));
    b.insert("z".to_string());
    b.insert("y".to_string());
    assert!(matches!(a.symmetric_difference(&b), MultiSetDifference::Missing(e) if e == "z"));
    // An element that leaves is replaced at its position by the last one
    b.remove(&"x".to_string());
    assert!(matches!(a.symmetric_difference(&b), MultiSetDifference::Extra(e) if e == "x"));
}
