use atomic_arc::hash_map::HashMap;

#[test]
fn test_hash_map() {
    let x: HashMap<i32, i32> = HashMap::new();
    let mut x = x;
    assert!(x.get(&0).is_none());
    for i in 0..=7 {
        x.insert(i, i * 8);
    }
    for i in 0..=7 {
        assert_eq!(x.get(&i), Some(&(i * 8)));
    }
}

#[test]
fn remove_then_reinsert() {
    let mut m: HashMap<i32, String> = HashMap::new();
    m.insert(1, String::from("a"));
    m.remove(&1);
    assert!(m.get(&1).is_none());
    m.insert(1, String::from("b"));
    assert_eq!(m.get(&1).map(|s| s.as_str()), Some("b"));
}

#[test]
fn insert_twice_keeps_the_last_value() {
    let mut m: HashMap<u64, u64> = HashMap::new();
    m.insert(5, 100);
    m.insert(5, 200);
    assert_eq!(m.get(&5), Some(&200));
    assert_eq!(m.items(), 1);
}

#[test]
fn growth_from_one_bucket_keeps_every_key() {
    let mut m: HashMap<u64, u64> = HashMap::new();
    for i in 0..1024u64 {
        m.insert(i, i * 3 + 1);
    }
    for i in 0..1024u64 {
        assert_eq!(m.get(&i), Some(&(i * 3 + 1)));
    }
    assert!(m.get(&5000).is_none());
}

#[test]
fn twenty_thousand_distinct_keys_are_all_counted() {
    let mut m: HashMap<u64, u64> = HashMap::new();
    for i in 0..20_000u64 {
        m.insert(i, i);
    }
    assert_eq!(m.items(), 20_000);
    for i in (0..20_000u64).step_by(997) {
        assert_eq!(m.get(&i), Some(&i));
    }
}

#[test]
fn colliding_bucket_distinguishes_keys() {
    // a fresh map has a single bucket, so any two keys share its chain
    let mut m: HashMap<u64, u64> = HashMap::new();
    m.insert(1, 11);
    m.insert(2, 22);
    assert_eq!(m.get(&1), Some(&11));
    assert_eq!(m.get(&2), Some(&22));
    m.remove(&1);
    assert!(m.get(&1).is_none());
    assert_eq!(m.get(&2), Some(&22));
}

#[test]
fn zero_hash_is_remapped() {
    assert_eq!(atomic_arc::adjust_hash(0), 1);
    assert_eq!(atomic_arc::adjust_hash(7), 7);
    assert_eq!(atomic_arc::adjust_hash(u64::MAX), u64::MAX);
}
