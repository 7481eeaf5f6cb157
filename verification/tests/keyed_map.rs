use plato_fleet_manager::KeyedMap;

#[test]
fn read_after_write() {
    let mut m: KeyedMap<u64> = KeyedMap::new();
    assert_eq!(m.insert("a".into(), 1), None);
    assert_eq!(m.insert("b".into(), 2), None);
    assert_eq!(m.insert("a".into(), 3), Some(1));
    assert_eq!(m.get("a"), Some(&3));
    assert_eq!(m.get("b"), Some(&2));
    assert_eq!(m.len(), 2);
    assert_eq!(m.key_at(0), "a");
    assert_eq!(m.key_at(1), "b");
    assert_eq!(m.position("b"), Some(1));
}

#[test]
fn read_after_remove() {
    let mut m: KeyedMap<u64> = KeyedMap::new();
    m.insert("a".into(), 1);
    m.insert("b".into(), 2);
    m.insert("c".into(), 3);
    assert_eq!(m.remove("b"), Some(2));
    assert_eq!(m.get("b"), None);
    assert!(!m.contains_key("b"));
    assert_eq!(m.remove("b"), None);
    assert_eq!(m.len(), 2);
    assert_eq!(m.key_at(1), "c");
    assert_eq!(m.get("c"), Some(&3));
}

#[test]
fn remove_undoes_insert() {
    let mut m: KeyedMap<u64> = KeyedMap::new();
    m.insert("x".into(), 7);
    m.insert("new".into(), 8);
    m.remove("new");
    assert_eq!(m.len(), 1);
    assert_eq!(m.key_at(0), "x");
    assert_eq!(*m.value_at(0), 7);
}

#[test]
fn take_and_put_back() {
    let mut m: KeyedMap<u64> = KeyedMap::new();
    m.insert("a".into(), 1);
    m.insert("b".into(), 2);
    let (k, v) = m.take_at(0);
    assert_eq!((k.as_str(), v), ("a", 1));
    assert!(m.get("a").is_none());
    m.put_at(0, k, v + 10);
    assert_eq!(m.key_at(0), "a");
    assert_eq!(m.get("a"), Some(&11));
    let copy = m.clone();
    assert_eq!(copy.get("b"), Some(&2));
    assert!(!copy.is_empty());
}
