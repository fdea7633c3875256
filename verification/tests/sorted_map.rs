use loco_tasks::sorted_map::SortedMap;

#[test]
fn new_map_is_empty() {
    let m: SortedMap<u32> = SortedMap::new();
    assert_eq!(m.len(), 0);
    assert_eq!(m.get("a"), None);
}

#[test]
fn inserted_values_are_found() {
    let mut m: SortedMap<u32> = SortedMap::new();
    m.insert("b".to_string(), 2);
    m.insert("a".to_string(), 1);
    m.insert("c".to_string(), 3);
    assert_eq!(m.len(), 3);
    assert_eq!(m.get("a"), Some(&1));
    assert_eq!(m.get("b"), Some(&2));
    assert_eq!(m.get("c"), Some(&3));
    assert_eq!(m.get("d"), None);
    assert_eq!(m.get(""), None);
}

#[test]
fn insert_under_a_taken_key_replaces() {
    let mut m: SortedMap<u32> = SortedMap::new();
    m.insert("a".to_string(), 1);
    m.insert("b".to_string(), 2);
    m.insert("a".to_string(), 10);
    assert_eq!(m.len(), 2);
    assert_eq!(m.get("a"), Some(&10));
    assert_eq!(m.get("b"), Some(&2));
}

#[test]
fn entries_come_in_ascending_order() {
    let mut m: SortedMap<u32> = SortedMap::new();
    for (i, key) in ["m", "c", "x", "a", "q", "b", "x", "a"].iter().enumerate() {
        m.insert(key.to_string(), i as u32);
    }
    let mut seen = Vec::new();
    for i in 0..m.len() {
        let (key, value) = m.entry(i);
        seen.push((key.clone(), *value));
    }
    let expected: Vec<(String, u32)> =
        vec![("a", 7), ("b", 5), ("c", 1), ("m", 0), ("q", 4), ("x", 6)]
            .into_iter()
            .map(|(k, v)| (k.to_string(), v))
            .collect();
    assert_eq!(seen, expected);
}
