use datastructs::hash_map::HashMap;

#[test]
fn hash_map_basic() {
    let mut hash_map = HashMap::new();

    // Make sure empty state is correct
    assert_eq!(hash_map.len(), 0);
    assert_eq!(hash_map.capacity(), 0);
    assert_eq!(hash_map.get(1), None);
    assert_eq!(hash_map.remove(1), None);

    // Add element
    assert_eq!(hash_map.insert(1, 1), None);
    assert_eq!(hash_map.len(), 1);
    assert_eq!(hash_map.capacity(), 10);
    assert_eq!(hash_map.get(1), Some(&1));

    // Overwrite
    assert_eq!(hash_map.insert(1, 2), Some(1));
    assert_eq!(hash_map.get(1), Some(&2));

    // Delete
    assert_eq!(hash_map.remove(1), Some((1, 2)));
    assert_eq!(hash_map.get(1), None);

    // Add multiple elements
    for i in 0..11 {
        assert_eq!(hash_map.insert(i, i), None);
    }
    assert_eq!(hash_map.len(), 11);
    assert_eq!(hash_map.capacity(), 10 * 2);
}

#[test]
fn string() {
    let mut hash_map = HashMap::new();

    hash_map.insert("Hello", "world");
    hash_map.insert(&"Hello", &"world");
}

#[test]
fn iter() {
    let mut hash_map = HashMap::new();

    hash_map.insert("a", 1);
    hash_map.insert("b", 2);
    hash_map.insert("c", 3);

    let mut it = hash_map.iter();
    let mut count: usize = 0;
    while let Some(_) = it.next() {
        count += 1;
    }
    assert_eq!(count, 3);

    let mut it = hash_map.iter();
    while let Some((&k, &v)) = it.next() {
        match k {
            "a" => assert_eq!(v, 1),
            "b" => assert_eq!(v, 2),
            "c" => assert_eq!(v, 3),
            _ => unreachable!(),
        }
    }
}

#[test]
fn into_iter() {
    let mut hash_map = HashMap::new();

    hash_map.insert("a", 1);
    hash_map.insert("b", 2);
    hash_map.insert("c", 3);

    let mut it = hash_map.into_iter();
    while let Some((k, v)) = it.next() {
        match k {
            "a" => assert_eq!(v, 1),
            "b" => assert_eq!(v, 2),
            "c" => assert_eq!(v, 3),
            _ => unreachable!(),
        }
    }
}

#[test]
fn distinct_keys_counted_once() {
    let mut m = HashMap::new();
    for i in 0..8 {
        m.insert(i, i * 10);
    }
    assert_eq!(m.len(), 8);
    for i in 0..8 {
        m.insert(i, i * 100);
    }
    assert_eq!(m.len(), 8);
    for i in 0..8 {
        assert_eq!(m.get(i), Some(&(i * 100)));
    }
}

#[test]
fn absent_keys_not_found() {
    let mut m = HashMap::new();
    m.insert(3u64, "three");
    assert_eq!(m.get(4u64), None);
    assert!(!m.contains_key(99u64));
    assert!(m.contains_key(3u64));
}

#[test]
fn insert_twice_returns_first_value() {
    let mut m = HashMap::new();
    assert_eq!(m.insert(7, "v1"), None);
    let before = m.len();
    assert_eq!(m.insert(7, "v2"), Some("v1"));
    assert_eq!(m.get(7), Some(&"v2"));
    assert_eq!(m.len(), before);
}

#[test]
fn remove_present_and_absent() {
    let mut m = HashMap::new();
    m.insert(1, 10);
    m.insert(2, 20);
    assert_eq!(m.len(), 2);
    assert_eq!(m.remove(1), Some((1, 10)));
    assert_eq!(m.get(1), None);
    assert_eq!(m.len(), 1);
    let unchanged = m.len();
    assert_eq!(m.remove(42), None);
    assert_eq!(m.len(), unchanged);
}

#[test]
fn growth_preserves_entries() {
    let mut m = HashMap::new();
    for i in 0..6 {
        m.insert(i, i + 100);
    }
    let cap_before = m.capacity();
    // The next insertion crosses the 60% threshold and doubles the table.
    m.insert(6, 106);
    assert!(m.capacity() > cap_before);
    for i in 0..7 {
        assert_eq!(m.get(i), Some(&(i + 100)));
    }
}

#[test]
fn remove_then_get_single_entry() {
    let mut m = HashMap::new();
    m.insert(1, 2);
    assert_eq!(m.remove(1), Some((1, 2)));
    assert_eq!(m.get(1), None);
}

#[test]
fn entry_or_insert() {
    let mut m = HashMap::new();
    let e = m.entry(5);
    let slot = e.or_insert(&mut m, 50);
    assert_eq!(*slot, 50);
    *slot = 55;
    assert_eq!(m.get(5), Some(&55));

    // A present key keeps its value whatever the fallback says.
    let e = m.entry(5);
    let slot = e.or_insert(&mut m, 999);
    assert_eq!(*slot, 55);
    assert_eq!(m.get(5), Some(&55));
    assert_eq!(m.len(), 1);
}

#[test]
fn entry_or_insert_with_and_default() {
    let mut m: HashMap<u64, i32> = HashMap::new();
    let e = m.entry(1);
    let slot = e.or_insert_with(&mut m, || 7);
    assert_eq!(*slot, 7);
    let e = m.entry(1);
    let slot = e.or_insert_with(&mut m, || 8);
    assert_eq!(*slot, 7);
    let e = m.entry(2);
    let slot = e.or_default(&mut m);
    assert_eq!(*slot, 0);
    assert_eq!(m.len(), 2);
}

#[test]
fn with_capacity_starts_empty() {
    let m: HashMap<u64, u64> = HashMap::with_capacity(16);
    assert_eq!(m.capacity(), 16);
    assert_eq!(m.len(), 0);
    assert!(m.is_empty());
}

#[test]
fn string_keys_round_trip() {
    let mut m = HashMap::new();
    m.insert("alpha", 1);
    m.insert("beta", 2);
    assert_eq!(m.get("alpha"), Some(&1));
    assert_eq!(m.get("beta"), Some(&2));
    assert_eq!(m.get("gamma"), None);
    assert_eq!(m.remove("alpha"), Some(("alpha", 1)));
    assert_eq!(m.get("alpha"), None);
}

#[test]
fn many_inserts_and_removes_across_growth() {
    let mut m = HashMap::new();
    for i in 0..50u64 {
        m.insert(i, i * 2);
    }
    assert_eq!(m.len(), 50);
    for i in 0..25u64 {
        assert_eq!(m.remove(i), Some((i, i * 2)));
    }
    assert_eq!(m.len(), 25);
    for i in 0..25u64 {
        assert_eq!(m.get(i), None);
    }
    for i in 25..50u64 {
        assert_eq!(m.get(i), Some(&(i * 2)));
    }
    // Tombstones are cleared by the next growth; entries survive it.
    for i in 100..140u64 {
        m.insert(i, i);
    }
    for i in 25..50u64 {
        assert_eq!(m.get(i), Some(&(i * 2)));
    }
    assert_eq!(m.len(), 65);
}
