use hashmap::Entry;
use hashmap::Hashmap;
use hashmap::Iter;

#[test]
fn insert() {
    let mut map = Hashmap::new();
    assert_eq!(map.len(), 0);
    assert!(map.is_empty());
    map.insert("foo", 1);
    assert_eq!(map.len(), 1);
    assert!(!map.is_empty());
    assert_eq!(map.get(&"foo"), Some(&1));
}

#[test]
fn remove() {
    let mut map = Hashmap::new();
    map.insert("foo", 1);
    map.insert("bar", 2);
    map.insert("foobar", 3);
    assert_eq!(map.remove(&"foobar"), Some(3));
    assert_eq!(map.remove(&"foobar"), None);
}

#[test]
fn iter() {
    let mut map = Hashmap::new();
    map.insert("foo", 1);
    map.insert("bar", 2);
    map.insert("foobar", 3);
    let mut it = map.iter();
    while let Some((&k, &v)) = it.next() {
        match k {
            "foo" => assert_eq!(v, 1),
            "bar" => assert_eq!(v, 2),
            "foobar" => assert_eq!(v, 3),
            _ => unreachable!(),
        }
    }
    let mut count = 0;
    let mut it2 = Iter::new(&map);
    while it2.next().is_some() {
        count += 1;
    }
    assert_eq!(count, 3);
}

#[test]
fn insert_then_remove_scenario() {
    let mut map = Hashmap::new();
    map.insert("foo", 1);
    map.insert("bar", 2);
    map.insert("foobar", 3);
    assert_eq!(map.len(), 3);
    assert_eq!(map.get(&"foobar"), Some(&3));
    assert_eq!(map.remove(&"foobar"), Some(3));
    assert_eq!(map.remove(&"foobar"), None);
    assert_eq!(map.len(), 2);
}

#[test]
fn empty_table_lookups() {
    let map: Hashmap<&str, i32> = Hashmap::new();
    assert_eq!(map.get(&"missing"), None);
    assert!(!map.contains_key(&"missing"));
}

#[test]
fn growth_keeps_entries() {
    // A fresh table grows from zero buckets to one on the first insert;
    // four distinct keys push the load factor past three quarters more
    // than once.
    let mut map = Hashmap::new();
    map.insert("one", 1u64);
    map.insert("two", 2);
    map.insert("three", 3);
    map.insert("four", 4);
    assert_eq!(map.len(), 4);
    assert_eq!(map.get(&"one"), Some(&1));
    assert_eq!(map.get(&"two"), Some(&2));
    assert_eq!(map.get(&"three"), Some(&3));
    assert_eq!(map.get(&"four"), Some(&4));
}

#[test]
fn explicit_resize_keeps_entries() {
    let mut map = Hashmap::new();
    map.insert(10u64, "ten");
    map.insert(20u64, "twenty");
    map.insert(30u64, "thirty");
    let before = map.len();
    map.resize();
    map.resize();
    assert_eq!(map.len(), before);
    assert_eq!(map.get(&10u64), Some(&"ten"));
    assert_eq!(map.get(&20u64), Some(&"twenty"));
    assert_eq!(map.get(&30u64), Some(&"thirty"));
}

#[test]
fn overwrite_keeps_len() {
    let mut map = Hashmap::new();
    assert_eq!(map.insert("k", 1), None);
    assert_eq!(map.len(), 1);
    assert_eq!(map.insert("k", 2), Some(1));
    assert_eq!(map.len(), 1);
    assert_eq!(map.get(&"k"), Some(&2));
}

#[test]
fn remove_absent_key() {
    let mut map = Hashmap::new();
    map.insert("present", 1);
    assert_eq!(map.remove(&"absent"), None);
    assert_eq!(map.len(), 1);
    assert_eq!(map.get(&"present"), Some(&1));
}

#[test]
fn string_keys_with_str_lookup() {
    let mut map: Hashmap<String, u64> = Hashmap::new();
    map.insert(String::from("alpha"), 1);
    map.insert(String::from("beta"), 2);
    assert_eq!(map.get(&"alpha"), Some(&1));
    assert!(map.contains_key(&"beta"));
    assert!(!map.contains_key(&"gamma"));
    assert_eq!(map.remove(&"alpha"), Some(1));
    assert_eq!(map.get(&"alpha"), None);
    assert_eq!(map.get(&String::from("beta")), Some(&2));
}

#[test]
fn integer_keys() {
    let mut map: Hashmap<u64, String> = Hashmap::new();
    for k in 0..32u64 {
        map.insert(k, format!("v{}", k));
    }
    assert_eq!(map.len(), 32);
    for k in 0..32u64 {
        assert_eq!(map.get(&k), Some(&format!("v{}", k)));
    }
    for k in 0..16u64 {
        assert_eq!(map.remove(&k), Some(format!("v{}", k)));
    }
    assert_eq!(map.len(), 16);
    for k in 0..16u64 {
        assert_eq!(map.get(&k), None);
    }
    for k in 16..32u64 {
        assert_eq!(map.get(&k), Some(&format!("v{}", k)));
    }
}

#[test]
fn entry_occupied_keeps_value() {
    let mut map = Hashmap::new();
    map.insert("health", 50);
    let e = map.entry("health");
    let v = *e.insert_or(&mut map, 100);
    assert_eq!(v, 50);
    assert_eq!(map.get(&"health"), Some(&50));
    assert_eq!(map.len(), 1);
}

#[test]
fn entry_vacant_inserts_default() {
    let mut map = Hashmap::new();
    let e = map.entry("attack");
    let v = *e.insert_or(&mut map, 100);
    assert_eq!(v, 100);
    assert_eq!(map.get(&"attack"), Some(&100));
    assert_eq!(map.len(), 1);
}

#[test]
fn entry_or_default() {
    let mut map: Hashmap<&str, i32> = Hashmap::new();
    let v = *map.entry("fresh").or_default(&mut map);
    assert_eq!(v, 0);
    map.insert("set", 7);
    let w = *map.entry("set").or_default(&mut map);
    assert_eq!(w, 7);
    assert_eq!(map.len(), 2);
}

#[test]
fn entry_vacant_handle_insert() {
    let mut map: Hashmap<u64, u64> = Hashmap::new();
    match map.entry(5) {
        Entry::Occupied(_) => unreachable!(),
        Entry::Vacant(v) => {
            let stored = *v.insert(&mut map, 55);
            assert_eq!(stored, 55);
        }
    }
    assert_eq!(map.get(&5), Some(&55));
}

#[test]
fn traversal_matches_table() {
    let mut map: Hashmap<u64, u64> = Hashmap::new();
    for k in 0..10u64 {
        map.insert(k, k * k);
    }
    let mut seen = Vec::new();
    let mut it = map.iter();
    while let Some((&k, &v)) = it.next() {
        assert_eq!(map.get(&k), Some(&v));
        assert!(!seen.contains(&k));
        seen.push(k);
    }
    assert_eq!(seen.len(), 10);
}
