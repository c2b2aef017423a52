use chained_map::{Entry, HashMap};

#[test]
fn insert() {
    let mut map = HashMap::new();
    assert_eq!(map.len(), 0);
    assert!(map.is_empty());
    map.insert("foo", 42);
    assert_eq!(map.len(), 1);
    assert!(!map.is_empty());
    assert_eq!(map.get(&"foo"), Some(&42));
    assert_eq!(map.remove(&"foo"), Some(42));
    assert_eq!(map.len(), 0);
    assert!(map.is_empty());
    assert_eq!(map.get(&"foo"), None);
}

#[test]
fn iter() {
    let mut map = HashMap::new();
    map.insert("foo", 42);
    map.insert("bar", 43);
    map.insert("baz", 142);
    map.insert("quox", 7);
    let mut it = map.iter();
    while let Some((&k, &v)) = it.next() {
        match k {
            "foo" => assert_eq!(v, 42),
            "bar" => assert_eq!(v, 43),
            "baz" => assert_eq!(v, 142),
            "quox" => assert_eq!(v, 7),
            _ => unreachable!(),
        }
    }
    let mut count = 0;
    let mut it = map.iter();
    while it.next().is_some() {
        count += 1;
    }
    assert_eq!(count, 4);

    let mut items = 0;
    let mut it = map.into_iter();
    while let Some((k, v)) = it.next() {
        match k {
            "foo" => assert_eq!(v, 42),
            "bar" => assert_eq!(v, 43),
            "baz" => assert_eq!(v, 142),
            "quox" => assert_eq!(v, 7),
            _ => unreachable!(),
        }
        items += 1;
    }
    assert_eq!(items, 4);
}

#[test]
fn empty_hashmap() {
    let mut map = HashMap::<&str, &str>::new();
    assert_eq!(map.contains_key("k"), false);
    assert_eq!(map.get("k"), None);
    assert_eq!(map.remove("k"), None);
}

#[test]
fn second_insert_returns_first_value() {
    let mut map = HashMap::new();
    assert_eq!(map.insert("k", 1), None);
    assert_eq!(map.insert("k", 2), Some(1));
    assert_eq!(map.get("k"), Some(&2));
    assert_eq!(map.len(), 1);
}

#[test]
fn remove_absent_is_no_op() {
    let mut map = HashMap::new();
    map.insert("a", 1);
    assert_eq!(map.remove("b"), None);
    assert_eq!(map.len(), 1);
    assert_eq!(map.get("a"), Some(&1));
    assert_eq!(map.remove("a"), Some(1));
    assert_eq!(map.contains_key("a"), false);
    assert_eq!(map.remove("a"), None);
}

#[test]
fn len_counts_distinct_keys() {
    let mut map = HashMap::new();
    for k in ["a", "b", "a", "c", "b", "a"] {
        map.insert(k, 0);
    }
    assert_eq!(map.len(), 3);
}

#[test]
fn many_keys_survive_resizes() {
    let mut map: HashMap<String, usize> = HashMap::new();
    for i in 0..1000usize {
        map.insert(format!("key{}", i), i);
    }
    for i in 0..1000usize {
        if i % 3 == 0 {
            map.insert(format!("key{}", i), i * 10);
        }
    }
    for i in 0..500usize {
        assert_eq!(map.remove(format!("key{}", 2 * i + 1).as_str()), Some(if (2 * i + 1) % 3 == 0 { (2 * i + 1) * 10 } else { 2 * i + 1 }));
    }
    assert_eq!(map.len(), 500);
    for i in 0..1000usize {
        let key = format!("key{}", i);
        if i % 2 == 1 {
            assert_eq!(map.get(key.as_str()), None);
        } else if i % 3 == 0 {
            assert_eq!(map.get(key.as_str()), Some(&(i * 10)));
        } else {
            assert_eq!(map.get(&key), Some(&i));
        }
    }
}

#[test]
fn lookup_by_str_finds_string_key() {
    let mut map: HashMap<String, i32> = HashMap::new();
    map.insert(String::from("alpha"), 1);
    assert!(map.contains_key("alpha"));
    assert_eq!(map.get(&"alpha"), Some(&1));
    assert_eq!(map.get("beta"), None);
}

#[test]
fn entry_or_insert_absent_and_present() {
    let mut map = HashMap::new();
    map.insert("x", 5);
    *map.entry("y").or_insert(10) += 1;
    assert_eq!(map.get("y"), Some(&11));
    assert_eq!(map.len(), 2);
    let v = map.entry("x").or_insert(100);
    assert_eq!(*v, 5);
    *v = 6;
    assert_eq!(map.get("x"), Some(&6));
    assert_eq!(map.len(), 2);
}

#[test]
fn entry_or_insert_with_is_lazy() {
    let mut map = HashMap::new();
    map.insert("x", 5);
    let mut calls = 0;
    let v = *map.entry("x").or_insert_with(|| {
        calls += 1;
        0
    });
    assert_eq!(v, 5);
    assert_eq!(calls, 0);
    let v = *map.entry("z").or_insert_with(|| {
        calls += 1;
        9
    });
    assert_eq!(v, 9);
    assert_eq!(calls, 1);
    assert_eq!(map.len(), 2);
}

#[test]
fn entry_variants() {
    let mut map = HashMap::new();
    map.insert("p", 1);
    match map.entry("p") {
        Entry::Occupied(e) => assert_eq!(e.entry.1, 1),
        Entry::Vacant(_) => panic!("present key"),
    }
    match map.entry("q") {
        Entry::Occupied(_) => panic!("absent key"),
        Entry::Vacant(e) => {
            *e.insert(3) += 1;
        }
    }
    assert_eq!(map.get("q"), Some(&4));
}

#[test]
fn from_iter_later_duplicates_win() {
    let mut map = HashMap::from_iter(vec![("a", 1), ("b", 2), ("a", 3)]);
    assert_eq!(map.len(), 2);
    assert_eq!(map.get("a"), Some(&3));
    assert_eq!(map.get("b"), Some(&2));
}

#[test]
fn iteration_restarts_with_same_pairs() {
    let mut map = HashMap::new();
    for (k, v) in [("foo", 42), ("bar", 43), ("baz", 142), ("quox", 7)] {
        map.insert(k, v);
    }
    let mut first = Vec::new();
    let mut it = map.iter();
    while let Some((k, v)) = it.next() {
        first.push((*k, *v));
    }
    let mut second = Vec::new();
    let mut it = map.iter();
    while let Some((k, v)) = it.next() {
        second.push((*k, *v));
    }
    assert_eq!(first, second);
    let mut sorted = first.clone();
    sorted.sort();
    assert_eq!(sorted, vec![("bar", 43), ("baz", 142), ("foo", 42), ("quox", 7)]);
}

#[test]
fn empty_map_iterates_nothing() {
    let map = HashMap::<&str, i32>::new();
    assert!(map.iter().next().is_none());
    assert!(map.into_iter().next().is_none());
}
