use compare::Natural;
use tree::map::Entry;
use tree::TreeMap;

fn abc() -> TreeMap<i32, &'static str, Natural<i32>> {
    let mut map = TreeMap::new();
    map.insert(2, "b");
    map.insert(1, "a");
    map.insert(3, "c");
    map
}

#[test]
fn entry_counts_occurrences() {
    let mut counts = TreeMap::new();
    for s in vec!["a", "b", "a", "c", "a", "b"] {
        *counts.entry(s).or_insert(0) += 1;
    }
    assert_eq!(*counts.index(&"a"), 3);
    assert_eq!(*counts.index(&"b"), 2);
    assert_eq!(*counts.index(&"c"), 1);
    assert_eq!(counts.len(), 3);
}

#[test]
fn or_insert_twice_keeps_the_first_value() {
    let mut map: TreeMap<i32, i32, Natural<i32>> = TreeMap::new();
    map.insert(5, 50);
    {
        let first = map.entry(7).or_insert(70);
        assert_eq!(*first, 70);
    }
    assert_eq!(map.len(), 2);
    {
        let second = map.entry(7).or_insert(71);
        assert_eq!(*second, 70);
        *second = 72;
    }
    assert_eq!(map.len(), 2);
    assert_eq!(map.get(&7), Some(&72));
    assert_eq!(*map.entry(7).or_insert(0), 72);
    assert_eq!(map.len(), 2);
}

#[test]
fn or_insert_with_calls_only_when_vacant() {
    let mut map: TreeMap<i32, i32, Natural<i32>> = TreeMap::new();
    assert_eq!(*map.entry(1).or_insert_with(|| 10), 10);
    assert_eq!(*map.entry(1).or_insert_with(|| unreachable!()), 10);
    assert_eq!(map.len(), 1);
}

#[test]
fn entry_variants_follow_presence() {
    let mut map = abc();
    match map.entry(2) {
        Entry::Occupied(e) => {
            assert_eq!(*e.key(), 2);
            assert_eq!(*e.get(), "b");
            assert_eq!(e.remove(), (2, "b"));
        }
        Entry::Vacant(_) => panic!("the key is present"),
    }
    assert_eq!(map.len(), 2);
    assert!(!map.contains_key(&2));
    match map.entry(2) {
        Entry::Occupied(_) => panic!("the key is gone"),
        Entry::Vacant(e) => {
            assert_eq!(*e.key(), 2);
            *e.insert("bb") = "bbb";
        }
    }
    assert_eq!(map.len(), 3);
    assert_eq!(map.get(&2), Some(&"bbb"));
    let mut it = map.iter();
    assert_eq!(it.next(), Some((&1, &"a")));
    assert_eq!(it.next(), Some((&2, &"bbb")));
    assert_eq!(it.next(), Some((&3, &"c")));
    assert_eq!(it.next(), None);
}

#[test]
fn vacant_entry_left_alone_changes_nothing() {
    let mut map = abc();
    {
        let _unused = map.entry(9);
    }
    assert_eq!(map.len(), 3);
    assert!(!map.contains_key(&9));
}

#[test]
fn max_entry_replaces_the_value() {
    let mut map = TreeMap::new();
    assert!(map.max_entry().is_none());
    map.insert(2, "b");
    map.insert(1, "a");
    map.insert(3, "c");
    {
        let mut e = map.max_entry().unwrap();
        assert_eq!(*e.key(), 3);
        assert_eq!(e.insert("cc"), "c");
    }
    assert_eq!(*map.index(&3), "cc");
}

#[test]
fn min_entry_replaces_the_value() {
    let mut map = TreeMap::new();
    assert!(map.min_entry().is_none());
    map.insert(2, "b");
    map.insert(1, "a");
    map.insert(3, "c");
    {
        let mut e = map.min_entry().unwrap();
        assert_eq!(*e.key(), 1);
        assert_eq!(e.insert("aa"), "a");
    }
    assert_eq!(*map.index(&1), "aa");
}

#[test]
fn pred_entry_reads_replaces_and_removes() {
    let mut map = abc();
    assert!(map.pred_entry(&1, false).is_none());
    {
        let mut e = map.pred_entry(&4, true).unwrap();
        assert_eq!(*e.key(), 3);
        assert_eq!(e.insert("cc"), "c");
    }
    assert_eq!(*map.index(&3), "cc");
    {
        let e = map.pred_entry(&3, false).unwrap();
        assert_eq!(e.remove(), (2, "b"));
    }
    assert!(!map.contains_key(&2));
    assert_eq!(map.len(), 2);
}

#[test]
fn succ_entry_reads_replaces_and_removes() {
    let mut map = abc();
    assert!(map.succ_entry(&3, false).is_none());
    {
        let mut e = map.succ_entry(&0, true).unwrap();
        assert_eq!(*e.key(), 1);
        assert_eq!(e.insert("aa"), "a");
    }
    assert_eq!(*map.index(&1), "aa");
    {
        let e = map.succ_entry(&1, false).unwrap();
        assert_eq!(e.remove(), (2, "b"));
    }
    assert!(!map.contains_key(&2));
    assert_eq!(map.len(), 2);
}

#[test]
fn occupied_entry_into_mut_outlives_the_entry() {
    let mut map = abc();
    let value = map.max_entry().unwrap().into_mut();
    *value = "z";
    assert_eq!(map.get(&3), Some(&"z"));
}
