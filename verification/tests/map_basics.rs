use compare::Natural;
use tree::TreeMap;

fn abc() -> TreeMap<i32, &'static str, Natural<i32>> {
    let mut map = TreeMap::new();
    map.insert(2, "b");
    map.insert(1, "a");
    map.insert(3, "c");
    map
}

#[test]
fn new_map_iterates_in_ascending_order() {
    let map = abc();
    let mut it = map.iter();
    assert_eq!(it.next(), Some((&1, &"a")));
    assert_eq!(it.next(), Some((&2, &"b")));
    assert_eq!(it.next(), Some((&3, &"c")));
    assert_eq!(it.next(), None);
}

#[test]
fn is_empty_follows_insert() {
    let mut map = TreeMap::new();
    assert!(map.is_empty());
    map.insert(2, "b");
    assert!(!map.is_empty());
}

#[test]
fn len_counts_entries() {
    let mut map = TreeMap::new();
    assert_eq!(map.len(), 0);
    map.insert(2, "b");
    assert_eq!(map.len(), 1);
}

#[test]
fn clear_removes_everything() {
    let mut map = abc();
    assert_eq!(map.len(), 3);
    assert_eq!(map.iter().next(), Some((&1, &"a")));
    map.clear();
    assert_eq!(map.len(), 0);
    assert_eq!(map.iter().next(), None);
    assert!(map.is_empty());
}

#[test]
fn insert_returns_previous_value() {
    let mut map = TreeMap::new();
    assert_eq!(map.insert(1, "a"), None);
    assert_eq!(map.get(&1), Some(&"a"));
    assert_eq!(map.insert(1, "b"), Some("a"));
    assert_eq!(map.get(&1), Some(&"b"));
    assert_eq!(map.len(), 1);
}

#[test]
fn remove_returns_the_stored_pair() {
    let mut map = abc();
    assert_eq!(map.len(), 3);
    assert_eq!(map.get(&1), Some(&"a"));
    assert_eq!(map.remove(&1), Some((1, "a")));
    assert_eq!(map.len(), 2);
    assert_eq!(map.get(&1), None);
    assert_eq!(map.remove(&1), None);
    assert_eq!(map.len(), 2);
}

#[test]
fn contains_key_follows_insert() {
    let mut map = TreeMap::new();
    assert!(!map.contains_key(&1));
    map.insert(1, "a");
    assert!(map.contains_key(&1));
}

#[test]
fn get_mut_changes_the_value() {
    let mut map = TreeMap::new();
    assert_eq!(map.get(&1), None);
    map.insert(1, "a");
    {
        let value = map.get_mut(&1).unwrap();
        assert_eq!(*value, "a");
        *value = "b";
    }
    assert_eq!(map.get(&1), Some(&"b"));
    assert!(map.get_mut(&7).is_none());
}

#[test]
fn remove_max_takes_the_greatest() {
    let mut map = TreeMap::new();
    assert_eq!(map.remove_max(), None);
    map.insert(2, "b");
    map.insert(1, "a");
    map.insert(3, "c");
    assert_eq!(map.remove_max(), Some((3, "c")));
    assert_eq!(map.len(), 2);
}

#[test]
fn remove_min_takes_the_least() {
    let mut map = TreeMap::new();
    assert_eq!(map.remove_min(), None);
    map.insert(2, "b");
    map.insert(1, "a");
    map.insert(3, "c");
    assert_eq!(map.remove_min(), Some((1, "a")));
    assert_eq!(map.len(), 2);
}

#[test]
fn extremum_removal_on_one_two_three() {
    let mut map = TreeMap::new();
    map.insert(1, ());
    map.insert(2, ());
    map.insert(3, ());
    assert_eq!(map.remove_min(), Some((1, ())));
    assert_eq!(map.len(), 2);
    assert_eq!(map.remove_max(), Some((3, ())));
    assert_eq!(map.len(), 1);
    assert_eq!(map.remove_max(), Some((2, ())));
    assert_eq!(map.remove_min(), None);
    assert_eq!(map.remove_max(), None);
    assert_eq!(map.len(), 0);
}

#[test]
fn find_max_and_min() {
    let mut map = TreeMap::new();
    assert_eq!(map.find().max(), None);
    assert_eq!(map.find().min(), None);
    map.insert(2, "b");
    map.insert(1, "a");
    map.insert(3, "c");
    assert_eq!(map.find().max(), Some((&3, &"c")));
    assert_eq!(map.find().min(), Some((&1, &"a")));
}

#[test]
fn find_mut_max_and_min() {
    let mut map = abc();
    {
        let max = map.find_mut().max().unwrap();
        assert_eq!(max, (&3, &mut "c"));
        *max.1 = "cc";
    }
    assert_eq!(map.find().max(), Some((&3, &"cc")));
    {
        let min = map.find_mut().min().unwrap();
        assert_eq!(min, (&1, &mut "a"));
        *min.1 = "aa";
    }
    assert_eq!(map.find().min(), Some((&1, &"aa")));
}

#[test]
fn pred_of_each_key() {
    let map = abc();
    assert_eq!(map.pred(&0, false), None);
    assert_eq!(map.pred(&1, false), None);
    assert_eq!(map.pred(&2, false), Some((&1, &"a")));
    assert_eq!(map.pred(&3, false), Some((&2, &"b")));
    assert_eq!(map.pred(&4, false), Some((&3, &"c")));

    assert_eq!(map.pred(&0, true), None);
    assert_eq!(map.pred(&1, true), Some((&1, &"a")));
    assert_eq!(map.pred(&2, true), Some((&2, &"b")));
    assert_eq!(map.pred(&3, true), Some((&3, &"c")));
    assert_eq!(map.pred(&4, true), Some((&3, &"c")));
}

#[test]
fn succ_of_each_key() {
    let map = abc();
    assert_eq!(map.succ(&0, false), Some((&1, &"a")));
    assert_eq!(map.succ(&1, false), Some((&2, &"b")));
    assert_eq!(map.succ(&2, false), Some((&3, &"c")));
    assert_eq!(map.succ(&3, false), None);
    assert_eq!(map.succ(&4, false), None);

    assert_eq!(map.succ(&0, true), Some((&1, &"a")));
    assert_eq!(map.succ(&1, true), Some((&1, &"a")));
    assert_eq!(map.succ(&2, true), Some((&2, &"b")));
    assert_eq!(map.succ(&3, true), Some((&3, &"c")));
    assert_eq!(map.succ(&4, true), None);
}

#[test]
fn pred_mut_changes_the_value() {
    let mut map = abc();
    {
        let pred = map.pred_mut(&2, false).unwrap();
        assert_eq!(pred, (&1, &mut "a"));
        *pred.1 = "aa";
    }
    assert_eq!(map.pred(&2, false), Some((&1, &"aa")));
    {
        let pred_or_eq = map.pred_mut(&1, true).unwrap();
        assert_eq!(pred_or_eq, (&1, &mut "aa"));
        *pred_or_eq.1 = "aaa";
    }
    {
        let pred_or_eq = map.pred_mut(&4, true).unwrap();
        assert_eq!(pred_or_eq, (&3, &mut "c"));
        *pred_or_eq.1 = "cc";
    }
    assert_eq!(map.pred(&1, true), Some((&1, &"aaa")));
    assert_eq!(map.pred(&4, true), Some((&3, &"cc")));
}

#[test]
fn succ_mut_changes_the_value() {
    let mut map = abc();
    {
        let succ = map.succ_mut(&2, false).unwrap();
        assert_eq!(succ, (&3, &mut "c"));
        *succ.1 = "cc";
    }
    assert_eq!(map.succ(&2, false), Some((&3, &"cc")));
    {
        let succ_or_eq = map.succ_mut(&0, true).unwrap();
        assert_eq!(succ_or_eq, (&1, &mut "a"));
        *succ_or_eq.1 = "aa";
    }
    {
        let succ_or_eq = map.succ_mut(&3, true).unwrap();
        assert_eq!(succ_or_eq, (&3, &mut "cc"));
        *succ_or_eq.1 = "ccc";
    }
    assert_eq!(map.succ(&0, true), Some((&1, &"aa")));
    assert_eq!(map.succ(&3, true), Some((&3, &"ccc")));
}

#[test]
fn remove_pred_takes_the_neighbour() {
    let mut map = abc();
    assert_eq!(map.remove_pred(&1, false), None);
    assert!(map.contains_key(&1));
    assert_eq!(map.remove_pred(&2, false), Some((1, "a")));
    assert!(!map.contains_key(&1));
    assert_eq!(map.remove_pred(&2, true), Some((2, "b")));
    assert!(!map.contains_key(&2));
    assert_eq!(map.len(), 1);
}

#[test]
fn remove_succ_takes_the_neighbour() {
    let mut map = abc();
    assert_eq!(map.remove_succ(&3, false), None);
    assert!(map.contains_key(&3));
    assert_eq!(map.remove_succ(&2, false), Some((3, "c")));
    assert!(!map.contains_key(&3));
    assert_eq!(map.remove_succ(&2, true), Some((2, "b")));
    assert!(!map.contains_key(&2));
    assert_eq!(map.len(), 1);
}

#[test]
fn into_iter_yields_owned_entries() {
    let map = abc();
    let mut it = map.into_iter();
    assert_eq!(it.len(), 3);
    assert_eq!(it.next(), Some((1, "a")));
    assert_eq!(it.next(), Some((2, "b")));
    assert_eq!(it.len(), 1);
    assert_eq!(it.next(), Some((3, "c")));
    assert_eq!(it.next(), None);
}

#[test]
fn iteration_from_both_ends_meets_in_the_middle() {
    let mut map = TreeMap::new();
    for k in [5, 2, 8, 1, 3, 7, 9, 4, 6] {
        map.insert(k, k * 10);
    }
    let mut it = map.iter();
    assert_eq!(it.len(), 9);
    assert_eq!(it.next(), Some((&1, &10)));
    assert_eq!(it.next_back(), Some((&9, &90)));
    assert_eq!(it.next_back(), Some((&8, &80)));
    assert_eq!(it.next(), Some((&2, &20)));
    assert_eq!(it.next(), Some((&3, &30)));
    assert_eq!(it.next(), Some((&4, &40)));
    assert_eq!(it.len(), 3);
    assert_eq!(it.next_back(), Some((&7, &70)));
    assert_eq!(it.next(), Some((&5, &50)));
    assert_eq!(it.next_back(), Some((&6, &60)));
    assert_eq!(it.len(), 0);
    assert_eq!(it.next(), None);
    assert_eq!(it.next_back(), None);
}

#[test]
fn descending_iteration_is_the_reverse() {
    let mut map = TreeMap::new();
    for k in [5, 2, 8, 1, 3, 7, 9, 4, 6] {
        map.insert(k, ());
    }
    let mut up = Vec::new();
    let mut it = map.iter();
    while let Some((k, _)) = it.next() {
        up.push(*k);
    }
    let mut down = Vec::new();
    let mut it = map.iter();
    while let Some((k, _)) = it.next_back() {
        down.push(*k);
    }
    assert_eq!(up, vec![1, 2, 3, 4, 5, 6, 7, 8, 9]);
    down.reverse();
    assert_eq!(up, down);
    assert_eq!(map.iter().count(), 9);
    assert_eq!(map.iter().last(), Some((&9, &())));
}
