use compare::{natural, Compare, Natural};
use std::ops::Bound::{Excluded, Included, Unbounded};
use tree::TreeMap;

fn abc() -> TreeMap<&'static str, i32, Natural<&'static str>> {
    let mut map = TreeMap::new();
    map.insert("b", 2);
    map.insert("a", 1);
    map.insert("c", 3);
    map
}

fn collect_range(
    map: &TreeMap<&'static str, i32, Natural<&'static str>>,
    min: std::ops::Bound<&&'static str>,
    max: std::ops::Bound<&&'static str>,
) -> Vec<(&'static str, i32)> {
    let mut out = Vec::new();
    let mut it = map.range(min, max);
    while let Some((k, v)) = it.next() {
        out.push((*k, *v));
    }
    out
}

#[test]
fn range_exclusive_a_to_unbounded() {
    let map = abc();
    assert_eq!(collect_range(&map, Excluded(&"a"), Unbounded), vec![("b", 2), ("c", 3)]);
}

#[test]
fn range_inclusive_a_to_exclusive_b() {
    let map = abc();
    assert_eq!(collect_range(&map, Included(&"a"), Excluded(&"b")), vec![("a", 1)]);
}

#[test]
fn range_of_every_kind() {
    let map = abc();
    assert_eq!(collect_range(&map, Unbounded, Unbounded), vec![("a", 1), ("b", 2), ("c", 3)]);
    assert_eq!(collect_range(&map, Excluded(&"a"), Included(&"f")), vec![("b", 2), ("c", 3)]);
    assert_eq!(collect_range(&map, Included(&"b"), Included(&"b")), vec![("b", 2)]);
    assert_eq!(collect_range(&map, Excluded(&"b"), Excluded(&"b")), vec![]);
    assert_eq!(collect_range(&map, Included(&"c"), Included(&"a")), vec![]);
    assert_eq!(collect_range(&map, Unbounded, Excluded(&"a")), vec![]);
    assert_eq!(collect_range(&map, Excluded(&"c"), Unbounded), vec![]);
    assert_eq!(collect_range(&map, Unbounded, Included(&"b")), vec![("a", 1), ("b", 2)]);
}

#[test]
fn into_range_consumes_the_map() {
    let map = abc();
    let mut it = map.into_range(Excluded(&"a"), Unbounded);
    assert_eq!(it.next(), Some(("b", 2)));
    assert_eq!(it.next(), Some(("c", 3)));
    assert_eq!(it.next(), None);
}

#[test]
fn range_from_both_ends() {
    let mut map = TreeMap::new();
    for k in [50, 20, 80, 10, 30, 70, 90, 40, 60, 25, 35, 65, 85] {
        map.insert(k, ());
    }
    let mut it = map.range(Included(&25), Excluded(&85));
    let (low, high) = it.size_hint();
    assert!(low <= 9);
    assert_eq!(high, Some(13));
    assert_eq!(it.next().map(|e| *e.0), Some(25));
    assert_eq!(it.next_back().map(|e| *e.0), Some(80));
    assert_eq!(it.next_back().map(|e| *e.0), Some(70));
    assert_eq!(it.next().map(|e| *e.0), Some(30));
    let mut rest = Vec::new();
    while let Some((k, _)) = it.next() {
        rest.push(*k);
    }
    assert_eq!(rest, vec![35, 40, 50, 60, 65]);
    assert_eq!(it.next_back(), None);
    assert_eq!(map.range(Excluded(&30), Included(&35)).last().map(|e| *e.0), Some(35));
}

#[test]
fn ranges_agree_with_a_filter_on_every_pair_of_bounds() {
    let keys = [8, 3, 12, 1, 5, 10, 14, 4, 6, 9, 11, 13, 15, 2, 7];
    let mut map = TreeMap::new();
    for k in keys {
        map.insert(k, k * 2);
    }
    let bounds = |k: &'static i32| [Unbounded, Included(k), Excluded(k)];
    static PROBES: [i32; 18] = [0, 1, 2, 3, 4, 5, 6, 7, 8, 9, 10, 11, 12, 13, 14, 15, 16, 17];
    for lo in PROBES.iter() {
        for hi in PROBES.iter() {
            for min in bounds(lo) {
                for max in bounds(hi) {
                    let mut expected = Vec::new();
                    for k in 1..=15 {
                        let above = match min {
                            Unbounded => true,
                            Included(m) => k >= *m,
                            Excluded(m) => k > *m,
                        };
                        let below = match max {
                            Unbounded => true,
                            Included(m) => k <= *m,
                            Excluded(m) => k < *m,
                        };
                        if above && below {
                            expected.push((k, k * 2));
                        }
                    }
                    let mut got = Vec::new();
                    let mut it = map.range(min, max);
                    while let Some((k, v)) = it.next() {
                        got.push((*k, *v));
                    }
                    assert_eq!(got, expected);
                    let mut back = Vec::new();
                    let mut it = map.range(min, max);
                    while let Some((k, v)) = it.next_back() {
                        back.push((*k, *v));
                    }
                    back.reverse();
                    assert_eq!(back, expected);
                }
            }
        }
    }
}

#[test]
fn iter_mut_doubles_every_value() {
    let mut map = abc();
    let mut i = 1;
    let mut it = map.iter_mut();
    assert_eq!(it.len(), 3);
    while let Some((_, value)) = it.next() {
        assert_eq!(i, *value);
        *value *= 2;
        i += 1;
    }
    assert_eq!(*map.index(&"a"), 2);
    assert_eq!(*map.index(&"b"), 4);
    assert_eq!(*map.index(&"c"), 6);
}

#[test]
fn iter_mut_from_both_ends() {
    let mut map = abc();
    {
        let mut it = map.iter_mut();
        let last = it.next_back().unwrap();
        assert_eq!(*last.0, "c");
        *last.1 = 30;
        let first = it.next().unwrap();
        assert_eq!(*first.0, "a");
        *first.1 = 10;
        assert_eq!(it.size_hint(), (1, Some(1)));
    }
    assert_eq!(map.get(&"a"), Some(&10));
    assert_eq!(map.get(&"b"), Some(&2));
    assert_eq!(map.get(&"c"), Some(&30));
}

#[test]
fn range_mut_doubles_the_values_in_range() {
    let mut map = abc();
    let mut i = 1;
    let mut it = map.range_mut(Unbounded, Excluded(&"c"));
    while let Some((_, value)) = it.next() {
        assert_eq!(i, *value);
        *value *= 2;
        i += 1;
    }
    assert_eq!(*map.index(&"a"), 2);
    assert_eq!(*map.index(&"b"), 4);
    assert_eq!(*map.index(&"c"), 3);
}

#[test]
fn range_mut_with_crossed_bounds_is_empty() {
    let mut map = abc();
    let mut it = map.range_mut(Included(&"c"), Included(&"a"));
    assert!(it.next().is_none());
    assert!(it.next_back().is_none());
    assert_eq!(map.len(), 3);
}

#[test]
fn with_cmp_reverses_the_order() {
    let mut map = TreeMap::with_cmp(natural().rev());
    map.insert(2, "b");
    map.insert(1, "a");
    map.insert(3, "c");
    let mut it = map.iter();
    assert_eq!(it.next(), Some((&3, &"c")));
    assert_eq!(it.next(), Some((&2, &"b")));
    assert_eq!(it.next(), Some((&1, &"a")));
    assert_eq!(it.next(), None);
    assert_eq!(map.remove_min(), Some((3, "c")));
    assert_eq!(map.pred(&1, false), Some((&2, &"b")));
    assert_eq!(map.succ(&1, false), None);
}

#[test]
fn cmp_hands_out_the_comparator() {
    let map: TreeMap<i32, &str> = TreeMap::new();
    assert!(map.cmp().compares_lt(&1, &2));
    let map: TreeMap<i32, &str, _> = TreeMap::with_cmp(natural().rev());
    assert!(map.cmp().compares_gt(&1, &2));
}
