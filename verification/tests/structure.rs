use compare::Natural;
use std::cmp::Ordering;
use std::ops::Bound::{Excluded, Included};
use tree::{Comparator, TreeMap};

/// Orders integers by their tens alone.
struct ByTens;

impl Comparator<i32> for ByTens {
    fn lt(&self, l: i32, r: i32) -> bool {
        l / 10 < r / 10
    }

    fn gt(&self, l: i32, r: i32) -> bool {
        l / 10 > r / 10
    }

    fn sound(&self) -> bool {
        true
    }

    fn compare(&self, l: &i32, r: &i32) -> Ordering {
        (l / 10).cmp(&(r / 10))
    }
}

fn keys_of(map: &TreeMap<i32, i32, Natural<i32>>) -> Vec<(i32, i32)> {
    let mut out = Vec::new();
    let mut it = map.iter();
    while let Some((k, v)) = it.next() {
        out.push((*k, *v));
    }
    out
}

#[test]
fn insert_of_an_equivalent_key_replaces_the_key() {
    let mut map = TreeMap::with_cmp(ByTens);
    assert_eq!(map.insert(12, "a"), None);
    assert_eq!(map.insert(25, "b"), None);
    assert_eq!(map.insert(17, "c"), Some("a"));
    assert_eq!(map.len(), 2);
    let mut it = map.iter();
    assert_eq!(it.next(), Some((&17, &"c")));
    assert_eq!(it.next(), Some((&25, &"b")));
    assert_eq!(it.next(), None);
    assert_eq!(map.get(&10), Some(&"c"));
    assert_eq!(map.remove(&19), Some((17, "c")));
}

#[test]
fn removing_a_node_without_right_child_lifts_the_left() {
    let mut map = TreeMap::new();
    for k in [5, 3, 1, 4] {
        map.insert(k, k);
    }
    assert_eq!(map.remove(&5), Some((5, 5)));
    assert_eq!(keys_of(&map), vec![(1, 1), (3, 3), (4, 4)]);
    assert_eq!(map.len(), 3);
}

#[test]
fn removing_a_node_whose_right_child_follows_it() {
    let mut map: TreeMap<i32, i32, Natural<i32>> = TreeMap::new();
    for k in [5, 3, 8, 9, 2] {
        map.insert(k, k);
    }
    assert_eq!(map.remove(&5), Some((5, 5)));
    assert_eq!(keys_of(&map), vec![(2, 2), (3, 3), (8, 8), (9, 9)]);
    assert_eq!(map.get(&8), Some(&8));
    assert_eq!(map.get(&9), Some(&9));
}

#[test]
fn removing_a_node_whose_follower_lies_deeper() {
    let mut map: TreeMap<i32, i32, Natural<i32>> = TreeMap::new();
    for k in [5, 3, 9, 7, 6, 8, 10, 2] {
        map.insert(k, k);
    }
    assert_eq!(map.remove(&5), Some((5, 5)));
    assert_eq!(keys_of(&map), vec![(2, 2), (3, 3), (6, 6), (7, 7), (8, 8), (9, 9), (10, 10)]);
    assert_eq!(map.len(), 7);
    for k in [2, 3, 6, 7, 8, 9, 10] {
        assert_eq!(map.get(&k), Some(&k));
    }
    assert_eq!(map.remove(&9), Some((9, 9)));
    assert_eq!(keys_of(&map), vec![(2, 2), (3, 3), (6, 6), (7, 7), (8, 8), (10, 10)]);
}

#[test]
fn random_inserts_and_removes_agree_with_a_sorted_list() {
    let mut map: TreeMap<i32, i32, Natural<i32>> = TreeMap::new();
    let mut model: Vec<(i32, i32)> = Vec::new();
    let mut state: u64 = 0x2545_f491_4f6c_dd1d;
    for step in 0..4000 {
        state = state.wrapping_mul(6364136223846793005).wrapping_add(1442695040888963407);
        let key = ((state >> 33) % 64) as i32;
        let insert = (state >> 20) % 3 != 0;
        if insert {
            let expected = match model.binary_search_by(|e| e.0.cmp(&key)) {
                Ok(i) => {
                    let old = model[i].1;
                    model[i] = (key, step);
                    Some(old)
                }
                Err(i) => {
                    model.insert(i, (key, step));
                    None
                }
            };
            assert_eq!(map.insert(key, step), expected);
        } else {
            let expected = match model.binary_search_by(|e| e.0.cmp(&key)) {
                Ok(i) => Some(model.remove(i)),
                Err(_) => None,
            };
            assert_eq!(map.remove(&key), expected);
            assert_eq!(map.get(&key), None);
        }
        assert_eq!(map.len(), model.len());
        if step % 97 == 0 {
            assert_eq!(keys_of(&map), model);
            let mut down = Vec::new();
            let mut it = map.iter();
            while let Some((k, v)) = it.next_back() {
                down.push((*k, *v));
            }
            down.reverse();
            assert_eq!(down, model);
            assert_eq!(map.find().min().map(|e| (*e.0, *e.1)), model.first().copied());
            assert_eq!(map.find().max().map(|e| (*e.0, *e.1)), model.last().copied());
        }
    }
    assert_eq!(keys_of(&map), model);
}

#[test]
fn neighbours_agree_with_a_sorted_list() {
    let mut map: TreeMap<i32, i32, Natural<i32>> = TreeMap::new();
    let keys = [40, 10, 70, 20, 60, 30, 50, 15, 65];
    for k in keys {
        map.insert(k, -k);
    }
    let mut sorted = keys.to_vec();
    sorted.sort();
    for probe in 0..80 {
        let below = sorted.iter().rev().find(|k| **k < probe).map(|k| (*k, -*k));
        let at_or_below = sorted.iter().rev().find(|k| **k <= probe).map(|k| (*k, -*k));
        let above = sorted.iter().find(|k| **k > probe).map(|k| (*k, -*k));
        let at_or_above = sorted.iter().find(|k| **k >= probe).map(|k| (*k, -*k));
        assert_eq!(map.pred(&probe, false).map(|e| (*e.0, *e.1)), below);
        assert_eq!(map.pred(&probe, true).map(|e| (*e.0, *e.1)), at_or_below);
        assert_eq!(map.succ(&probe, false).map(|e| (*e.0, *e.1)), above);
        assert_eq!(map.succ(&probe, true).map(|e| (*e.0, *e.1)), at_or_above);
    }
}

#[test]
fn a_clone_is_a_map_of_its_own() {
    let mut map: TreeMap<i32, i32, Natural<i32>> = TreeMap::new();
    for k in [5, 3, 8, 1, 4] {
        map.insert(k, k * 10);
    }
    let mut copy = map.clone();
    assert_eq!(keys_of(&copy), keys_of(&map));
    copy.insert(9, 90);
    copy.remove(&3);
    *map.get_mut(&5).unwrap() = 0;
    assert_eq!(keys_of(&map), vec![(1, 10), (3, 30), (4, 40), (5, 0), (8, 80)]);
    assert_eq!(keys_of(&copy), vec![(1, 10), (4, 40), (5, 50), (8, 80), (9, 90)]);
    assert_eq!(copy.len(), 5);
    let mut it = map.iter();
    it.next();
    let mut rest = it.clone();
    assert_eq!(it.next(), Some((&3, &30)));
    assert_eq!(rest.next(), Some((&3, &30)));
    assert_eq!(rest.len(), 3);
    let owned = map.clone().into_iter();
    let mut twin = owned.clone();
    assert_eq!(twin.next_back(), Some((8, 80)));
    assert_eq!(owned.count(), 5);
}

#[test]
fn a_long_chain_is_walked_without_recursion_trouble() {
    let mut map: TreeMap<u32, u32, Natural<u32>> = TreeMap::new();
    for k in 0..2000 {
        map.insert(k, k);
    }
    assert_eq!(map.len(), 2000);
    assert_eq!(map.get(&1999), Some(&1999));
    assert_eq!(map.remove(&1000), Some((1000, 1000)));
    assert_eq!(map.remove_max(), Some((1999, 1999)));
    assert_eq!(map.remove_min(), Some((0, 0)));
    assert_eq!(map.iter().count(), 1997);
    let mut it = map.into_iter();
    let mut seen = 0;
    let mut last = 0;
    while let Some((k, _)) = it.next() {
        assert!(k > last || seen == 0);
        last = k;
        seen += 1;
    }
    assert_eq!(seen, 1997);
}

/// Orders records by their number, and places a bare number among them.
struct ByNumber;

impl Comparator<(u32, &'static str)> for ByNumber {
    fn lt(&self, l: (u32, &'static str), r: (u32, &'static str)) -> bool {
        l.0 < r.0
    }

    fn gt(&self, l: (u32, &'static str), r: (u32, &'static str)) -> bool {
        l.0 > r.0
    }

    fn sound(&self) -> bool {
        true
    }

    fn compare(&self, l: &(u32, &'static str), r: &(u32, &'static str)) -> Ordering {
        l.0.cmp(&r.0)
    }
}

impl Comparator<u32, (u32, &'static str)> for ByNumber {
    fn lt(&self, l: u32, r: (u32, &'static str)) -> bool {
        l < r.0
    }

    fn gt(&self, l: u32, r: (u32, &'static str)) -> bool {
        l > r.0
    }

    fn sound(&self) -> bool {
        true
    }

    fn compare(&self, l: &u32, r: &(u32, &'static str)) -> Ordering {
        l.cmp(&r.0)
    }
}

#[test]
fn lookups_take_a_part_of_the_key() {
    let mut map = TreeMap::with_cmp(ByNumber);
    map.insert((20, "twenty"), 'b');
    map.insert((10, "ten"), 'a');
    map.insert((30, "thirty"), 'c');
    assert_eq!(map.get(&20u32), Some(&'b'));
    assert_eq!(map.get(&(20u32, "zwanzig")), Some(&'b'));
    assert!(map.contains_key(&30u32));
    assert!(!map.contains_key(&25u32));
    assert_eq!(map.pred(&25u32, false), Some((&(20, "twenty"), &'b')));
    assert_eq!(map.succ(&20u32, false), Some((&(30, "thirty"), &'c')));
    assert_eq!(map.succ(&20u32, true), Some((&(20, "twenty"), &'b')));
    *map.get_mut(&10u32).unwrap() = 'z';
    assert_eq!(*map.index(&10u32), 'z');
    {
        let mut it = map.range(Included(&10u32), Excluded(&(30u32, "")));
        assert_eq!(it.next(), Some((&(10, "ten"), &'z')));
        assert_eq!(it.next(), Some((&(20, "twenty"), &'b')));
        assert_eq!(it.next(), None);
    }
    {
        let mut it = map.range_mut(Excluded(&10u32), Included(&30u32));
        *it.next_back().unwrap().1 = 'y';
    }
    assert_eq!(map.remove_succ(&10u32, false), Some(((20, "twenty"), 'b')));
    assert_eq!(map.remove(&30u32), Some(((30, "thirty"), 'y')));
    assert_eq!(map.remove(&30u32), None);
    assert_eq!(map.len(), 1);
}
