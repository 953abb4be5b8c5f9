use compare::Natural;
use std::cmp::Ordering;
use tree::TreeMap;

fn of(entries: &[(i32, i32)]) -> TreeMap<i32, i32, Natural<i32>> {
    TreeMap::from_iter(entries.to_vec())
}

#[test]
fn equal_maps_whatever_the_order_of_insertion() {
    let a = of(&[(1, 10), (2, 20), (3, 30)]);
    let b = of(&[(3, 30), (1, 10), (2, 20)]);
    assert!(a.eq(&b));
    assert!(b.eq(&a));
    assert_eq!(a.partial_cmp(&b), Some(Ordering::Equal));
    assert_eq!(a.ordering(&b), Ordering::Equal);
}

#[test]
fn maps_differ_by_length_key_or_value() {
    let a = of(&[(1, 10), (2, 20), (3, 30)]);
    assert!(!a.eq(&of(&[(1, 10), (2, 20)])));
    assert!(!a.eq(&of(&[(1, 10), (2, 20), (4, 30)])));
    assert!(!a.eq(&of(&[(1, 10), (2, 21), (3, 30)])));
    assert!(of(&[]).eq(&of(&[])));
}

#[test]
fn order_of_maps_is_that_of_the_dictionary() {
    let a = of(&[(1, 10), (2, 20), (3, 30)]);
    assert_eq!(a.ordering(&of(&[(1, 10), (2, 20)])), Ordering::Greater);
    assert_eq!(of(&[(1, 10), (2, 20)]).ordering(&a), Ordering::Less);
    assert_eq!(a.ordering(&of(&[(1, 10), (2, 20), (4, 0)])), Ordering::Less);
    assert_eq!(a.ordering(&of(&[(1, 10), (2, 19), (9, 0)])), Ordering::Greater);
    assert_eq!(a.ordering(&of(&[(0, 99)])), Ordering::Greater);
    assert_eq!(of(&[]).ordering(&a), Ordering::Less);
    assert_eq!(of(&[]).ordering(&of(&[])), Ordering::Equal);
    assert_eq!(a.partial_cmp(&of(&[(1, 10), (2, 21)])), Some(Ordering::Less));
    assert_eq!(a.partial_cmp(&of(&[(1, 10)])), Some(Ordering::Greater));
}

#[test]
fn partial_order_has_no_answer_where_the_values_have_none() {
    let mut a: TreeMap<i32, f64, Natural<i32>> = TreeMap::new();
    let mut b: TreeMap<i32, f64, Natural<i32>> = TreeMap::new();
    a.insert(1, 1.0);
    b.insert(1, 1.0);
    a.insert(2, f64::NAN);
    b.insert(2, 2.0);
    assert_eq!(a.partial_cmp(&b), None);
    assert!(!a.eq(&b));
    b.insert(1, 0.5);
    assert_eq!(a.partial_cmp(&b), Some(Ordering::Greater));
}

#[test]
fn extend_inserts_one_after_the_other() {
    let mut map = of(&[(1, 10), (5, 50)]);
    map.extend(vec![(3, 30), (1, 11), (3, 31)]);
    assert_eq!(map.len(), 3);
    assert_eq!(map.get(&1), Some(&11));
    assert_eq!(map.get(&3), Some(&31));
    assert_eq!(map.get(&5), Some(&50));
}

#[test]
fn default_map_is_empty() {
    let map: TreeMap<i32, i32, Natural<i32>> = Default::default();
    assert!(map.is_empty());
    assert_eq!(map.len(), 0);
}

#[test]
fn index_reads_a_present_key() {
    let map = of(&[(1, 10), (2, 20)]);
    assert_eq!(*map.index(&2), 20);
}

#[test]
fn into_iter_count_and_last() {
    let map = of(&[(1, 10), (2, 20), (3, 30)]);
    assert_eq!(map.iter().size_hint(), (3, Some(3)));
    assert_eq!(map.iter().last(), Some((&3, &30)));
    let mut it = map.into_iter();
    assert_eq!(it.next_back(), Some((3, 30)));
    assert_eq!(it.size_hint(), (2, Some(2)));
    assert_eq!(it.count(), 2);
}
