use compare::{natural, Natural};
use std::ops::Bound::{Excluded, Included, Unbounded};
use tree::node::iter::{Iter, MarkedNode, NodeRef, Range};
use tree::node::path::{closest_path, extreme_path, find_path, follow, follow_ref, remove_at};
use tree::node::{clone_link, extremum, get, insert, remove_root, Left, Link, LinkExt, Right};

fn tree_of(keys: &[i32]) -> Link<i32, i32> {
    let order: Natural<i32> = natural();
    let mut link: Link<i32, i32> = None;
    for k in keys {
        insert(&mut link, &order, *k, k * 10);
    }
    link
}

fn entries_of(link: &Link<i32, i32>) -> Vec<(i32, i32)> {
    let mut out = Vec::new();
    let mut it = Iter::new(link.as_ref().map(MarkedNode::new), usize::MAX);
    while let Some((k, v)) = it.next() {
        out.push((*k, *v));
    }
    out
}

#[test]
fn node_insert_returns_the_previous_value() {
    let order: Natural<i32> = natural();
    let mut link: Link<i32, &str> = None;
    assert_eq!(link.key_value(), None);
    assert_eq!(insert(&mut link, &order, 2, "b"), None);
    assert_eq!(insert(&mut link, &order, 1, "a"), None);
    assert_eq!(insert(&mut link, &order, 2, "bb"), Some("b"));
    assert_eq!(link.key_value(), Some((&2, &"bb")));
    if let Some((k, v)) = link.key_value_mut() {
        assert_eq!(*k, 2);
        *v = "root";
    }
    assert_eq!(get(&link, &order, &2).key_value(), Some((&2, &"root")));
}

#[test]
fn node_get_finds_the_link_or_the_vacancy() {
    let order: Natural<i32> = natural();
    let link = tree_of(&[5, 3, 8, 1, 4]);
    assert_eq!(get(&link, &order, &4).key_value(), Some((&4, &40)));
    assert_eq!(get(&link, &order, &3).key_value(), Some((&3, &30)));
    assert_eq!(entries_of(get(&link, &order, &3)), vec![(1, 10), (3, 30), (4, 40)]);
    assert!(get(&link, &order, &7).is_none());
    let empty: Link<i32, i32> = None;
    assert!(get(&empty, &order, &7).is_none());
}

#[test]
fn extremum_goes_to_the_far_end() {
    let link = tree_of(&[5, 3, 8, 1, 4, 9]);
    assert_eq!(extremum::<i32, i32, Left>(&link).key_value(), Some((&1, &10)));
    assert_eq!(extremum::<i32, i32, Right>(&link).key_value(), Some((&9, &90)));
    let empty: Link<i32, i32> = None;
    assert!(extremum::<i32, i32, Left>(&empty).is_none());
    assert!(extremum::<i32, i32, Right>(&empty).is_none());
}

#[test]
fn paths_lead_back_to_what_was_found() {
    let order: Natural<i32> = natural();
    let mut link = tree_of(&[5, 3, 8, 1, 4, 9]);
    let (path, hit) = find_path(&link, &order, &4);
    assert!(hit);
    assert_eq!(follow_ref(&link, &path, 0).key_value(), Some((&4, &40)));
    let (vacancy, hit) = find_path(&link, &order, &7);
    assert!(!hit);
    assert!(follow_ref(&link, &vacancy, 0).is_none());
    let least = extreme_path::<i32, i32, Left>(&link);
    assert_eq!(follow_ref(&link, &least, 0).key_value(), Some((&1, &10)));
    let below = closest_path::<i32, i32, i32, Natural<i32>, Left>(&link, &order, &8, false).unwrap();
    assert_eq!(follow_ref(&link, &below, 0).key_value(), Some((&5, &50)));
    let above = closest_path::<i32, i32, i32, Natural<i32>, Right>(&link, &order, &5, false).unwrap();
    assert_eq!(follow_ref(&link, &above, 0).key_value(), Some((&8, &80)));
    assert!(closest_path::<i32, i32, i32, Natural<i32>, Right>(&link, &order, &9, false).is_none());
    assert!(closest_path::<i32, i32, i32, Natural<i32>, Left>(&link, &order, &1, false).is_none());
    assert_eq!(remove_at(&mut link, &path), (4, 40));
    assert_eq!(entries_of(&link), vec![(1, 10), (3, 30), (5, 50), (8, 80), (9, 90)]);
    let (root, _) = find_path(&link, &order, &5);
    let slot = follow(&mut link, &root, 0);
    assert_eq!(remove_root(slot), (5, 50));
    assert_eq!(link.key_value(), Some((&8, &80)));
    assert_eq!(entries_of(&link), vec![(1, 10), (3, 30), (8, 80), (9, 90)]);
}

#[test]
fn removal_takes_the_next_entry_from_deep_below() {
    let mut link = tree_of(&[5, 3, 9, 7, 6, 8, 10]);
    assert_eq!(remove_root(&mut link), (5, 50));
    assert_eq!(link.key_value(), Some((&6, &60)));
    assert_eq!(entries_of(&link), vec![(3, 30), (6, 60), (7, 70), (8, 80), (9, 90), (10, 100)]);
    let mut leaf = tree_of(&[1]);
    assert_eq!(remove_root(&mut leaf), (1, 10));
    assert!(leaf.is_none());
}

#[test]
fn marked_node_hands_each_child_out_once() {
    let link = tree_of(&[5, 3, 8]);
    let mut root = MarkedNode::new(link.as_ref().unwrap());
    assert_eq!(*root.key(), 5);
    let left = root.left().unwrap();
    assert_eq!(left.item(), (&3, &30));
    assert!(root.left().is_none());
    let right = root.right().unwrap();
    assert_eq!(*right.key(), 8);
    assert!(root.right().is_none());
    assert_eq!(root.item(), (&5, &50));
}

#[test]
fn owned_node_gives_its_children_away() {
    let link = tree_of(&[5, 3, 8]);
    let mut root = link.unwrap();
    assert_eq!(*NodeRef::key(&root), 5);
    let left = NodeRef::left(&mut root).unwrap();
    assert_eq!(NodeRef::item(left), (3, 30));
    assert!(NodeRef::left(&mut root).is_none());
    assert_eq!(NodeRef::item(root), (5, 50));
}

#[test]
fn node_iteration_counts_down_from_the_size_given() {
    let link = tree_of(&[2, 1, 3]);
    let mut it = Iter::new(link, 5);
    assert_eq!(it.len(), 5);
    assert_eq!(it.next(), Some((1, 10)));
    assert_eq!(it.next_back(), Some((3, 30)));
    assert_eq!(it.len(), 3);
    assert_eq!(it.next(), Some((2, 20)));
    assert_eq!(it.next(), None);
    assert_eq!(it.next_back(), None);
    assert_eq!(it.len(), 2);
}

#[test]
fn node_range_prunes_before_the_first_step() {
    let order: Natural<i32> = natural();
    let link = tree_of(&[50, 20, 80, 10, 30, 70, 90]);
    let mut range = Range::new(link, 7, &order, Excluded(&20), Included(&80));
    let (low, high) = range.size_hint();
    assert!(low >= 1 && low <= 4);
    assert_eq!(high, Some(7));
    assert_eq!(range.next(), Some((30, 300)));
    assert_eq!(range.next_back(), Some((80, 800)));
    assert_eq!(range.next(), Some((50, 500)));
    assert_eq!(range.next(), Some((70, 700)));
    assert_eq!(range.next(), None);
    let link = tree_of(&[50, 20, 80]);
    let mut all = Range::new(link, 3, &order, Unbounded, Unbounded);
    assert_eq!(all.next_back(), Some((80, 800)));
    assert_eq!(all.next_back(), Some((50, 500)));
    assert_eq!(all.next_back(), Some((20, 200)));
    assert_eq!(all.next_back(), None);
}

#[test]
fn insert_hangs_a_leaf_where_the_search_ends() {
    let order: Natural<i32> = natural();
    let mut link = tree_of(&[5, 3, 8]);
    assert_eq!(insert(&mut link, &order, 1, 10), None);
    assert_eq!(link.key_value(), Some((&5, &50)));
    assert_eq!(entries_of(get(&link, &order, &3)), vec![(1, 10), (3, 30)]);
    assert_eq!(entries_of(get(&link, &order, &1)), vec![(1, 10)]);
    assert_eq!(entries_of(get(&link, &order, &8)), vec![(8, 80)]);
    assert_eq!(insert(&mut link, &order, 4, 40), None);
    assert_eq!(entries_of(get(&link, &order, &3)), vec![(1, 10), (3, 30), (4, 40)]);
    assert_eq!(entries_of(get(&link, &order, &4)), vec![(4, 40)]);
}

#[test]
fn insert_under_a_present_key_leaves_every_node_in_its_place() {
    let order: Natural<i32> = natural();
    let mut link = tree_of(&[5, 3, 8, 1, 4]);
    assert_eq!(insert(&mut link, &order, 3, 33), Some(30));
    assert_eq!(link.key_value(), Some((&5, &50)));
    assert_eq!(entries_of(get(&link, &order, &3)), vec![(1, 10), (3, 33), (4, 40)]);
    assert_eq!(insert(&mut link, &order, 5, 55), Some(50));
    assert_eq!(link.key_value(), Some((&5, &55)));
    assert_eq!(entries_of(&link), vec![(1, 10), (3, 33), (4, 40), (5, 55), (8, 80)]);
}

#[test]
fn a_copied_link_has_the_same_form() {
    let order: Natural<i32> = natural();
    let link = tree_of(&[5, 3, 8, 1, 4]);
    let mut copy = clone_link(&link);
    assert_eq!(entries_of(&copy), entries_of(&link));
    assert_eq!(copy.key_value(), Some((&5, &50)));
    assert_eq!(entries_of(get(&copy, &order, &3)), vec![(1, 10), (3, 30), (4, 40)]);
    insert(&mut copy, &order, 9, 90);
    assert_eq!(entries_of(&link).len(), 5);
    assert_eq!(entries_of(&copy).len(), 6);
}
