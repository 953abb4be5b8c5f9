//! An ordered map based on a binary search tree.

use crate::model::{
    cut, cut_at, extreme, index_of, lemma_cut, lemma_lower_rank, lemma_put_sorted,
    lemma_rank_sorted, lemma_remove_sorted, lemma_same_keys, lemma_same_keys_sorted,
    lemma_sorted_by, lemma_update_sorted, lemma_upper_rank, lemma_without, lookup, lower_bound,
    lower_rank, lt_of, neighbor, neighbor_index, present, put, put_all, range_of, sorted, sorted_by,
    takes_first, takes_last, upper_bound, upper_rank, without,
};
use crate::node::entry::{OccupiedEntry, VacantEntry};
use crate::node::path::{
    closest_path, extreme_path, find_path, follow, follow_ref, index_at, lemma_descend_entry,
    lemma_descend_range, offset, remove_at, value_at, Path,
};
use crate::node::iter::{
    borrow_entries, by_ref, items_of, keyed, lemma_marked_items, lemma_owned_items, MarkedNode,
};
use crate::node::{
    descend, entries, hangs_leaf, keeps_places, lemma_entries_shape, lemma_graft_same, reaches,
    root_entry, same_form, takes_out, Left, Link, LinkExt, Node, Right,
};
use crate::order::{agrees, natural_default, strict_weak_order, Comparator};
use compare::Natural;
use std::cmp::Ordering;
use std::ops::Bound;
use vstd::prelude::*;

pub mod relations;

verus! {

/// An ordered map based on a binary search tree.
///
/// The map stands for the sequence of its entries in ascending key order,
/// its view. What the map does is undefined if the order of a key relative
/// to another changes while the key is in the map.
///
/// A key is looked up by a key or by a value of any other type that the
/// comparator of the map compares with keys, as long as that comparison
/// agrees with the order of the keys.
#[derive(Clone)]
pub struct TreeMap<K, V, C: Comparator<K> = Natural<K>> {
    root: Link<K, V>,
    len: usize,
    order: C,
}

impl<K, V, C: Comparator<K>> View for TreeMap<K, V, C> {
    type V = Seq<(K, V)>;

    open spec fn view(&self) -> Seq<(K, V)> {
        entries(self.tree())
    }
}

impl<K: Ord, V> TreeMap<K, V, Natural<K>> {
    /// Creates an empty map ordered according to the natural order of its keys.
    pub fn new() -> (map: Self)
        ensures
            map.tree() is None,
            map@ == Seq::<(K, V)>::empty(),
            strict_weak_order(map.comparator()) ==> map.wf(),
    {
        TreeMap::with_cmp(natural_default())
    }
}

impl<K, V, C: Comparator<K>> TreeMap<K, V, C> {
    /// The tree that holds the entries of the map.
    pub closed spec fn tree(&self) -> Link<K, V> {
        self.root
    }

    /// The comparator that orders the map.
    pub closed spec fn comparator(&self) -> &C {
        &self.order
    }

    /// The length that the map keeps count of.
    pub closed spec fn counted(&self) -> usize {
        self.len
    }

    /// The map is well formed: its comparator decides a strict weak order,
    /// its keys ascend strictly by it, and its count is the number of its
    /// entries.
    pub open spec fn wf(&self) -> bool {
        &&& strict_weak_order(self.comparator())
        &&& sorted(self.comparator(), self@)
        &&& self.counted() == self@.len()
    }

    /// Takes the entry at the end of `path` out of the map.
    fn take_at(&mut self, path: &Path) -> (kv: (K, V))
        requires
            old(self).wf(),
            reaches(old(self).root, path@),
            descend(old(self).root, path@) is Some,
        ensures
            final(self).wf(),
            final(self).comparator() == old(self).comparator(),
            0 <= index_at(old(self).root, path@) < old(self)@.len(),
            kv == old(self)@[index_at(old(self).root, path@)],
            Some(kv) == root_entry(descend(old(self).root, path@)),
            final(self)@ == old(self)@.remove(index_at(old(self).root, path@)),
            takes_out(old(self).tree(), final(self).tree(), kv),
    {
        proof {
            lemma_descend_entry(self.root, path@);
            lemma_remove_sorted(&self.order, self@, index_at(self.root, path@));
        }
        let kv = remove_at(&mut self.root, path);
        self.len -= 1;
        kv
    }

    /// The key at the end of `path` and its value, the value open to change.
    fn value_mut_at(&mut self, path: &Path) -> (kv: (&K, &mut V))
        requires
            old(self).wf(),
            reaches(old(self).root, path@),
            descend(old(self).root, path@) is Some,
        ensures
            final(self).wf(),
            final(self).comparator() == old(self).comparator(),
            0 <= index_at(old(self).root, path@) < old(self)@.len(),
            (*kv.0, *kv.1) == old(self)@[index_at(old(self).root, path@)],
            Some((*kv.0, *kv.1)) == root_entry(descend(old(self).root, path@)),
            keeps_places(old(self).tree(), final(self).tree(), (*kv.0, *final(kv.1))),
            final(self)@ == old(self)@.update(
                index_at(old(self).root, path@),
                (*kv.0, *final(kv.1)),
            ),
    {
        proof {
            lemma_descend_entry(self.root, path@);
            let s = self@;
            let i = index_at(self.root, path@);
            assert forall|v: V| sorted(&self.order, #[trigger] s.update(i, (s[i].0, v))) by {
                lemma_update_sorted(&self.order, s, i, v);
            }
        }
        value_at(&mut self.root, path)
    }

    /// The key at the end of `path` and its value.
    fn value_ref_at(&self, path: &Path) -> (kv: (&K, &V))
        requires
            reaches(self.root, path@),
            descend(self.root, path@) is Some,
        ensures
            0 <= index_at(self.root, path@) < self@.len(),
            (*kv.0, *kv.1) == self@[index_at(self.root, path@)],
            Some((*kv.0, *kv.1)) == root_entry(descend(self.root, path@)),
    {
        proof {
            lemma_descend_entry(self.root, path@);
            assert(path@.skip(0) =~= path@);
        }
        match follow_ref(&self.root, path, 0).key_value() {
            Some(kv) => kv,
            None => unreached(),
        }
    }

    /// The entry `e` stands at index `i` of this map.
    pub open spec fn at_entry(&self, e: OccupiedEntry<K, V>, i: int) -> bool {
        &&& e.wf()
        &&& e.all() == self@
        &&& e.index() == i
        &&& e.order() == lt_of(self.comparator())
        &&& e.grown(*e.slot_ref()) == self.tree()
    }

    /// The entry `e` stands for the place of its key in this map, which
    /// does not hold the key.
    pub open spec fn at_vacancy(&self, e: VacantEntry<K, V>) -> bool {
        &&& e.wf()
        &&& e.all() == self@
        &&& e.index() == index_of(self.comparator(), self@, e.pending_key())
        &&& e.order() == lt_of(self.comparator())
    }

    /// The entry for the node at the end of `path`.
    fn occupied_at(&mut self, path: &Path) -> (e: OccupiedEntry<'_, K, V>)
        requires
            old(self).wf(),
            reaches(old(self).root, path@),
            descend(old(self).root, path@) is Some,
        ensures
            old(self).at_entry(e, index_at(old(self).root, path@)),
            0 <= index_at(old(self).root, path@) < old(self)@.len(),
            Some(old(self)@[index_at(old(self).root, path@)]) == root_entry(
                descend(old(self).root, path@),
            ),
            final(self).comparator() == old(self).comparator(),
            final(self)@ == e.outcome(*final(e.slot_ref())),
            final(self).tree() == e.grown(*final(e.slot_ref())),
            e.admits(*final(e.slot_ref()), *final(e.len_ref())) ==> final(self).wf(),
    {
        let ghost s = self@;
        let ghost root = self.root;
        let ghost o = offset(self.root, path@);
        let ghost n = entries(descend(self.root, path@)).len() as int;
        let ghost lt = lt_of(&self.order);
        proof {
            assert(path@.skip(0) =~= path@);
            lemma_descend_entry(self.root, path@);
            lemma_descend_range(self.root, path@);
            assert(s =~= s.take(o) + s.subrange(o, o + n) + s.skip(o + n));
            lemma_graft_same(self.root, path@);
            lemma_sorted_by(&self.order, s);
            assert forall|t: Seq<(K, V)>| #[trigger] sorted_by(lt, t) implies sorted(
                &self.order,
                t,
            ) by {
                lemma_sorted_by(&self.order, t);
            }
        }
        let slot = follow(&mut self.root, path, 0);
        OccupiedEntry::new(
            slot,
            &mut self.len,
            Ghost(s.take(o)),
            Ghost(s.skip(o + n)),
            Ghost(lt),
            Ghost(root),
            Ghost(path@),
        )
    }

    /// Creates an empty map ordered according to the given comparator.
    pub fn with_cmp(cmp: C) -> (map: Self)
        ensures
            map.tree() is None,
            map@ == Seq::<(K, V)>::empty(),
            *map.comparator() == cmp,
            strict_weak_order(&cmp) ==> map.wf(),
    {
        let map = TreeMap { root: None, len: 0, order: cmp };
        proof {
            lemma_entries_shape(map.root);
            assert(map@ =~= Seq::<(K, V)>::empty());
        }
        map
    }

    /// Checks if the map is empty.
    pub fn is_empty(&self) -> (empty: bool)
        ensures
            empty == (self@.len() == 0),
    {
        proof {
            lemma_entries_shape(self.root);
        }
        self.root.is_none()
    }

    /// Returns the number of entries in the map.
    pub fn len(&self) -> (n: usize)
        requires
            self.wf(),
        ensures
            n == self@.len(),
    {
        self.len
    }

    /// Returns a reference to the map's comparator.
    pub fn cmp(&self) -> (c: &C)
        ensures
            c == self.comparator(),
    {
        &self.order
    }

    /// Removes all entries from the map.
    pub fn clear(&mut self)
        ensures
            final(self).tree() is None,
            final(self)@ == Seq::<(K, V)>::empty(),
            final(self).comparator() == old(self).comparator(),
            strict_weak_order(old(self).comparator()) ==> final(self).wf(),
    {
        self.root = None;
        self.len = 0;
        proof {
            lemma_entries_shape(self.root);
            assert(self@ =~= Seq::<(K, V)>::empty());
        }
    }

    /// Inserts an entry into the map, returning the previous value, if any,
    /// associated with the key. The key given takes the place of an
    /// equivalent key that the map held.
    pub fn insert(&mut self, key: K, value: V) -> (prev: Option<V>)
        requires
            old(self).wf(),
            present(old(self).comparator(), old(self)@, key) || old(self)@.len() < usize::MAX,
        ensures
            final(self).wf(),
            final(self).comparator() == old(self).comparator(),
            final(self)@ == put(old(self).comparator(), old(self)@, key, value),
            prev == match lookup(old(self).comparator(), old(self)@, key) {
                Some(e) => Some(e.1),
                None => None,
            },
            keeps_places(old(self).tree(), final(self).tree(), (key, value)),
            prev is None ==> hangs_leaf(old(self).tree(), final(self).tree(), (key, value)),
    {
        proof {
            lemma_put_sorted(&self.order, self@, key, value);
        }
        let prev = crate::node::insert(&mut self.root, &self.order, key, value);
        if prev.is_none() {
            self.len += 1;
        }
        prev
    }

    /// Removes and returns the entry whose key is equivalent to the given
    /// key, returning `None` if the map does not contain the key.
    pub fn remove<Q>(&mut self, key: &Q) -> (removed: Option<(K, V)>) where C: Comparator<Q, K>
        requires
            agrees::<Q, K, C>(old(self).comparator()),
            old(self).wf(),
        ensures
            final(self).wf(),
            match removed {
                Some(e) => takes_out(old(self).tree(), final(self).tree(), e),
                None => final(self).tree() == old(self).tree(),
            },
            final(self).comparator() == old(self).comparator(),
            removed == lookup(old(self).comparator(), old(self)@, *key),
            final(self)@ == without(old(self).comparator(), old(self)@, *key),
    {
        proof {
            lemma_cut(&self.order, self@, *key);
        }
        proof {
            lemma_without(&self.order, self@, *key);
        }
        let (path, hit) = find_path(&self.root, &self.order, key);
        if hit {
            Some(self.take_at(&path))
        } else {
            proof {
                lemma_entries_shape(descend(self.root, path@));
            }
            None
        }
    }

    /// Checks if the map contains the given key.
    pub fn contains_key<Q>(&self, key: &Q) -> (found: bool) where C: Comparator<Q, K>
        requires
            agrees::<Q, K, C>(self.comparator()),
            self.wf(),
        ensures
            found == present(self.comparator(), self@, *key),
    {
        proof {
            lemma_cut(&self.order, self@, *key);
        }
        self.get(key).is_some()
    }

    /// Returns a reference to the value associated with the given key, or
    /// `None` if the map does not contain the key.
    pub fn get<Q>(&self, key: &Q) -> (value: Option<&V>) where C: Comparator<Q, K>
        requires
            agrees::<Q, K, C>(self.comparator()),
            self.wf(),
        ensures
            value == match lookup(self.comparator(), self@, *key) {
                Some(e) => Some(&e.1),
                None => None,
            },
    {
        proof {
            lemma_cut(&self.order, self@, *key);
        }
        match crate::node::get(&self.root, &self.order, key).key_value() {
            Some(kv) => Some(kv.1),
            None => None,
        }
    }

    /// Returns a mutable reference to the value associated with the given
    /// key, or `None` if the map does not contain the key.
    pub fn get_mut<Q>(&mut self, key: &Q) -> (value: Option<&mut V>) where C: Comparator<Q, K>
        requires
            agrees::<Q, K, C>(old(self).comparator()),
            old(self).wf(),
        ensures
            final(self).wf(),
            final(self).comparator() == old(self).comparator(),
            match value {
                Some(v) => {
                    let i = index_of(old(self).comparator(), old(self)@, *key);
                    &&& present(old(self).comparator(), old(self)@, *key)
                    &&& *v == old(self)@[i].1
                    &&& final(self)@ == old(self)@.update(i, (old(self)@[i].0, *final(v)))
                    &&& keeps_places(
                        old(self).tree(),
                        final(self).tree(),
                        (old(self)@[i].0, *final(v)),
                    )
                },
                None => {
                    &&& !present(old(self).comparator(), old(self)@, *key)
                    &&& final(self)@ == old(self)@
                    &&& final(self).tree() == old(self).tree()
                },
            },
    {
        proof {
            lemma_cut(&self.order, self@, *key);
        }
        let (path, hit) = find_path(&self.root, &self.order, key);
        if hit {
            Some(self.value_mut_at(&path).1)
        } else {
            proof {
                lemma_entries_shape(descend(self.root, path@));
            }
            None
        }
    }
}

impl<K, V, C: Comparator<K> + Default> Default for TreeMap<K, V, C> {
    /// Creates an empty map ordered according to the default comparator.
    fn default() -> (map: Self)
        ensures
            map.tree() is None,
            map@ == Seq::<(K, V)>::empty(),
            strict_weak_order(map.comparator()) ==> map.wf(),
    {
        TreeMap::with_cmp(C::default())
    }
}

impl<K, V, C: Comparator<K>> TreeMap<K, V, C> {
    /// Inserts the given entries into the map, one after the other.
    pub fn extend(&mut self, entries: Vec<(K, V)>)
        requires
            old(self).wf(),
            old(self)@.len() + entries@.len() <= usize::MAX,
        ensures
            final(self).wf(),
            final(self).comparator() == old(self).comparator(),
            final(self)@ == put_all(old(self).comparator(), old(self)@, entries@),
    {
        let ghost start = self@;
        let ghost items = entries@;
        proof {
            assert(items.skip(0) =~= items);
        }
        for entry in it: entries
            invariant
                self.wf(),
                self.comparator() == old(self).comparator(),
                it.seq() == items,
                start.len() + items.len() <= usize::MAX,
                self@.len() <= start.len() + it.index(),
                put_all(self.comparator(), self@, items.skip(it.index() as int)) == put_all(
                    self.comparator(),
                    start,
                    items,
                ),
        {
            proof {
                let i = it.index() as int;
                assert(items.skip(i).skip(1) =~= items.skip(i + 1));
                lemma_put_sorted(self.comparator(), self@, entry.0, entry.1);
            }
            self.insert(entry.0, entry.1);
        }
    }

    /// Creates a map ordered according to the default comparator that holds
    /// the given entries, inserted one after the other.
    pub fn from_iter(entries: Vec<(K, V)>) -> (map: Self) where C: Default
        requires
            forall|c: C| strict_weak_order(&c),
        ensures
            map.wf(),
            map@ == put_all(map.comparator(), Seq::<(K, V)>::empty(), entries@),
    {
        let mut map: Self = Default::default();
        assert(entries.len() <= usize::MAX);
        map.extend(entries);
        map
    }

    /// Returns a reference to the value associated with the given key,
    /// which the map must contain.
    pub fn index<Q>(&self, key: &Q) -> (value: &V) where C: Comparator<Q, K>
        requires
            agrees::<Q, K, C>(self.comparator()),
            self.wf(),
            present(self.comparator(), self@, *key),
        ensures
            Some((self@[index_of(self.comparator(), self@, *key)].0, *value)) == lookup(
                self.comparator(),
                self@,
                *key,
            ),
    {
        proof {
            lemma_cut(&self.order, self@, *key);
        }
        match self.get(key) {
            Some(value) => value,
            None => unreached(),
        }
    }
}

impl<K, V, C: Comparator<K>> TreeMap<K, V, C> {
    /// Find an entry at a specific location in the map.
    pub fn find(&self) -> (found: Find<&Self>)
        ensures
            found.target() == self,
    {
        Find { inner: self }
    }

    /// Find a mutable entry at a specific location in the map.
    pub fn find_mut(&mut self) -> (found: Find<&mut Self>)
        ensures
            *found.target() == *old(self),
            *final(found.target()) == *final(self),
    {
        Find { inner: self }
    }

    /// Removes the map's maximum key and returns it and its associated
    /// value, or `None` if the map is empty.
    pub fn remove_max(&mut self) -> (removed: Option<(K, V)>)
        requires
            old(self).wf(),
        ensures
            final(self).wf(),
            match removed {
                Some(e) => takes_out(old(self).tree(), final(self).tree(), e),
                None => final(self).tree() == old(self).tree(),
            },
            final(self).comparator() == old(self).comparator(),
            removed == extreme(old(self)@, false),
            final(self)@ == if old(self)@.len() == 0 {
                old(self)@
            } else {
                old(self)@.drop_last()
            },
    {
        proof {
            lemma_entries_shape(self.root);
        }
        if self.root.is_none() {
            None
        } else {
            let path = extreme_path::<K, V, Right>(&self.root);
            proof {
                lemma_entries_shape(descend(self.root, path@));
                assert(self@.remove(self@.len() - 1) =~= self@.drop_last());
            }
            Some(self.take_at(&path))
        }
    }

    /// Removes the map's minimum key and returns it and its associated
    /// value, or `None` if the map is empty.
    pub fn remove_min(&mut self) -> (removed: Option<(K, V)>)
        requires
            old(self).wf(),
        ensures
            final(self).wf(),
            match removed {
                Some(e) => takes_out(old(self).tree(), final(self).tree(), e),
                None => final(self).tree() == old(self).tree(),
            },
            final(self).comparator() == old(self).comparator(),
            removed == extreme(old(self)@, true),
            final(self)@ == if old(self)@.len() == 0 {
                old(self)@
            } else {
                old(self)@.skip(1)
            },
    {
        proof {
            lemma_entries_shape(self.root);
        }
        if self.root.is_none() {
            None
        } else {
            let path = extreme_path::<K, V, Left>(&self.root);
            proof {
                lemma_entries_shape(descend(self.root, path@));
                assert(self@.remove(0) =~= self@.skip(1));
            }
            Some(self.take_at(&path))
        }
    }

    /// Returns the predecessor of the given key with its value: the entry
    /// with the greatest key strictly less than the given key, or, if
    /// `inclusive`, less than or equivalent to it. `None` if the map holds
    /// no such key. The given key need not itself be present in the map.
    pub fn pred<Q>(&self, key: &Q, inclusive: bool) -> (found: Option<(&K, &V)>) where
        C: Comparator<Q, K>,
        requires
            agrees::<Q, K, C>(self.comparator()),
            self.wf(),
        ensures
            match found {
                Some((k, v)) => neighbor(self.comparator(), self@, *key, inclusive, true) == Some(
                    (*k, *v),
                ),
                None => neighbor(self.comparator(), self@, *key, inclusive, true) is None,
            },
    {
        proof {
            lemma_cut(&self.order, self@, *key);
        }
        match closest_path::<Q, K, V, C, Left>(&self.root, &self.order, key, inclusive) {
            Some(path) => Some(self.value_ref_at(&path)),
            None => None,
        }
    }

    /// Returns the predecessor of the given key with its value, the value
    /// open to change.
    pub fn pred_mut<Q>(&mut self, key: &Q, inclusive: bool) -> (found: Option<(&K, &mut V)>) where
        C: Comparator<Q, K>,
        requires
            agrees::<Q, K, C>(old(self).comparator()),
            old(self).wf(),
        ensures
            final(self).wf(),
            final(self).comparator() == old(self).comparator(),
            match found {
                Some((k, v)) => {
                    let i = neighbor_index(old(self).comparator(), old(self)@, *key, inclusive, true);
                    &&& neighbor(old(self).comparator(), old(self)@, *key, inclusive, true) == Some(
                        (*k, *v),
                    )
                    &&& final(self)@ == old(self)@.update(i, (*k, *final(v)))
                    &&& keeps_places(old(self).tree(), final(self).tree(), (*k, *final(v)))
                },
                None => {
                    &&& neighbor(old(self).comparator(), old(self)@, *key, inclusive, true) is None
                    &&& final(self)@ == old(self)@
                    &&& final(self).tree() == old(self).tree()
                },
            },
    {
        proof {
            lemma_cut(&self.order, self@, *key);
        }
        match closest_path::<Q, K, V, C, Left>(&self.root, &self.order, key, inclusive) {
            Some(path) => Some(self.value_mut_at(&path)),
            None => None,
        }
    }

    /// Removes the predecessor of the given key from the map and returns it
    /// with its value, or `None` if the map holds no such key.
    pub fn remove_pred<Q>(&mut self, key: &Q, inclusive: bool) -> (removed: Option<(K, V)>) where
        C: Comparator<Q, K>,
        requires
            agrees::<Q, K, C>(old(self).comparator()),
            old(self).wf(),
        ensures
            final(self).wf(),
            match removed {
                Some(e) => takes_out(old(self).tree(), final(self).tree(), e),
                None => final(self).tree() == old(self).tree(),
            },
            final(self).comparator() == old(self).comparator(),
            removed == neighbor(old(self).comparator(), old(self)@, *key, inclusive, true),
            final(self)@ == if removed is Some {
                old(self)@.remove(
                    neighbor_index(old(self).comparator(), old(self)@, *key, inclusive, true),
                )
            } else {
                old(self)@
            },
    {
        proof {
            lemma_cut(&self.order, self@, *key);
        }
        match closest_path::<Q, K, V, C, Left>(&self.root, &self.order, key, inclusive) {
            Some(path) => Some(self.take_at(&path)),
            None => None,
        }
    }

    /// Returns the successor of the given key with its value: the entry with
    /// the least key strictly greater than the given key, or, if
    /// `inclusive`, greater than or equivalent to it. `None` if the map
    /// holds no such key. The given key need not itself be present in the
    /// map.
    pub fn succ<Q>(&self, key: &Q, inclusive: bool) -> (found: Option<(&K, &V)>) where
        C: Comparator<Q, K>,
        requires
            agrees::<Q, K, C>(self.comparator()),
            self.wf(),
        ensures
            match found {
                Some((k, v)) => neighbor(self.comparator(), self@, *key, inclusive, false) == Some(
                    (*k, *v),
                ),
                None => neighbor(self.comparator(), self@, *key, inclusive, false) is None,
            },
    {
        proof {
            lemma_cut(&self.order, self@, *key);
        }
        match closest_path::<Q, K, V, C, Right>(&self.root, &self.order, key, inclusive) {
            Some(path) => Some(self.value_ref_at(&path)),
            None => None,
        }
    }

    /// Returns the successor of the given key with its value, the value open
    /// to change.
    pub fn succ_mut<Q>(&mut self, key: &Q, inclusive: bool) -> (found: Option<(&K, &mut V)>) where
        C: Comparator<Q, K>,
        requires
            agrees::<Q, K, C>(old(self).comparator()),
            old(self).wf(),
        ensures
            final(self).wf(),
            final(self).comparator() == old(self).comparator(),
            match found {
                Some((k, v)) => {
                    let i = neighbor_index(
                        old(self).comparator(),
                        old(self)@,
                        *key,
                        inclusive,
                        false,
                    );
                    &&& neighbor(old(self).comparator(), old(self)@, *key, inclusive, false)
                        == Some((*k, *v))
                    &&& final(self)@ == old(self)@.update(i, (*k, *final(v)))
                    &&& keeps_places(old(self).tree(), final(self).tree(), (*k, *final(v)))
                },
                None => {
                    &&& neighbor(old(self).comparator(), old(self)@, *key, inclusive, false) is None
                    &&& final(self)@ == old(self)@
                    &&& final(self).tree() == old(self).tree()
                },
            },
    {
        proof {
            lemma_cut(&self.order, self@, *key);
        }
        match closest_path::<Q, K, V, C, Right>(&self.root, &self.order, key, inclusive) {
            Some(path) => Some(self.value_mut_at(&path)),
            None => None,
        }
    }

    /// Removes the successor of the given key from the map and returns it
    /// with its value, or `None` if the map holds no such key.
    pub fn remove_succ<Q>(&mut self, key: &Q, inclusive: bool) -> (removed: Option<(K, V)>) where
        C: Comparator<Q, K>,
        requires
            agrees::<Q, K, C>(old(self).comparator()),
            old(self).wf(),
        ensures
            final(self).wf(),
            match removed {
                Some(e) => takes_out(old(self).tree(), final(self).tree(), e),
                None => final(self).tree() == old(self).tree(),
            },
            final(self).comparator() == old(self).comparator(),
            removed == neighbor(old(self).comparator(), old(self)@, *key, inclusive, false),
            final(self)@ == if removed is Some {
                old(self)@.remove(
                    neighbor_index(old(self).comparator(), old(self)@, *key, inclusive, false),
                )
            } else {
                old(self)@
            },
    {
        proof {
            lemma_cut(&self.order, self@, *key);
        }
        match closest_path::<Q, K, V, C, Right>(&self.root, &self.order, key, inclusive) {
            Some(path) => Some(self.take_at(&path)),
            None => None,
        }
    }
}

impl<K, V, C: Comparator<K>> TreeMap<K, V, C> {
    /// Returns the map's entry corresponding to the given key: occupied
    /// where the map holds an equivalent key, vacant where it does not.
    pub fn entry(&mut self, key: K) -> (e: Entry<'_, K, V>)
        requires
            old(self).wf(),
            present(old(self).comparator(), old(self)@, key) || old(self)@.len() < usize::MAX,
        ensures
            final(self).comparator() == old(self).comparator(),
            match e {
                Entry::Occupied(o) => {
                    &&& present(old(self).comparator(), old(self)@, key)
                    &&& old(self).at_entry(o, index_of(old(self).comparator(), old(self)@, key))
                    &&& final(self)@ == o.outcome(*final(o.slot_ref()))
                    &&& final(self).tree() == o.grown(*final(o.slot_ref()))
                    &&& o.admits(*final(o.slot_ref()), *final(o.len_ref())) ==> final(self).wf()
                },
                Entry::Vacant(v) => {
                    &&& !present(old(self).comparator(), old(self)@, key)
                    &&& old(self).at_vacancy(v)
                    &&& v.pending_key() == key
                    &&& v.tree() == old(self).tree()
                    &&& final(self).tree() == v.grown(*final(v.slot_ref()))
                    &&& final(self)@ == v.outcome(*final(v.slot_ref()))
                    &&& v.admits(*final(v.slot_ref()), *final(v.len_ref())) ==> final(self).wf()
                },
            },
    {
        let (path, hit) = find_path(&self.root, &self.order, &key);
        if hit {
            proof {
                lemma_entries_shape(descend(self.root, path@));
            }
            Entry::Occupied(self.occupied_at(&path))
        } else {
            let ghost s = self@;
            let ghost o = offset(self.root, path@);
            let ghost lt = lt_of(&self.order);
            let ghost root = self.root;
            proof {
                assert(path@.skip(0) =~= path@);
                lemma_entries_shape(descend(self.root, path@));
                lemma_descend_range(self.root, path@);
                lemma_rank_sorted(&self.order, s, key);
                assert(s =~= s.take(o) + s.skip(o));
                lemma_sorted_by(&self.order, s);
                assert forall|v: V|
                    sorted_by(lt, s.take(o) + #[trigger] seq![(key, v)] + s.skip(o)) by {
                    lemma_put_sorted(&self.order, s, key, v);
                    lemma_sorted_by(&self.order, s.take(o) + seq![(key, v)] + s.skip(o));
                }
                assert forall|t: Seq<(K, V)>| #[trigger] sorted_by(lt, t) implies sorted(
                    &self.order,
                    t,
                ) by {
                    lemma_sorted_by(&self.order, t);
                }
            }
            let slot = follow(&mut self.root, &path, 0);
            Entry::Vacant(
                VacantEntry::new(
                    slot,
                    &mut self.len,
                    key,
                    Ghost(s.take(o)),
                    Ghost(s.skip(o)),
                    Ghost(lt),
                    Ghost(root),
                    Ghost(path@),
                ),
            )
        }
    }

    /// Returns the map's entry corresponding to its maximum key.
    pub fn max_entry(&mut self) -> (found: Option<OccupiedEntry<'_, K, V>>)
        requires
            old(self).wf(),
        ensures
            final(self).comparator() == old(self).comparator(),
            match found {
                Some(e) => {
                    &&& old(self).at_entry(e, old(self)@.len() - 1)
                    &&& final(self)@ == e.outcome(*final(e.slot_ref()))
                    &&& final(self).tree() == e.grown(*final(e.slot_ref()))
                    &&& e.admits(*final(e.slot_ref()), *final(e.len_ref())) ==> final(self).wf()
                },
                None => {
                    &&& old(self)@.len() == 0
                    &&& final(self)@ == old(self)@
                    &&& final(self).tree() == old(self).tree()
                    &&& final(self).wf()
                },
            },
    {
        proof {
            lemma_entries_shape(self.root);
        }
        if self.root.is_none() {
            None
        } else {
            let path = extreme_path::<K, V, Right>(&self.root);
            proof {
                lemma_entries_shape(descend(self.root, path@));
            }
            Some(self.occupied_at(&path))
        }
    }

    /// Returns the map's entry corresponding to its minimum key.
    pub fn min_entry(&mut self) -> (found: Option<OccupiedEntry<'_, K, V>>)
        requires
            old(self).wf(),
        ensures
            final(self).comparator() == old(self).comparator(),
            match found {
                Some(e) => {
                    &&& old(self).at_entry(e, 0)
                    &&& final(self)@ == e.outcome(*final(e.slot_ref()))
                    &&& final(self).tree() == e.grown(*final(e.slot_ref()))
                    &&& e.admits(*final(e.slot_ref()), *final(e.len_ref())) ==> final(self).wf()
                },
                None => {
                    &&& old(self)@.len() == 0
                    &&& final(self)@ == old(self)@
                    &&& final(self).tree() == old(self).tree()
                    &&& final(self).wf()
                },
            },
    {
        proof {
            lemma_entries_shape(self.root);
        }
        if self.root.is_none() {
            None
        } else {
            let path = extreme_path::<K, V, Left>(&self.root);
            proof {
                lemma_entries_shape(descend(self.root, path@));
            }
            Some(self.occupied_at(&path))
        }
    }

    /// Returns the entry corresponding to the predecessor of the given key.
    pub fn pred_entry<Q>(&mut self, key: &Q, inclusive: bool) -> (found: Option<
        OccupiedEntry<'_, K, V>,
    >) where C: Comparator<Q, K>
        requires
            agrees::<Q, K, C>(old(self).comparator()),
            old(self).wf(),
        ensures
            final(self).comparator() == old(self).comparator(),
            match found {
                Some(e) => {
                    &&& neighbor(old(self).comparator(), old(self)@, *key, inclusive, true) is Some
                    &&& old(self).at_entry(
                        e,
                        neighbor_index(old(self).comparator(), old(self)@, *key, inclusive, true),
                    )
                    &&& final(self)@ == e.outcome(*final(e.slot_ref()))
                    &&& final(self).tree() == e.grown(*final(e.slot_ref()))
                    &&& e.admits(*final(e.slot_ref()), *final(e.len_ref())) ==> final(self).wf()
                },
                None => {
                    &&& neighbor(old(self).comparator(), old(self)@, *key, inclusive, true) is None
                    &&& final(self)@ == old(self)@
                    &&& final(self).tree() == old(self).tree()
                    &&& final(self).wf()
                },
            },
    {
        proof {
            lemma_cut(&self.order, self@, *key);
        }
        match closest_path::<Q, K, V, C, Left>(&self.root, &self.order, key, inclusive) {
            Some(path) => Some(self.occupied_at(&path)),
            None => None,
        }
    }

    /// Returns the entry corresponding to the successor of the given key.
    pub fn succ_entry<Q>(&mut self, key: &Q, inclusive: bool) -> (found: Option<
        OccupiedEntry<'_, K, V>,
    >) where C: Comparator<Q, K>
        requires
            agrees::<Q, K, C>(old(self).comparator()),
            old(self).wf(),
        ensures
            final(self).comparator() == old(self).comparator(),
            match found {
                Some(e) => {
                    &&& neighbor(old(self).comparator(), old(self)@, *key, inclusive, false) is Some
                    &&& old(self).at_entry(
                        e,
                        neighbor_index(old(self).comparator(), old(self)@, *key, inclusive, false),
                    )
                    &&& final(self)@ == e.outcome(*final(e.slot_ref()))
                    &&& final(self).tree() == e.grown(*final(e.slot_ref()))
                    &&& e.admits(*final(e.slot_ref()), *final(e.len_ref())) ==> final(self).wf()
                },
                None => {
                    &&& neighbor(old(self).comparator(), old(self)@, *key, inclusive, false) is None
                    &&& final(self)@ == old(self)@
                    &&& final(self).tree() == old(self).tree()
                    &&& final(self).wf()
                },
            },
    {
        proof {
            lemma_cut(&self.order, self@, *key);
        }
        match closest_path::<Q, K, V, C, Right>(&self.root, &self.order, key, inclusive) {
            Some(path) => Some(self.occupied_at(&path)),
            None => None,
        }
    }
}

impl<K, V, C: Comparator<K>> TreeMap<K, V, C> {
    /// Returns an iterator over the map's entries with immutable references
    /// to the values. The iterator yields the entries in ascending order
    /// according to the map's comparator.
    pub fn iter(&self) -> (it: Iter<'_, K, V>)
        requires
            self.wf(),
        ensures
            it.wf(),
            it.remaining() == by_ref::<K, V>(self@),
    {
        let root = match &self.root {
            Some(node) => {
                let marked = MarkedNode::new(node);
                proof {
                    lemma_marked_items(marked);
                }
                Some(marked)
            },
            None => {
                proof {
                    lemma_entries_shape(self.root);
                    assert(by_ref::<K, V>(self@) =~= Seq::empty());
                }
                None
            },
        };
        Iter(crate::node::iter::Iter::new(root, self.len))
    }

    /// Returns an iterator that consumes the map. The iterator yields the
    /// entries in ascending order according to the map's comparator.
    pub fn into_iter(self) -> (it: IntoIter<K, V>)
        requires
            self.wf(),
        ensures
            it.wf(),
            it.remaining() == self@,
    {
        proof {
            lemma_owned_items(self.root);
        }
        IntoIter(crate::node::iter::Iter::new(self.root, self.len))
    }
}

impl<K, V, C: Comparator<K>> TreeMap<K, V, C> {
    /// Returns an iterator that consumes the map, yielding only those
    /// entries whose keys lie in the given range, in ascending order
    /// according to the map's comparator.
    pub fn into_range<Min, Max>(self, min: Bound<&Min>, max: Bound<&Max>) -> (range: IntoRange<
        K,
        V,
    >) where C: Comparator<Min, K> + Comparator<Max, K>
        requires
            self.wf(),
            agrees::<Min, K, C>(self.comparator()),
            agrees::<Max, K, C>(self.comparator()),
        ensures
            range.wf(),
            range.counted() == self@.len(),
            range.remaining() == range_of(self.comparator(), self@, min, max),
    {
        proof {
            lemma_owned_items(self.root);
            let ks = keyed::<Box<Node<K, V>>>(self@);
            lemma_bound_keys(&self.order, self@, ks, min);
            lemma_bound_keys(&self.order, self@, ks, max);
        }
        IntoRange(crate::node::iter::Range::new(self.root, self.len, &self.order, min, max))
    }

    /// Returns an iterator over the map's entries whose keys lie in the
    /// given range, with immutable references to the values, in ascending
    /// order according to the map's comparator.
    pub fn range<Min, Max>(&self, min: Bound<&Min>, max: Bound<&Max>) -> (range: Range<
        '_,
        K,
        V,
    >) where C: Comparator<Min, K> + Comparator<Max, K>
        requires
            self.wf(),
            agrees::<Min, K, C>(self.comparator()),
            agrees::<Max, K, C>(self.comparator()),
        ensures
            range.wf(),
            range.counted() == self@.len(),
            range.remaining() == by_ref::<K, V>(range_of(self.comparator(), self@, min, max)),
    {
        let root = match &self.root {
            Some(node) => {
                let marked = MarkedNode::new(node);
                proof {
                    lemma_marked_items(marked);
                }
                Some(marked)
            },
            None => {
                proof {
                    lemma_entries_shape(self.root);
                    assert(by_ref::<K, V>(self@) =~= Seq::empty());
                }
                None
            },
        };
        proof {
            let s = self@;
            let r = by_ref::<K, V>(s);
            let ks = keyed::<MarkedNode<K, V>>(r);
            assert(items_of(root) == r);
            lemma_bound_keys(&self.order, s, ks, min);
            lemma_bound_keys(&self.order, s, ks, max);
            assert forall|lo: int, hi: int| 0 <= lo <= hi <= s.len() implies #[trigger] r.subrange(
                lo,
                hi,
            ) == by_ref::<K, V>(s.subrange(lo, hi)) by {
                assert(r.subrange(lo, hi) =~= by_ref::<K, V>(s.subrange(lo, hi)));
            }
            assert(by_ref::<K, V>(Seq::<(K, V)>::empty()) =~= Seq::empty());
        }
        Range(crate::node::iter::Range::new(root, self.len, &self.order, min, max))
    }
}

/// An iterator that consumes the map, yielding only those entries whose
/// keys lie in a given range.
///
/// The iterator yields the entries in ascending order according to the
/// map's comparator.
#[derive(Clone)]
pub struct IntoRange<K, V>(crate::node::iter::Range<Box<Node<K, V>>>);

impl<K, V> IntoRange<K, V> {
    /// The entries still to come, in ascending order.
    pub closed spec fn remaining(&self) -> Seq<(K, V)> {
        self.0.remaining()
    }

    /// The number of nodes that the iterator has on its list.
    pub closed spec fn listed(&self) -> nat {
        self.0.listed()
    }

    /// The count that the iterator keeps: that of the map, less one for
    /// each entry that came out.
    pub closed spec fn counted(&self) -> usize {
        self.0.counted()
    }

    /// The count of the iterator is no less than the number of entries
    /// still to come.
    pub closed spec fn wf(&self) -> bool {
        self.0.wf()
    }

    /// The next entry in ascending order.
    pub fn next(&mut self) -> (item: Option<(K, V)>)
        requires
            old(self).wf(),
        ensures
            final(self).wf(),
            takes_first(old(self).remaining(), item, final(self).remaining()),
    {
        self.0.next()
    }

    /// The next entry in descending order.
    pub fn next_back(&mut self) -> (item: Option<(K, V)>)
        requires
            old(self).wf(),
        ensures
            final(self).wf(),
            takes_last(old(self).remaining(), item, final(self).remaining()),
    {
        self.0.next_back()
    }

    /// A lower and an upper limit of the number of entries still to come:
    /// the number of nodes that the iterator has on its list, and its count.
    pub fn size_hint(&self) -> (hint: (usize, Option<usize>))
        requires
            self.wf(),
        ensures
            hint.0 == self.listed(),
            hint.1 == Some(self.counted()),
            self.listed() <= self.remaining().len() <= self.counted(),
    {
        self.0.size_hint()
    }

    /// Consumes the iterator and returns the last entry that was still to
    /// come.
    pub fn last(self) -> (item: Option<(K, V)>)
        requires
            self.wf(),
        ensures
            item == (if self.remaining().len() == 0 {
                None
            } else {
                Some(self.remaining().last())
            }),
    {
        let mut it = self;
        it.0.next_back()
    }
}

/// An iterator over the map's entries whose keys lie in a given range, with
/// immutable references to the values.
///
/// The iterator yields the entries in ascending order according to the
/// map's comparator.
#[derive(Clone)]
pub struct Range<'a, K, V>(crate::node::iter::Range<MarkedNode<'a, K, V>>);

impl<'a, K, V> Range<'a, K, V> {
    /// The entries still to come, in ascending order.
    pub closed spec fn remaining(&self) -> Seq<(&'a K, &'a V)> {
        self.0.remaining()
    }

    /// The number of nodes that the iterator has on its list.
    pub closed spec fn listed(&self) -> nat {
        self.0.listed()
    }

    /// The count that the iterator keeps: that of the map, less one for
    /// each entry that came out.
    pub closed spec fn counted(&self) -> usize {
        self.0.counted()
    }

    /// The count of the iterator is no less than the number of entries
    /// still to come.
    pub closed spec fn wf(&self) -> bool {
        self.0.wf()
    }

    /// The next entry in ascending order.
    pub fn next(&mut self) -> (item: Option<(&'a K, &'a V)>)
        requires
            old(self).wf(),
        ensures
            final(self).wf(),
            takes_first(old(self).remaining(), item, final(self).remaining()),
    {
        self.0.next()
    }

    /// The next entry in descending order.
    pub fn next_back(&mut self) -> (item: Option<(&'a K, &'a V)>)
        requires
            old(self).wf(),
        ensures
            final(self).wf(),
            takes_last(old(self).remaining(), item, final(self).remaining()),
    {
        self.0.next_back()
    }

    /// A lower and an upper limit of the number of entries still to come:
    /// the number of nodes that the iterator has on its list, and its count.
    pub fn size_hint(&self) -> (hint: (usize, Option<usize>))
        requires
            self.wf(),
        ensures
            hint.0 == self.listed(),
            hint.1 == Some(self.counted()),
            self.listed() <= self.remaining().len() <= self.counted(),
    {
        self.0.size_hint()
    }

    /// Consumes the iterator and returns the last entry that was still to
    /// come.
    pub fn last(self) -> (item: Option<(&'a K, &'a V)>)
        requires
            self.wf(),
        ensures
            item == (if self.remaining().len() == 0 {
                None
            } else {
                Some(self.remaining().last())
            }),
    {
        let mut it = self;
        it.0.next_back()
    }
}

/// An iterator that consumes the map.
///
/// The iterator yields the entries in ascending order according to the
/// map's comparator.
#[derive(Clone)]
pub struct IntoIter<K, V>(crate::node::iter::Iter<Box<Node<K, V>>>);

impl<K, V> IntoIter<K, V> {
    /// The entries still to come, in ascending order.
    pub closed spec fn remaining(&self) -> Seq<(K, V)> {
        self.0.remaining()
    }

    /// The iterator counts exactly the entries still to come.
    pub closed spec fn wf(&self) -> bool {
        self.0.counted() == self.0.remaining().len()
    }

    /// The next entry in ascending order.
    pub fn next(&mut self) -> (item: Option<(K, V)>)
        requires
            old(self).wf(),
        ensures
            final(self).wf(),
            takes_first(old(self).remaining(), item, final(self).remaining()),
    {
        self.0.next()
    }

    /// The next entry in descending order.
    pub fn next_back(&mut self) -> (item: Option<(K, V)>)
        requires
            old(self).wf(),
        ensures
            final(self).wf(),
            takes_last(old(self).remaining(), item, final(self).remaining()),
    {
        self.0.next_back()
    }

    /// The number of entries still to come.
    pub fn len(&self) -> (n: usize)
        requires
            self.wf(),
        ensures
            n == self.remaining().len(),
    {
        self.0.len()
    }

    /// The number of entries still to come, as its own lower and upper limit.
    pub fn size_hint(&self) -> (hint: (usize, Option<usize>))
        requires
            self.wf(),
        ensures
            hint.0 == self.remaining().len(),
            hint.1 == Some(hint.0),
    {
        (self.0.len(), Some(self.0.len()))
    }

    /// Consumes the iterator and returns the number of entries that were
    /// still to come.
    pub fn count(self) -> (n: usize)
        requires
            self.wf(),
        ensures
            n == self.remaining().len(),
    {
        self.0.len()
    }

    /// Consumes the iterator and returns the last entry that was still to
    /// come.
    pub fn last(self) -> (item: Option<(K, V)>)
        requires
            self.wf(),
        ensures
            item == (if self.remaining().len() == 0 {
                None
            } else {
                Some(self.remaining().last())
            }),
    {
        let mut it = self;
        it.0.next_back()
    }
}

/// An iterator over the map's entries with immutable references to the
/// values.
///
/// The iterator yields the entries in ascending order according to the
/// map's comparator.
#[derive(Clone)]
pub struct Iter<'a, K, V>(crate::node::iter::Iter<MarkedNode<'a, K, V>>);

impl<'a, K, V> Iter<'a, K, V> {
    /// The entries still to come, in ascending order.
    pub closed spec fn remaining(&self) -> Seq<(&'a K, &'a V)> {
        self.0.remaining()
    }

    /// The iterator counts exactly the entries still to come.
    pub closed spec fn wf(&self) -> bool {
        self.0.counted() == self.0.remaining().len()
    }

    /// The next entry in ascending order.
    pub fn next(&mut self) -> (item: Option<(&'a K, &'a V)>)
        requires
            old(self).wf(),
        ensures
            final(self).wf(),
            takes_first(old(self).remaining(), item, final(self).remaining()),
    {
        self.0.next()
    }

    /// The next entry in descending order.
    pub fn next_back(&mut self) -> (item: Option<(&'a K, &'a V)>)
        requires
            old(self).wf(),
        ensures
            final(self).wf(),
            takes_last(old(self).remaining(), item, final(self).remaining()),
    {
        self.0.next_back()
    }

    /// The number of entries still to come.
    pub fn len(&self) -> (n: usize)
        requires
            self.wf(),
        ensures
            n == self.remaining().len(),
    {
        self.0.len()
    }

    /// The number of entries still to come, as its own lower and upper limit.
    pub fn size_hint(&self) -> (hint: (usize, Option<usize>))
        requires
            self.wf(),
        ensures
            hint.0 == self.remaining().len(),
            hint.1 == Some(hint.0),
    {
        (self.0.len(), Some(self.0.len()))
    }

    /// Consumes the iterator and returns the number of entries that were
    /// still to come.
    pub fn count(self) -> (n: usize)
        requires
            self.wf(),
        ensures
            n == self.remaining().len(),
    {
        self.0.len()
    }

    /// Consumes the iterator and returns the last entry that was still to
    /// come.
    pub fn last(self) -> (item: Option<(&'a K, &'a V)>)
        requires
            self.wf(),
        ensures
            item == (if self.remaining().len() == 0 {
                None
            } else {
                Some(self.remaining().last())
            }),
    {
        let mut it = self;
        it.0.next_back()
    }
}

impl<K, V, C: Comparator<K>> TreeMap<K, V, C> {
    /// Returns an iterator over the map's entries with mutable references to
    /// the values. The iterator yields the entries in ascending order
    /// according to the map's comparator. What the map holds in the end is,
    /// under each key, what the reference to its value holds in the end.
    pub fn iter_mut(&mut self) -> (it: IterMut<'_, K, V>)
        requires
            old(self).wf(),
        ensures
            it.wf(),
            it.remaining().len() == old(self)@.len(),
            forall|i: int|
                0 <= i < old(self)@.len() ==> (
                    *(#[trigger] it.remaining()[i]).0,
                    *it.remaining()[i].1,
                ) == old(self)@[i],
            final(self).wf(),
            final(self).comparator() == old(self).comparator(),
            same_form(old(self).tree(), final(self).tree()),
            final(self)@.len() == old(self)@.len(),
            forall|i: int|
                0 <= i < old(self)@.len() ==> #[trigger] final(self)@[i] == (
                    old(self)@[i].0,
                    *final(it.remaining()[i].1),
                ),
    {
        let ghost s = self@;
        proof {
            lemma_entries_shape(self.root);
            assert forall|t: Seq<(K, V)>|
                t.len() == s.len() && (forall|i: int|
                    0 <= i < s.len() ==> (#[trigger] s[i]).0 == t[i].0) implies #[trigger] sorted(
                    &self.order,
                    t,
                ) by {
                lemma_same_keys_sorted(&self.order, s, t);
            }
        }
        let items = borrow_entries(&mut self.root);
        let back = items.len();
        let it = IterMut { items, front: 0, back };
        proof {
            assert forall|i: int| 0 <= i < s.len() implies (
                *(#[trigger] it.remaining()[i]).0,
                *it.remaining()[i].1,
            ) == s[i] by {
                assert(it.remaining()[i] == it.items@[i].unwrap());
            }
        }
        it
    }
}

impl<K, V, C: Comparator<K>> TreeMap<K, V, C> {
    /// How many entries of the map lie below the lower bound `min`.
    pub open spec fn low<Min>(&self, min: Bound<&Min>) -> int where C: Comparator<Min, K> {
        lower_bound(self.comparator(), self@, min)
    }

    /// How many entries of the map lie within the upper bound `max`.
    pub open spec fn high<Max>(&self, max: Bound<&Max>) -> int where C: Comparator<Max, K> {
        upper_bound(self.comparator(), self@, max)
    }

    /// Returns an iterator over the map's entries whose keys lie in the
    /// given range, with mutable references to the values, in ascending
    /// order according to the map's comparator. What the map holds in the
    /// end is, under each key in the range, what the reference to its value
    /// holds in the end, and outside the range what it held.
    pub fn range_mut<Min, Max>(&mut self, min: Bound<&Min>, max: Bound<&Max>) -> (range: RangeMut<
        '_,
        K,
        V,
    >) where C: Comparator<Min, K> + Comparator<Max, K>
        requires
            old(self).wf(),
            agrees::<Min, K, C>(old(self).comparator()),
            agrees::<Max, K, C>(old(self).comparator()),
        ensures
            range.wf(),
            range.remaining().len() == range_of(old(self).comparator(), old(self)@, min, max).len(),
            forall|i: int|
                0 <= i < range.remaining().len() ==> (
                    *(#[trigger] range.remaining()[i]).0,
                    *range.remaining()[i].1,
                ) == range_of(old(self).comparator(), old(self)@, min, max)[i],
            final(self).wf(),
            final(self).comparator() == old(self).comparator(),
            same_form(old(self).tree(), final(self).tree()),
            final(self)@.len() == old(self)@.len(),
            forall|j: int|
                0 <= j < old(self)@.len() ==> #[trigger] final(self)@[j] == (if old(self).low(min)
                    <= j < old(self).high(max) {
                    (old(self)@[j].0, *final(range.remaining()[j - old(self).low(min)].1))
                } else {
                    old(self)@[j]
                }),
    {
        let ghost s = self@;
        proof {
            lemma_entries_shape(self.root);
            assert forall|t: Seq<(K, V)>|
                t.len() == s.len() && (forall|i: int|
                    0 <= i < s.len() ==> (#[trigger] s[i]).0 == t[i].0) implies #[trigger] sorted(
                    &self.order,
                    t,
                ) by {
                lemma_same_keys_sorted(&self.order, s, t);
            }
            lemma_bound_keys(&self.order, s, s, min);
            lemma_bound_keys(&self.order, s, s, max);
        }
        let mut items = borrow_entries(&mut self.root);
        let ghost all = items@;
        let front = match min {
            Bound::Unbounded => 0,
            Bound::Included(k) => trim_low(&mut items, &self.order, k, true, Ghost(s)),
            Bound::Excluded(k) => trim_low(&mut items, &self.order, k, false, Ghost(s)),
        };
        let ghost kept = items@;
        let back = match max {
            Bound::Unbounded => items.len(),
            Bound::Included(k) => trim_high(&mut items, &self.order, k, true, Ghost(s), front),
            Bound::Excluded(k) => trim_high(&mut items, &self.order, k, false, Ghost(s), front),
        };
        let range = RangeMut(IterMut { items, front, back });
        proof {
            let w = range_of(&self.order, s, min, max);
            assert(range.remaining().len() == w.len());
            assert forall|i: int| 0 <= i < range.remaining().len() implies (
                *(#[trigger] range.remaining()[i]).0,
                *range.remaining()[i].1,
            ) == w[i] by {
                assert(range.remaining()[i] == range.0.items@[front + i].unwrap());
                assert(range.0.items@[front + i] == kept[front + i]);
                assert(kept[front + i] == all[front + i]);
            }
            assert forall|j: int| front <= j < back implies range.remaining()[j - front]
                == #[trigger] all[j].unwrap() by {
                assert(range.remaining()[j - front] == range.0.items@[front + (j - front)].unwrap());
                assert(range.0.items@[j] == kept[j]);
                assert(kept[j] == all[j]);
            }
            assert forall|j: int| 0 <= j < s.len() && !(front <= j < back) implies *final(all[j].unwrap().1)
                == *(#[trigger] all[j]).unwrap().1 by {
                if j >= back {
                    assert(kept[j] == all[j]);
                }
            }
            let lo = lower_bound(&self.order, s, min);
            let hi = upper_bound(&self.order, s, max);
            assert(lo == front);
            assert(back == if hi >= lo { hi } else { lo });
            assert forall|j: int| 0 <= j < s.len() implies (
                *(#[trigger] all[j]).unwrap().0,
                *final(all[j].unwrap().1),
            ) == (if lo <= j < hi {
                (s[j].0, *final(range.remaining()[j - lo].1))
            } else {
                s[j]
            }) by {
                if front <= j < back {
                    assert(range.remaining()[j - front] == all[j].unwrap());
                }
            }
        }
        range
    }
}

/// A bound is placed among the keys alone as it is among the entries, and
/// cuts both at the same index.
proof fn lemma_bound_keys<Q, K, V, W, C: Comparator<Q, K> + Comparator<K>>(
    c: &C,
    s: Seq<(K, V)>,
    ks: Seq<(K, W)>,
    end: Bound<&Q>,
)
    requires
        agrees::<Q, K, C>(c),
        sorted(c, s),
        s.len() == ks.len(),
        forall|i: int| 0 <= i < s.len() ==> (#[trigger] s[i]).0 == ks[i].0,
    ensures
        cut_at(c, s, end),
        cut_at(c, ks, end),
        lower_bound(c, ks, end) == lower_bound(c, s, end),
        upper_bound(c, ks, end) == upper_bound(c, s, end),
        0 <= lower_bound(c, s, end) <= s.len(),
        0 <= upper_bound(c, s, end) <= s.len(),
{
    match end {
        Bound::Unbounded => {},
        Bound::Included(q) => {
            lemma_cut(c, s, *q);
            lemma_same_keys(c, s, ks, *q);
            lemma_rank_sorted(c, s, *q);
        },
        Bound::Excluded(q) => {
            lemma_cut(c, s, *q);
            lemma_same_keys(c, s, ks, *q);
            lemma_rank_sorted(c, s, *q);
        },
    }
}

/// Gives up, from the low end of `items`, every borrow whose key lies below
/// a lower bound at `bound`, and returns how many these are.
fn trim_low<'a, Q, K, V, C: Comparator<Q, K>>(
    items: &mut Vec<Option<(&'a K, &'a mut V)>>,
    order: &C,
    bound: &Q,
    inclusive: bool,
    s: Ghost<Seq<(K, V)>>,
) -> (front: usize)
    requires
        cut(order, s@, *bound),
        old(items)@.len() == s@.len(),
        forall|i: int|
            0 <= i < s@.len() ==> (#[trigger] old(items)@[i]) is Some && *old(items)@[i].unwrap().0
                == s@[i].0,
    ensures
        front == lower_rank(order, s@, *bound, inclusive),
        0 <= front <= s@.len(),
        final(items)@.len() == s@.len(),
        forall|i: int| front <= i < s@.len() ==> #[trigger] final(items)@[i] == old(items)@[i],
        forall|i: int|
            0 <= i < front ==> *final(old(items)@[i].unwrap().1) == *(#[trigger] old(
                items,
            )@[i]).unwrap().1,
{
    let mut front: usize = 0;
    let n = items.len();
    loop
        invariant
            cut(order, s@, *bound),
            n == s@.len(),
            items@.len() == n,
            0 <= front <= n,
            forall|i: int| front <= i < n ==> #[trigger] items@[i] == old(items)@[i],
            forall|i: int|
                0 <= i < n ==> (#[trigger] old(items)@[i]) is Some && *old(items)@[i].unwrap().0
                    == s@[i].0,
            forall|i: int|
                0 <= i < front ==> *final(old(items)@[i].unwrap().1) == *(#[trigger] old(
                    items,
                )@[i]).unwrap().1,
            forall|i: int|
                0 <= i < front ==> order.gt(*bound, (#[trigger] s@[i]).0) || (!inclusive
                    && !order.lt(*bound, s@[i].0)),
        decreases n - front,
    {
        if front == n {
            proof {
                lemma_lower_rank(order, s@, *bound, inclusive, front + 0);
            }
            return front;
        }
        let below = match &items[front] {
            Some(kv) => match order.compare(bound, kv.0) {
                Ordering::Less => false,
                Ordering::Equal => !inclusive,
                Ordering::Greater => true,
            },
            None => false,
        };
        proof {
            assert(old(items)@[front + 0] is Some);
            assert(!(order.lt(*bound, s@[front + 0].0) && order.gt(*bound, s@[front + 0].0)));
        }
        if !below {
            proof {
                lemma_lower_rank(order, s@, *bound, inclusive, front + 0);
            }
            return front;
        }
        let given_up = items[front].take();
        front += 1;
    }
}

/// Gives up, from the high end of `items` down to number `front`, every
/// borrow whose key lies beyond an upper bound at `bound`, and returns the
/// number of the first that was given up.
fn trim_high<'a, Q, K, V, C: Comparator<Q, K>>(
    items: &mut Vec<Option<(&'a K, &'a mut V)>>,
    order: &C,
    bound: &Q,
    inclusive: bool,
    s: Ghost<Seq<(K, V)>>,
    front: usize,
) -> (back: usize)
    requires
        cut(order, s@, *bound),
        old(items)@.len() == s@.len(),
        front <= s@.len(),
        forall|i: int|
            front <= i < s@.len() ==> (#[trigger] old(items)@[i]) is Some && *old(
                items,
            )@[i].unwrap().0 == s@[i].0,
    ensures
        back == if upper_rank(order, s@, *bound, inclusive) >= front {
            upper_rank(order, s@, *bound, inclusive)
        } else {
            front + 0
        },
        front <= back <= s@.len(),
        final(items)@.len() == s@.len(),
        forall|i: int| 0 <= i < back ==> #[trigger] final(items)@[i] == old(items)@[i],
        forall|i: int|
            back <= i < s@.len() ==> *final(old(items)@[i].unwrap().1) == *(#[trigger] old(
                items,
            )@[i]).unwrap().1,
{
    let n = items.len();
    let mut back: usize = n;
    loop
        invariant
            cut(order, s@, *bound),
            n == s@.len(),
            items@.len() == n,
            front <= back <= n,
            forall|i: int| 0 <= i < back ==> #[trigger] items@[i] == old(items)@[i],
            forall|i: int|
                front <= i < n ==> (#[trigger] old(items)@[i]) is Some && *old(
                    items,
                )@[i].unwrap().0 == s@[i].0,
            forall|i: int|
                back <= i < n ==> *final(old(items)@[i].unwrap().1) == *(#[trigger] old(
                    items,
                )@[i]).unwrap().1,
            forall|i: int|
                back <= i < n ==> order.lt(*bound, (#[trigger] s@[i]).0) || (!inclusive
                    && !order.gt(*bound, s@[i].0)),
        decreases back,
    {
        if back == front {
            proof {
                lemma_rank_sorted(order, s@, *bound);
                if front < n {
                    assert(order.lt(*bound, s@[front + 0].0) || (!inclusive && !order.gt(
                        *bound,
                        s@[front + 0].0,
                    )));
                    assert(!(order.lt(*bound, s@[front + 0].0) && order.gt(
                        *bound,
                        s@[front + 0].0,
                    )));
                }
            }
            return back;
        }
        let beyond = match &items[back - 1] {
            Some(kv) => match order.compare(bound, kv.0) {
                Ordering::Less => true,
                Ordering::Equal => !inclusive,
                Ordering::Greater => false,
            },
            None => false,
        };
        proof {
            assert(old(items)@[back - 1] is Some);
            assert(!(order.lt(*bound, s@[back - 1].0) && order.gt(*bound, s@[back - 1].0)));
        }
        if !beyond {
            proof {
                lemma_upper_rank(order, s@, *bound, inclusive, back + 0);
                lemma_rank_sorted(order, s@, *bound);
            }
            return back;
        }
        back -= 1;
        let given_up = items[back].take();
    }
}

/// An iterator over the map's entries with mutable references to the
/// values.
///
/// The iterator yields the entries in ascending order according to the
/// map's comparator. It borrows every value when it is made, and hands the
/// borrows out one by one.
///
/// The other iterators walk the tree step by step from a work-list of
/// nodes. This one does not, for the sake of what it can promise. A borrow
/// handed out decides what the map will hold, so each step has to say how
/// the final values of the borrows still held make up the final tree. Held
/// in a flat list, each borrow is the borrow of one value, and that is said
/// in one line: entry by entry, the map ends with what the borrow ends
/// with. Held as nodes taken apart on a work-list, the borrows of whole
/// subtrees stand between the caller and the map, and every step would
/// have to spell out, node by node, what each of them will hold in the
/// end; a caller could not carry that from step to step.
pub struct IterMut<'a, K, V> {
    items: Vec<Option<(&'a K, &'a mut V)>>,
    front: usize,
    back: usize,
}

impl<'a, K, V> IterMut<'a, K, V> {
    /// The entries still to come, in ascending order.
    pub closed spec fn remaining(self) -> Seq<(&'a K, &'a mut V)> {
        Seq::new(
            (self.back - self.front) as nat,
            |i: int| self.items@[self.front + i].unwrap(),
        )
    }

    /// The iterator holds a borrow for each entry still to come.
    pub closed spec fn wf(self) -> bool {
        &&& self.front <= self.back <= self.items@.len()
        &&& forall|i: int| self.front <= i < self.back ==> (#[trigger] self.items@[i]) is Some
    }

    /// The next entry in ascending order.
    pub fn next(&mut self) -> (item: Option<(&'a K, &'a mut V)>)
        requires
            old(self).wf(),
        ensures
            final(self).wf(),
            takes_first(old(self).remaining(), item, final(self).remaining()),
    {
        if self.front < self.back {
            let item = self.items[self.front].take();
            self.front += 1;
            proof {
                assert(self.remaining() =~= old(self).remaining().skip(1));
            }
            item
        } else {
            None
        }
    }

    /// The next entry in descending order.
    pub fn next_back(&mut self) -> (item: Option<(&'a K, &'a mut V)>)
        requires
            old(self).wf(),
        ensures
            final(self).wf(),
            takes_last(old(self).remaining(), item, final(self).remaining()),
    {
        if self.front < self.back {
            self.back -= 1;
            let item = self.items[self.back].take();
            proof {
                assert(self.remaining() =~= old(self).remaining().drop_last());
            }
            item
        } else {
            None
        }
    }

    /// The number of entries still to come.
    pub fn len(&self) -> (n: usize)
        requires
            self.wf(),
        ensures
            n == self.remaining().len(),
    {
        self.back - self.front
    }

    /// The number of entries still to come, as its own lower and upper limit.
    pub fn size_hint(&self) -> (hint: (usize, Option<usize>))
        requires
            self.wf(),
        ensures
            hint.0 == self.remaining().len(),
            hint.1 == Some(hint.0),
    {
        (self.back - self.front, Some(self.back - self.front))
    }

    /// Consumes the iterator and returns the number of entries that were
    /// still to come.
    pub fn count(self) -> (n: usize)
        requires
            self.wf(),
        ensures
            n == self.remaining().len(),
            forall|i: int|
                0 <= i < self.remaining().len() ==> *final(self.remaining()[i].1) == *(
                #[trigger] self.remaining()[i]).1,
    {
        proof {
            self.lemma_resolved();
        }
        self.back - self.front
    }

    /// Consumes the iterator and returns the last entry that was still to
    /// come. The values of the others stay as they are.
    pub fn last(self) -> (item: Option<(&'a K, &'a mut V)>)
        requires
            self.wf(),
        ensures
            item == (if self.remaining().len() == 0 {
                None
            } else {
                Some(self.remaining().last())
            }),
            forall|i: int|
                0 <= i < self.remaining().len() - 1 ==> *final(self.remaining()[i].1) == *(
                #[trigger] self.remaining()[i]).1,
    {
        let mut it = self;
        let item = it.next_back();
        proof {
            it.lemma_resolved();
            assert forall|i: int| 0 <= i < self.remaining().len() - 1 implies *final(self.remaining()[i].1)
                == *(#[trigger] self.remaining()[i]).1 by {
                assert(it.remaining()[i] == self.remaining()[i]);
            }
        }
        item
    }

    /// Once the iterator is no longer used, each value not handed out stays
    /// as it is.
    pub proof fn lemma_resolved(self)
        requires
            has_resolved(self),
            self.wf(),
        ensures
            forall|i: int|
                0 <= i < self.remaining().len() ==> *final(self.remaining()[i].1) == *(
                #[trigger] self.remaining()[i]).1,
    {
        assert forall|i: int| 0 <= i < self.remaining().len() implies *final(self.remaining()[i].1)
            == *(#[trigger] self.remaining()[i]).1 by {
            let slot = self.items@[self.front + i];
            assert(has_resolved(self.items));
            assert(has_resolved(slot));
            assert(has_resolved(slot.unwrap()));
            assert(has_resolved(slot.unwrap().1));
        }
    }
}

/// An iterator over the map's entries whose keys lie in a given range, with
/// mutable references to the values.
///
/// The iterator yields the entries in ascending order according to the
/// map's comparator. Like `IterMut`, and for the same reason, it holds its
/// borrows in a flat list from the start: the map borrows every value and
/// gives up at once, unchanged, those whose keys lie outside the range.
pub struct RangeMut<'a, K, V>(IterMut<'a, K, V>);

impl<'a, K, V> RangeMut<'a, K, V> {
    /// The entries still to come, in ascending order.
    pub closed spec fn remaining(self) -> Seq<(&'a K, &'a mut V)> {
        self.0.remaining()
    }

    /// The iterator holds a borrow for each entry still to come.
    pub closed spec fn wf(self) -> bool {
        self.0.wf()
    }

    /// The next entry in ascending order.
    pub fn next(&mut self) -> (item: Option<(&'a K, &'a mut V)>)
        requires
            old(self).wf(),
        ensures
            final(self).wf(),
            takes_first(old(self).remaining(), item, final(self).remaining()),
    {
        self.0.next()
    }

    /// The next entry in descending order.
    pub fn next_back(&mut self) -> (item: Option<(&'a K, &'a mut V)>)
        requires
            old(self).wf(),
        ensures
            final(self).wf(),
            takes_last(old(self).remaining(), item, final(self).remaining()),
    {
        self.0.next_back()
    }

    /// The number of entries still to come, as its own lower and upper limit.
    pub fn size_hint(&self) -> (hint: (usize, Option<usize>))
        requires
            self.wf(),
        ensures
            hint.0 == self.remaining().len(),
            hint.1 == Some(hint.0),
    {
        self.0.size_hint()
    }

    /// Consumes the iterator and returns the last entry that was still to
    /// come. The values of the others stay as they are.
    pub fn last(self) -> (item: Option<(&'a K, &'a mut V)>)
        requires
            self.wf(),
        ensures
            item == (if self.remaining().len() == 0 {
                None
            } else {
                Some(self.remaining().last())
            }),
            forall|i: int|
                0 <= i < self.remaining().len() - 1 ==> *final(self.remaining()[i].1) == *(
                #[trigger] self.remaining()[i]).1,
    {
        self.0.last()
    }

    /// Once the iterator is no longer used, each value not handed out stays
    /// as it is.
    pub proof fn lemma_resolved(self)
        requires
            has_resolved(self),
            self.wf(),
        ensures
            forall|i: int|
                0 <= i < self.remaining().len() ==> *final(self.remaining()[i].1) == *(
                #[trigger] self.remaining()[i]).1,
    {
        self.0.lemma_resolved();
    }
}

/// An entry in the map.
#[verifier::reject_recursive_types(K)]
pub enum Entry<'a, K, V> {
    /// An occupied entry.
    Occupied(OccupiedEntry<'a, K, V>),
    /// A vacant entry.
    Vacant(VacantEntry<'a, K, V>),
}

impl<'a, K, V> Entry<'a, K, V> {
    /// The entry, of whichever kind, is in order.
    pub open spec fn wf(self) -> bool {
        match self {
            Entry::Occupied(e) => e.wf(),
            Entry::Vacant(e) => e.wf(),
        }
    }

    /// Returns the entry's value, inserting the given default if the entry
    /// is vacant.
    pub fn or_insert(self, default: V) -> (value: &'a mut V)
        requires
            self.wf(),
        ensures
            match self {
                Entry::Occupied(e) => {
                    &&& *value == e.all()[e.index()].1
                    &&& e.outcome(*final(e.slot_ref())) == e.all().update(
                        e.index(),
                        (e.all()[e.index()].0, *final(value)),
                    )
                    &&& e.admits(*final(e.slot_ref()), *final(e.len_ref()))
                    &&& keeps_places(
                        e.grown(*e.slot_ref()),
                        e.grown(*final(e.slot_ref())),
                        (e.all()[e.index()].0, *final(value)),
                    )
                },
                Entry::Vacant(e) => {
                    &&& *value == default
                    &&& e.outcome(*final(e.slot_ref())) == e.all().insert(
                        e.index(),
                        (e.pending_key(), *final(value)),
                    )
                    &&& e.admits(*final(e.slot_ref()), *final(e.len_ref()))
                    &&& hangs_leaf(
                        e.tree(),
                        e.grown(*final(e.slot_ref())),
                        (e.pending_key(), *final(value)),
                    )
                    &&& keeps_places(
                        e.tree(),
                        e.grown(*final(e.slot_ref())),
                        (e.pending_key(), *final(value)),
                    )
                },
            },
    {
        match self {
            Entry::Occupied(e) => e.into_mut(),
            Entry::Vacant(e) => e.insert(default),
        }
    }

    /// Returns the entry's value, inserting the given function's result if
    /// the entry is vacant.
    pub fn or_insert_with<F: FnOnce() -> V>(self, default: F) -> (value: &'a mut V)
        requires
            self.wf(),
            self is Vacant ==> default.requires(()),
        ensures
            match self {
                Entry::Occupied(e) => {
                    &&& *value == e.all()[e.index()].1
                    &&& e.outcome(*final(e.slot_ref())) == e.all().update(
                        e.index(),
                        (e.all()[e.index()].0, *final(value)),
                    )
                    &&& e.admits(*final(e.slot_ref()), *final(e.len_ref()))
                    &&& keeps_places(
                        e.grown(*e.slot_ref()),
                        e.grown(*final(e.slot_ref())),
                        (e.all()[e.index()].0, *final(value)),
                    )
                },
                Entry::Vacant(e) => {
                    &&& default.ensures((), *value)
                    &&& e.outcome(*final(e.slot_ref())) == e.all().insert(
                        e.index(),
                        (e.pending_key(), *final(value)),
                    )
                    &&& e.admits(*final(e.slot_ref()), *final(e.len_ref()))
                    &&& hangs_leaf(
                        e.tree(),
                        e.grown(*final(e.slot_ref())),
                        (e.pending_key(), *final(value)),
                    )
                    &&& keeps_places(
                        e.tree(),
                        e.grown(*final(e.slot_ref())),
                        (e.pending_key(), *final(value)),
                    )
                },
            },
    {
        match self {
            Entry::Occupied(e) => e.into_mut(),
            Entry::Vacant(e) => e.insert(default()),
        }
    }
}

/// Find an entry at a specific location in the map.
pub struct Find<T> {
    inner: T,
}

impl<T> Find<T> {
    /// The map, or the reference to it, that is searched.
    pub closed spec fn target(self) -> T {
        self.inner
    }
}

impl<'a, K, V, C: Comparator<K>> Find<&'a TreeMap<K, V, C>> {
    /// Returns a reference to the map's maximum key and a reference to its
    /// associated value, or `None` if the map is empty.
    pub fn max(self) -> (found: Option<(&'a K, &'a V)>)
        ensures
            match found {
                Some((k, v)) => extreme(self.target()@, false) == Some((*k, *v)),
                None => extreme(self.target()@, false) is None,
            },
    {
        let map = self.inner;
        let path = extreme_path::<K, V, Right>(&map.root);
        proof {
            lemma_entries_shape(map.root);
            lemma_entries_shape(descend(map.root, path@));
        }
        if map.root.is_none() {
            None
        } else {
            Some(map.value_ref_at(&path))
        }
    }

    /// Returns a reference to the map's minimum key and a reference to its
    /// associated value, or `None` if the map is empty.
    pub fn min(self) -> (found: Option<(&'a K, &'a V)>)
        ensures
            match found {
                Some((k, v)) => extreme(self.target()@, true) == Some((*k, *v)),
                None => extreme(self.target()@, true) is None,
            },
    {
        let map = self.inner;
        let path = extreme_path::<K, V, Left>(&map.root);
        proof {
            lemma_entries_shape(map.root);
            lemma_entries_shape(descend(map.root, path@));
        }
        if map.root.is_none() {
            None
        } else {
            Some(map.value_ref_at(&path))
        }
    }
}

impl<'a, K, V, C: Comparator<K>> Find<&'a mut TreeMap<K, V, C>> {
    /// Returns a reference to the map's maximum key and a mutable reference
    /// to its associated value, or `None` if the map is empty.
    pub fn max(self) -> (found: Option<(&'a K, &'a mut V)>)
        requires
            self.target().wf(),
        ensures
            final(self.target()).wf(),
            final(self.target()).comparator() == self.target().comparator(),
            match found {
                Some((k, v)) => {
                    &&& extreme(self.target()@, false) == Some((*k, *v))
                    &&& final(self.target())@ == self.target()@.update(
                        self.target()@.len() - 1,
                        (*k, *final(v)),
                    )
                    &&& keeps_places(
                        self.target().tree(),
                        final(self.target()).tree(),
                        (*k, *final(v)),
                    )
                },
                None => {
                    &&& self.target()@.len() == 0
                    &&& final(self.target())@ == self.target()@
                    &&& final(self.target()).tree() == self.target().tree()
                },
            },
    {
        let map = self.inner;
        let path = extreme_path::<K, V, Right>(&map.root);
        proof {
            lemma_entries_shape(map.root);
            lemma_entries_shape(descend(map.root, path@));
        }
        if map.root.is_none() {
            None
        } else {
            Some(map.value_mut_at(&path))
        }
    }

    /// Returns a reference to the map's minimum key and a mutable reference
    /// to its associated value, or `None` if the map is empty.
    pub fn min(self) -> (found: Option<(&'a K, &'a mut V)>)
        requires
            self.target().wf(),
        ensures
            final(self.target()).wf(),
            final(self.target()).comparator() == self.target().comparator(),
            match found {
                Some((k, v)) => {
                    &&& extreme(self.target()@, true) == Some((*k, *v))
                    &&& final(self.target())@ == self.target()@.update(0, (*k, *final(v)))
                    &&& keeps_places(
                        self.target().tree(),
                        final(self.target()).tree(),
                        (*k, *final(v)),
                    )
                },
                None => {
                    &&& self.target()@.len() == 0
                    &&& final(self.target())@ == self.target()@
                    &&& final(self.target()).tree() == self.target().tree()
                },
            },
    {
        let map = self.inner;
        let path = extreme_path::<K, V, Left>(&map.root);
        proof {
            lemma_entries_shape(map.root);
            lemma_entries_shape(descend(map.root, path@));
        }
        if map.root.is_none() {
            None
        } else {
            Some(map.value_mut_at(&path))
        }
    }
}

} // verus!
