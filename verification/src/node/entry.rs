//! Entries: handles on one place of a tree, through which the entry there
//! can be read, changed, removed or, where there is none yet, created.

use super::{
    child, descend, entries, graft, hangs_leaf, is_leaf, keeps_places, lemma_entries_shape,
    lemma_graft_leaf, lemma_grown_entry, lemma_grown_out, reaches, remove_root, root_entry,
    root_index, spliced_out, takes_out, Link, LinkExt, Node,
};
use crate::model::{lemma_remove_sorted_by, lemma_update_sorted_by, sorted_by};
use vstd::prelude::*;

verus! {

/// An occupied entry: the place of a key that the tree holds.
///
/// The entry borrows the link that owns the node and the count of the tree
/// it belongs to. The entries of that tree before and after those of the
/// link are known to it, so that it can say what the tree will hold.
#[verifier::reject_recursive_types(K)]
pub struct OccupiedEntry<'a, K, V> {
    slot: &'a mut Link<K, V>,
    len: &'a mut usize,
    before: Ghost<Seq<(K, V)>>,
    after: Ghost<Seq<(K, V)>>,
    lt: Ghost<spec_fn(K, K) -> bool>,
    root: Ghost<Link<K, V>>,
    turns: Ghost<Seq<bool>>,
}

impl<'a, K, V> OccupiedEntry<'a, K, V> {
    /// The link that the entry borrows.
    pub closed spec fn slot_ref(self) -> &'a mut Link<K, V> {
        self.slot
    }

    /// The count that the entry borrows.
    pub closed spec fn len_ref(self) -> &'a mut usize {
        self.len
    }

    /// The whole tree, were `sub` to stand in the link.
    pub closed spec fn grown(self, sub: Link<K, V>) -> Link<K, V> {
        graft(self.root@, self.turns@, sub)
    }

    /// The entries of the whole tree, were `sub` to stand in the link.
    pub closed spec fn outcome(self, sub: Link<K, V>) -> Seq<(K, V)> {
        self.before@ + entries(sub) + self.after@
    }

    /// The tree stays sorted, and `n` counts its entries, were `sub` to
    /// stand in the link.
    pub open spec fn admits(self, sub: Link<K, V>, n: usize) -> bool {
        &&& sorted_by(self.order(), self.outcome(sub))
        &&& n == self.outcome(sub).len()
    }

    /// The strict order of the tree that the entry belongs to.
    pub closed spec fn order(self) -> spec_fn(K, K) -> bool {
        self.lt@
    }

    /// The entries of the whole tree as they are.
    pub open spec fn all(self) -> Seq<(K, V)> {
        self.outcome(*self.slot_ref())
    }

    /// Where the entry stands among the entries of the whole tree.
    pub closed spec fn index(self) -> int {
        self.before@.len() + root_index(*self.slot)
    }

    /// The entry is in order: it stands at a node, and the tree is sorted
    /// and counted as it is.
    pub closed spec fn wf(self) -> bool {
        &&& *self.slot is Some
        &&& self.admits(*self.slot, *self.len)
        &&& reaches(self.root@, self.turns@)
    }

    /// An entry in order stands inside the tree.
    pub proof fn lemma_index(self)
        requires
            self.wf(),
        ensures
            0 <= self.index() < self.all().len(),
            self.admits(*self.slot_ref(), *self.len_ref()),
            sorted_by(self.order(), self.all()),
    {
        lemma_entries_shape(*self.slot);
    }

    /// Once the entry is no longer used, what its link and its count hold
    /// is what they will hold.
    pub proof fn lemma_resolved(self)
        requires
            has_resolved(self),
            self.wf(),
        ensures
            *final(self.slot_ref()) == *self.slot_ref(),
            *final(self.len_ref()) == *self.len_ref(),
            self.admits(*final(self.slot_ref()), *final(self.len_ref())),
    {
    }

    /// Makes the entry for the node that `slot` owns, in a tree of `len`
    /// entries of which `before` come before those of `slot` and `after`
    /// after them.
    pub(crate) fn new(
        slot: &'a mut Link<K, V>,
        len: &'a mut usize,
        before: Ghost<Seq<(K, V)>>,
        after: Ghost<Seq<(K, V)>>,
        lt: Ghost<spec_fn(K, K) -> bool>,
        root: Ghost<Link<K, V>>,
        turns: Ghost<Seq<bool>>,
    ) -> (entry: Self)
        requires
            *old(slot) is Some,
            sorted_by(lt@, before@ + entries(*old(slot)) + after@),
            *old(len) == (before@ + entries(*old(slot)) + after@).len(),
            reaches(root@, turns@),
        ensures
            entry.wf(),
            forall|sub: Link<K, V>| #[trigger] entry.grown(sub) == graft(root@, turns@, sub),
            *entry.slot_ref() == *old(slot),
            *final(entry.slot_ref()) == *final(slot),
            *entry.len_ref() == *old(len),
            *final(entry.len_ref()) == *final(len),
            entry.order() == lt@,
            entry.index() == before@.len() + root_index(*old(slot)),
            forall|sub: Link<K, V>| #[trigger]
                entry.outcome(sub) == before@ + entries(sub) + after@,
    {
        OccupiedEntry { slot, len, before, after, lt, root, turns }
    }
}

impl<'a, K, V> OccupiedEntry<'a, K, V> {
    /// Returns a reference to the entry's key.
    pub fn key(&self) -> (k: &K)
        requires
            self.wf(),
        ensures
            *k == self.all()[self.index()].0,
    {
        proof {
            lemma_entries_shape(*self.slot);
        }
        match self.slot.key_value() {
            Some(kv) => kv.0,
            None => unreached(),
        }
    }

    /// Returns a reference to the entry's value.
    pub fn get(&self) -> (v: &V)
        requires
            self.wf(),
        ensures
            *v == self.all()[self.index()].1,
    {
        proof {
            lemma_entries_shape(*self.slot);
        }
        match self.slot.key_value() {
            Some(kv) => kv.1,
            None => unreached(),
        }
    }

    /// Converts the entry into a mutable reference to its value, which
    /// lives as long as the borrow of the tree.
    pub fn into_mut(self) -> (v: &'a mut V)
        requires
            self.wf(),
        ensures
            *v == self.all()[self.index()].1,
            self.outcome(*final(self.slot_ref())) == self.all().update(
                self.index(),
                (self.all()[self.index()].0, *final(v)),
            ),
            self.admits(*final(self.slot_ref()), *final(self.len_ref())),
            keeps_places(
                self.grown(*self.slot_ref()),
                self.grown(*final(self.slot_ref())),
                (self.all()[self.index()].0, *final(v)),
            ),
    {
        let OccupiedEntry { slot, len, before, after, lt, root, turns } = self;
        proof {
            let now = *slot;
            assert forall|then: Link<K, V>, e: (K, V)|
                root_entry(then) == Some(e) && child(then, false) == child(now, false) && child(
                    then,
                    true,
                ) == child(now, true) implies #[trigger] keeps_places(
                graft(root@, turns@, now),
                graft(root@, turns@, then),
                e,
            ) by {
                lemma_grown_entry(root@, turns@, now, then, e);
            }
            lemma_entries_shape(*slot);
            let sub = entries(*slot);
            let i = root_index(*slot);
            let s = before@ + sub + after@;
            assert forall|x: V|
                before@ + #[trigger] sub.update(i, (sub[i].0, x)) + after@ == s.update(
                    before@.len() + i,
                    (s[before@.len() + i].0, x),
                ) && sorted_by(lt@, before@ + sub.update(i, (sub[i].0, x)) + after@) by {
                assert(before@ + sub.update(i, (sub[i].0, x)) + after@ =~= s.update(
                    before@.len() + i,
                    (s[before@.len() + i].0, x),
                ));
                lemma_update_sorted_by(lt@, s, before@.len() + i, x);
            }
        }
        match slot.key_value_mut() {
            Some(kv) => kv.1,
            None => unreached(),
        }
    }

    /// Replaces the entry's value with the given one and returns the
    /// previous value.
    pub fn insert(&mut self, value: V) -> (prev: V)
        requires
            old(self).wf(),
        ensures
            final(self).wf(),
            prev == old(self).all()[old(self).index()].1,
            final(self).all() == old(self).all().update(
                old(self).index(),
                (old(self).all()[old(self).index()].0, value),
            ),
            final(self).index() == old(self).index(),
            final(self).order() == old(self).order(),
            forall|sub: Link<K, V>| #[trigger] final(self).outcome(sub) == old(self).outcome(sub),
            forall|sub: Link<K, V>| #[trigger] final(self).grown(sub) == old(self).grown(sub),
            *final(final(self).slot_ref()) == *final(old(self).slot_ref()),
            *final(final(self).len_ref()) == *final(old(self).len_ref()),
            keeps_places(
                old(self).grown(*old(self).slot_ref()),
                final(self).grown(*final(self).slot_ref()),
                (old(self).all()[old(self).index()].0, value),
            ),
    {
        let ghost now = *self.slot;
        proof {
            assert forall|then: Link<K, V>, e: (K, V)|
                root_entry(then) == Some(e) && child(then, false) == child(now, false) && child(
                    then,
                    true,
                ) == child(now, true) implies #[trigger] keeps_places(
                graft(self.root@, self.turns@, now),
                graft(self.root@, self.turns@, then),
                e,
            ) by {
                lemma_grown_entry(self.root@, self.turns@, now, then, e);
            }
            lemma_entries_shape(*self.slot);
            let sub = entries(*self.slot);
            let i = root_index(*self.slot);
            let s = self.before@ + sub + self.after@;
            assert(self.before@ + sub.update(i, (sub[i].0, value)) + self.after@ =~= s.update(
                self.before@.len() + i,
                (s[self.before@.len() + i].0, value),
            ));
            lemma_update_sorted_by(self.lt@, s, self.before@.len() + i, value);
        }
        let mut value = value;
        match self.slot.key_value_mut() {
            Some(kv) => {
                std::mem::swap(kv.1, &mut value);
            },
            None => {},
        }
        value
    }

    /// Takes the entry out of the tree and returns its key and value.
    pub fn remove(self) -> (kv: (K, V))
        requires
            self.wf(),
        ensures
            kv == self.all()[self.index()],
            self.outcome(*final(self.slot_ref())) == self.all().remove(self.index()),
            self.admits(*final(self.slot_ref()), *final(self.len_ref())),
            spliced_out(*self.slot_ref(), *final(self.slot_ref())),
            takes_out(self.grown(*self.slot_ref()), self.grown(*final(self.slot_ref())), kv),
    {
        let OccupiedEntry { slot, len, before, after, lt, root, turns } = self;
        proof {
            let now = *slot;
            assert forall|then: Link<K, V>, e: (K, V)|
                root_entry(now) == Some(e) && spliced_out(now, then) implies #[trigger] takes_out(
                graft(root@, turns@, now),
                graft(root@, turns@, then),
                e,
            ) by {
                lemma_grown_out(root@, turns@, now, then, e);
            }
            lemma_entries_shape(*slot);
            let sub = entries(*slot);
            let i = root_index(*slot);
            let s = before@ + sub + after@;
            assert(before@ + sub.remove(i) + after@ =~= s.remove(before@.len() + i));
            lemma_remove_sorted_by(lt@, s, before@.len() + i);
        }
        let kv = remove_root(slot);
        *len = *len - 1;
        kv
    }
}

/// A vacant entry: the place where a key that the tree does not hold would
/// be put.
#[verifier::reject_recursive_types(K)]
pub struct VacantEntry<'a, K, V> {
    slot: &'a mut Link<K, V>,
    len: &'a mut usize,
    key: K,
    before: Ghost<Seq<(K, V)>>,
    after: Ghost<Seq<(K, V)>>,
    lt: Ghost<spec_fn(K, K) -> bool>,
    root: Ghost<Link<K, V>>,
    turns: Ghost<Seq<bool>>,
}

impl<'a, K, V> VacantEntry<'a, K, V> {
    /// The link that the entry borrows.
    pub closed spec fn slot_ref(self) -> &'a mut Link<K, V> {
        self.slot
    }

    /// The count that the entry borrows.
    pub closed spec fn len_ref(self) -> &'a mut usize {
        self.len
    }

    /// The key that the entry was made for.
    pub closed spec fn pending_key(self) -> K {
        self.key
    }

    /// The tree that the entry belongs to, as it was when the entry was
    /// made.
    pub closed spec fn tree(self) -> Link<K, V> {
        self.root@
    }

    /// The whole tree, were `sub` to stand in the link.
    pub closed spec fn grown(self, sub: Link<K, V>) -> Link<K, V> {
        graft(self.root@, self.turns@, sub)
    }

    /// The entries of the whole tree, were `sub` to stand in the link.
    pub closed spec fn outcome(self, sub: Link<K, V>) -> Seq<(K, V)> {
        self.before@ + entries(sub) + self.after@
    }

    /// The tree stays sorted, and `n` counts its entries, were `sub` to
    /// stand in the link.
    pub open spec fn admits(self, sub: Link<K, V>, n: usize) -> bool {
        &&& sorted_by(self.order(), self.outcome(sub))
        &&& n == self.outcome(sub).len()
    }

    /// The strict order of the tree that the entry belongs to.
    pub closed spec fn order(self) -> spec_fn(K, K) -> bool {
        self.lt@
    }

    /// The entries of the whole tree as they are.
    pub open spec fn all(self) -> Seq<(K, V)> {
        self.outcome(*self.slot_ref())
    }

    /// Where the key would stand among the entries of the whole tree.
    pub closed spec fn index(self) -> int {
        self.before@.len() as int
    }

    /// The entry is in order: it stands at an empty link, the tree is sorted
    /// and counted as it is, has room for one entry more, and stays sorted
    /// with the key put in.
    pub closed spec fn wf(self) -> bool {
        &&& *self.slot is None
        &&& self.admits(*self.slot, *self.len)
        &&& *self.len < usize::MAX
        &&& forall|v: V| sorted_by(self.lt@, self.before@ + #[trigger] seq![(self.key, v)] + self.after@)
        &&& reaches(self.root@, self.turns@)
        &&& descend(self.root@, self.turns@) is None
    }

    /// An entry in order stands inside the tree or at its end.
    pub proof fn lemma_index(self)
        requires
            self.wf(),
        ensures
            0 <= self.index() <= self.all().len(),
            self.admits(*self.slot_ref(), *self.len_ref()),
            sorted_by(self.order(), self.all()),
    {
        lemma_entries_shape(*self.slot);
    }

    /// Once the entry is no longer used, what its link and its count hold
    /// is what they will hold.
    pub proof fn lemma_resolved(self)
        requires
            has_resolved(self),
            self.wf(),
        ensures
            *final(self.slot_ref()) == *self.slot_ref(),
            *final(self.len_ref()) == *self.len_ref(),
            self.admits(*final(self.slot_ref()), *final(self.len_ref())),
    {
    }

    /// Makes the entry for `key` at the empty link `slot`, in a tree of
    /// `len` entries of which `before` come before the link and `after`
    /// after it.
    pub(crate) fn new(
        slot: &'a mut Link<K, V>,
        len: &'a mut usize,
        key: K,
        before: Ghost<Seq<(K, V)>>,
        after: Ghost<Seq<(K, V)>>,
        lt: Ghost<spec_fn(K, K) -> bool>,
        root: Ghost<Link<K, V>>,
        turns: Ghost<Seq<bool>>,
    ) -> (entry: Self)
        requires
            *old(slot) is None,
            *old(len) == (before@ + after@).len(),
            *old(len) < usize::MAX,
            forall|v: V| sorted_by(lt@, before@ + #[trigger] seq![(key, v)] + after@),
            sorted_by(lt@, before@ + after@),
            reaches(root@, turns@),
            descend(root@, turns@) is None,
        ensures
            entry.wf(),
            entry.tree() == root@,
            forall|sub: Link<K, V>| #[trigger] entry.grown(sub) == graft(root@, turns@, sub),
            *entry.slot_ref() == *old(slot),
            *final(entry.slot_ref()) == *final(slot),
            *entry.len_ref() == *old(len),
            *final(entry.len_ref()) == *final(len),
            entry.order() == lt@,
            entry.pending_key() == key,
            entry.index() == before@.len(),
            forall|sub: Link<K, V>| #[trigger]
                entry.outcome(sub) == before@ + entries(sub) + after@,
    {
        proof {
            lemma_entries_shape(*slot);
            assert(before@ + entries(*slot) + after@ =~= before@ + after@);
        }
        VacantEntry { slot, len, key, before, after, lt, root, turns }
    }

    /// Returns a reference to the key that the entry was made for.
    pub fn key(&self) -> (k: &K)
        ensures
            *k == self.pending_key(),
    {
        &self.key
    }

    /// Puts the entry's key with the given value into the tree, and
    /// returns a mutable reference to the value. The new node is a leaf in
    /// the empty link that the entry borrows, and every other node of the
    /// tree stays where it was.
    pub fn insert(self, value: V) -> (v: &'a mut V)
        requires
            self.wf(),
        ensures
            *v == value,
            self.outcome(*final(self.slot_ref())) == self.all().insert(
                self.index(),
                (self.pending_key(), *final(v)),
            ),
            self.admits(*final(self.slot_ref()), *final(self.len_ref())),
            is_leaf(*final(self.slot_ref()), (self.pending_key(), *final(v))),
            hangs_leaf(
                self.tree(),
                self.grown(*final(self.slot_ref())),
                (self.pending_key(), *final(v)),
            ),
            keeps_places(
                self.tree(),
                self.grown(*final(self.slot_ref())),
                (self.pending_key(), *final(v)),
            ),
    {
        let VacantEntry { slot, len, key, before, after, lt, root, turns } = self;
        proof {
            assert forall|sub: Link<K, V>, x: V| #[trigger] is_leaf(sub, (key, x)) implies hangs_leaf(
                root@,
                graft(root@, turns@, sub),
                (key, x),
            ) && keeps_places(root@, graft(root@, turns@, sub), (key, x)) by {
                lemma_graft_leaf(root@, turns@, sub, (key, x));
            }
            lemma_entries_shape(*slot);
            assert(before@ + entries(*slot) + after@ =~= before@ + after@);
            assert forall|x: V|
                before@ + #[trigger] seq![(key, x)] + after@ == (before@ + after@).insert(
                    before@.len() as int,
                    (key, x),
                ) by {
                assert(before@ + seq![(key, x)] + after@ =~= (before@ + after@).insert(
                    before@.len() as int,
                    (key, x),
                ));
            }
        }
        *len = *len + 1;
        *slot = Some(Box::new(Node { left: None, right: None, key, value }));
        match slot {
            Some(node) => {
                proof {
                    assert forall|x: V|
                        entries(None::<Box<Node<K, V>>>) + #[trigger] seq![(node.key, x)] + entries(
                            None::<Box<Node<K, V>>>,
                        ) == seq![(node.key, x)] by {
                        assert(entries(None::<Box<Node<K, V>>>) + seq![(node.key, x)] + entries(
                            None::<Box<Node<K, V>>>,
                        ) =~= seq![(node.key, x)]);
                    }
                }
                &mut node.value
            },
            None => unreached(),
        }
    }
}

} // verus!
