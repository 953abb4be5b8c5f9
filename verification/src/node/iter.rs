//! Iteration: a work-list of nodes from which the entries of a tree come
//! out in ascending order at one end and in descending order at the other.

use super::{child, entries, lemma_same_form, root_entry, same_form, same_root, Link, Node};
use crate::model::{
    cut, cut_at, lemma_after, lemma_before, lemma_lower_rank, lemma_rank_skip, lemma_rank_sorted,
    lemma_upper_rank, len_of, lower_rank, span, upper_rank,
};
use crate::order::Comparator;
use std::cmp::Ordering;
use std::collections::VecDeque;
use std::ops::Bound;
use vstd::prelude::*;

verus! {

/// `Bound` of the standard library, an end of a range of keys: unbounded,
/// or at a key that is included or excluded. Its three variants are read as
/// they are declared.
#[verifier::external_type_specification]
#[verifier::reject_recursive_types(T)]
pub struct ExBound<T>(Bound<T>);

/// A node as an iteration sees it: an entry of its own between what its
/// two children still hold.
pub trait NodeRef: Sized {
    type Key;

    type Item;

    /// The key of the node.
    spec fn key_spec(&self) -> Self::Key;

    /// The key under which an item stands.
    spec fn key_of(item: Self::Item) -> Self::Key;

    /// The item of the node itself.
    spec fn own(&self) -> Self::Item;

    /// The items below the left child, as long as it has not been handed out.
    spec fn left_items(&self) -> Seq<Self::Item>;

    /// The items below the right child, as long as it has not been handed
    /// out.
    spec fn right_items(&self) -> Seq<Self::Item>;

    /// The item of the node stands under the key of the node.
    proof fn lemma_key(&self)
        ensures
            Self::key_of(self.own()) == self.key_spec(),
    ;

    /// The key of the node.
    fn key(&self) -> (k: &Self::Key)
        ensures
            *k == self.key_spec(),
    ;

    /// The item of the node.
    fn item(self) -> (item: Self::Item)
        ensures
            item == self.own(),
    ;

    /// Hands out the left child, once.
    fn left(&mut self) -> (child: Option<Self>)
        ensures
            final(self).own() == old(self).own(),
            final(self).key_spec() == old(self).key_spec(),
            final(self).left_items() == Seq::<Self::Item>::empty(),
            final(self).right_items() == old(self).right_items(),
            match child {
                Some(c) => c.left_items() + seq![c.own()] + c.right_items() == old(
                    self,
                ).left_items(),
                None => old(self).left_items() == Seq::<Self::Item>::empty(),
            },
    ;

    /// Hands out the right child, once.
    fn right(&mut self) -> (child: Option<Self>)
        ensures
            final(self).own() == old(self).own(),
            final(self).key_spec() == old(self).key_spec(),
            final(self).right_items() == Seq::<Self::Item>::empty(),
            final(self).left_items() == old(self).left_items(),
            match child {
                Some(c) => c.left_items() + seq![c.own()] + c.right_items() == old(
                    self,
                ).right_items(),
                None => old(self).right_items() == Seq::<Self::Item>::empty(),
            },
    ;
}

/// All that a node still stands for, in ascending order.
pub open spec fn items<N: NodeRef>(node: N) -> Seq<N::Item> {
    node.left_items() + seq![node.own()] + node.right_items()
}

/// All that an optional node stands for.
pub open spec fn items_of<N: NodeRef>(root: Option<N>) -> Seq<N::Item> {
    match root {
        Some(node) => items(node),
        None => Seq::empty(),
    }
}

/// The entries of `s` as pairs of references.
pub open spec fn by_ref<'a, K, V>(s: Seq<(K, V)>) -> Seq<(&'a K, &'a V)> {
    Seq::new(s.len(), |i: int| (&s[i].0, &s[i].1))
}

/// A node borrowed for reading, with a mark for each child handed out.
pub struct MarkedNode<'a, K, V> {
    node: &'a Node<K, V>,
    seen_l: bool,
    seen_r: bool,
}

impl<'a, K, V> Clone for MarkedNode<'a, K, V> {
    fn clone(&self) -> (copy: Self)
        ensures
            copy == *self,
    {
        MarkedNode { node: self.node, seen_l: self.seen_l, seen_r: self.seen_r }
    }
}

impl<'a, K, V> Copy for MarkedNode<'a, K, V> {

}

impl<'a, K, V> MarkedNode<'a, K, V> {
    /// The entry of the node itself.
    pub closed spec fn own_entry(self) -> (&'a K, &'a V) {
        (&self.node.key, &self.node.value)
    }

    /// The entries below the left child, as long as it has not been handed
    /// out.
    pub closed spec fn left_pending(self) -> Seq<(&'a K, &'a V)> {
        if self.seen_l {
            Seq::empty()
        } else {
            by_ref(entries(self.node.left))
        }
    }

    /// The entries below the right child, as long as it has not been handed
    /// out.
    pub closed spec fn right_pending(self) -> Seq<(&'a K, &'a V)> {
        if self.seen_r {
            Seq::empty()
        } else {
            by_ref(entries(self.node.right))
        }
    }

    /// The entries that the node still stands for: its own, and those of
    /// each child that has not been handed out.
    pub open spec fn pending(self) -> Seq<(&'a K, &'a V)> {
        self.left_pending() + seq![self.own_entry()] + self.right_pending()
    }

    /// Marks a node of which no child has been handed out yet: the cursor
    /// stands for the entry of the node and for all that is below each of
    /// its children.
    pub fn new(node: &'a Box<Node<K, V>>) -> (marked: Self)
        ensures
            root_entry(Some(*node)) == Some((*marked.own_entry().0, *marked.own_entry().1)),
            marked.left_pending() == by_ref::<K, V>(entries(child(Some(*node), false))),
            marked.right_pending() == by_ref::<K, V>(entries(child(Some(*node), true))),
            marked.pending() == by_ref::<K, V>(entries(Some(*node))),
    {
        let marked = MarkedNode { node: &**node, seen_l: false, seen_r: false };
        proof {
            assert(marked.pending() =~= by_ref::<K, V>(entries(Some(*node))));
        }
        marked
    }
}

/// What a marked node still stands for as a node of an iteration.
pub proof fn lemma_marked_items<'a, K, V>(marked: MarkedNode<'a, K, V>)
    ensures
        items(marked) == marked.pending(),
{
}

/// A marked node stands for its entry and for the entries of each child
/// that it has not handed out, all by reference.
impl<'a, K, V> NodeRef for MarkedNode<'a, K, V> {
    type Key = K;

    type Item = (&'a K, &'a V);

    open spec fn key_spec(&self) -> K {
        *self.own_entry().0
    }

    open spec fn key_of(item: (&'a K, &'a V)) -> K {
        *item.0
    }

    open spec fn own(&self) -> (&'a K, &'a V) {
        self.own_entry()
    }

    open spec fn left_items(&self) -> Seq<(&'a K, &'a V)> {
        self.left_pending()
    }

    open spec fn right_items(&self) -> Seq<(&'a K, &'a V)> {
        self.right_pending()
    }

    proof fn lemma_key(&self) {
    }

    fn key(&self) -> (k: &K) {
        &self.node.key
    }

    fn item(self) -> (item: (&'a K, &'a V)) {
        (&self.node.key, &self.node.value)
    }

    fn left(&mut self) -> (child: Option<Self>) {
        if self.seen_l {
            None
        } else {
            self.seen_l = true;
            match &self.node.left {
                Some(node) => Some(MarkedNode::new(node)),
                None => {
                    proof {
                        assert(by_ref::<K, V>(entries(self.node.left)) =~= Seq::empty());
                    }
                    None
                },
            }
        }
    }

    fn right(&mut self) -> (child: Option<Self>) {
        if self.seen_r {
            None
        } else {
            self.seen_r = true;
            match &self.node.right {
                Some(node) => Some(MarkedNode::new(node)),
                None => {
                    proof {
                        assert(by_ref::<K, V>(entries(self.node.right)) =~= Seq::empty());
                    }
                    None
                },
            }
        }
    }
}

/// A node borrowed for writing, taken apart into what an iteration hands
/// out and what it walks on: the key, the value open to change, and each
/// child as a borrow of its own.
pub struct MutMarkedNode<'a, K, V> {
    key: &'a K,
    value: &'a mut V,
    left: Option<&'a mut Box<Node<K, V>>>,
    right: Option<&'a mut Box<Node<K, V>>>,
}

/// The tree below a node that is borrowed, or none.
pub open spec fn link_at<K, V>(child: Option<&mut Box<Node<K, V>>>) -> Link<K, V> {
    match child {
        Some(node) => Some(*node),
        None => None,
    }
}

/// The entries below a node that is borrowed, or none.
pub open spec fn entries_at<K, V>(child: Option<&mut Box<Node<K, V>>>) -> Seq<(K, V)> {
    match child {
        Some(node) => entries(Some(*node)),
        None => Seq::empty(),
    }
}

impl<'a, K, V> MutMarkedNode<'a, K, V> {
    /// The borrow of the key.
    pub closed spec fn key_ref(self) -> &'a K {
        self.key
    }

    /// The borrow of the value.
    pub closed spec fn value_ref(self) -> &'a mut V {
        self.value
    }

    /// The borrow of the left child.
    pub closed spec fn left_ref(self) -> Option<&'a mut Box<Node<K, V>>> {
        self.left
    }

    /// The borrow of the right child.
    pub closed spec fn right_ref(self) -> Option<&'a mut Box<Node<K, V>>> {
        self.right
    }

    /// Takes a node apart. What the node holds in the end is what the parts
    /// hold in the end.
    pub fn new(node: &'a mut Box<Node<K, V>>) -> (marked: Self)
        ensures
            root_entry(Some(*old(node))) == Some((*marked.key_ref(), *marked.value_ref())),
            child(Some(*old(node)), false) == link_at(marked.left_ref()),
            child(Some(*old(node)), true) == link_at(marked.right_ref()),
            root_entry(Some(*final(node))) == Some(
                (*marked.key_ref(), *final(marked.value_ref())),
            ),
            child(Some(*final(node)), false) == (match marked.left_ref() {
                Some(l) => Some(*final(l)),
                None => None,
            }),
            child(Some(*final(node)), true) == (match marked.right_ref() {
                Some(r) => Some(*final(r)),
                None => None,
            }),
            entries_at(marked.left_ref()) == entries(child(Some(*old(node)), false)),
            entries_at(marked.right_ref()) == entries(child(Some(*old(node)), true)),
            entries(Some(*old(node))) == entries_at(marked.left_ref()) + seq![
                (*marked.key_ref(), *marked.value_ref()),
            ] + entries_at(marked.right_ref()),
            entries(Some(*final(node))) == (match marked.left_ref() {
                Some(l) => entries(Some(*final(l))),
                None => Seq::empty(),
            }) + seq![(*marked.key_ref(), *final(marked.value_ref()))] + (match marked.right_ref() {
                Some(r) => entries(Some(*final(r))),
                None => Seq::empty(),
            }),
    {
        let ghost whole = entries(Some(*node));
        let Node { left, right, key, value } = &mut **node;
        assert(whole == entries(*left) + seq![(*key, *value)] + entries(*right));
        let ghost l0 = *left;
        let ghost r0 = *right;
        let l = left.as_mut();
        let r = right.as_mut();
        assert(entries_at(l) == entries(l0));
        assert(entries_at(r) == entries(r0));
        let marked = MutMarkedNode { key, value, left: l, right: r };
        assert(marked.left_ref() == l);
        marked
    }
}

impl<'a, K, V> MutMarkedNode<'a, K, V> {
    /// The entries that the node stands for as they are: its own, and those
    /// of each child that has not been handed out.
    pub open spec fn pending(self) -> Seq<(K, V)> {
        entries_at(self.left_ref()) + seq![(*self.key_ref(), *self.value_ref())] + entries_at(
            self.right_ref(),
        )
    }

    /// The parts are those of `node` as it is: its entry and its two
    /// children.
    pub open spec fn stands_for(self, node: Box<Node<K, V>>) -> bool {
        &&& root_entry(Some(node)) == Some((*self.key_ref(), *self.value_ref()))
        &&& child(Some(node), false) == link_at(self.left_ref())
        &&& child(Some(node), true) == link_at(self.right_ref())
    }

    /// The key of the node.
    pub fn key(&self) -> (k: &K)
        ensures
            *k == *self.key_ref(),
    {
        self.key
    }

    /// The key of the node and its value, the value open to change. A child
    /// not handed out before stays as it is.
    pub fn item(self) -> (item: (&'a K, &'a mut V))
        ensures
            *item.0 == *self.key_ref(),
            *item.1 == *self.value_ref(),
            *final(item.1) == *final(self.value_ref()),
            match self.left_ref() {
                Some(l) => *final(l) == *l,
                None => true,
            },
            match self.right_ref() {
                Some(r) => *final(r) == *r,
                None => true,
            },
    {
        let MutMarkedNode { key, value, left, right } = self;
        (key, value)
    }

    /// Hands out the left child, once: taken apart like the node itself.
    pub fn left(&mut self) -> (handed: Option<Self>)
        ensures
            final(self).left_ref() is None,
            *final(self).key_ref() == *old(self).key_ref(),
            *final(self).value_ref() == *old(self).value_ref(),
            *final(final(self).value_ref()) == *final(old(self).value_ref()),
            final(self).right_ref() is Some <==> old(self).right_ref() is Some,
            final(self).right_ref() is Some ==> *final(self).right_ref().unwrap() == *old(
                self,
            ).right_ref().unwrap(),
            final(self).right_ref() is Some ==> *final(final(self).right_ref().unwrap())
                == *final(old(self).right_ref().unwrap()),
            match handed {
                None => old(self).left_ref() is None,
                Some(c) => {
                    &&& old(self).left_ref() is Some
                    &&& c.stands_for(*old(self).left_ref().unwrap())
                    &&& root_entry(Some(*final(old(self).left_ref().unwrap()))) == Some(
                        (*c.key_ref(), *final(c.value_ref())),
                    )
                    &&& child(Some(*final(old(self).left_ref().unwrap())), false) == (match c.left_ref() {
                        Some(l) => Some(*final(l)),
                        None => None,
                    })
                    &&& child(Some(*final(old(self).left_ref().unwrap())), true) == (match c.right_ref() {
                        Some(r) => Some(*final(r)),
                        None => None,
                    })
                    &&& c.pending() == entries(Some(*old(self).left_ref().unwrap()))
                    &&& entries(Some(*final(old(self).left_ref().unwrap()))) == (match c.left_ref() {
                        Some(l) => entries(Some(*final(l))),
                        None => Seq::empty(),
                    }) + seq![(*c.key_ref(), *final(c.value_ref()))] + (match c.right_ref() {
                        Some(r) => entries(Some(*final(r))),
                        None => Seq::empty(),
                    })
                },
            },
    {
        match self.left.take() {
            Some(node) => Some(MutMarkedNode::new(node)),
            None => None,
        }
    }

    /// Hands out the right child, once: taken apart like the node itself.
    pub fn right(&mut self) -> (handed: Option<Self>)
        ensures
            final(self).right_ref() is None,
            *final(self).key_ref() == *old(self).key_ref(),
            *final(self).value_ref() == *old(self).value_ref(),
            *final(final(self).value_ref()) == *final(old(self).value_ref()),
            final(self).left_ref() is Some <==> old(self).left_ref() is Some,
            final(self).left_ref() is Some ==> *final(self).left_ref().unwrap() == *old(
                self,
            ).left_ref().unwrap(),
            final(self).left_ref() is Some ==> *final(final(self).left_ref().unwrap())
                == *final(old(self).left_ref().unwrap()),
            match handed {
                None => old(self).right_ref() is None,
                Some(c) => {
                    &&& old(self).right_ref() is Some
                    &&& c.stands_for(*old(self).right_ref().unwrap())
                    &&& root_entry(Some(*final(old(self).right_ref().unwrap()))) == Some(
                        (*c.key_ref(), *final(c.value_ref())),
                    )
                    &&& child(Some(*final(old(self).right_ref().unwrap())), false) == (match c.left_ref() {
                        Some(l) => Some(*final(l)),
                        None => None,
                    })
                    &&& child(Some(*final(old(self).right_ref().unwrap())), true) == (match c.right_ref() {
                        Some(r) => Some(*final(r)),
                        None => None,
                    })
                    &&& c.pending() == entries(Some(*old(self).right_ref().unwrap()))
                    &&& entries(Some(*final(old(self).right_ref().unwrap()))) == (match c.left_ref() {
                        Some(l) => entries(Some(*final(l))),
                        None => Seq::empty(),
                    }) + seq![(*c.key_ref(), *final(c.value_ref()))] + (match c.right_ref() {
                        Some(r) => entries(Some(*final(r))),
                        None => Seq::empty(),
                    })
                },
            },
    {
        match self.right.take() {
            Some(node) => Some(MutMarkedNode::new(node)),
            None => None,
        }
    }
}

/// Trees have the same form wherever their roots agree and their children
/// have the same form; an empty tree has the form of an empty tree.
proof fn lemma_forms<K, V>()
    ensures
        forall|before: Link<K, V>, after: Link<K, V>|
            same_root(before, after) && same_form(child(before, false), child(after, false))
                && same_form(child(before, true), child(after, true)) ==> #[trigger] same_form(
                before,
                after,
            ),
{
    assert forall|before: Link<K, V>, after: Link<K, V>|
        same_root(before, after) && same_form(child(before, false), child(after, false))
            && same_form(child(before, true), child(after, true)) implies #[trigger] same_form(
        before,
        after,
    ) by {
        lemma_same_form(before, after);
    }
}

/// Borrows every entry that `node` stands for and puts the borrows, in
/// ascending order, onto the end of `out`. What the tree below the node
/// holds in the end is, under each key, what the borrow of its value holds
/// in the end.
pub fn borrow_all<'a, K, V>(node: MutMarkedNode<'a, K, V>, out: &mut Vec<Option<(&'a K, &'a mut V)>>)
    ensures
        ({
            let now = node.pending();
            let then = (match node.left_ref() {
                Some(l) => entries(Some(*final(l))),
                None => Seq::empty(),
            }) + seq![(*node.key_ref(), *final(node.value_ref()))] + (match node.right_ref() {
                Some(r) => entries(Some(*final(r))),
                None => Seq::empty(),
            });
            &&& final(out)@.len() == old(out)@.len() + now.len()
            &&& then.len() == now.len()
            &&& match node.left_ref() {
                Some(l) => same_form(Some(*l), Some(*final(l))),
                None => true,
            }
            &&& match node.right_ref() {
                Some(r) => same_form(Some(*r), Some(*final(r))),
                None => true,
            }
            &&& forall|i: int| 0 <= i < now.len() ==> (#[trigger] now[i]).0 == then[i].0
            &&& forall|i: int|
                0 <= i < now.len() ==> #[trigger] then[i] == (
                    *final(out)@[old(out)@.len() + i].unwrap().0,
                    *final(final(out)@[old(out)@.len() + i].unwrap().1),
                )
            &&& forall|j: int| 0 <= j < old(out)@.len() ==> final(out)@[j] == old(out)@[j]
            &&& forall|j: int|
                old(out)@.len() <= j < final(out)@.len() ==> {
                    let slot = #[trigger] final(out)@[j];
                    let i = j - old(out)@.len();
                    &&& slot is Some
                    &&& (*slot.unwrap().0, *slot.unwrap().1) == now[i]
                    &&& then[i] == (*slot.unwrap().0, *final(slot.unwrap().1))
                }
        }),
    decreases node.pending().len(),
{
    proof {
        lemma_forms::<K, V>();
    }
    let mut node = node;
    match node.left() {
        Some(child) => {
            borrow_all(child, out);
        },
        None => {},
    }
    let right = node.right();
    out.push(Some(node.item()));
    match right {
        Some(child) => {
            borrow_all(child, out);
        },
        None => {},
    }
}

/// Borrows every entry below `root` for writing, in ascending order. What
/// the tree holds in the end is, under each key, what the borrow of its
/// value holds in the end.
pub fn borrow_entries<'a, K, V>(root: &'a mut Link<K, V>) -> (items: Vec<
    Option<(&'a K, &'a mut V)>,
>)
    ensures
        same_form(*old(root), *final(root)),
        items@.len() == entries(*old(root)).len(),
        entries(*final(root)).len() == entries(*old(root)).len(),
        forall|i: int|
            0 <= i < items@.len() ==> (#[trigger] items@[i]) is Some && (
                *items@[i].unwrap().0,
                *items@[i].unwrap().1,
            ) == entries(*old(root))[i],
        forall|i: int|
            0 <= i < items@.len() ==> #[trigger] entries(*final(root))[i] == (
                entries(*old(root))[i].0,
                *final(items@[i].unwrap().1),
            ),
{
    proof {
        lemma_forms::<K, V>();
    }
    let mut items: Vec<Option<(&K, &mut V)>> = Vec::new();
    match root {
        Some(node) => {
            let marked = MutMarkedNode::new(node);
            let ghost now = marked.pending();
            borrow_all(marked, &mut items);
            proof {
                assert forall|i: int| 0 <= i < items@.len() implies (#[trigger] items@[i]) is Some
                    && (*items@[i].unwrap().0, *items@[i].unwrap().1) == now[i] by {}
            }
        },
        None => {},
    }
    items
}

/// An owned node stands for its entry and for the entries of each child
/// that it still owns; handing a child out gives it away.
impl<K, V> NodeRef for Box<Node<K, V>> {
    type Key = K;

    type Item = (K, V);

    closed spec fn key_spec(&self) -> K {
        self.key
    }

    open spec fn key_of(item: (K, V)) -> K {
        item.0
    }

    closed spec fn own(&self) -> (K, V) {
        (self.key, self.value)
    }

    closed spec fn left_items(&self) -> Seq<(K, V)> {
        entries(self.left)
    }

    closed spec fn right_items(&self) -> Seq<(K, V)> {
        entries(self.right)
    }

    proof fn lemma_key(&self) {
    }

    fn key(&self) -> (k: &K) {
        &self.key
    }

    fn item(self) -> (item: (K, V)) {
        let Node { left: _, right: _, key, value } = *self;
        (key, value)
    }

    fn left(&mut self) -> (child: Option<Self>) {
        self.left.take()
    }

    fn right(&mut self) -> (child: Option<Self>) {
        self.right.take()
    }
}

/// What an owned node stands for as a node of an iteration: its entries.
pub proof fn lemma_owned_items<K, V>(link: Link<K, V>)
    ensures
        items_of(link) == entries(link),
{
}

/// All that a work-list stands for, in ascending order: the last node comes
/// first.
pub open spec fn flat<N: NodeRef>(nodes: Seq<N>) -> Seq<N::Item>
    decreases nodes.len(),
{
    if nodes.len() == 0 {
        Seq::empty()
    } else {
        items(nodes.last()) + flat(nodes.drop_last())
    }
}

/// A work-list with one more node at its back.
pub proof fn lemma_flat_push<N: NodeRef>(nodes: Seq<N>, node: N)
    ensures
        flat(nodes.push(node)) == items(node) + flat(nodes),
        nodes.len() == 0 ==> flat(nodes.push(node)) == items(node),
{
    assert(nodes.push(node).drop_last() =~= nodes);
    if nodes.len() == 0 {
        assert(items(node) + flat(nodes) =~= items(node));
    }
}

/// A work-list with one more node at its front.
pub proof fn lemma_flat_front<N: NodeRef>(node: N, nodes: Seq<N>)
    ensures
        flat(seq![node] + nodes) == flat(nodes) + items(node),
    decreases nodes.len(),
{
    if nodes.len() == 0 {
        assert(seq![node] + nodes =~= nodes.push(node));
        lemma_flat_push(nodes, node);
        assert(flat(nodes) + items(node) =~= items(node));
    } else {
        let all = seq![node] + nodes;
        assert(all.drop_last() =~= seq![node] + nodes.drop_last());
        assert(all.last() == nodes.last());
        lemma_flat_front(node, nodes.drop_last());
        assert(flat(all) =~= flat(nodes) + items(node));
    }
}

/// An iteration over the nodes of a tree, from both ends.
#[derive(Clone)]
pub struct Iter<N: NodeRef> {
    nodes: VecDeque<N>,
    size: usize,
}

impl<N: NodeRef> Iter<N> {
    /// The items still to come, in ascending order.
    pub closed spec fn remaining(&self) -> Seq<N::Item> {
        flat(self.nodes@)
    }

    /// The count that the iteration keeps: one less with each item that
    /// comes out.
    pub closed spec fn counted(&self) -> usize {
        self.size
    }

    /// The number of nodes on the work-list.
    pub closed spec fn listed(&self) -> nat {
        self.nodes@.len()
    }

    /// The count is no less than the number of items still to come.
    pub open spec fn wf(&self) -> bool {
        self.remaining().len() <= self.counted()
    }

    /// Each node on the work-list stands for at least one item.
    pub proof fn lemma_listed(&self)
        ensures
            self.listed() <= self.remaining().len(),
    {
        lemma_flat_len(self.nodes@);
    }

    /// Starts an iteration over the tree below `root`, counting from `size`.
    pub fn new(root: Option<N>, size: usize) -> (it: Self)
        requires
            items_of(root).len() <= size,
        ensures
            it.wf(),
            it.remaining() == items_of(root),
            it.counted() == size,
    {
        let mut nodes: VecDeque<N> = VecDeque::new();
        match root {
            Some(node) => {
                proof {
                    lemma_flat_push(nodes@, node);
                }
                nodes.push_back(node);
            },
            None => {},
        }
        Iter { nodes, size }
    }

    /// The count of the iteration.
    pub fn len(&self) -> (n: usize)
        ensures
            n == self.counted(),
    {
        self.size
    }

    /// The next item from the low end.
    pub fn next(&mut self) -> (item: Option<N::Item>)
        requires
            old(self).wf(),
        ensures
            final(self).wf(),
            match item {
                Some(x) => {
                    &&& old(self).remaining().len() > 0
                    &&& x == old(self).remaining().first()
                    &&& final(self).remaining() == old(self).remaining().skip(1)
                    &&& final(self).counted() == old(self).counted() - 1
                },
                None => {
                    &&& old(self).remaining().len() == 0
                    &&& final(self).remaining() == old(self).remaining()
                    &&& final(self).counted() == old(self).counted()
                },
            },
    {
        loop
            invariant
                self.remaining() == old(self).remaining(),
                self.size == old(self).size,
                self.wf(),
            decreases
                    (if self.nodes@.len() > 0 {
                        items(self.nodes@.last()).len()
                    } else {
                        0
                    }),
        {
            let ghost before = self.nodes@;
            match self.nodes.pop_back() {
                None => {
                    return None;
                },
                Some(mut node) => {
                    let ghost rest = before.drop_last();
                    let ghost whole = items(node);
                    proof {
                        assert(self.nodes@ =~= rest);
                        assert(before =~= rest.push(node));
                        lemma_flat_push(rest, node);
                    }
                    match node.left() {
                        Some(left) => {
                            self.nodes.push_back(node);
                            self.nodes.push_back(left);
                            proof {
                                lemma_flat_push(rest, node);
                                lemma_flat_push(rest.push(node), left);
                                assert(flat(self.nodes@) =~= flat(before));
                            }
                        },
                        None => {
                            let child = node.right();
                            let ghost own = node.own();
                            proof {
                                assert(whole =~= seq![own] + items_of(child));
                            }
                            match child {
                                Some(right) => {
                                    proof {
                                        lemma_flat_push(rest, right);
                                    }
                                    self.nodes.push_back(right);
                                },
                                None => {},
                            }
                            proof {
                                assert(flat(before).skip(1) =~= flat(self.nodes@));
                            }
                            self.size -= 1;
                            return Some(node.item());
                        },
                    }
                },
            }
        }
    }

    /// The next item from the high end.
    pub fn next_back(&mut self) -> (item: Option<N::Item>)
        requires
            old(self).wf(),
        ensures
            final(self).wf(),
            match item {
                Some(x) => {
                    &&& old(self).remaining().len() > 0
                    &&& x == old(self).remaining().last()
                    &&& final(self).remaining() == old(self).remaining().drop_last()
                    &&& final(self).counted() == old(self).counted() - 1
                },
                None => {
                    &&& old(self).remaining().len() == 0
                    &&& final(self).remaining() == old(self).remaining()
                    &&& final(self).counted() == old(self).counted()
                },
            },
    {
        loop
            invariant
                self.remaining() == old(self).remaining(),
                self.size == old(self).size,
                self.wf(),
            decreases
                    (if self.nodes@.len() > 0 {
                        items(self.nodes@.first()).len()
                    } else {
                        0
                    }),
        {
            let ghost before = self.nodes@;
            match self.nodes.pop_front() {
                None => {
                    return None;
                },
                Some(mut node) => {
                    let ghost rest = before.skip(1);
                    let ghost whole = items(node);
                    proof {
                        assert(self.nodes@ =~= rest);
                        assert(before =~= seq![node] + rest);
                        lemma_flat_front(node, rest);
                    }
                    match node.right() {
                        Some(right) => {
                            self.nodes.push_front(node);
                            self.nodes.push_front(right);
                            proof {
                                lemma_flat_front(node, rest);
                                lemma_flat_front(right, seq![node] + rest);
                                assert(flat(self.nodes@) =~= flat(before));
                            }
                        },
                        None => {
                            let child = node.left();
                            let ghost own = node.own();
                            proof {
                                assert(whole =~= items_of(child) + seq![own]);
                            }
                            match child {
                                Some(left) => {
                                    proof {
                                        lemma_flat_front(left, rest);
                                    }
                                    self.nodes.push_front(left);
                                },
                                None => {},
                            }
                            proof {
                                assert(flat(before).drop_last() =~= flat(self.nodes@));
                            }
                            self.size -= 1;
                            return Some(node.item());
                        },
                    }
                },
            }
        }
    }
}

/// The keys under which the items of `s` stand, each as an entry without a
/// value.
pub open spec fn keyed<N: NodeRef>(s: Seq<N::Item>) -> Seq<(N::Key, ())> {
    Seq::new(s.len(), |i: int| (N::key_of(s[i]), ()))
}

/// How many items of `s` lie below the lower bound `min`.
pub open spec fn lower_index<N: NodeRef, Min, C: Comparator<Min, N::Key>>(
    order: &C,
    s: Seq<N::Item>,
    min: Bound<&Min>,
) -> int {
    match min {
        Bound::Unbounded => 0,
        Bound::Included(k) => lower_rank(order, keyed::<N>(s), *k, true),
        Bound::Excluded(k) => lower_rank(order, keyed::<N>(s), *k, false),
    }
}

/// How many items of `s` lie within the upper bound `max`.
pub open spec fn upper_index<N: NodeRef, Max, C: Comparator<Max, N::Key>>(
    order: &C,
    s: Seq<N::Item>,
    max: Bound<&Max>,
) -> int {
    match max {
        Bound::Unbounded => s.len() as int,
        Bound::Included(k) => upper_rank(order, keyed::<N>(s), *k, true),
        Bound::Excluded(k) => upper_rank(order, keyed::<N>(s), *k, false),
    }
}

/// The items of `s` whose keys lie within both bounds.
pub open spec fn window<N: NodeRef, Min, Max, C: Comparator<Min, N::Key> + Comparator<Max, N::Key>>(
    order: &C,
    s: Seq<N::Item>,
    min: Bound<&Min>,
    max: Bound<&Max>,
) -> Seq<N::Item> {
    span(s, lower_index::<N, Min, C>(order, s, min), upper_index::<N, Max, C>(order, s, max))
}

/// The back node of a work-list holds the first items that the list stands
/// for.
proof fn lemma_back<N: NodeRef>(rest: Seq<N>, node: N, s: Seq<N::Item>, a: int)
    requires
        0 <= a <= s.len(),
        flat(rest.push(node)) == s.skip(a),
    ensures
        a + items(node).len() <= s.len(),
        forall|i: int| 0 <= i < items(node).len() ==> s[a + i] == #[trigger] items(node)[i],
        flat(rest) == s.skip(a + items(node).len()),
        N::key_of(s[a + node.left_items().len()]) == node.key_spec(),
{
    lemma_flat_push(rest, node);
    let r = s.skip(a);
    let n = items(node).len() as int;
    assert(r.len() == n + flat(rest).len());
    assert forall|i: int| 0 <= i < n implies s[a + i] == #[trigger] items(node)[i] by {
        assert(r[i] == items(node)[i]);
    }
    assert(flat(rest) =~= r.skip(n));
    assert(r.skip(n) =~= s.skip(a + n));
    node.lemma_key();
    assert(items(node)[node.left_items().len() as int] == node.own());
}

/// The front node of a work-list holds the last items that the list stands
/// for.
proof fn lemma_front<N: NodeRef>(node: N, rest: Seq<N>, s: Seq<N::Item>, b: int)
    requires
        0 <= b <= s.len(),
        flat(seq![node] + rest) == s.take(b),
    ensures
        items(node).len() <= b,
        forall|i: int|
            0 <= i < items(node).len() ==> s[b - items(node).len() + i] == #[trigger] items(node)[i],
        flat(rest) == s.take(b - items(node).len()),
        N::key_of(s[b - items(node).len() + node.left_items().len()]) == node.key_spec(),
{
    lemma_flat_front(node, rest);
    let r = s.take(b);
    let n = items(node).len() as int;
    let m = flat(rest).len() as int;
    assert(r.len() == n + m);
    assert forall|i: int| 0 <= i < n implies s[b - n + i] == #[trigger] items(node)[i] by {
        assert(r[m + i] == items(node)[i]);
    }
    assert(flat(rest) =~= r.take(m));
    assert(r.take(m) =~= s.take(b - n));
    node.lemma_key();
    assert(items(node)[node.left_items().len() as int] == node.own());
}

impl<N: NodeRef> Iter<N> {
    /// Drops from the low end every item below a lower bound at `bound`.
    /// Walking down from the back node, a node below the bound goes with
    /// all of its left side and its right child is looked at next; a node
    /// not below it stays, and its left child is looked at next.
    fn seed_low<Q, C: Comparator<Q, N::Key>>(&mut self, order: &C, bound: &Q, inclusive: bool)
        requires
            old(self).wf(),
            cut(order, keyed::<N>(old(self).remaining()), *bound),
        ensures
            final(self).wf(),
            final(self).counted() == old(self).counted(),
            final(self).remaining() == old(self).remaining().skip(
                lower_rank(order, keyed::<N>(old(self).remaining()), *bound, inclusive),
            ),
    {
        let ghost s = self.remaining();
        let ghost ks = keyed::<N>(s);
        let ghost mut a: int = 0;
        proof {
            assert(s.skip(0) =~= s);
        }
        loop
            invariant
                s == old(self).remaining(),
                ks == keyed::<N>(s),
                cut(order, ks, *bound),
                self.size == old(self).size,
                old(self).wf(),
                0 <= a <= s.len(),
                self.remaining() == s.skip(a),
                forall|i: int|
                    0 <= i < a ==> order.gt(*bound, (#[trigger] ks[i]).0) || (!inclusive
                        && !order.lt(*bound, ks[i].0)),
            decreases s.len() - a,
                (if self.nodes@.len() > 0 {
                    items(self.nodes@.last()).len()
                } else {
                    0
                }),
        {
            let ghost before = self.nodes@;
            match self.nodes.pop_back() {
                None => {
                    proof {
                        lemma_lower_rank(order, ks, *bound, inclusive, a);
                    }
                    return ;
                },
                Some(mut node) => {
                    let ghost rest = before.drop_last();
                    let ghost nl = len_of(node.left_items());
                    let ghost whole = items(node);
                    proof {
                        assert(self.nodes@ =~= rest);
                        assert(before =~= rest.push(node));
                        lemma_back(rest, node, s, a);
                        lemma_flat_push(rest, node);
                        assert(s.skip(a + nl) =~= whole.skip(nl) + flat(rest));
                        assert(s.skip(a + nl + 1) =~= whole.skip(nl + 1) + flat(rest));
                        assert(ks[a + nl].0 == node.key_spec());
                    }
                    let o = order.compare(bound, node.key());
                    let keep = match o {
                        Ordering::Less => true,
                        Ordering::Equal => inclusive,
                        Ordering::Greater => false,
                    };
                    let here = match o {
                        Ordering::Equal => true,
                        _ => false,
                    };
                    if keep {
                        let left = node.left();
                        proof {
                            lemma_flat_push(rest, node);
                            assert(items(node) =~= whole.skip(nl));
                            assert(!(order.lt(*bound, ks[a + nl].0) && order.gt(
                                *bound,
                                ks[a + nl].0,
                            )));
                        }
                        self.nodes.push_back(node);
                        if here || left.is_none() {
                            proof {
                                if here {
                                    lemma_before(order, ks, a + nl, *bound);
                                }
                                a = a + nl;
                                assert(self.remaining() =~= s.skip(a));
                                lemma_lower_rank(order, ks, *bound, inclusive, a);
                            }
                            return ;
                        }
                        match left {
                            Some(child) => {
                                proof {
                                    lemma_flat_push(rest.push(node), child);
                                    assert(flat(rest.push(node).push(child)) =~= s.skip(a));
                                }
                                self.nodes.push_back(child);
                            },
                            None => {},
                        }
                    } else {
                        let right = node.right();
                        proof {
                            assert(items_of(right) =~= whole.skip(nl + 1));
                            assert(!(order.lt(*bound, ks[a + nl].0) && order.gt(
                                *bound,
                                ks[a + nl].0,
                            )));
                            lemma_before(order, ks, a + nl, *bound);
                            a = a + nl + 1;
                        }
                        match right {
                            Some(child) => {
                                proof {
                                    lemma_flat_push(rest, child);
                                    assert(flat(rest.push(child)) =~= s.skip(a));
                                }
                                self.nodes.push_back(child);
                            },
                            None => {
                                proof {
                                    assert(flat(rest) =~= s.skip(a));
                                }
                            },
                        }
                    }
                },
            }
        }
    }
}

impl<N: NodeRef> Iter<N> {
    /// Drops from the high end every item beyond an upper bound at `bound`.
    /// Walking down from the front node, a node beyond the bound goes with
    /// all of its right side and its left child is looked at next; a node
    /// within it stays, and its right child is looked at next.
    fn seed_high<Q, C: Comparator<Q, N::Key>>(&mut self, order: &C, bound: &Q, inclusive: bool)
        requires
            old(self).wf(),
            cut(order, keyed::<N>(old(self).remaining()), *bound),
        ensures
            final(self).wf(),
            final(self).counted() == old(self).counted(),
            final(self).remaining() == old(self).remaining().take(
                upper_rank(order, keyed::<N>(old(self).remaining()), *bound, inclusive),
            ),
    {
        let ghost s = self.remaining();
        let ghost ks = keyed::<N>(s);
        let ghost mut b: int = len_of(s);
        proof {
            assert(s.take(b) =~= s);
        }
        loop
            invariant
                s == old(self).remaining(),
                ks == keyed::<N>(s),
                cut(order, ks, *bound),
                self.size == old(self).size,
                old(self).wf(),
                0 <= b <= s.len(),
                self.remaining() == s.take(b),
                forall|i: int|
                    b <= i < s.len() ==> order.lt(*bound, (#[trigger] ks[i]).0) || (!inclusive
                        && !order.gt(*bound, ks[i].0)),
            decreases b,
                (if self.nodes@.len() > 0 {
                    items(self.nodes@.first()).len()
                } else {
                    0
                }),
        {
            let ghost before = self.nodes@;
            match self.nodes.pop_front() {
                None => {
                    proof {
                        lemma_upper_rank(order, ks, *bound, inclusive, b);
                    }
                    return ;
                },
                Some(mut node) => {
                    let ghost rest = before.skip(1);
                    let ghost nl = len_of(node.left_items());
                    let ghost nr = len_of(node.right_items());
                    let ghost whole = items(node);
                    let ghost at = b - nr - 1;
                    proof {
                        assert(self.nodes@ =~= rest);
                        assert(before =~= seq![node] + rest);
                        lemma_front(node, rest, s, b);
                        lemma_flat_front(node, rest);
                        assert(s.take(b - nr) =~= flat(rest) + whole.take(nl + 1));
                        assert(s.take(at) =~= flat(rest) + whole.take(nl));
                        assert(ks[at].0 == node.key_spec());
                    }
                    let o = order.compare(bound, node.key());
                    let keep = match o {
                        Ordering::Greater => true,
                        Ordering::Equal => inclusive,
                        Ordering::Less => false,
                    };
                    let here = match o {
                        Ordering::Equal => true,
                        _ => false,
                    };
                    if keep {
                        let right = node.right();
                        proof {
                            lemma_flat_front(node, rest);
                            assert(items(node) =~= whole.take(nl + 1));
                            assert(!(order.lt(*bound, ks[at].0) && order.gt(*bound, ks[at].0)));
                        }
                        self.nodes.push_front(node);
                        if here || right.is_none() {
                            proof {
                                if here {
                                    lemma_after(order, ks, at, *bound);
                                }
                                b = b - nr;
                                assert(self.remaining() =~= s.take(b));
                                lemma_upper_rank(order, ks, *bound, inclusive, b);
                            }
                            return ;
                        }
                        match right {
                            Some(child) => {
                                proof {
                                    lemma_flat_front(child, seq![node] + rest);
                                    assert(flat(seq![child] + (seq![node] + rest)) =~= s.take(b));
                                }
                                self.nodes.push_front(child);
                            },
                            None => {},
                        }
                    } else {
                        let left = node.left();
                        proof {
                            assert(items_of(left) =~= whole.take(nl));
                            assert(!(order.lt(*bound, ks[at].0) && order.gt(*bound, ks[at].0)));
                            lemma_after(order, ks, at, *bound);
                            b = at;
                        }
                        match left {
                            Some(child) => {
                                proof {
                                    lemma_flat_front(child, rest);
                                    assert(flat(seq![child] + rest) =~= s.take(b));
                                }
                                self.nodes.push_front(child);
                            },
                            None => {
                                proof {
                                    assert(flat(rest) =~= s.take(b));
                                }
                            },
                        }
                    }
                },
            }
        }
    }
}

/// The keys of what is left once the first `a` items are gone.
proof fn lemma_keyed_skip<N: NodeRef>(s: Seq<N::Item>, a: int)
    requires
        0 <= a <= s.len(),
    ensures
        keyed::<N>(s.skip(a)) == keyed::<N>(s).skip(a),
{
    assert(keyed::<N>(s.skip(a)) =~= keyed::<N>(s).skip(a));
}

/// An iteration over the nodes of a tree whose keys lie between two bounds.
#[derive(Clone)]
pub struct Range<N: NodeRef>(Iter<N>);

impl<N: NodeRef> Range<N> {
    /// The items still to come, in ascending order.
    pub closed spec fn remaining(&self) -> Seq<N::Item> {
        self.0.remaining()
    }

    /// The count that the iteration keeps: one less with each item that
    /// comes out.
    pub closed spec fn counted(&self) -> usize {
        self.0.counted()
    }

    /// The number of nodes on the work-list.
    pub closed spec fn listed(&self) -> nat {
        self.0.listed()
    }

    /// The count is no less than the number of items still to come.
    pub open spec fn wf(&self) -> bool {
        self.remaining().len() <= self.counted()
    }

    /// Starts an iteration over those items of the tree below `root` whose
    /// keys lie within `min` and `max`, counting from `size`. What lies
    /// outside the bounds is dropped from the work-list before the first
    /// item is asked for.
    pub fn new<C: Comparator<Min, N::Key> + Comparator<Max, N::Key>, Min, Max>(
        root: Option<N>,
        size: usize,
        order: &C,
        min: Bound<&Min>,
        max: Bound<&Max>,
    ) -> (range: Self)
        requires
            items_of(root).len() <= size,
            cut_at(order, keyed::<N>(items_of(root)), min),
            cut_at(order, keyed::<N>(items_of(root)), max),
        ensures
            range.wf(),
            range.counted() == size,
            range.remaining() == window::<N, Min, Max, C>(order, items_of(root), min, max),
    {
        let ghost s = items_of(root);
        let ghost lo = lower_index::<N, Min, C>(order, s, min);
        let ghost hi = upper_index::<N, Max, C>(order, s, max);
        let mut it = Iter::new(root, size);
        proof {
            assert(s.skip(0) =~= s);
            match min {
                Bound::Unbounded => {},
                Bound::Included(k) => {
                    lemma_rank_sorted(order, keyed::<N>(s), *k);
                },
                Bound::Excluded(k) => {
                    lemma_rank_sorted(order, keyed::<N>(s), *k);
                },
            }
        }
        match min {
            Bound::Unbounded => {},
            Bound::Included(k) => {
                it.seed_low(order, k, true);
            },
            Bound::Excluded(k) => {
                it.seed_low(order, k, false);
            },
        }
        assert(it.remaining() == s.skip(lo));
        proof {
            lemma_keyed_skip::<N>(s, lo);
            match max {
                Bound::Unbounded => {
                    assert(s.skip(lo) =~= span(s, lo, hi));
                },
                Bound::Included(k) => {
                    lemma_rank_sorted(order, keyed::<N>(s), *k);
                    lemma_rank_skip(order, keyed::<N>(s), *k, lo);
                    assert(s.skip(lo).take(if hi >= lo { hi - lo } else { 0 }) =~= span(s, lo, hi));
                },
                Bound::Excluded(k) => {
                    lemma_rank_sorted(order, keyed::<N>(s), *k);
                    lemma_rank_skip(order, keyed::<N>(s), *k, lo);
                    assert(s.skip(lo).take(if hi >= lo { hi - lo } else { 0 }) =~= span(s, lo, hi));
                },
            }
        }
        match max {
            Bound::Unbounded => {},
            Bound::Included(k) => {
                it.seed_high(order, k, true);
            },
            Bound::Excluded(k) => {
                it.seed_high(order, k, false);
            },
        }
        Range(it)
    }

    /// The next item from the low end.
    pub fn next(&mut self) -> (item: Option<N::Item>)
        requires
            old(self).wf(),
        ensures
            final(self).wf(),
            match item {
                Some(x) => {
                    &&& old(self).remaining().len() > 0
                    &&& x == old(self).remaining().first()
                    &&& final(self).remaining() == old(self).remaining().skip(1)
                    &&& final(self).counted() == old(self).counted() - 1
                },
                None => {
                    &&& old(self).remaining().len() == 0
                    &&& final(self).remaining() == old(self).remaining()
                    &&& final(self).counted() == old(self).counted()
                },
            },
    {
        self.0.next()
    }

    /// The next item from the high end.
    pub fn next_back(&mut self) -> (item: Option<N::Item>)
        requires
            old(self).wf(),
        ensures
            final(self).wf(),
            match item {
                Some(x) => {
                    &&& old(self).remaining().len() > 0
                    &&& x == old(self).remaining().last()
                    &&& final(self).remaining() == old(self).remaining().drop_last()
                    &&& final(self).counted() == old(self).counted() - 1
                },
                None => {
                    &&& old(self).remaining().len() == 0
                    &&& final(self).remaining() == old(self).remaining()
                    &&& final(self).counted() == old(self).counted()
                },
            },
    {
        self.0.next_back()
    }

    /// A lower and an upper limit of the number of items still to come: the
    /// number of nodes on the work-list, and the count.
    pub fn size_hint(&self) -> (hint: (usize, Option<usize>))
        ensures
            hint.0 == self.listed(),
            hint.1 == Some(self.counted()),
            self.listed() <= self.remaining().len(),
    {
        proof {
            self.0.lemma_listed();
        }
        (self.0.nodes.len(), Some(self.0.size))
    }
}

/// A work-list stands for at least one item for each of its nodes.
pub proof fn lemma_flat_len<N: NodeRef>(nodes: Seq<N>)
    ensures
        nodes.len() <= flat(nodes).len(),
    decreases nodes.len(),
{
    if nodes.len() > 0 {
        lemma_flat_len(nodes.drop_last());
    }
}

} // verus!
