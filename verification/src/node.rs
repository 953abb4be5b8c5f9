//! Nodes and links: the tree itself, and the searches that walk it.

use crate::model::{
    cut, extreme, index_of, is_part, lemma_cut_key, lemma_lookup_node, lemma_parts, lemma_put_node,
    lemma_put_sorted, lemma_rank_node, lemma_sorted_subrange, len_of, lookup, put, rank_lt, sorted,
};
use crate::order::{strict_weak_order, Comparator};
use std::cmp::Ordering;
use vstd::prelude::*;

pub mod entry;
pub mod iter;
pub mod path;

verus! {

/// An owning slot: empty, or one node with all that hangs below it.
pub type Link<K, V> = Option<Box<Node<K, V>>>;

/// One entry of the tree with its two subtrees.
pub struct Node<K, V> {
    left: Link<K, V>,
    right: Link<K, V>,
    key: K,
    value: V,
}

/// Entry by entry, the keys and values of `c` are clones of those of `s`.
pub open spec fn copied<K: Clone, V: Clone>(s: Seq<(K, V)>, c: Seq<(K, V)>) -> bool {
    &&& c.len() == s.len()
    &&& forall|i: int|
        0 <= i < s.len() ==> cloned((#[trigger] s[i]).0, c[i].0) && cloned(s[i].1, c[i].1)
}

/// Copies of the three parts of a sequence make a copy of the sequence.
proof fn lemma_copied<K: Clone, V: Clone>(
    l: Seq<(K, V)>,
    e: (K, V),
    r: Seq<(K, V)>,
    l2: Seq<(K, V)>,
    e2: (K, V),
    r2: Seq<(K, V)>,
)
    requires
        copied(l, l2),
        copied(r, r2),
        cloned(e.0, e2.0),
        cloned(e.1, e2.1),
    ensures
        copied(l + seq![e] + r, l2 + seq![e2] + r2),
{
    let s = l + seq![e] + r;
    let c = l2 + seq![e2] + r2;
    let n = l.len() as int;
    assert forall|i: int| 0 <= i < s.len() implies cloned((#[trigger] s[i]).0, c[i].0) && cloned(
        s[i].1,
        c[i].1,
    ) by {
        if i < n {
            assert(s[i] == l[i] && c[i] == l2[i]);
        } else if i > n {
            assert(s[i] == r[i - n - 1] && c[i] == r2[i - n - 1]);
        }
    }
}

/// A copy of the tree below `link`, node for node: each key and each value
/// is a clone of the one in whose place it stands.
pub fn clone_link<K: Clone, V: Clone>(link: &Link<K, V>) -> (copy: Link<K, V>)
    ensures
        copied(entries(*link), entries(copy)),
        forall|t: Seq<bool>| (#[trigger] descend(copy, t)) is Some <==> descend(*link, t) is Some,
    decreases *link,
{
    match link {
        None => None,
        Some(node) => {
            let left = clone_link(&node.left);
            let right = clone_link(&node.right);
            let key = node.key.clone();
            let value = node.value.clone();
            let copy = Some(Box::new(Node { left, right, key, value }));
            proof {
                lemma_copied(
                    entries(node.left),
                    (node.key, node.value),
                    entries(node.right),
                    entries(left),
                    (key, value),
                    entries(right),
                );
                assert forall|t: Seq<bool>| (#[trigger] descend(copy, t)) is Some <==> descend(
                    *link,
                    t,
                ) is Some by {
                    if t.len() > 0 {
                        if t[0] {
                            assert(descend(right, t.skip(1)) is Some <==> descend(
                                node.right,
                                t.skip(1),
                            ) is Some);
                        } else {
                            assert(descend(left, t.skip(1)) is Some <==> descend(
                                node.left,
                                t.skip(1),
                            ) is Some);
                        }
                    }
                }
            }
            copy
        },
    }
}

impl<K: Clone, V: Clone> Clone for Node<K, V> {
    /// A copy of the node with copies of all that is below it.
    fn clone(&self) -> (copy: Self)
        ensures
            copied(entries(Some(Box::new(*self))), entries(Some(Box::new(copy)))),
    {
        let copy = Node {
            left: clone_link(&self.left),
            right: clone_link(&self.right),
            key: self.key.clone(),
            value: self.value.clone(),
        };
        proof {
            lemma_copied(
                entries(self.left),
                (self.key, self.value),
                entries(self.right),
                entries(copy.left),
                (copy.key, copy.value),
                entries(copy.right),
            );
        }
        copy
    }
}

/// The entries below `link`, read from left to right.
pub closed spec fn entries<K, V>(link: Link<K, V>) -> Seq<(K, V)>
    decreases link,
{
    match link {
        None => Seq::empty(),
        Some(node) => entries(node.left) + seq![(node.key, node.value)] + entries(node.right),
    }
}

/// How many entries stand before the root entry of `link`: the size of its
/// left subtree.
pub closed spec fn root_index<K, V>(link: Link<K, V>) -> int {
    match link {
        None => 0,
        Some(node) => entries(node.left).len() as int,
    }
}

/// The entry in the node that `link` owns.
pub closed spec fn root_entry<K, V>(link: Link<K, V>) -> Option<(K, V)> {
    match link {
        None => None,
        Some(node) => Some((node.key, node.value)),
    }
}

/// The left or the right link of the node that `link` owns.
pub closed spec fn child<K, V>(link: Link<K, V>, right: bool) -> Link<K, V> {
    match link {
        None => None,
        Some(node) => if right {
            node.right
        } else {
            node.left
        },
    }
}

/// The link that `turns` lead to from `link`: turn by turn, in the order
/// taken, `false` goes to the left child and `true` to the right.
pub closed spec fn descend<K, V>(link: Link<K, V>, turns: Seq<bool>) -> Link<K, V>
    decreases turns.len(),
{
    if turns.len() == 0 {
        link
    } else {
        descend(child(link, turns[0]), turns.skip(1))
    }
}

/// Every turn of `turns` is taken at a node.
pub closed spec fn reaches<K, V>(link: Link<K, V>, turns: Seq<bool>) -> bool
    decreases turns.len(),
{
    turns.len() == 0 || (link is Some && reaches(child(link, turns[0]), turns.skip(1)))
}

/// `link` with `sub` in the place of the link that `turns` lead to.
pub closed spec fn graft<K, V>(link: Link<K, V>, turns: Seq<bool>, sub: Link<K, V>) -> Link<K, V>
    decreases turns.len(),
{
    if turns.len() == 0 {
        sub
    } else {
        match link {
            None => None,
            Some(node) => if turns[0] {
                Some(
                    Box::new(
                        Node {
                            left: node.left,
                            right: graft(node.right, turns.skip(1), sub),
                            key: node.key,
                            value: node.value,
                        },
                    ),
                )
            } else {
                Some(
                    Box::new(
                        Node {
                            left: graft(node.left, turns.skip(1), sub),
                            right: node.right,
                            key: node.key,
                            value: node.value,
                        },
                    ),
                )
            },
        }
    }
}

/// `after` is `before` without its least node: the last node on the way
/// that always turns left has given its place to its right child, and
/// nothing else has changed.
pub open spec fn least_out<K, V>(before: Link<K, V>, after: Link<K, V>) -> bool {
    exists|t: Seq<bool>|
        {
            &&& forall|i: int| 0 <= i < t.len() ==> !t[i]
            &&& reaches(before, t)
            &&& (#[trigger] descend(before, t)) is Some
            &&& child(descend(before, t), false) is None
            &&& after == graft(before, t, child(descend(before, t), true))
        }
}

/// `after` is `before` with the entry of its root taken out. A root without
/// a right child has given its place to its left child. A root whose right
/// child has no left child has given its place to that child, which took
/// over the left child. Else the root holds the least entry from below its
/// right child, and the node that held it is out.
pub open spec fn spliced_out<K, V>(before: Link<K, V>, after: Link<K, V>) -> bool {
    match (child(before, true), child(child(before, true), false)) {
        (None, _) => after == child(before, false),
        (Some(_), None) => {
            &&& root_entry(after) == root_entry(child(before, true))
            &&& child(after, false) == child(before, false)
            &&& child(after, true) == child(child(before, true), true)
        },
        (Some(_), Some(_)) => {
            &&& root_entry(after) == Some(entries(child(before, true))[0])
            &&& child(after, false) == child(before, false)
            &&& root_entry(child(after, true)) == root_entry(child(before, true))
            &&& child(child(after, true), true) == child(child(before, true), true)
            &&& least_out(child(child(before, true), false), child(child(after, true), false))
        },
    }
}

/// `after` is `before` with the node that held `e` taken out where it
/// stood, and nothing else changed.
pub open spec fn takes_out<K, V>(before: Link<K, V>, after: Link<K, V>, e: (K, V)) -> bool {
    exists|t: Seq<bool>|
        {
            &&& reaches(before, t)
            &&& root_entry(#[trigger] descend(before, t)) == Some(e)
            &&& spliced_out(descend(before, t), descend(after, t))
            &&& after == graft(before, t, descend(after, t))
        }
}

/// What was put in the place of a link is found there.
pub proof fn lemma_descend_graft<K, V>(link: Link<K, V>, turns: Seq<bool>, sub: Link<K, V>)
    requires
        reaches(link, turns),
    ensures
        reaches(graft(link, turns, sub), turns),
        descend(graft(link, turns, sub), turns) == sub,
    decreases turns.len(),
{
    if turns.len() > 0 {
        lemma_descend_graft(child(link, turns[0]), turns.skip(1), sub);
    }
}

/// The least node below the left child of a node is the least node below
/// the node.
proof fn lemma_least_below<K, V>(before: Link<K, V>, after: Link<K, V>)
    requires
        before is Some,
        after is Some,
        root_entry(after) == root_entry(before),
        child(after, true) == child(before, true),
        least_out(child(before, false), child(after, false)),
    ensures
        least_out(before, after),
{
    let below = choose|t: Seq<bool>|
        {
            &&& forall|i: int| 0 <= i < t.len() ==> !t[i]
            &&& reaches(child(before, false), t)
            &&& (#[trigger] descend(child(before, false), t)) is Some
            &&& child(descend(child(before, false), t), false) is None
            &&& child(after, false) == graft(
                child(before, false),
                t,
                child(descend(child(before, false), t), true),
            )
        };
    let t = seq![false] + below;
    assert(t.skip(1) =~= below);
    assert(!t[0]);
    assert forall|i: int| 0 <= i < t.len() implies !t[i] by {
        if i > 0 {
            assert(t[i] == below[i - 1]);
        }
    }
    assert(reaches(before, t));
    assert(descend(before, t) == descend(child(before, false), below));
    assert(after == graft(before, t, child(descend(before, t), true)));
}

/// A node without a left child is the least, and its right child takes its
/// place.
proof fn lemma_least_here<K, V>(before: Link<K, V>)
    requires
        before is Some,
        child(before, false) is None,
    ensures
        least_out(before, child(before, true)),
{
    let t = Seq::<bool>::empty();
    assert(reaches(before, t));
    assert(descend(before, t) == before);
    assert(child(before, true) == graft(before, t, child(descend(before, t), true)));
}

/// Both links are empty, or both own a node and the two nodes hold the same
/// key.
pub open spec fn same_root<K, V>(before: Link<K, V>, after: Link<K, V>) -> bool {
    match (root_entry(before), root_entry(after)) {
        (Some(x), Some(y)) => x.0 == y.0,
        (None, None) => true,
        _ => false,
    }
}

/// The two trees have the same form: a node stands in the one wherever a
/// node stands in the other, and the two hold the same key.
pub open spec fn same_form<K, V>(before: Link<K, V>, after: Link<K, V>) -> bool {
    forall|t: Seq<bool>| same_root(#[trigger] descend(before, t), descend(after, t))
}

/// Two trees have the same form where their roots agree and their children
/// have the same form.
pub proof fn lemma_same_form<K, V>(before: Link<K, V>, after: Link<K, V>)
    requires
        same_root(before, after),
        same_form(child(before, false), child(after, false)),
        same_form(child(before, true), child(after, true)),
    ensures
        same_form(before, after),
{
    assert forall|t: Seq<bool>| same_root(#[trigger] descend(before, t), descend(after, t)) by {
        if t.len() > 0 {
            let rest = t.skip(1);
            assert(same_root(
                descend(child(before, t[0]), rest),
                descend(child(after, t[0]), rest),
            ));
        }
    }
}

/// `link` owns a node that holds `e` and has no child.
pub open spec fn is_leaf<K, V>(link: Link<K, V>, e: (K, V)) -> bool {
    &&& root_entry(link) == Some(e)
    &&& child(link, false) is None
    &&& child(link, true) is None
}

/// Every node of `before` stands in `after` where it stood, with the entry
/// it had or with `e`.
pub open spec fn keeps_places<K, V>(before: Link<K, V>, after: Link<K, V>, e: (K, V)) -> bool {
    forall|t: Seq<bool>|
        reaches(before, t) && (#[trigger] descend(before, t)) is Some ==> {
            &&& reaches(after, t)
            &&& descend(after, t) is Some
            &&& (root_entry(descend(after, t)) == root_entry(descend(before, t)) || root_entry(
                descend(after, t),
            ) == Some(e))
        }
}

/// `after` has a leaf that holds `e` at a link that is empty in `before`.
pub open spec fn hangs_leaf<K, V>(before: Link<K, V>, after: Link<K, V>, e: (K, V)) -> bool {
    exists|t: Seq<bool>|
        reaches(before, t) && (#[trigger] descend(before, t)) is None && is_leaf(
            descend(after, t),
            e,
        )
}

/// A tree keeps the places of its nodes where its root keeps its entry or
/// takes `e`, one child stays as it is, and the other keeps the places of
/// its nodes.
pub proof fn lemma_keeps_below<K, V>(before: Link<K, V>, after: Link<K, V>, e: (K, V), right: bool)
    requires
        before is Some,
        after is Some,
        root_entry(after) == root_entry(before) || root_entry(after) == Some(e),
        child(after, !right) == child(before, !right),
        keeps_places(child(before, right), child(after, right), e),
    ensures
        keeps_places(before, after, e),
{
    assert forall|t: Seq<bool>| reaches(before, t) && (#[trigger] descend(before, t)) is Some implies {
        &&& reaches(after, t)
        &&& descend(after, t) is Some
        &&& (root_entry(descend(after, t)) == root_entry(descend(before, t)) || root_entry(
            descend(after, t),
        ) == Some(e))
    } by {
        if t.len() > 0 && t[0] == right {
            let rest = t.skip(1);
            assert(reaches(child(before, right), rest));
            assert(descend(child(before, right), rest) is Some);
        }
    }
}

/// A tree of which nothing changed keeps the places of its nodes.
pub proof fn lemma_keeps_same<K, V>(link: Link<K, V>, e: (K, V))
    ensures
        keeps_places(link, link, e),
{
}

/// A leaf that hangs below a child of a node hangs below the node.
pub proof fn lemma_hangs_below<K, V>(before: Link<K, V>, after: Link<K, V>, e: (K, V), right: bool)
    requires
        before is Some,
        after is Some,
        hangs_leaf(child(before, right), child(after, right), e),
    ensures
        hangs_leaf(before, after, e),
{
    let below = choose|t: Seq<bool>|
        reaches(child(before, right), t) && (#[trigger] descend(child(before, right), t)) is None
            && is_leaf(descend(child(after, right), t), e);
    let t = seq![right] + below;
    assert(t.skip(1) =~= below);
    assert(t[0] == right);
    assert(reaches(before, t));
    assert(descend(before, t) is None);
    assert(is_leaf(descend(after, t), e));
}

/// A leaf in the place of an empty link hangs there, and keeps the places
/// of all the nodes that there were: none.
pub proof fn lemma_hangs_here<K, V>(after: Link<K, V>, e: (K, V))
    requires
        is_leaf(after, e),
    ensures
        hangs_leaf(None, after, e),
        keeps_places(None, after, e),
{
    let t = Seq::<bool>::empty();
    assert(reaches(None::<Box<Node<K, V>>>, t));
    assert(descend(None::<Box<Node<K, V>>>, t) is None);
    assert(is_leaf(descend(after, t), e));
}

/// A leaf put in the place of an empty link of a tree hangs there, and
/// every node of the tree keeps its place and its entry.
pub proof fn lemma_graft_leaf<K, V>(link: Link<K, V>, turns: Seq<bool>, sub: Link<K, V>, e: (K, V))
    requires
        reaches(link, turns),
        descend(link, turns) is None,
        is_leaf(sub, e),
    ensures
        hangs_leaf(link, graft(link, turns, sub), e),
        keeps_places(link, graft(link, turns, sub), e),
    decreases turns.len(),
{
    if turns.len() == 0 {
        lemma_hangs_here(sub, e);
    } else {
        let right = turns[0];
        let after = graft(link, turns, sub);
        lemma_graft_leaf(child(link, right), turns.skip(1), sub, e);
        assert(child(after, right) == graft(child(link, right), turns.skip(1), sub));
        lemma_keeps_below(link, after, e, right);
        lemma_hangs_below(link, after, e, right);
    }
}

/// A node put in the place of a node of a tree, with the children that
/// node had, leaves every node of the tree in its place, with its entry or
/// with the entry of the node put in.
pub proof fn lemma_graft_entry<K, V>(link: Link<K, V>, turns: Seq<bool>, sub: Link<K, V>, e: (K, V))
    requires
        reaches(link, turns),
        descend(link, turns) is Some,
        root_entry(sub) == Some(e),
        child(sub, false) == child(descend(link, turns), false),
        child(sub, true) == child(descend(link, turns), true),
    ensures
        keeps_places(link, graft(link, turns, sub), e),
    decreases turns.len(),
{
    if turns.len() == 0 {
        lemma_keeps_same(child(link, false), e);
        lemma_keeps_below(link, sub, e, false);
    } else {
        let right = turns[0];
        let after = graft(link, turns, sub);
        lemma_graft_entry(child(link, right), turns.skip(1), sub, e);
        assert(child(after, right) == graft(child(link, right), turns.skip(1), sub));
        lemma_keeps_below(link, after, e, right);
    }
}

/// What is put in the place of a link takes the place of what was put
/// there before.
pub proof fn lemma_graft_graft<K, V>(
    link: Link<K, V>,
    turns: Seq<bool>,
    first: Link<K, V>,
    then: Link<K, V>,
)
    requires
        reaches(link, turns),
    ensures
        graft(graft(link, turns, first), turns, then) == graft(link, turns, then),
    decreases turns.len(),
{
    if turns.len() > 0 {
        lemma_graft_graft(child(link, turns[0]), turns.skip(1), first, then);
    }
}

/// A link put in its own place changes nothing.
pub proof fn lemma_graft_same<K, V>(link: Link<K, V>, turns: Seq<bool>)
    requires
        reaches(link, turns),
    ensures
        graft(link, turns, descend(link, turns)) == link,
    decreases turns.len(),
{
    if turns.len() > 0 {
        lemma_graft_same(child(link, turns[0]), turns.skip(1));
    }
}

/// Where the node in one place of a tree gives way to a node with the same
/// children, every node of the tree keeps its place, with its entry or with
/// the entry of the new node.
pub proof fn lemma_grown_entry<K, V>(
    link: Link<K, V>,
    turns: Seq<bool>,
    now: Link<K, V>,
    then: Link<K, V>,
    e: (K, V),
)
    requires
        reaches(link, turns),
        now is Some,
        root_entry(then) == Some(e),
        child(then, false) == child(now, false),
        child(then, true) == child(now, true),
    ensures
        keeps_places(graft(link, turns, now), graft(link, turns, then), e),
{
    lemma_descend_graft(link, turns, now);
    lemma_graft_entry(graft(link, turns, now), turns, then, e);
    lemma_graft_graft(link, turns, now, then);
}

/// Where the node in one place of a tree is taken out, it is taken out of
/// the tree, and nothing else changes.
pub proof fn lemma_grown_out<K, V>(
    link: Link<K, V>,
    turns: Seq<bool>,
    now: Link<K, V>,
    then: Link<K, V>,
    e: (K, V),
)
    requires
        reaches(link, turns),
        root_entry(now) == Some(e),
        spliced_out(now, then),
    ensures
        takes_out(graft(link, turns, now), graft(link, turns, then), e),
{
    let before = graft(link, turns, now);
    let after = graft(link, turns, then);
    lemma_descend_graft(link, turns, now);
    lemma_descend_graft(link, turns, then);
    lemma_graft_graft(link, turns, now, then);
    assert(reaches(before, turns));
    assert(root_entry(descend(before, turns)) == Some(e));
    assert(spliced_out(descend(before, turns), descend(after, turns)));
    assert(after == graft(before, turns, descend(after, turns)));
}

/// An empty link has no entries, and a full one has its root entry at
/// `root_index`.
pub proof fn lemma_entries_shape<K, V>(link: Link<K, V>)
    ensures
        link is None <==> entries(link).len() == 0,
        link is None <==> root_entry(link) is None,
        link is None ==> root_index(link) == 0,
        0 <= root_index(link),
        link is Some ==> root_index(link) < entries(link).len(),
        link is Some ==> root_entry(link) == Some(entries(link)[root_index(link)]),
{
}

/// Reading the entry that a link owns.
pub trait LinkExt: Sized {
    type K;

    type V;

    /// The key and the value in the node that the link owns.
    fn key_value(&self) -> Option<(&Self::K, &Self::V)>;

    /// The same, with the value open to change.
    fn key_value_mut(&mut self) -> Option<(&Self::K, &mut Self::V)>;
}

impl<K, V> LinkExt for Link<K, V> {
    type K = K;

    type V = V;

    fn key_value(&self) -> (kv: Option<(&K, &V)>)
        ensures
            match kv {
                None => root_entry(*self) is None,
                Some((k, v)) => root_entry(*self) == Some((*k, *v)),
            },
    {
        match self {
            None => None,
            Some(node) => Some((&node.key, &node.value)),
        }
    }

    fn key_value_mut(&mut self) -> (kv: Option<(&K, &mut V)>)
        ensures
            match kv {
                None => root_entry(*old(self)) is None && *final(self) == *old(self),
                Some((k, v)) => {
                    &&& root_entry(*old(self)) == Some((*k, *v))
                    &&& root_entry(*final(self)) == Some((*k, *final(v)))
                    &&& child(*final(self), false) == child(*old(self), false)
                    &&& child(*final(self), true) == child(*old(self), true)
                    &&& root_index(*final(self)) == root_index(*old(self))
                    &&& entries(*final(self)) == entries(*old(self)).update(
                        root_index(*old(self)),
                        (*k, *final(v)),
                    )
                },
            },
    {
        match self {
            None => None,
            Some(node) => {
                proof {
                    let l = entries(node.left);
                    let r = entries(node.right);
                    assert forall|x: V|
                        (l + seq![(node.key, node.value)] + r).update(
                            l.len() as int,
                            (node.key, x),
                        ) == l + seq![(node.key, x)] + r by {
                        assert((l + seq![(node.key, node.value)] + r).update(
                            l.len() as int,
                            (node.key, x),
                        ) =~= l + seq![(node.key, x)] + r);
                    }
                }
                Some((&node.key, &mut node.value))
            },
        }
    }
}

/// A side of a node, as a type.
pub trait Dir {
    /// Whether this is the side of the smaller keys.
    spec fn leftward() -> bool;

    /// Whether this is the side of the smaller keys.
    fn is_left() -> (b: bool)
        ensures
            b == Self::leftward(),
    ;
}

/// The side of the smaller keys.
pub enum Left {
    Left,
}

/// The side of the larger keys.
pub enum Right {
    Right,
}

impl Dir for Left {
    open spec fn leftward() -> bool {
        true
    }

    fn is_left() -> (b: bool) {
        true
    }
}

impl Dir for Right {
    open spec fn leftward() -> bool {
        false
    }

    fn is_left() -> (b: bool) {
        false
    }
}

/// In a sorted tree both subtrees of a node are sorted, every key on the
/// left comes before the key of the node, and every key on the right after
/// it.
proof fn lemma_node_parts<K, V, C: Comparator<K>>(c: &C, node: Node<K, V>)
    requires
        strict_weak_order(c),
        sorted(c, entries(Some(Box::new(node)))),
    ensures
        sorted(c, entries(node.left)),
        sorted(c, entries(node.right)),
        forall|i: int|
            0 <= i < entries(node.left).len() ==> c.lt(
                #[trigger] entries(node.left)[i].0,
                node.key,
            ),
        forall|i: int|
            0 <= i < entries(node.right).len() ==> c.lt(
                node.key,
                #[trigger] entries(node.right)[i].0,
            ),
{
    let l = entries(node.left);
    let r = entries(node.right);
    let s = entries(Some(Box::new(node)));
    let n = l.len() as int;
    assert(s == l + seq![(node.key, node.value)] + r);
    assert(s.subrange(0, n) =~= l);
    assert(s.subrange(n + 1, s.len() as int) =~= r);
    lemma_sorted_subrange(c, s, 0, n);
    lemma_sorted_subrange(c, s, n + 1, s.len() as int);
    assert(s[n] == (node.key, node.value));
    assert forall|i: int| 0 <= i < l.len() implies c.lt(#[trigger] l[i].0, node.key) by {
        assert(s[i] == l[i]);
        assert(c.lt(s[i].0, s[n].0));
    }
    assert forall|i: int| 0 <= i < r.len() implies c.lt(node.key, #[trigger] r[i].0) by {
        assert(s[n + 1 + i] == r[i]);
        assert(c.lt(s[n].0, s[n + 1 + i].0));
    }
}

/// Puts `key` with `value` below `link`. Where an equivalent key is stored
/// already, the new key takes its place and the value it had is returned.
pub fn insert<K, V, C: Comparator<K>>(link: &mut Link<K, V>, order: &C, key: K, value: V) -> (prev:
    Option<V>)
    requires
        strict_weak_order(order),
        sorted(order, entries(*old(link))),
    ensures
        entries(*final(link)) == put(order, entries(*old(link)), key, value),
        sorted(order, entries(*final(link))),
        prev == match lookup(order, entries(*old(link)), key) {
            Some(e) => Some(e.1),
            None => None,
        },
        keeps_places(*old(link), *final(link), (key, value)),
        lookup(order, entries(*old(link)), key) is None ==> hangs_leaf(
            *old(link),
            *final(link),
            (key, value),
        ),
    decreases *old(link),
{
    proof {
        lemma_put_sorted(order, entries(*link), key, value);
        lemma_cut_key(order, entries(*link), key);
    }
    let ghost e = (key, value);
    match link {
        None => {
            *link = Some(Box::new(Node { left: None, right: None, key, value }));
            proof {
                assert(entries(*link) =~= seq![(key, value)]);
                assert(put(order, Seq::<(K, V)>::empty(), key, value) =~= seq![(key, value)]);
                lemma_hangs_here(*link, e);
            }
            None
        },
        Some(node) => {
            let ghost before = Some(Box::new(**node));
            proof {
                lemma_node_parts(order, **node);
                lemma_put_node(
                    order,
                    entries(node.left),
                    (node.key, node.value),
                    entries(node.right),
                    key,
                    value,
                );
                lemma_lookup_node(
                    order,
                    entries(node.left),
                    (node.key, node.value),
                    entries(node.right),
                    key,
                );
            }
            match order.compare(&key, &node.key) {
                Ordering::Equal => {
                    let mut value = value;
                    node.key = key;
                    std::mem::swap(&mut node.value, &mut value);
                    proof {
                        lemma_keeps_same(node.left, e);
                        lemma_keeps_below(before, Some(Box::new(**node)), e, false);
                    }
                    Some(value)
                },
                Ordering::Less => {
                    let prev = insert(&mut node.left, order, key, value);
                    proof {
                        lemma_keeps_below(before, Some(Box::new(**node)), e, false);
                        if prev is None {
                            lemma_hangs_below(before, Some(Box::new(**node)), e, false);
                        }
                    }
                    prev
                },
                Ordering::Greater => {
                    let prev = insert(&mut node.right, order, key, value);
                    proof {
                        lemma_keeps_below(before, Some(Box::new(**node)), e, true);
                        if prev is None {
                            lemma_hangs_below(before, Some(Box::new(**node)), e, true);
                        }
                    }
                    prev
                },
            }
        },
    }
}

/// Walks down from `link` by comparing `key` with each node's key, and
/// returns the link that owns the node with an equivalent key, or the empty
/// link where such a node would hang.
pub fn get<'a, Q, K, V, C: Comparator<Q, K>>(link: &'a Link<K, V>, order: &C, key: &Q) -> (found:
    &'a Link<K, V>)
    requires
        cut(order, entries(*link), *key),
    ensures
        root_entry(*found) == lookup(order, entries(*link), *key),
        is_part(
            entries(*link),
            entries(*found),
            index_of(order, entries(*link), *key) - root_index(*found),
        ),
{
    let mut cur = link;
    let ghost mut at: int = 0;
    proof {
        assert(entries(*link).subrange(0, len_of(entries(*link))) =~= entries(*link));
    }
    loop
        invariant
            cut(order, entries(*cur), *key),
            lookup(order, entries(*cur), *key) == lookup(order, entries(*link), *key),
            is_part(entries(*link), entries(*cur), at),
            at + rank_lt(order, entries(*cur), *key) == rank_lt(order, entries(*link), *key),
        decreases *cur,
    {
        match cur {
            None => {
                return cur;
            },
            Some(node) => {
                proof {
                    lemma_lookup_node(
                        order,
                        entries(node.left),
                        (node.key, node.value),
                        entries(node.right),
                        *key,
                    );
                    lemma_rank_node(
                        order,
                        entries(node.left),
                        (node.key, node.value),
                        entries(node.right),
                        *key,
                    );
                    lemma_parts(
                        entries(*link),
                        entries(node.left),
                        (node.key, node.value),
                        entries(node.right),
                        at,
                    );
                }
                match order.compare(key, &node.key) {
                    Ordering::Equal => {
                        return cur;
                    },
                    Ordering::Less => {
                        cur = &node.left;
                    },
                    Ordering::Greater => {
                        proof {
                            at = at + len_of(entries(node.left)) + 1;
                        }
                        cur = &node.right;
                    },
                }
            },
        }
    }
}

/// Walks down from `link` always to the side `D`, and returns the link that
/// owns the last node on that way: the one with the least key for `Left`,
/// with the greatest for `Right`.
pub fn extremum<'a, K, V, D: Dir>(link: &'a Link<K, V>) -> (found: &'a Link<K, V>)
    ensures
        root_entry(*found) == extreme(entries(*link), D::leftward()),
        is_part(
            entries(*link),
            entries(*found),
            if D::leftward() {
                0
            } else {
                entries(*link).len() - entries(*found).len()
            },
        ),
{
    let left = D::is_left();
    let mut cur = link;
    let ghost mut at: int = 0;
    proof {
        assert(entries(*link).subrange(0, len_of(entries(*link))) =~= entries(*link));
    }
    loop
        invariant
            left == D::leftward(),
            extreme(entries(*cur), left) == extreme(entries(*link), left),
            is_part(entries(*link), entries(*cur), at),
            left ==> at == 0,
            !left ==> at + entries(*cur).len() == entries(*link).len(),
        decreases *cur,
    {
        match cur {
            None => {
                return cur;
            },
            Some(node) => {
                let child = if left {
                    &node.left
                } else {
                    &node.right
                };
                proof {
                    lemma_parts(
                        entries(*link),
                        entries(node.left),
                        (node.key, node.value),
                        entries(node.right),
                        at,
                    );
                }
                if child.is_some() {
                    proof {
                        lemma_entries_shape(*child);
                        if !left {
                            at = at + len_of(entries(node.left)) + 1;
                        }
                    }
                    cur = child;
                } else {
                    proof {
                        lemma_entries_shape(*child);
                    }
                    return cur;
                }
            },
        }
    }
}

/// Takes the least entry out of the tree below `link`: the node that holds
/// it gives its place to its right child.
fn take_least<K, V>(link: &mut Link<K, V>) -> (kv: (K, V))
    requires
        *old(link) is Some,
    ensures
        kv == entries(*old(link))[0],
        entries(*final(link)) == entries(*old(link)).skip(1),
        least_out(*old(link), *final(link)),
    decreases *old(link),
{
    let further = match link {
        Some(node) => node.left.is_some(),
        None => false,
    };
    if further {
        match link {
            Some(node) => {
                proof {
                    lemma_entries_shape(node.left);
                    let l = entries(node.left);
                    let e = (node.key, node.value);
                    let r = entries(node.right);
                    assert((l + seq![e] + r).skip(1) =~= l.skip(1) + seq![e] + r);
                }
                let ghost before = Some(Box::new(**node));
                let kv = take_least(&mut node.left);
                proof {
                    lemma_least_below(before, Some(Box::new(**node)));
                }
                kv
            },
            None => unreached(),
        }
    } else {
        let ghost before = *link;
        match link.take() {
            Some(node) => {
                let Node { left, right, key, value } = *node;
                proof {
                    lemma_entries_shape(left);
                    assert((entries(left) + seq![(key, value)] + entries(right)).skip(1)
                        =~= entries(right));
                    lemma_least_here(before);
                }
                *link = right;
                (key, value)
            },
            None => unreached(),
        }
    }
}

/// Takes the entry of the node that `slot` owns out of the tree. A node
/// without a right child gives its place to its left child. Else the entry
/// that follows it in the order takes the place: the right child itself
/// where that has no left child, and otherwise the least entry below the
/// right child, which is cut out from where it hung.
pub fn remove_root<K, V>(slot: &mut Link<K, V>) -> (kv: (K, V))
    requires
        *old(slot) is Some,
    ensures
        root_entry(*old(slot)) == Some(kv),
        entries(*final(slot)) == entries(*old(slot)).remove(root_index(*old(slot))),
        spliced_out(*old(slot), *final(slot)),
{
    match slot.take() {
        None => unreached(),
        Some(mut node) => {
            let ghost l = entries(node.left);
            let ghost r = entries(node.right);
            let ghost e = (node.key, node.value);
            proof {
                assert((l + seq![e] + r).remove(l.len() as int) =~= l + r);
            }
            match node.right.take() {
                None => {
                    *slot = node.left.take();
                    let Node { left: _, right: _, key, value } = *node;
                    (key, value)
                },
                Some(mut next) => {
                    if next.left.is_none() {
                        proof {
                            lemma_entries_shape(next.left);
                            assert(l + (Seq::<(K, V)>::empty() + seq![(next.key, next.value)]
                                + entries(next.right)) =~= l + seq![(next.key, next.value)]
                                + entries(next.right));
                        }
                        next.left = node.left.take();
                        *slot = Some(next);
                        let Node { left: _, right: _, key, value } = *node;
                        (key, value)
                    } else {
                        proof {
                            lemma_entries_shape(next.left);
                        }
                        let (mut key, mut value) = take_least(&mut next.left);
                        proof {
                            assert(seq![(key, value)] + r.skip(1) =~= r);
                            assert(r.skip(1) =~= entries(Some(next)));
                        }
                        node.right = Some(next);
                        std::mem::swap(&mut node.key, &mut key);
                        std::mem::swap(&mut node.value, &mut value);
                        proof {
                            assert(l + seq![(node.key, node.value)] + r.skip(1) =~= l + r);
                        }
                        *slot = Some(node);
                        (key, value)
                    }
                },
            }
        },
    }
}

} // verus!
