//! Paths: the turns taken from the root down to a link, kept so that the
//! link can be reached again, this time to change it, without comparing a
//! key a second time.

use super::{
    child, descend, entries, graft, keeps_places, lemma_descend_graft, lemma_entries_shape,
    lemma_graft_entry, reaches, remove_root, root_entry, root_index, takes_out, Dir, Link, LinkExt,
};
use crate::model::{
    cut, extreme, extreme_index, lemma_lookup_node, lemma_rank_node, lookup, neighbor,
    neighbor_index, rank_lt, splice,
};
use crate::order::Comparator;
use std::cmp::Ordering;
use vstd::prelude::*;

verus! {

/// The turns from a root down to one of the links below it, in the order
/// taken: `false` for the left child, `true` for the right.
pub struct Path {
    turns: Vec<bool>,
}

/// How many entries of `link` come before those of the link that `turns`
/// lead to.
pub closed spec fn offset<K, V>(link: Link<K, V>, turns: Seq<bool>) -> int
    decreases turns.len(),
{
    if turns.len() == 0 {
        0
    } else {
        (if turns[0] {
            root_index(link) + 1
        } else {
            0int
        }) + offset(child(link, turns[0]), turns.skip(1))
    }
}

impl Path {
    /// The turns of the path.
    pub closed spec fn view(&self) -> Seq<bool> {
        self.turns@
    }
}

/// The entries of the link at the end of a path are a contiguous part of the
/// entries of the root, starting at `offset`.
pub proof fn lemma_descend_range<K, V>(link: Link<K, V>, turns: Seq<bool>)
    requires
        reaches(link, turns),
    ensures
        0 <= offset(link, turns),
        offset(link, turns) + entries(descend(link, turns)).len() <= entries(link).len(),
        entries(descend(link, turns)) == entries(link).subrange(
            offset(link, turns),
            offset(link, turns) + entries(descend(link, turns)).len(),
        ),
    decreases turns.len(),
{
    if turns.len() == 0 {
        assert(entries(link) =~= entries(link).subrange(0, entries(link).len() as int));
    } else {
        let sub = child(link, turns[0]);
        lemma_descend_range(sub, turns.skip(1));
        let o = offset(sub, turns.skip(1));
        let n = entries(descend(link, turns)).len() as int;
        let node = link->0;
        let l = entries(node.left);
        let r = entries(node.right);
        if turns[0] {
            assert(r.subrange(o, o + n) =~= entries(link).subrange(l.len() + 1 + o, l.len() + 1 + o + n));
        } else {
            assert(l.subrange(o, o + n) =~= entries(link).subrange(o, o + n));
        }
    }
}

/// One more turn at the end of a path that ends at a node.
pub proof fn lemma_descend_push<K, V>(link: Link<K, V>, turns: Seq<bool>, right: bool)
    requires
        reaches(link, turns),
        descend(link, turns) is Some,
    ensures
        reaches(link, turns.push(right)),
        descend(link, turns.push(right)) == child(descend(link, turns), right),
        offset(link, turns.push(right)) == offset(link, turns) + if right {
            root_index(descend(link, turns)) + 1
        } else {
            0int
        },
    decreases turns.len(),
{
    let more = turns.push(right);
    if turns.len() == 0 {
        assert(more.skip(1) =~= Seq::<bool>::empty());
        assert(more[0] == right);
        assert(reaches(child(link, right), more.skip(1)));
        assert(descend(child(link, right), more.skip(1)) == child(link, right));
        assert(offset(child(link, right), more.skip(1)) == 0);
    } else {
        assert(more.skip(1) =~= turns.skip(1).push(right));
        assert(more[0] == turns[0]);
        lemma_descend_push(child(link, turns[0]), turns.skip(1), right);
    }
}

/// Walks the turns of `path` from number `from` on, down from `link`, and
/// returns the link at their end.
pub fn follow_ref<'a, K, V>(link: &'a Link<K, V>, path: &Path, from: usize) -> (found: &'a Link<
    K,
    V,
>)
    requires
        from <= path@.len(),
        reaches(*link, path@.skip(from as int)),
    ensures
        *found == descend(*link, path@.skip(from as int)),
    decreases path@.len() - from,
{
    if from == path.turns.len() {
        link
    } else {
        proof {
            assert(path@.skip(from as int).skip(1) =~= path@.skip(from + 1));
        }
        match link {
            None => link,
            Some(node) => if path.turns[from] {
                follow_ref(&node.right, path, from + 1)
            } else {
                follow_ref(&node.left, path, from + 1)
            },
        }
    }
}

/// Walks the turns of `path` from number `from` on, down from `link`, and
/// returns the link at their end, open to change. Whatever that link holds
/// in the end stands in the tree where its entries stood.
pub fn follow<'a, K, V>(link: &'a mut Link<K, V>, path: &Path, from: usize) -> (slot: &'a mut Link<
    K,
    V,
>)
    requires
        from <= path@.len(),
        reaches(*old(link), path@.skip(from as int)),
    ensures
        *slot == descend(*old(link), path@.skip(from as int)),
        *final(link) == graft(*old(link), path@.skip(from as int), *final(slot)),
        entries(*final(link)) == splice(
            entries(*old(link)),
            offset(*old(link), path@.skip(from as int)),
            entries(*slot).len() as int,
            entries(*final(slot)),
        ),
    decreases path@.len() - from,
{
    proof {
        lemma_descend_range(*link, path@.skip(from as int));
    }
    if from == path.turns.len() {
        proof {
            let s = entries(*link);
            assert forall|t: Seq<(K, V)>| splice(s, 0, s.len() as int, t) == t by {
                assert(splice(s, 0, s.len() as int, t) =~= t);
            }
        }
        link
    } else {
        proof {
            assert(path@.skip(from as int).skip(1) =~= path@.skip(from + 1));
        }
        match link {
            None => link,
            Some(node) => {
                let ghost l = entries(node.left);
                let ghost r = entries(node.right);
                let ghost e = (node.key, node.value);
                let ghost rest = path@.skip(from + 1);
                if path.turns[from] {
                    proof {
                        lemma_descend_range(node.right, rest);
                        let o = offset(node.right, rest);
                        let n = entries(descend(node.right, rest)).len() as int;
                        assert forall|t: Seq<(K, V)>|
                            l + seq![e] + splice(r, o, n, t) == splice(
                                l + seq![e] + r,
                                l.len() + 1 + o,
                                n,
                                t,
                            ) by {
                            assert(l + seq![e] + splice(r, o, n, t) =~= splice(
                                l + seq![e] + r,
                                l.len() + 1 + o,
                                n,
                                t,
                            ));
                        }
                    }
                    follow(&mut node.right, path, from + 1)
                } else {
                    proof {
                        lemma_descend_range(node.left, rest);
                        let o = offset(node.left, rest);
                        let n = entries(descend(node.left, rest)).len() as int;
                        assert forall|t: Seq<(K, V)>|
                            splice(l, o, n, t) + seq![e] + r == splice(l + seq![e] + r, o, n, t) by {
                            assert(splice(l, o, n, t) + seq![e] + r =~= splice(
                                l + seq![e] + r,
                                o,
                                n,
                                t,
                            ));
                        }
                    }
                    follow(&mut node.left, path, from + 1)
                }
            },
        }
    }
}

/// Searches for `key` below `link` and returns the path to the link that
/// owns the node with an equivalent key, or to the empty link where such a
/// node would hang.
pub fn find_path<Q, K, V, C: Comparator<Q, K>>(link: &Link<K, V>, order: &C, key: &Q) -> (found: (
    Path,
    bool,
))
    requires
        cut(order, entries(*link), *key),
    ensures
        reaches(*link, found.0@),
        found.1 == (descend(*link, found.0@) is Some),
        root_entry(descend(*link, found.0@)) == lookup(order, entries(*link), *key),
        offset(*link, found.0@) + root_index(descend(*link, found.0@)) == rank_lt(
            order,
            entries(*link),
            *key,
        ),
{
    let mut turns: Vec<bool> = Vec::new();
    let mut cur = link;
    loop
        invariant
            cut(order, entries(*cur), *key),
            reaches(*link, turns@),
            *cur == descend(*link, turns@),
            lookup(order, entries(*cur), *key) == lookup(order, entries(*link), *key),
            offset(*link, turns@) + rank_lt(order, entries(*cur), *key) == rank_lt(
                order,
                entries(*link),
                *key,
            ),
        decreases *cur,
    {
        match cur {
            None => {
                return (Path { turns }, false);
            },
            Some(node) => {
                proof {
                    lemma_lookup_node(
                        order,
                        entries(node.left),
                        (node.key, node.value),
                        entries(node.right),
                        *key,
                    );
                    lemma_rank_node(
                        order,
                        entries(node.left),
                        (node.key, node.value),
                        entries(node.right),
                        *key,
                    );
                    lemma_descend_push(*link, turns@, false);
                    lemma_descend_push(*link, turns@, true);
                }
                match order.compare(key, &node.key) {
                    Ordering::Equal => {
                        return (Path { turns }, true);
                    },
                    Ordering::Less => {
                        turns.push(false);
                        cur = &node.left;
                    },
                    Ordering::Greater => {
                        turns.push(true);
                        cur = &node.right;
                    },
                }
            },
        }
    }
}

/// Returns the path from `link` to the link that owns its least entry for
/// `Left`, its greatest for `Right`: the empty path where `link` is empty.
pub fn extreme_path<K, V, D: Dir>(link: &Link<K, V>) -> (path: Path)
    ensures
        reaches(*link, path@),
        root_entry(descend(*link, path@)) == extreme(entries(*link), D::leftward()),
        *link is Some ==> offset(*link, path@) + root_index(descend(*link, path@))
            == extreme_index(entries(*link), D::leftward()),
{
    let left = D::is_left();
    let mut turns: Vec<bool> = Vec::new();
    let mut cur = link;
    loop
        invariant
            left == D::leftward(),
            reaches(*link, turns@),
            *cur == descend(*link, turns@),
            *link is Some ==> *cur is Some,
            extreme(entries(*cur), left) == extreme(entries(*link), left),
            *link is Some ==> offset(*link, turns@) + extreme_index(entries(*cur), left)
                == extreme_index(entries(*link), left),
        decreases *cur,
    {
        match cur {
            None => {
                return Path { turns };
            },
            Some(node) => {
                let child = if left {
                    &node.left
                } else {
                    &node.right
                };
                proof {
                    lemma_entries_shape(*child);
                    lemma_descend_push(*link, turns@, !left);
                }
                if child.is_some() {
                    turns.push(!left);
                    cur = child;
                } else {
                    return Path { turns };
                }
            },
        }
    }
}

/// The entry at the end of a path that ends at a node.
pub proof fn lemma_descend_entry<K, V>(link: Link<K, V>, turns: Seq<bool>)
    requires
        reaches(link, turns),
        descend(link, turns) is Some,
    ensures
        0 <= offset(link, turns) + root_index(descend(link, turns)) < entries(link).len(),
        root_entry(descend(link, turns)) == Some(
            entries(link)[offset(link, turns) + root_index(descend(link, turns))],
        ),
{
    lemma_descend_range(link, turns);
    lemma_entries_shape(descend(link, turns));
}

/// Searches below `link` for the neighbour of `key`: towards the smaller
/// keys for `Left`, towards the larger for `Right`. Each node passed on the
/// near side of `key` is the best neighbour seen so far; the path to the
/// last of them is returned, or `None` where there was none.
pub fn closest_path<Q, K, V, C: Comparator<Q, K>, D: Dir>(
    link: &Link<K, V>,
    order: &C,
    key: &Q,
    inclusive: bool,
) -> (found: Option<Path>)
    requires
        cut(order, entries(*link), *key),
    ensures
        match found {
            None => neighbor(order, entries(*link), *key, inclusive, D::leftward()) is None,
            Some(path) => {
                &&& reaches(*link, path@)
                &&& descend(*link, path@) is Some
                &&& root_entry(descend(*link, path@)) == neighbor(
                    order,
                    entries(*link),
                    *key,
                    inclusive,
                    D::leftward(),
                )
                &&& offset(*link, path@) + root_index(descend(*link, path@)) == neighbor_index(
                    order,
                    entries(*link),
                    *key,
                    inclusive,
                    D::leftward(),
                )
            },
        },
{
    let below = D::is_left();
    let mut turns: Vec<bool> = Vec::new();
    let mut best: Option<usize> = None;
    let ghost mut best_turns: Seq<bool> = Seq::empty();
    let mut cur = link;
    loop
        invariant
            below == D::leftward(),
            cut(order, entries(*cur), *key),
            reaches(*link, turns@),
            *cur == descend(*link, turns@),
            neighbor_index(order, entries(*link), *key, inclusive, below) == offset(*link, turns@)
                + neighbor_index(order, entries(*cur), *key, inclusive, below),
            match best {
                Some(n) => {
                    &&& n == best_turns.len()
                    &&& best_turns.is_prefix_of(turns@)
                    &&& reaches(*link, best_turns)
                    &&& descend(*link, best_turns) is Some
                    &&& offset(*link, best_turns) + root_index(descend(*link, best_turns)) == if below {
                        offset(*link, turns@) - 1
                    } else {
                        offset(*link, turns@) + entries(*cur).len()
                    }
                },
                None => if below {
                    offset(*link, turns@) == 0
                } else {
                    offset(*link, turns@) + entries(*cur).len() == entries(*link).len()
                },
            },
        decreases *cur,
    {
        match cur {
            None => {
                match best {
                    None => {
                        return None;
                    },
                    Some(n) => {
                        turns.truncate(n);
                        proof {
                            assert(turns@ =~= best_turns);
                            lemma_descend_entry(*link, best_turns);
                        }
                        return Some(Path { turns });
                    },
                }
            },
            Some(node) => {
                proof {
                    lemma_rank_node(
                        order,
                        entries(node.left),
                        (node.key, node.value),
                        entries(node.right),
                        *key,
                    );
                    lemma_descend_push(*link, turns@, false);
                    lemma_descend_push(*link, turns@, true);
                    lemma_descend_entry(*link, turns@);
                    lemma_descend_range(*link, turns@);
                }
                let near = match order.compare(key, &node.key) {
                    Ordering::Equal => {
                        if inclusive {
                            return Some(Path { turns });
                        }
                        false
                    },
                    Ordering::Less => !below,
                    Ordering::Greater => below,
                };
                if near {
                    best = Some(turns.len());
                    proof {
                        best_turns = turns@;
                    }
                }
                // a node on the near side is passed towards `key`, any other away from it
                let right = near == below;
                turns.push(right);
                cur = if right {
                    &node.right
                } else {
                    &node.left
                };
            },
        }
    }
}

/// The index, among the entries of `link`, of the root entry of the link
/// that `turns` lead to.
pub open spec fn index_at<K, V>(link: Link<K, V>, turns: Seq<bool>) -> int {
    offset(link, turns) + root_index(descend(link, turns))
}

/// Takes the entry at the end of `path` out of the tree below `root`.
pub fn remove_at<K, V>(root: &mut Link<K, V>, path: &Path) -> (kv: (K, V))
    requires
        reaches(*old(root), path@),
        descend(*old(root), path@) is Some,
    ensures
        0 <= index_at(*old(root), path@) < entries(*old(root)).len(),
        kv == entries(*old(root))[index_at(*old(root), path@)],
        entries(*final(root)) == entries(*old(root)).remove(index_at(*old(root), path@)),
        takes_out(*old(root), *final(root), kv),
{
    proof {
        assert(path@.skip(0) =~= path@);
        lemma_descend_entry(*root, path@);
        lemma_descend_range(*root, path@);
        assert forall|sub: Link<K, V>|
            #[trigger] descend(graft(*root, path@, sub), path@) == sub by {
            lemma_descend_graft(*root, path@, sub);
        }
    }
    let ghost s = entries(*root);
    let ghost o = offset(*root, path@);
    let slot = follow(root, path, 0);
    let ghost sub = entries(*slot);
    let ghost i = root_index(*slot);
    proof {
        assert(splice(s, o, sub.len() as int, sub.remove(i)) =~= s.remove(o + i));
    }
    remove_root(slot)
}

/// The key at the end of `path` and its value, the value open to change.
pub fn value_at<'a, K, V>(root: &'a mut Link<K, V>, path: &Path) -> (kv: (&'a K, &'a mut V))
    requires
        reaches(*old(root), path@),
        descend(*old(root), path@) is Some,
    ensures
        0 <= index_at(*old(root), path@) < entries(*old(root)).len(),
        (*kv.0, *kv.1) == entries(*old(root))[index_at(*old(root), path@)],
        entries(*final(root)) == entries(*old(root)).update(
            index_at(*old(root), path@),
            (*kv.0, *final(kv.1)),
        ),
        keeps_places(*old(root), *final(root), (*kv.0, *final(kv.1))),
{
    proof {
        assert(path@.skip(0) =~= path@);
        lemma_descend_entry(*root, path@);
        lemma_descend_range(*root, path@);
        let here = descend(*root, path@);
        assert forall|sub: Link<K, V>, e: (K, V)|
            root_entry(sub) == Some(e) && child(sub, false) == child(here, false) && child(
                sub,
                true,
            ) == child(here, true) implies #[trigger] keeps_places(
            *root,
            graft(*root, path@, sub),
            e,
        ) by {
            lemma_graft_entry(*root, path@, sub, e);
        }
    }
    let ghost s = entries(*root);
    let ghost o = offset(*root, path@);
    let slot = follow(root, path, 0);
    let ghost sub = entries(*slot);
    let ghost i = root_index(*slot);
    proof {
        assert forall|e: (K, V)| splice(s, o, sub.len() as int, sub.update(i, e)) == s.update(o + i, e) by {
            assert(splice(s, o, sub.len() as int, sub.update(i, e)) =~= s.update(o + i, e));
        }
    }
    match slot.key_value_mut() {
        Some(kv) => kv,
        None => unreached(),
    }
}

} // verus!
