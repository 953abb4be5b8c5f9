//! Laws of the map, stated over its model and proved once for all maps.

use crate::map::TreeMap;
use crate::model::{
    index_of, lemma_cut, lemma_cut_key, lemma_put_sorted, lemma_rank_equiv, lemma_rank_sorted,
    lemma_remove_sorted, lemma_without, lookup, present, put, sorted, without,
};
use crate::order::{agrees, equiv, strict_weak_order, Comparator};
use vstd::prelude::*;

verus! {

/// What comes out of `s` when the first entry is taken again and again.
pub open spec fn ascending_run<A>(s: Seq<A>) -> Seq<A>
    decreases s.len(),
{
    if s.len() == 0 {
        Seq::empty()
    } else {
        seq![s.first()] + ascending_run(s.skip(1))
    }
}

/// What comes out of `s` when the last entry is taken again and again.
pub open spec fn descending_run<A>(s: Seq<A>) -> Seq<A>
    decreases s.len(),
{
    if s.len() == 0 {
        Seq::empty()
    } else {
        seq![s.last()] + descending_run(s.drop_last())
    }
}

/// The keys of a well-formed map ascend strictly, whatever was inserted and
/// removed before: every operation of the map hands on `wf`.
pub proof fn law_keys_ascend<K, V, C: Comparator<K>>(map: &TreeMap<K, V, C>, i: int, j: int)
    requires
        map.wf(),
        0 <= i < j < map@.len(),
    ensures
        map.comparator().lt(map@[i].0, map@[j].0),
{
}

/// Taking from the low end until nothing is left gives the entries in their
/// order, all of them; taking from the high end gives the exact reverse.
pub proof fn law_iteration_order<A>(s: Seq<A>)
    ensures
        ascending_run(s) == s,
        descending_run(s) == s.reverse(),
        ascending_run(s).len() == s.len(),
    decreases s.len(),
{
    if s.len() > 0 {
        law_iteration_order(s.skip(1));
        law_iteration_order(s.drop_last());
        assert(seq![s.first()] + s.skip(1) =~= s);
        assert(seq![s.last()] + s.drop_last().reverse() =~= s.reverse());
    } else {
        assert(s =~= Seq::<A>::empty());
        assert(s.reverse() =~= Seq::<A>::empty());
    }
}

/// After an insertion the key, and every key equivalent to it, is found
/// with the value inserted. A second insertion under such a key finds the
/// first value to hand back, leaves its own key and value to be found, and
/// changes neither the length nor any other entry.
pub proof fn law_insert_get<K, V, C: Comparator<K>>(
    c: &C,
    s: Seq<(K, V)>,
    k: K,
    v: V,
    k2: K,
    w: V,
)
    requires
        strict_weak_order(c),
        sorted(c, s),
        equiv(c, k, k2),
    ensures
        lookup(c, put(c, s, k, v), k) == Some((k, v)),
        lookup(c, put(c, s, k, v), k2) == Some((k, v)),
        present(c, put(c, s, k, v), k2),
        lookup(c, put(c, put(c, s, k, v), k2, w), k) == Some((k2, w)),
        lookup(c, put(c, put(c, s, k, v), k2, w), k2) == Some((k2, w)),
        put(c, put(c, s, k, v), k2, w).len() == put(c, s, k, v).len(),
        put(c, put(c, s, k, v), k2, w) == put(c, s, k, v).update(index_of(c, s, k), (k2, w)),
{
    assert(c.gt(k, k2) == c.lt(k2, k));
    assert(c.gt(k2, k) == c.lt(k, k2));
    lemma_put_sorted(c, s, k, v);
    let t = put(c, s, k, v);
    lemma_rank_equiv(c, t, k, k2);
    lemma_put_sorted(c, t, k2, w);
    let u = put(c, t, k2, w);
    lemma_rank_equiv(c, u, k2, k);
    lemma_cut_key(c, s, k);
    lemma_rank_sorted(c, s, k);
    assert(u =~= t.update(index_of(c, s, k), (k2, w)));
}

/// Removing a key that is present hands back the stored pair, whose key is
/// equivalent to what was asked for; the key is then no longer found and
/// the length is one less. Removing an absent key hands back nothing and
/// changes nothing.
pub proof fn law_remove<Q, K, V, C: Comparator<Q, K> + Comparator<K>>(c: &C, s: Seq<(K, V)>, q: Q)
    requires
        strict_weak_order(c),
        sorted(c, s),
        agrees::<Q, K, C>(c),
    ensures
        present(c, s, q) ==> lookup(c, s, q) == Some(s[index_of(c, s, q)]) && equiv(
            c,
            q,
            s[index_of(c, s, q)].0,
        ) && without(c, s, q).len() == s.len() - 1,
        !present(c, s, q) ==> lookup(c, s, q) is None && without(c, s, q) == s,
        lookup(c, without(c, s, q), q) is None,
        sorted(c, without(c, s, q)),
{
    lemma_cut(c, s, q);
    lemma_without(c, s, q);
    lemma_rank_sorted(c, s, q);
    if present(c, s, q) {
        lemma_remove_sorted(c, s, index_of(c, s, q));
    }
}

/// Taking any one entry out of a sorted sequence, whatever the shape of the
/// tree that held it, leaves the rest in the same order.
pub proof fn law_removal_keeps_order<K, V, C: Comparator<K>>(c: &C, s: Seq<(K, V)>, i: int)
    requires
        sorted(c, s),
        0 <= i < s.len(),
    ensures
        sorted(c, s.remove(i)),
        forall|j: int| 0 <= j < i ==> s.remove(i)[j] == s[j],
        forall|j: int| i <= j < s.len() - 1 ==> s.remove(i)[j] == s[j + 1],
{
    lemma_remove_sorted(c, s, i);
}

/// What a map holds once the entry of `k` was asked to be `d` if vacant: a
/// second such call, under `k` or a key equivalent to it, finds the entry
/// occupied at the same place, with the value that the first call left, and
/// adds nothing.
pub proof fn law_entry_idempotent<K, V, C: Comparator<K>>(c: &C, s: Seq<(K, V)>, k: K, d: V, k2: K)
    requires
        strict_weak_order(c),
        sorted(c, s),
        equiv(c, k, k2),
    ensures
        ({
            let i = index_of(c, s, k);
            let t = if present(c, s, k) {
                s
            } else {
                s.insert(i, (k, d))
            };
            &&& sorted(c, t)
            &&& present(c, t, k2)
            &&& index_of(c, t, k2) == i
            &&& t[i].1 == (if present(c, s, k) {
                s[i].1
            } else {
                d
            })
            &&& t.update(i, (t[i].0, t[i].1)) == t
        }),
{
    assert(c.gt(k, k2) == c.lt(k2, k));
    assert(c.gt(k2, k) == c.lt(k, k2));
    lemma_cut_key(c, s, k);
    lemma_rank_sorted(c, s, k);
    let i = index_of(c, s, k);
    if !present(c, s, k) {
        lemma_put_sorted(c, s, k, d);
        assert(put(c, s, k, d) =~= s.insert(i, (k, d)));
    }
    let t = if present(c, s, k) {
        s
    } else {
        s.insert(i, (k, d))
    };
    lemma_rank_equiv(c, t, k, k2);
    assert(t.update(i, (t[i].0, t[i].1)) =~= t);
}

} // verus!
