//! The mathematical model: sequences of entries in ascending key order.
//!
//! A tree stands for the sequence of its entries read from left to right.
//! Everything a lookup, an insertion or a removal does is stated here over
//! such sequences, by counting how many keys lie before what is looked for.

use crate::order::{agrees, strict_weak_order, Comparator};
use std::ops::Bound;
use vstd::prelude::*;

verus! {

/// The keys of `s` ascend strictly.
pub open spec fn sorted<K, V, C: Comparator<K>>(c: &C, s: Seq<(K, V)>) -> bool {
    forall|i: int, j: int| 0 <= i < j < s.len() ==> c.lt(#[trigger] s[i].0, #[trigger] s[j].0)
}

/// The strict order of a comparator as a relation of its own.
pub open spec fn lt_of<K, C: Comparator<K>>(c: &C) -> spec_fn(K, K) -> bool {
    |a: K, b: K| c.lt(a, b)
}

/// The keys of `s` ascend strictly by the relation `lt`.
pub open spec fn sorted_by<K, V>(lt: spec_fn(K, K) -> bool, s: Seq<(K, V)>) -> bool {
    forall|i: int, j: int| 0 <= i < j < s.len() ==> lt(#[trigger] s[i].0, #[trigger] s[j].0)
}

/// The comparator places `q` in `s`: it is sound, never has `q` both before
/// and after a key, and along `s` the keys that `q` is after come first and
/// the keys that `q` is before come last, with at most one key between.
pub open spec fn cut<Q, K, V, C: Comparator<Q, K>>(c: &C, s: Seq<(K, V)>, q: Q) -> bool {
    &&& c.sound()
    &&& forall|i: int| 0 <= i < s.len() ==> !(c.lt(q, (#[trigger] s[i]).0) && c.gt(q, s[i].0))
    &&& forall|i: int, j: int|
        0 <= i < j < s.len() && !c.gt(q, (#[trigger] s[i]).0) ==> c.lt(q, (#[trigger] s[j]).0)
    &&& forall|i: int, j: int|
        0 <= i < j < s.len() && !c.lt(q, (#[trigger] s[j]).0) ==> c.gt(q, (#[trigger] s[i]).0)
}

/// How many entries of `s` have a key that `q` comes after.
pub open spec fn rank_lt<Q, K, V, C: Comparator<Q, K>>(c: &C, s: Seq<(K, V)>, q: Q) -> nat
    decreases s.len(),
{
    if s.len() == 0 {
        0
    } else {
        rank_lt(c, s.drop_last(), q) + if c.gt(q, s.last().0) { 1nat } else { 0nat }
    }
}

/// How many entries of `s` have a key that `q` does not come before.
pub open spec fn rank_le<Q, K, V, C: Comparator<Q, K>>(c: &C, s: Seq<(K, V)>, q: Q) -> nat
    decreases s.len(),
{
    if s.len() == 0 {
        0
    } else {
        rank_le(c, s.drop_last(), q) + if c.lt(q, s.last().0) { 0nat } else { 1nat }
    }
}

/// Where the entry of `s` with a key equivalent to `q` stands, or would be
/// put.
pub open spec fn index_of<Q, K, V, C: Comparator<Q, K>>(c: &C, s: Seq<(K, V)>, q: Q) -> int {
    rank_lt(c, s, q) as int
}

/// Some entry of `s` has a key equivalent to `q`.
pub open spec fn present<Q, K, V, C: Comparator<Q, K>>(c: &C, s: Seq<(K, V)>, q: Q) -> bool {
    rank_lt(c, s, q) < rank_le(c, s, q)
}

/// The entry of `s` whose key is equivalent to `q`, if there is one.
pub open spec fn lookup<Q, K, V, C: Comparator<Q, K>>(c: &C, s: Seq<(K, V)>, q: Q) -> Option<
    (K, V),
> {
    if present(c, s, q) {
        Some(s[rank_lt(c, s, q) as int])
    } else {
        None
    }
}

/// `s` with `(k, v)` in the place that `k` has in the order: the entry with
/// an equivalent key, if any, gives way to it.
pub open spec fn put<K, V, C: Comparator<K>>(c: &C, s: Seq<(K, V)>, k: K, v: V) -> Seq<(K, V)> {
    s.take(rank_lt(c, s, k) as int) + seq![(k, v)] + s.skip(rank_le(c, s, k) as int)
}

/// `s` with every entry of `items` put into it, one after the other.
pub open spec fn put_all<K, V, C: Comparator<K>>(
    c: &C,
    s: Seq<(K, V)>,
    items: Seq<(K, V)>,
) -> Seq<(K, V)>
    decreases items.len(),
{
    if items.len() == 0 {
        s
    } else {
        put_all(c, put(c, s, items[0].0, items[0].1), items.skip(1))
    }
}

/// `s` without the entry whose key is equivalent to `q`.
pub open spec fn without<Q, K, V, C: Comparator<Q, K>>(c: &C, s: Seq<(K, V)>, q: Q) -> Seq<
    (K, V),
> {
    s.take(rank_lt(c, s, q) as int) + s.skip(rank_le(c, s, q) as int)
}

/// Where the neighbour of `q` stands in `s`. With `below` set it is the
/// entry with the greatest key before `q`, else the one with the least key
/// after `q`; with `inclusive` set an entry with a key equivalent to `q`
/// counts as well. The index lies outside `s` where there is no such entry.
pub open spec fn neighbor_index<Q, K, V, C: Comparator<Q, K>>(
    c: &C,
    s: Seq<(K, V)>,
    q: Q,
    inclusive: bool,
    below: bool,
) -> int {
    if below {
        if inclusive {
            rank_le(c, s, q) - 1
        } else {
            rank_lt(c, s, q) - 1
        }
    } else {
        if inclusive {
            rank_lt(c, s, q) as int
        } else {
            rank_le(c, s, q) as int
        }
    }
}

/// The neighbour of `q` in `s`, if there is one.
pub open spec fn neighbor<Q, K, V, C: Comparator<Q, K>>(
    c: &C,
    s: Seq<(K, V)>,
    q: Q,
    inclusive: bool,
    below: bool,
) -> Option<(K, V)> {
    let i = neighbor_index(c, s, q, inclusive, below);
    if 0 <= i < s.len() {
        Some(s[i])
    } else {
        None
    }
}

/// How many entries of `s` lie below a lower bound at `q`: those that `q`
/// comes after where the bound is inclusive, those that `q` does not come
/// before where it is exclusive.
pub open spec fn lower_rank<Q, K, V, C: Comparator<Q, K>>(
    c: &C,
    s: Seq<(K, V)>,
    q: Q,
    inclusive: bool,
) -> int {
    if inclusive {
        rank_lt(c, s, q) as int
    } else {
        rank_le(c, s, q) as int
    }
}

/// How many entries of `s` lie within an upper bound at `q`: those that `q`
/// does not come before where the bound is inclusive, those that `q` comes
/// after where it is exclusive.
pub open spec fn upper_rank<Q, K, V, C: Comparator<Q, K>>(
    c: &C,
    s: Seq<(K, V)>,
    q: Q,
    inclusive: bool,
) -> int {
    if inclusive {
        rank_le(c, s, q) as int
    } else {
        rank_lt(c, s, q) as int
    }
}

/// How many entries of `s` lie below the lower bound `min`.
pub open spec fn lower_bound<Q, K, V, C: Comparator<Q, K>>(
    c: &C,
    s: Seq<(K, V)>,
    min: Bound<&Q>,
) -> int {
    match min {
        Bound::Unbounded => 0,
        Bound::Included(q) => lower_rank(c, s, *q, true),
        Bound::Excluded(q) => lower_rank(c, s, *q, false),
    }
}

/// How many entries of `s` lie within the upper bound `max`.
pub open spec fn upper_bound<Q, K, V, C: Comparator<Q, K>>(
    c: &C,
    s: Seq<(K, V)>,
    max: Bound<&Q>,
) -> int {
    match max {
        Bound::Unbounded => s.len() as int,
        Bound::Included(q) => upper_rank(c, s, *q, true),
        Bound::Excluded(q) => upper_rank(c, s, *q, false),
    }
}

/// The comparator places the key of the bound, if it has one, in `s`.
pub open spec fn cut_at<Q, K, V, C: Comparator<Q, K>>(c: &C, s: Seq<(K, V)>, end: Bound<&Q>) -> bool {
    match end {
        Bound::Unbounded => true,
        Bound::Included(q) => cut(c, s, *q),
        Bound::Excluded(q) => cut(c, s, *q),
    }
}

/// The entries of `s` whose keys lie within both bounds.
pub open spec fn range_of<Min, Max, K, V, C: Comparator<Min, K> + Comparator<Max, K>>(
    c: &C,
    s: Seq<(K, V)>,
    min: Bound<&Min>,
    max: Bound<&Max>,
) -> Seq<(K, V)> {
    span(s, lower_bound::<Min, K, V, C>(c, s, min), upper_bound::<Max, K, V, C>(c, s, max))
}

/// `item` is the first of `before` and `after` is the rest; or there is no
/// item, for `before` is empty.
pub open spec fn takes_first<A>(before: Seq<A>, item: Option<A>, after: Seq<A>) -> bool {
    match item {
        Some(x) => before.len() > 0 && x == before.first() && after == before.skip(1),
        None => before.len() == 0 && after == before,
    }
}

/// `item` is the last of `before` and `after` is the rest; or there is no
/// item, for `before` is empty.
pub open spec fn takes_last<A>(before: Seq<A>, item: Option<A>, after: Seq<A>) -> bool {
    match item {
        Some(x) => before.len() > 0 && x == before.last() && after == before.drop_last(),
        None => before.len() == 0 && after == before,
    }
}

/// `part` is what stands in `s` from index `at` on.
pub open spec fn is_part<A>(s: Seq<A>, part: Seq<A>, at: int) -> bool {
    &&& 0 <= at
    &&& at + part.len() <= s.len()
    &&& s.subrange(at, at + part.len()) == part
}

/// The length of `s` as an integer.
pub open spec fn len_of<A>(s: Seq<A>) -> int {
    s.len() as int
}

/// The entries of `s` from index `lo` up to index `hi`; none where `hi` does
/// not exceed `lo`.
pub open spec fn span<A>(s: Seq<A>, lo: int, hi: int) -> Seq<A> {
    if lo < hi {
        s.subrange(lo, hi)
    } else {
        Seq::empty()
    }
}

/// Where the first entry of `s` stands if `least` is set, else the last.
pub open spec fn extreme_index<A>(s: Seq<A>, least: bool) -> int {
    if least {
        0
    } else {
        s.len() - 1
    }
}

/// The first entry of `s` where `least` is set, else the last; none where `s`
/// is empty.
pub open spec fn extreme<A>(s: Seq<A>, least: bool) -> Option<A> {
    if s.len() == 0 {
        None
    } else if least {
        Some(s.first())
    } else {
        Some(s.last())
    }
}

/// `s` with the `n` entries from index `at` on replaced by `mid`.
pub open spec fn splice<A>(s: Seq<A>, at: int, n: int, mid: Seq<A>) -> Seq<A> {
    s.take(at) + mid + s.skip(at + n)
}

/// A rank counts entries, so it does not exceed their number.
pub proof fn lemma_rank_bounds<Q, K, V, C: Comparator<Q, K>>(c: &C, s: Seq<(K, V)>, q: Q)
    ensures
        rank_lt(c, s, q) <= s.len(),
        rank_le(c, s, q) <= s.len(),
    decreases s.len(),
{
    if s.len() > 0 {
        lemma_rank_bounds(c, s.drop_last(), q);
    }
}

/// Ranks add up over concatenation.
pub proof fn lemma_rank_concat<Q, K, V, C: Comparator<Q, K>>(
    c: &C,
    a: Seq<(K, V)>,
    b: Seq<(K, V)>,
    q: Q,
)
    ensures
        rank_lt(c, a + b, q) == rank_lt(c, a, q) + rank_lt(c, b, q),
        rank_le(c, a + b, q) == rank_le(c, a, q) + rank_le(c, b, q),
    decreases b.len(),
{
    if b.len() == 0 {
        assert(a + b =~= a);
    } else {
        assert((a + b).drop_last() =~= a + b.drop_last());
        assert((a + b).last() == b.last());
        lemma_rank_concat(c, a, b.drop_last(), q);
    }
}

/// The ranks in a sequence of one entry.
pub proof fn lemma_rank_one<Q, K, V, C: Comparator<Q, K>>(c: &C, e: (K, V), q: Q)
    ensures
        rank_lt(c, seq![e], q) == if c.gt(q, e.0) { 1nat } else { 0nat },
        rank_le(c, seq![e], q) == if c.lt(q, e.0) { 0nat } else { 1nat },
{
    let s = seq![e];
    assert(s.drop_last() =~= Seq::<(K, V)>::empty());
    assert(s.last() == e);
    assert(rank_lt(c, s.drop_last(), q) == 0);
    assert(rank_le(c, s.drop_last(), q) == 0);
}

/// `lt` never holds both ways round.
pub proof fn lemma_asymmetric<K, C: Comparator<K>>(c: &C, a: K, b: K)
    requires
        strict_weak_order(c),
        c.lt(a, b),
    ensures
        !c.lt(b, a),
        c.gt(b, a),
        !c.gt(a, b),
{
    assert(c.gt(b, a) == c.lt(a, b));
    assert(c.gt(a, b) == c.lt(b, a));
    assert(!(Comparator::<K, K>::lt(c, b, a) && Comparator::<K, K>::gt(c, b, a)));
}

/// A comparator that agrees with the order of the keys places every query
/// in every sorted sequence.
pub proof fn lemma_cut<Q, K, V, C: Comparator<Q, K> + Comparator<K>>(c: &C, s: Seq<(K, V)>, q: Q)
    requires
        agrees::<Q, K, C>(c),
        sorted(c, s),
    ensures
        cut::<Q, K, V, C>(c, s, q),
{
    assert forall|i: int, j: int|
        0 <= i < j < s.len() && !Comparator::<Q, K>::gt(
            c,
            q,
            (#[trigger] s[i]).0,
        ) implies Comparator::<Q, K>::lt(c, q, (#[trigger] s[j]).0) by {
        assert(Comparator::<K, K>::lt(c, s[i].0, s[j].0));
    }
    assert forall|i: int, j: int|
        0 <= i < j < s.len() && !Comparator::<Q, K>::lt(
            c,
            q,
            (#[trigger] s[j]).0,
        ) implies Comparator::<Q, K>::gt(c, q, (#[trigger] s[i]).0) by {
        assert(Comparator::<K, K>::lt(c, s[i].0, s[j].0));
    }
}

/// A strict weak order places every key in every sorted sequence.
pub proof fn lemma_cut_key<K, V, C: Comparator<K>>(c: &C, s: Seq<(K, V)>, k: K)
    requires
        strict_weak_order(c),
        sorted(c, s),
    ensures
        cut::<K, K, V, C>(c, s, k),
{
    lemma_cut::<K, K, V, C>(c, s, k);
}

/// Where a query is placed in a sequence, it is placed in every contiguous
/// part of it.
pub proof fn lemma_cut_part<Q, K, V, C: Comparator<Q, K>>(
    c: &C,
    s: Seq<(K, V)>,
    q: Q,
    from: int,
    to: int,
)
    requires
        cut(c, s, q),
        0 <= from <= to <= s.len(),
    ensures
        cut(c, s.subrange(from, to), q),
{
    let t = s.subrange(from, to);
    assert forall|i: int| 0 <= i < t.len() implies !(c.lt(q, (#[trigger] t[i]).0) && c.gt(
        q,
        t[i].0,
    )) by {
        assert(t[i] == s[from + i]);
    }
    assert forall|i: int, j: int| 0 <= i < j < t.len() && !c.gt(q, (#[trigger] t[i]).0) implies c.lt(
        q,
        (#[trigger] t[j]).0,
    ) by {
        assert(t[i] == s[from + i] && t[j] == s[from + j]);
    }
    assert forall|i: int, j: int| 0 <= i < j < t.len() && !c.lt(q, (#[trigger] t[j]).0) implies c.gt(
        q,
        (#[trigger] t[i]).0,
    ) by {
        assert(t[i] == s[from + i] && t[j] == s[from + j]);
    }
}

/// Where a query is placed in a sequence, the keys that it comes after are
/// exactly those of the first `rank_lt` entries, and the keys that it does
/// not come before those of the first `rank_le`.
pub proof fn lemma_rank_sorted<Q, K, V, C: Comparator<Q, K>>(c: &C, s: Seq<(K, V)>, q: Q)
    requires
        cut(c, s, q),
    ensures
        rank_lt(c, s, q) <= rank_le(c, s, q) <= rank_lt(c, s, q) + 1,
        rank_le(c, s, q) <= s.len(),
        forall|i: int| 0 <= i < s.len() ==> (i < rank_lt(c, s, q) <==> c.gt(q, (#[trigger] s[i]).0)),
        forall|i: int| 0 <= i < s.len() ==> (i < rank_le(c, s, q) <==> !c.lt(q, (#[trigger] s[i]).0)),
    decreases s.len(),
{
    lemma_rank_bounds(c, s, q);
    if s.len() > 0 {
        let t = s.drop_last();
        let x = s.last().0;
        let n = t.len() as int;
        assert(t =~= s.subrange(0, n));
        lemma_cut_part(c, s, q, 0, n);
        lemma_rank_sorted(c, t, q);
        lemma_rank_bounds(c, t, q);
        assert(s[n].0 == x);
        assert(!(c.lt(q, s[n].0) && c.gt(q, s[n].0)));
        if n > 0 {
            assert(t[n - 1] == s[n - 1]);
            assert(!c.gt(q, s[n - 1].0) ==> c.lt(q, s[n].0));
            assert(!c.lt(q, s[n].0) ==> c.gt(q, s[n - 1].0));
            assert(!(c.lt(q, s[n - 1].0) && c.gt(q, s[n - 1].0)));
            assert(n - 1 < rank_lt(c, t, q) <==> c.gt(q, t[n - 1].0));
            assert(n - 1 < rank_le(c, t, q) <==> !c.lt(q, t[n - 1].0));
        }
        assert forall|i: int| 0 <= i < s.len() implies (i < rank_lt(c, s, q) <==> c.gt(
            q,
            (#[trigger] s[i]).0,
        )) by {
            if i < n {
                assert(t[i] == s[i]);
            }
        }
        assert forall|i: int| 0 <= i < s.len() implies (i < rank_le(c, s, q) <==> !c.lt(
            q,
            (#[trigger] s[i]).0,
        )) by {
            if i < n {
                assert(t[i] == s[i]);
            }
        }
    }
}

/// Every contiguous part of a sorted sequence is sorted.
pub proof fn lemma_sorted_subrange<K, V, C: Comparator<K>>(
    c: &C,
    s: Seq<(K, V)>,
    from: int,
    to: int,
)
    requires
        sorted(c, s),
        0 <= from <= to <= s.len(),
    ensures
        sorted(c, s.subrange(from, to)),
{
    let t = s.subrange(from, to);
    assert forall|i: int, j: int| 0 <= i < j < t.len() implies c.lt(
        #[trigger] t[i].0,
        #[trigger] t[j].0,
    ) by {
        assert(t[i] == s[from + i] && t[j] == s[from + j]);
    }
}

/// Where a query falls in `l + [e] + r`, by how it compares with the key of
/// `e`.
pub proof fn lemma_rank_node<Q, K, V, C: Comparator<Q, K>>(
    c: &C,
    l: Seq<(K, V)>,
    e: (K, V),
    r: Seq<(K, V)>,
    q: Q,
)
    requires
        cut(c, l + seq![e] + r, q),
    ensures
        cut(c, l, q),
        cut(c, r, q),
        !(c.lt(q, e.0) && c.gt(q, e.0)),
        c.lt(q, e.0) ==> rank_lt(c, l + seq![e] + r, q) == rank_lt(c, l, q) && rank_le(
            c,
            l + seq![e] + r,
            q,
        ) == rank_le(c, l, q),
        c.gt(q, e.0) ==> rank_lt(c, l + seq![e] + r, q) == l.len() + 1 + rank_lt(c, r, q)
            && rank_le(c, l + seq![e] + r, q) == l.len() + 1 + rank_le(c, r, q),
        !c.lt(q, e.0) && !c.gt(q, e.0) ==> rank_lt(c, l + seq![e] + r, q) == l.len() && rank_le(
            c,
            l + seq![e] + r,
            q,
        ) == l.len() + 1,
        rank_lt(c, l, q) <= rank_le(c, l, q) <= l.len(),
        rank_lt(c, r, q) <= rank_le(c, r, q) <= r.len(),
        !c.gt(q, e.0) ==> rank_le(c, r, q) == 0,
        !c.lt(q, e.0) ==> rank_lt(c, l, q) == l.len(),
{
    let s = l + seq![e] + r;
    let n = l.len() as int;
    assert(s.subrange(0, n) =~= l);
    assert(s.subrange(n + 1, s.len() as int) =~= r);
    lemma_cut_part(c, s, q, 0, n);
    lemma_cut_part(c, s, q, n + 1, s.len() as int);
    lemma_rank_sorted(c, l, q);
    lemma_rank_sorted(c, r, q);
    lemma_rank_concat(c, l + seq![e], r, q);
    lemma_rank_concat(c, l, seq![e], q);
    lemma_rank_one(c, e, q);
    assert(s[n] == e);
    assert(!(c.lt(q, s[n].0) && c.gt(q, s[n].0)));
    if l.len() > 0 {
        assert(s[n - 1] == l[n - 1]);
        assert(!c.gt(q, s[n - 1].0) ==> c.lt(q, s[n].0));
        assert(!c.lt(q, s[n].0) ==> c.gt(q, s[n - 1].0));
    }
    if r.len() > 0 {
        assert(s[n + 1] == r[0]);
        assert(!c.gt(q, s[n].0) ==> c.lt(q, s[n + 1].0));
        assert(!c.lt(q, s[n + 1].0) ==> c.gt(q, s[n].0));
    }
}

/// What `lookup` finds in `l + [e] + r`, by how the query compares with the
/// key of `e`.
pub proof fn lemma_lookup_node<Q, K, V, C: Comparator<Q, K>>(
    c: &C,
    l: Seq<(K, V)>,
    e: (K, V),
    r: Seq<(K, V)>,
    q: Q,
)
    requires
        cut(c, l + seq![e] + r, q),
    ensures
        c.lt(q, e.0) ==> lookup(c, l + seq![e] + r, q) == lookup(c, l, q),
        c.gt(q, e.0) ==> lookup(c, l + seq![e] + r, q) == lookup(c, r, q),
        !c.lt(q, e.0) && !c.gt(q, e.0) ==> lookup(c, l + seq![e] + r, q) == Some(e),
{
    lemma_rank_node(c, l, e, r, q);
}

/// What `put` does to `l + [e] + r`, by how the key compares with the key
/// of `e`.
pub proof fn lemma_put_node<K, V, C: Comparator<K>>(
    c: &C,
    l: Seq<(K, V)>,
    e: (K, V),
    r: Seq<(K, V)>,
    k: K,
    v: V,
)
    requires
        cut(c, l + seq![e] + r, k),
    ensures
        c.lt(k, e.0) ==> put(c, l + seq![e] + r, k, v) == put(c, l, k, v) + seq![e] + r,
        c.gt(k, e.0) ==> put(c, l + seq![e] + r, k, v) == l + seq![e] + put(c, r, k, v),
        !c.lt(k, e.0) && !c.gt(k, e.0) ==> put(c, l + seq![e] + r, k, v) == l + seq![(k, v)] + r,
{
    let s = l + seq![e] + r;
    lemma_rank_node(c, l, e, r, k);
    if c.lt(k, e.0) {
        assert(put(c, s, k, v) =~= put(c, l, k, v) + seq![e] + r);
    } else if c.gt(k, e.0) {
        assert(put(c, s, k, v) =~= l + seq![e] + put(c, r, k, v));
    } else {
        assert(put(c, s, k, v) =~= l + seq![(k, v)] + r);
    }
}

/// Putting an entry into a sorted sequence leaves it sorted.
pub proof fn lemma_put_sorted<K, V, C: Comparator<K>>(c: &C, s: Seq<(K, V)>, k: K, v: V)
    requires
        strict_weak_order(c),
        sorted(c, s),
    ensures
        sorted(c, put(c, s, k, v)),
        put(c, s, k, v).len() == s.len() + if present(c, s, k) { 0int } else { 1int },
        rank_lt(c, put(c, s, k, v), k) == rank_lt(c, s, k),
        rank_le(c, put(c, s, k, v), k) == rank_lt(c, s, k) + 1,
{
    lemma_cut_key(c, s, k);
    lemma_rank_sorted(c, s, k);
    let p = rank_lt(c, s, k) as int;
    let q = rank_le(c, s, k) as int;
    let t = put(c, s, k, v);
    assert forall|i: int| 0 <= i < p implies c.lt((#[trigger] s[i]).0, k) by {
        assert(c.gt(k, s[i].0));
        assert(c.gt(k, s[i].0) == c.lt(s[i].0, k));
    }
    assert forall|i: int, j: int| 0 <= i < j < t.len() implies c.lt(
        #[trigger] t[i].0,
        #[trigger] t[j].0,
    ) by {
        if j < p {
            assert(t[i] == s[i] && t[j] == s[j]);
        } else if j == p {
            assert(t[i] == s[i]);
        } else if i < p {
            assert(t[i] == s[i] && t[j] == s[j - p - 1 + q]);
        } else if i == p {
            assert(t[j] == s[j - p - 1 + q]);
            assert(c.lt(k, s[j - p - 1 + q].0));
        } else {
            assert(t[i] == s[i - p - 1 + q] && t[j] == s[j - p - 1 + q]);
        }
    }
    lemma_cut_key(c, t, k);
    lemma_rank_sorted(c, t, k);
    assert(t[p] == (k, v));
    assert(c.gt(k, k) == c.lt(k, k));
    assert(!(Comparator::<K, K>::lt(c, k, k) && Comparator::<K, K>::gt(c, k, k)));
    assert(!c.lt(k, t[p].0) && !c.gt(k, t[p].0));
    if p > 0 {
        assert(t[p - 1] == s[p - 1]);
        assert(c.gt(k, s[p - 1].0));
        assert(c.gt(k, t[p - 1].0));
    }
    if p + 1 < t.len() {
        assert(t[p + 1] == s[q]);
        assert(c.lt(k, s[q].0));
        assert(c.lt(k, t[p + 1].0));
    }
}

/// Taking one entry out of a sorted sequence leaves it sorted.
pub proof fn lemma_remove_sorted<K, V, C: Comparator<K>>(c: &C, s: Seq<(K, V)>, i: int)
    requires
        sorted(c, s),
        0 <= i < s.len(),
    ensures
        sorted(c, s.remove(i)),
{
    let t = s.remove(i);
    assert forall|a: int, b: int| 0 <= a < b < t.len() implies c.lt(
        #[trigger] t[a].0,
        #[trigger] t[b].0,
    ) by {
        let a0 = if a < i { a } else { a + 1 };
        let b0 = if b < i { b } else { b + 1 };
        assert(t[a] == s[a0] && t[b] == s[b0]);
    }
}

/// A new value under a key that stays leaves a sorted sequence sorted.
pub proof fn lemma_update_sorted<K, V, C: Comparator<K>>(c: &C, s: Seq<(K, V)>, i: int, v: V)
    requires
        sorted(c, s),
        0 <= i < s.len(),
    ensures
        sorted(c, s.update(i, (s[i].0, v))),
{
    let t = s.update(i, (s[i].0, v));
    assert forall|a: int, b: int| 0 <= a < b < t.len() implies c.lt(
        #[trigger] t[a].0,
        #[trigger] t[b].0,
    ) by {
        assert(t[a].0 == s[a].0 && t[b].0 == s[b].0);
    }
}

/// What `without` comes to where the query is placed: the entry at
/// `rank_lt` leaves where an equivalent key is present, and nothing changes
/// where it is not.
pub proof fn lemma_without<Q, K, V, C: Comparator<Q, K>>(c: &C, s: Seq<(K, V)>, q: Q)
    requires
        cut(c, s, q),
    ensures
        present(c, s, q) ==> rank_le(c, s, q) == rank_lt(c, s, q) + 1 && rank_lt(c, s, q) < s.len()
            && without(c, s, q) == s.remove(rank_lt(c, s, q) as int),
        !present(c, s, q) ==> without(c, s, q) == s,
        cut(c, without(c, s, q), q),
        !present(c, without(c, s, q), q),
{
    lemma_rank_sorted(c, s, q);
    let p = rank_lt(c, s, q) as int;
    let n = rank_le(c, s, q) as int;
    let t = without(c, s, q);
    if present(c, s, q) {
        assert(t =~= s.remove(p));
    } else {
        assert(t =~= s);
    }
    assert forall|i: int| 0 <= i < t.len() implies !(c.lt(q, (#[trigger] t[i]).0) && c.gt(
        q,
        t[i].0,
    )) by {
        let i0 = if i < p { i } else { i + n - p };
        assert(t[i] == s[i0]);
    }
    assert forall|i: int, j: int| 0 <= i < j < t.len() && !c.gt(q, (#[trigger] t[i]).0) implies c.lt(
        q,
        (#[trigger] t[j]).0,
    ) by {
        let i0 = if i < p { i } else { i + n - p };
        let j0 = if j < p { j } else { j + n - p };
        assert(t[i] == s[i0] && t[j] == s[j0]);
    }
    assert forall|i: int, j: int| 0 <= i < j < t.len() && !c.lt(q, (#[trigger] t[j]).0) implies c.gt(
        q,
        (#[trigger] t[i]).0,
    ) by {
        let i0 = if i < p { i } else { i + n - p };
        let j0 = if j < p { j } else { j + n - p };
        assert(t[i] == s[i0] && t[j] == s[j0]);
    }
    lemma_rank_sorted(c, t, q);
    if p > 0 {
        assert(t[p - 1] == s[p - 1]);
        assert(c.gt(q, s[p - 1].0));
        assert(c.gt(q, t[p - 1].0));
    }
    if p < t.len() {
        assert(t[p] == s[n]);
        assert(c.lt(q, s[n].0));
        assert(c.lt(q, t[p].0));
    }
}

/// Taking one entry out of a sequence sorted by `lt` leaves it sorted.
pub proof fn lemma_remove_sorted_by<K, V>(lt: spec_fn(K, K) -> bool, s: Seq<(K, V)>, i: int)
    requires
        sorted_by(lt, s),
        0 <= i < s.len(),
    ensures
        sorted_by(lt, s.remove(i)),
{
    let t = s.remove(i);
    assert forall|a: int, b: int| 0 <= a < b < t.len() implies lt(
        #[trigger] t[a].0,
        #[trigger] t[b].0,
    ) by {
        let a0 = if a < i { a } else { a + 1 };
        let b0 = if b < i { b } else { b + 1 };
        assert(t[a] == s[a0] && t[b] == s[b0]);
    }
}

/// A new value under a key that stays leaves a sequence sorted by `lt`
/// sorted.
pub proof fn lemma_update_sorted_by<K, V>(lt: spec_fn(K, K) -> bool, s: Seq<(K, V)>, i: int, v: V)
    requires
        sorted_by(lt, s),
        0 <= i < s.len(),
    ensures
        sorted_by(lt, s.update(i, (s[i].0, v))),
{
    let t = s.update(i, (s[i].0, v));
    assert forall|a: int, b: int| 0 <= a < b < t.len() implies lt(
        #[trigger] t[a].0,
        #[trigger] t[b].0,
    ) by {
        assert(t[a].0 == s[a].0 && t[b].0 == s[b].0);
    }
}

/// A number `a` of leading entries that all lie below a lower bound, with
/// the next entry not below it, is the lower rank.
pub proof fn lemma_lower_rank<Q, K, V, C: Comparator<Q, K>>(
    c: &C,
    s: Seq<(K, V)>,
    q: Q,
    inclusive: bool,
    a: int,
)
    requires
        cut(c, s, q),
        0 <= a <= s.len(),
        forall|i: int|
            0 <= i < a ==> c.gt(q, (#[trigger] s[i]).0) || (!inclusive && !c.lt(q, s[i].0)),
        a < s.len() ==> (if inclusive {
            !c.gt(q, s[a].0)
        } else {
            c.lt(q, s[a].0)
        }),
    ensures
        a == lower_rank(c, s, q, inclusive),
{
    lemma_rank_sorted(c, s, q);
    if a > 0 {
        assert(c.gt(q, s[a - 1].0) || (!inclusive && !c.lt(q, s[a - 1].0)));
        assert(!(c.lt(q, s[a - 1].0) && c.gt(q, s[a - 1].0)));
    }
    if a < s.len() {
        assert(!(c.lt(q, s[a].0) && c.gt(q, s[a].0)));
    }
}

/// A number `b` of leading entries that all lie within an upper bound, with
/// the next entry beyond it, is the upper rank.
pub proof fn lemma_upper_rank<Q, K, V, C: Comparator<Q, K>>(
    c: &C,
    s: Seq<(K, V)>,
    q: Q,
    inclusive: bool,
    b: int,
)
    requires
        cut(c, s, q),
        0 <= b <= s.len(),
        b < s.len() ==> c.lt(q, s[b].0) || (!inclusive && !c.gt(q, s[b].0)),
        b > 0 ==> (if inclusive {
            !c.lt(q, s[b - 1].0)
        } else {
            c.gt(q, s[b - 1].0)
        }),
    ensures
        b == upper_rank(c, s, q, inclusive),
{
    lemma_rank_sorted(c, s, q);
    if b < s.len() {
        assert(!(c.lt(q, s[b].0) && c.gt(q, s[b].0)));
    }
    if b > 0 {
        assert(!(c.lt(q, s[b - 1].0) && c.gt(q, s[b - 1].0)));
    }
}

/// Where a query is placed, it comes after every key before one that it
/// does not come before.
pub proof fn lemma_before<Q, K, V, C: Comparator<Q, K>>(c: &C, s: Seq<(K, V)>, to: int, q: Q)
    requires
        cut(c, s, q),
        0 <= to < s.len(),
        !c.lt(q, s[to].0),
    ensures
        forall|i: int| 0 <= i < to ==> c.gt(q, (#[trigger] s[i]).0),
{
}

/// Where a query is placed, it comes before every key after one that it
/// does not come after.
pub proof fn lemma_after<Q, K, V, C: Comparator<Q, K>>(c: &C, s: Seq<(K, V)>, from: int, q: Q)
    requires
        cut(c, s, q),
        0 <= from < s.len(),
        !c.gt(q, s[from].0),
    ensures
        forall|i: int| from < i < s.len() ==> c.lt(q, (#[trigger] s[i]).0),
{
}

/// The ranks in what is left of a sequence once its first `a` entries are
/// gone.
pub proof fn lemma_rank_skip<Q, K, V, C: Comparator<Q, K>>(c: &C, s: Seq<(K, V)>, q: Q, a: int)
    requires
        cut(c, s, q),
        0 <= a <= s.len(),
    ensures
        cut(c, s.skip(a), q),
        rank_lt(c, s.skip(a), q) == if rank_lt(c, s, q) >= a {
            rank_lt(c, s, q) - a
        } else {
            0
        },
        rank_le(c, s.skip(a), q) == if rank_le(c, s, q) >= a {
            rank_le(c, s, q) - a
        } else {
            0
        },
{
    let t = s.skip(a);
    assert(t =~= s.subrange(a, s.len() as int));
    lemma_cut_part(c, s, q, a, s.len() as int);
    lemma_rank_sorted(c, s, q);
    lemma_rank_sorted(c, t, q);
    let p = rank_lt(c, s, q) as int;
    let n = rank_le(c, s, q) as int;
    if p > a {
        assert(t[p - a - 1] == s[p - 1]);
        assert(c.gt(q, s[p - 1].0));
        assert(c.gt(q, t[p - a - 1].0));
    }
    if p >= a && p < s.len() {
        assert(t[p - a] == s[p]);
        assert(!c.gt(q, s[p].0));
        assert(!c.gt(q, t[p - a].0));
    }
    if p < a && t.len() > 0 {
        assert(t[0] == s[a]);
        assert(!c.gt(q, s[a].0));
        assert(!c.gt(q, t[0].0));
    }
    if n > a {
        assert(t[n - a - 1] == s[n - 1]);
        assert(!c.lt(q, s[n - 1].0));
        assert(!c.lt(q, t[n - a - 1].0));
    }
    if n >= a && n < s.len() {
        assert(t[n - a] == s[n]);
        assert(c.lt(q, s[n].0));
        assert(c.lt(q, t[n - a].0));
    }
    if n < a && t.len() > 0 {
        assert(t[0] == s[a]);
        assert(c.lt(q, s[a].0));
        assert(c.lt(q, t[0].0));
    }
}

/// Ranks and the place of a query go by the keys alone.
pub proof fn lemma_same_keys<Q, K, V, W, C: Comparator<Q, K>>(
    c: &C,
    s: Seq<(K, V)>,
    t: Seq<(K, W)>,
    q: Q,
)
    requires
        s.len() == t.len(),
        forall|i: int| 0 <= i < s.len() ==> (#[trigger] s[i]).0 == t[i].0,
    ensures
        rank_lt(c, s, q) == rank_lt(c, t, q),
        rank_le(c, s, q) == rank_le(c, t, q),
        cut(c, s, q) ==> cut(c, t, q),
    decreases s.len(),
{
    if s.len() > 0 {
        assert(s[s.len() - 1].0 == t[s.len() - 1].0);
        assert forall|i: int| 0 <= i < s.drop_last().len() implies (#[trigger] s.drop_last()[i]).0
            == t.drop_last()[i].0 by {
            assert(s[i].0 == t[i].0);
        }
        lemma_same_keys(c, s.drop_last(), t.drop_last(), q);
    }
    if cut(c, s, q) {
        assert forall|i: int| 0 <= i < t.len() implies !(c.lt(q, (#[trigger] t[i]).0) && c.gt(
            q,
            t[i].0,
        )) by {
            assert(s[i].0 == t[i].0);
        }
        assert forall|i: int, j: int|
            0 <= i < j < t.len() && !c.gt(q, (#[trigger] t[i]).0) implies c.lt(
            q,
            (#[trigger] t[j]).0,
        ) by {
            assert(s[i].0 == t[i].0 && s[j].0 == t[j].0);
        }
        assert forall|i: int, j: int|
            0 <= i < j < t.len() && !c.lt(q, (#[trigger] t[j]).0) implies c.gt(
            q,
            (#[trigger] t[i]).0,
        ) by {
            assert(s[i].0 == t[i].0 && s[j].0 == t[j].0);
        }
    }
}

/// Sortedness goes by the keys alone.
pub proof fn lemma_same_keys_sorted<K, V, W, C: Comparator<K>>(c: &C, s: Seq<(K, V)>, t: Seq<(K, W)>)
    requires
        s.len() == t.len(),
        forall|i: int| 0 <= i < s.len() ==> (#[trigger] s[i]).0 == t[i].0,
        sorted(c, s),
    ensures
        sorted(c, t),
{
    assert forall|i: int, j: int| 0 <= i < j < t.len() implies c.lt(
        #[trigger] t[i].0,
        #[trigger] t[j].0,
    ) by {
        assert(s[i].0 == t[i].0 && s[j].0 == t[j].0);
        assert(c.lt(s[i].0, s[j].0));
    }
}

/// The three parts of a part: where `l + [e] + r` stands in `s` from `at`
/// on, `l` stands from `at` on and `r` behind `e`.
pub proof fn lemma_parts<A>(s: Seq<A>, l: Seq<A>, e: A, r: Seq<A>, at: int)
    requires
        is_part(s, l + seq![e] + r, at),
    ensures
        is_part(s, l, at),
        is_part(s, r, at + l.len() + 1),
        s[at + l.len()] == e,
{
    let whole = l + seq![e] + r;
    let n = l.len() as int;
    assert(s.subrange(at, at + n) =~= whole.subrange(0, n));
    assert(whole.subrange(0, n) =~= l);
    assert(s.subrange(at + n + 1, at + n + 1 + r.len()) =~= whole.subrange(
        n + 1,
        whole.len() as int,
    ));
    assert(whole.subrange(n + 1, whole.len() as int) =~= r);
    assert(s.subrange(at, at + whole.len())[n] == e);
}

/// Equivalent keys have the same ranks in a sorted sequence.
pub proof fn lemma_rank_equiv<K, V, C: Comparator<K>>(c: &C, s: Seq<(K, V)>, k: K, k2: K)
    requires
        strict_weak_order(c),
        sorted(c, s),
        !c.lt(k, k2),
        !c.lt(k2, k),
    ensures
        rank_lt(c, s, k2) == rank_lt(c, s, k),
        rank_le(c, s, k2) == rank_le(c, s, k),
{
    lemma_cut_key(c, s, k);
    lemma_cut_key(c, s, k2);
    lemma_rank_sorted(c, s, k);
    lemma_rank_sorted(c, s, k2);
    assert forall|i: int| 0 <= i < s.len() implies (c.gt(k, (#[trigger] s[i]).0) <==> c.gt(
        k2,
        s[i].0,
    )) && (c.lt(k, s[i].0) <==> c.lt(k2, s[i].0)) by {
        let x = s[i].0;
        assert(c.gt(k, x) == c.lt(x, k));
        assert(c.gt(k2, x) == c.lt(x, k2));
        assert(c.gt(x, k) == c.lt(k, x));
        assert(c.gt(x, k2) == c.lt(k2, x));
        assert(c.gt(k, k2) == c.lt(k2, k));
        assert(c.gt(k2, k) == c.lt(k, k2));
        if c.lt(x, k) && !c.lt(x, k2) {
            assert(Comparator::<K, K>::lt(c, x, k) && !Comparator::<K, K>::lt(c, k2, k));
            assert(Comparator::<K, K>::gt(c, k2, x));
        }
        if c.lt(x, k2) && !c.lt(x, k) {
            assert(Comparator::<K, K>::lt(c, x, k2) && !Comparator::<K, K>::lt(c, k, k2));
            assert(Comparator::<K, K>::gt(c, k, x));
        }
        if c.lt(k, x) && !c.lt(k2, x) {
            assert(Comparator::<K, K>::lt(c, k, x) && !Comparator::<K, K>::gt(c, k2, k));
            assert(Comparator::<K, K>::lt(c, k2, x));
        }
        if c.lt(k2, x) && !c.lt(k, x) {
            assert(Comparator::<K, K>::lt(c, k2, x) && !Comparator::<K, K>::gt(c, k, k2));
            assert(Comparator::<K, K>::lt(c, k, x));
        }
    }
    let p = rank_lt(c, s, k) as int;
    let p2 = rank_lt(c, s, k2) as int;
    if p < p2 {
        assert(c.gt(k2, s[p].0));
    }
    if p2 < p {
        assert(c.gt(k, s[p2].0));
    }
    let q = rank_le(c, s, k) as int;
    let q2 = rank_le(c, s, k2) as int;
    if q < q2 {
        assert(!c.lt(k2, s[q].0));
    }
    if q2 < q {
        assert(!c.lt(k, s[q2].0));
    }
}

/// Sorted by a comparator is sorted by its strict order.
pub proof fn lemma_sorted_by<K, V, C: Comparator<K>>(c: &C, s: Seq<(K, V)>)
    ensures
        sorted(c, s) <==> sorted_by(lt_of(c), s),
{
    if sorted(c, s) {
        assert forall|i: int, j: int| 0 <= i < j < s.len() implies lt_of(c)(
            #[trigger] s[i].0,
            #[trigger] s[j].0,
        ) by {
            assert(c.lt(s[i].0, s[j].0));
        }
    }
    if sorted_by(lt_of(c), s) {
        assert forall|i: int, j: int| 0 <= i < j < s.len() implies c.lt(
            #[trigger] s[i].0,
            #[trigger] s[j].0,
        ) by {
            assert(lt_of(c)(s[i].0, s[j].0));
        }
    }
}

} // verus!
