//! Equality and order of whole maps, entry by entry in ascending order.

use super::TreeMap;
use crate::model::lemma_asymmetric;
use crate::node::iter::by_ref;
use crate::order::{equiv, Comparator};
use std::cmp::Ordering;
use vstd::prelude::*;
use vstd::std_specs::cmp::{OrdSpec, PartialEqSpec, PartialOrdSpec};

verus! {

/// How `a` stands to `b` by the comparator `c`.
pub open spec fn key_order<K, C: Comparator<K>>(c: &C, a: K, b: K) -> Ordering {
    if c.lt(a, b) {
        Ordering::Less
    } else if c.lt(b, a) {
        Ordering::Greater
    } else {
        Ordering::Equal
    }
}

/// `s` and `t` are of one length, and entry by entry their keys are
/// equivalent by `c` and their values equal.
pub open spec fn same_entries<K, V: PartialEq, C: Comparator<K>>(
    c: &C,
    s: Seq<(K, V)>,
    t: Seq<(K, V)>,
) -> bool {
    &&& s.len() == t.len()
    &&& forall|i: int|
        0 <= i < s.len() ==> equiv(c, (#[trigger] s[i]).0, t[i].0) && s[i].1.eq_spec(&t[i].1)
}

/// How `s` stands to `t` in the order of the dictionary: the first entries
/// that differ decide, keys before values, and a sequence that ends first
/// comes first. There is no answer where the deciding values have none.
pub open spec fn lexical_partial<K, V: PartialOrd, C: Comparator<K>>(
    c: &C,
    s: Seq<(K, V)>,
    t: Seq<(K, V)>,
) -> Option<Ordering>
    decreases s.len(),
{
    if s.len() == 0 {
        if t.len() == 0 {
            Some(Ordering::Equal)
        } else {
            Some(Ordering::Less)
        }
    } else if t.len() == 0 {
        Some(Ordering::Greater)
    } else {
        match key_order(c, s[0].0, t[0].0) {
            Ordering::Equal => match s[0].1.partial_cmp_spec(&t[0].1) {
                Some(Ordering::Equal) => lexical_partial(c, s.skip(1), t.skip(1)),
                other => other,
            },
            decided => Some(decided),
        }
    }
}

/// How `s` stands to `t` in the order of the dictionary: the first entries
/// that differ decide, keys before values, and a sequence that ends first
/// comes first.
pub open spec fn lexical<K, V: Ord, C: Comparator<K>>(
    c: &C,
    s: Seq<(K, V)>,
    t: Seq<(K, V)>,
) -> Ordering
    decreases s.len(),
{
    if s.len() == 0 {
        if t.len() == 0 {
            Ordering::Equal
        } else {
            Ordering::Less
        }
    } else if t.len() == 0 {
        Ordering::Greater
    } else {
        match key_order(c, s[0].0, t[0].0) {
            Ordering::Equal => match s[0].1.cmp_spec(&t[0].1) {
                Ordering::Equal => lexical(c, s.skip(1), t.skip(1)),
                other => other,
            },
            decided => decided,
        }
    }
}

/// What is left of a sequence of references once the first is gone.
proof fn lemma_by_ref_skip<K, V>(s: Seq<(K, V)>, i: int)
    requires
        0 <= i < s.len(),
    ensures
        by_ref::<K, V>(s).skip(i).len() > 0,
        by_ref::<K, V>(s).skip(i).first() == (&s[i].0, &s[i].1),
        by_ref::<K, V>(s).skip(i).skip(1) == by_ref::<K, V>(s).skip(i + 1),
        s.skip(i).skip(1) == s.skip(i + 1),
        s.skip(i)[0] == s[i],
{
    assert(by_ref::<K, V>(s).skip(i).skip(1) =~= by_ref::<K, V>(s).skip(i + 1));
    assert(s.skip(i).skip(1) =~= s.skip(i + 1));
}

impl<K, V, C: Comparator<K>> TreeMap<K, V, C> {
    /// Checks if the two maps hold the same entries: they are of one
    /// length, and entry by entry, in ascending order, the keys are
    /// equivalent by the comparator of this map and the values equal.
    pub fn eq(&self, other: &Self) -> (same: bool) where V: PartialEq
        requires
            self.wf(),
            other.wf(),
        ensures
            V::obeys_eq_spec() ==> same == same_entries(self.comparator(), self@, other@),
    {
        if self.len() != other.len() {
            return false;
        }
        let ghost s = self@;
        let ghost t = other@;
        let mut left = self.iter();
        let mut right = other.iter();
        let ghost mut i: int = 0;
        proof {
            assert(by_ref::<K, V>(s).skip(0) =~= by_ref::<K, V>(s));
            assert(by_ref::<K, V>(t).skip(0) =~= by_ref::<K, V>(t));
        }
        loop
            invariant
                self.wf(),
                s == self@,
                t == other@,
                s.len() == t.len(),
                0 <= i <= s.len(),
                left.wf(),
                right.wf(),
                left.remaining() == by_ref::<K, V>(s).skip(i),
                right.remaining() == by_ref::<K, V>(t).skip(i),
                forall|j: int|
                    0 <= j < i ==> equiv(self.comparator(), (#[trigger] s[j]).0, t[j].0) && (
                    V::obeys_eq_spec() ==> s[j].1.eq_spec(&t[j].1)),
            decreases s.len() - i,
        {
            proof {
                if i < s.len() {
                    lemma_by_ref_skip(s, i);
                    lemma_by_ref_skip(t, i);
                }
            }
            match (left.next(), right.next()) {
                (Some(l), Some(r)) => {
                    let keys = match self.cmp().compare(l.0, r.0) {
                        Ordering::Equal => true,
                        _ => false,
                    };
                    proof {
                        if self.comparator().lt(s[i].0, t[i].0) {
                            lemma_asymmetric(self.comparator(), s[i].0, t[i].0);
                        }
                    }
                    if !(keys && l.1.eq(r.1)) {
                        return false;
                    }
                    proof {
                        i = i + 1;
                    }
                },
                _ => {
                    return true;
                },
            }
        }
    }

    /// Compares the two maps in the order of the dictionary, entry by entry
    /// in ascending order, keys by the comparator of this map and values by
    /// their partial order.
    pub fn partial_cmp(&self, other: &Self) -> (found: Option<Ordering>) where V: PartialOrd
        requires
            self.wf(),
            other.wf(),
        ensures
            V::obeys_partial_cmp_spec() ==> found == lexical_partial(
                self.comparator(),
                self@,
                other@,
            ),
    {
        let ghost s = self@;
        let ghost t = other@;
        let mut left = self.iter();
        let mut right = other.iter();
        let ghost mut i: int = 0;
        proof {
            assert(by_ref::<K, V>(s).skip(0) =~= by_ref::<K, V>(s));
            assert(by_ref::<K, V>(t).skip(0) =~= by_ref::<K, V>(t));
            assert(s.skip(0) =~= s);
            assert(t.skip(0) =~= t);
        }
        loop
            invariant
                self.wf(),
                s == self@,
                t == other@,
                0 <= i <= s.len(),
                i <= t.len(),
                left.wf(),
                right.wf(),
                left.remaining() == by_ref::<K, V>(s).skip(i),
                right.remaining() == by_ref::<K, V>(t).skip(i),
                V::obeys_partial_cmp_spec() ==> lexical_partial(self.comparator(), s, t)
                    == lexical_partial(self.comparator(), s.skip(i), t.skip(i)),
            decreases s.len() - i,
        {
            proof {
                if i < s.len() {
                    lemma_by_ref_skip(s, i);
                }
                if i < t.len() {
                    lemma_by_ref_skip(t, i);
                }
            }
            match (left.next(), right.next()) {
                (None, None) => {
                    return Some(Ordering::Equal);
                },
                (None, Some(_)) => {
                    return Some(Ordering::Less);
                },
                (Some(_), None) => {
                    return Some(Ordering::Greater);
                },
                (Some(l), Some(r)) => {
                    proof {
                        if self.comparator().lt(s[i].0, t[i].0) {
                            lemma_asymmetric(self.comparator(), s[i].0, t[i].0);
                        }
                    }
                    match self.cmp().compare(l.0, r.0) {
                        Ordering::Equal => match l.1.partial_cmp(r.1) {
                            Some(Ordering::Equal) => {},
                            decided => {
                                return decided;
                            },
                        },
                        decided => {
                            return Some(decided);
                        },
                    }
                    proof {
                        i = i + 1;
                    }
                },
            }
        }
    }

    /// Compares the two maps in the order of the dictionary, entry by entry
    /// in ascending order, keys by the comparator of this map and values by
    /// their order.
    pub fn ordering(&self, other: &Self) -> (found: Ordering) where V: Ord
        requires
            self.wf(),
            other.wf(),
        ensures
            V::obeys_cmp_spec() ==> found == lexical(self.comparator(), self@, other@),
    {
        let ghost s = self@;
        let ghost t = other@;
        let mut left = self.iter();
        let mut right = other.iter();
        let ghost mut i: int = 0;
        proof {
            assert(by_ref::<K, V>(s).skip(0) =~= by_ref::<K, V>(s));
            assert(by_ref::<K, V>(t).skip(0) =~= by_ref::<K, V>(t));
            assert(s.skip(0) =~= s);
            assert(t.skip(0) =~= t);
        }
        loop
            invariant
                self.wf(),
                s == self@,
                t == other@,
                0 <= i <= s.len(),
                i <= t.len(),
                left.wf(),
                right.wf(),
                left.remaining() == by_ref::<K, V>(s).skip(i),
                right.remaining() == by_ref::<K, V>(t).skip(i),
                V::obeys_cmp_spec() ==> lexical(self.comparator(), s, t) == lexical(
                    self.comparator(),
                    s.skip(i),
                    t.skip(i),
                ),
            decreases s.len() - i,
        {
            proof {
                if i < s.len() {
                    lemma_by_ref_skip(s, i);
                }
                if i < t.len() {
                    lemma_by_ref_skip(t, i);
                }
            }
            match (left.next(), right.next()) {
                (None, None) => {
                    return Ordering::Equal;
                },
                (None, Some(_)) => {
                    return Ordering::Less;
                },
                (Some(_), None) => {
                    return Ordering::Greater;
                },
                (Some(l), Some(r)) => {
                    proof {
                        if self.comparator().lt(s[i].0, t[i].0) {
                            lemma_asymmetric(self.comparator(), s[i].0, t[i].0);
                        }
                    }
                    match self.cmp().compare(l.0, r.0) {
                        Ordering::Equal => match l.1.cmp(r.1) {
                            Ordering::Equal => {},
                            decided => {
                                return decided;
                            },
                        },
                        decided => {
                            return decided;
                        },
                    }
                    proof {
                        i = i + 1;
                    }
                },
            }
        }
    }
}

} // verus!
