//! Comparators: the orders by which a tree arranges its keys.

use compare::{Compare, Natural, Rev};
use std::cmp::Ordering;
use vstd::prelude::*;
use vstd::std_specs::cmp::OrdSpec;

verus! {

/// A three-way comparison together with the two relations it decides.
///
/// A comparator of a map compares keys with keys. It may compare values of
/// another type with keys as well, so that a key can be looked up by a part
/// of it or by a borrowed form. `compare` must answer by `lt` and `gt`
/// whenever `sound` holds.
pub trait Comparator<L, R = L> {
    /// Whether `l` comes strictly before `r`.
    spec fn lt(&self, l: L, r: R) -> bool;

    /// Whether `l` comes strictly after `r`.
    spec fn gt(&self, l: L, r: R) -> bool;

    /// Whether `compare` is known to decide `lt` and `gt`.
    spec fn sound(&self) -> bool;

    /// Compares `l` with `r`.
    fn compare(&self, l: &L, r: &R) -> (o: Ordering)
        ensures
            self.sound() ==> (match o {
                Ordering::Less => self.lt(*l, *r),
                Ordering::Equal => !self.lt(*l, *r) && !self.gt(*l, *r),
                Ordering::Greater => self.gt(*l, *r),
            }),
    ;
}

/// Neither of `l` and `r` comes before the other.
pub open spec fn equiv<L, R, C: Comparator<L, R>>(c: &C, l: L, r: R) -> bool {
    !c.lt(l, r) && !c.gt(l, r)
}

/// The comparison of queries with keys goes with the order of the keys: a
/// query is never both before and after a key; a query not after a key is
/// before every greater key; and a query not before a key is after every
/// smaller key.
pub open spec fn agrees<Q, K, C: Comparator<Q, K> + Comparator<K>>(c: &C) -> bool {
    &&& Comparator::<Q, K>::sound(c)
    &&& forall|q: Q, a: K|
        !(#[trigger] Comparator::<Q, K>::lt(c, q, a) && #[trigger] Comparator::<Q, K>::gt(c, q, a))
    &&& forall|q: Q, a: K, b: K|
        #[trigger] Comparator::<K, K>::lt(c, a, b) && !#[trigger] Comparator::<Q, K>::gt(c, q, a)
            ==> Comparator::<Q, K>::lt(c, q, b)
    &&& forall|q: Q, a: K, b: K|
        #[trigger] Comparator::<K, K>::lt(c, a, b) && !#[trigger] Comparator::<Q, K>::lt(c, q, b)
            ==> Comparator::<Q, K>::gt(c, q, a)
}

/// The comparator decides a strict weak order of the keys: `gt` is `lt` the
/// other way round, `lt` is transitive and never holds both ways round, and
/// so is its complement.
pub open spec fn strict_weak_order<K, C: Comparator<K>>(c: &C) -> bool {
    &&& forall|a: K, b: K| #[trigger] c.gt(a, b) == c.lt(b, a)
    &&& forall|a: K, b: K, d: K| #[trigger] c.lt(a, b) && #[trigger] c.lt(b, d) ==> c.lt(a, d)
    &&& agrees::<K, K, C>(c)
}

/// `Natural` of the `compare` crate, the comparator that hands its
/// arguments to `Ord`: a value without data, carried as it is.
#[verifier::external_type_specification]
#[verifier::external_body]
#[verifier::reject_recursive_types(T)]
pub struct ExNatural<T: Ord + ?Sized>(Natural<T>);

/// `Natural::default` of the `compare` crate: the comparator that follows
/// `Ord`. It holds no data, so nothing is claimed of the value.
#[verifier::external_body]
pub(crate) fn natural_default<K: Ord>() -> (c: Natural<K>) {
    Natural::default()
}

/// `Natural::compare` of the `compare` crate, which returns `Ord::cmp(l, r)`:
/// for a key type whose `cmp` obeys `cmp_spec`, the result is
/// `l.cmp_spec(r)`.
#[verifier::external_body]
pub(crate) fn natural_compare<K: Ord>(c: &Natural<K>, l: &K, r: &K) -> (o: Ordering)
    ensures
        K::obeys_cmp_spec() ==> o == l.cmp_spec(r),
{
    Compare::compare(c, l, r)
}

/// The natural order: what `cmp_spec` says of two keys.
impl<K: Ord> Comparator<K> for Natural<K> {
    open spec fn lt(&self, l: K, r: K) -> bool {
        l.cmp_spec(&r) == Ordering::Less
    }

    open spec fn gt(&self, l: K, r: K) -> bool {
        l.cmp_spec(&r) == Ordering::Greater
    }

    open spec fn sound(&self) -> bool {
        K::obeys_cmp_spec()
    }

    fn compare(&self, l: &K, r: &K) -> (o: Ordering) {
        natural_compare(self, l, r)
    }
}

/// `Rev` of the `compare` crate, the comparator that reverses another:
/// carried as it is.
#[verifier::external_type_specification]
#[verifier::external_body]
#[verifier::reject_recursive_types(C)]
pub struct ExRev<C>(Rev<C>);

/// `Rev::compare` of the `compare` crate on a reversed `Natural`, which
/// returns `Ord::cmp(l, r).reverse()`: for a key type whose `cmp` obeys
/// `cmp_spec`, the result is `l.cmp_spec(r)` with `Less` and `Greater`
/// exchanged.
#[verifier::external_body]
pub(crate) fn reversed_compare<K: Ord>(c: &Rev<Natural<K>>, l: &K, r: &K) -> (o: Ordering)
    ensures
        K::obeys_cmp_spec() ==> o == match l.cmp_spec(r) {
            Ordering::Less => Ordering::Greater,
            Ordering::Equal => Ordering::Equal,
            Ordering::Greater => Ordering::Less,
        },
{
    Compare::compare(c, l, r)
}

/// The natural order reversed: what `cmp_spec` says of two keys, with
/// before and after exchanged.
impl<K: Ord> Comparator<K> for Rev<Natural<K>> {
    open spec fn lt(&self, l: K, r: K) -> bool {
        l.cmp_spec(&r) == Ordering::Greater
    }

    open spec fn gt(&self, l: K, r: K) -> bool {
        l.cmp_spec(&r) == Ordering::Less
    }

    open spec fn sound(&self) -> bool {
        K::obeys_cmp_spec()
    }

    fn compare(&self, l: &K, r: &K) -> (o: Ordering) {
        reversed_compare(self, l, r)
    }
}

} // verus!
