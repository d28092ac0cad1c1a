//! The order of values, as the sorting algorithms and the heaps use it.

use std::cmp::Ordering;
use vstd::prelude::*;
use vstd::std_specs::cmp::PartialOrdSpec;

verus! {

/// Whether the comparison operators of `K` behave as a total order that the
/// verifier can reason about.
pub open spec fn lawful<K: Ord>() -> bool {
    vstd::laws_cmp::obeys_cmp::<K>()
}

/// `a` is ordered strictly before `b`.
pub open spec fn lt<K: Ord>(a: K, b: K) -> bool {
    a.partial_cmp_spec(&b) == Some(Ordering::Less)
}

/// `a` is ordered before `b`, or level with it.
pub open spec fn le<K: Ord>(a: K, b: K) -> bool {
    a.partial_cmp_spec(&b) matches Some(Ordering::Less | Ordering::Equal)
}

/// Of two values one is ordered strictly before the other, or they are
/// level; and every value is level with itself.
pub proof fn lemma_total<K: Ord>(a: K, b: K)
    requires
        lawful::<K>(),
    ensures
        lt(a, b) || le(b, a),
        lt(a, b) ==> le(a, b),
        lt(a, b) ==> !le(b, a),
        le(a, a),
{
    reveal(vstd::laws_cmp::obeys_cmp_ord);
    reveal(vstd::laws_cmp::obeys_cmp_partial_ord);
    reveal(vstd::laws_cmp::obeys_partial_cmp_spec_properties);
    reveal(vstd::laws_eq::obeys_eq_spec_properties);
}

/// What is ordered before a second value, which is ordered before a third,
/// is ordered before the third.
pub proof fn lemma_transitive<K: Ord>(a: K, b: K, c: K)
    requires
        lawful::<K>(),
        le(a, b),
        le(b, c),
    ensures
        le(a, c),
{
    reveal(vstd::laws_cmp::obeys_cmp_ord);
    reveal(vstd::laws_cmp::obeys_cmp_partial_ord);
    reveal(vstd::laws_cmp::obeys_partial_cmp_spec_properties);
    reveal(vstd::laws_eq::obeys_eq_spec_properties);
}

/// Whether `a` is ordered strictly before `b`.
pub fn less<K: Ord>(a: &K, b: &K) -> (r: bool)
    requires
        lawful::<K>(),
    ensures
        r == lt(*a, *b),
{
    proof {
        reveal(vstd::laws_cmp::obeys_cmp_ord);
        reveal(vstd::laws_cmp::obeys_cmp_partial_ord);
    }
    *a < *b
}

/// On `i64` the order is that of the numbers.
pub proof fn lemma_i64_order(a: i64, b: i64)
    ensures
        lawful::<i64>(),
        le(a, b) <==> a <= b,
        lt(a, b) <==> a < b,
{
    broadcast use vstd::laws_cmp::group_laws_cmp;
}

} // verus!
