//! What the map asks of its key type: a strict total order.

use std::cmp::Ordering;
use vstd::laws_cmp::{obeys_cmp, obeys_cmp_ord, obeys_partial_cmp_spec_properties};
use vstd::laws_eq::obeys_concrete_eq;
use vstd::prelude::*;
use vstd::std_specs::cmp::OrdSpec;

verus! {

/// `a` sorts strictly before `b`.
pub open spec fn less<K: Ord>(a: K, b: K) -> bool {
    a.cmp_spec(&b) == Ordering::Less
}

/// The comparison of `K` is a strict total order, `Ord::cmp` computes it, and
/// two keys compare `Equal` exactly when they are the same value.
pub open spec fn strict_order<K: Ord>() -> bool {
    &&& K::obeys_cmp_spec()
    &&& forall|a: K, b: K|
        #![trigger a.cmp_spec(&b)]
        a.cmp_spec(&b) == Ordering::Equal <==> a == b
    &&& forall|a: K, b: K|
        #![trigger a.cmp_spec(&b)]
        a.cmp_spec(&b) == Ordering::Greater <==> b.cmp_spec(&a) == Ordering::Less
    &&& forall|a: K, b: K, c: K|
        #![trigger less(a, b), less(b, c)]
        less(a, b) && less(b, c) ==> less(a, c)
}

/// A key type has a strict total order where its comparisons obey the laws
/// that vstd states for `Ord`, and its `==` is equality of values: so have,
/// by vstd's lemmas on these laws, tuples of integers. For the integer types
/// themselves no proof is needed: Verus knows their order.
pub proof fn lemma_lawful_keys_have_a_strict_order<K: Ord>()
    requires
        obeys_cmp::<K>(),
        obeys_concrete_eq::<K>(),
    ensures
        strict_order::<K>(),
{
    reveal(obeys_partial_cmp_spec_properties);
    reveal(obeys_cmp_ord);
    reveal(obeys_concrete_eq);
}

} // verus!
