//! The total order on keys that the tree relies on, stated once over `Ord`.

use std::cmp::Ordering;
use vstd::laws_cmp::obeys_cmp;
use vstd::laws_eq::obeys_concrete_eq;
use vstd::prelude::*;
use vstd::std_specs::cmp::{OrdSpec, PartialEqSpec, PartialOrdSpec};

verus! {

/// What the tree asks of a key type: comparison is a total order, equality
/// under the order is plain equality, and a clone equals its source.
pub open spec fn key_laws<K: Ord + Clone>() -> bool {
    &&& obeys_cmp::<K>()
    &&& obeys_concrete_eq::<K>()
    &&& forall|a: K, b: K| cloned(a, b) ==> a == b
}

/// `a` sorts strictly before `b`.
pub open spec fn key_lt<K: Ord>(a: K, b: K) -> bool {
    a.cmp_spec(&b) == Ordering::Less
}

/// `a` sorts before `b` or is `b`.
pub open spec fn key_le<K: Ord>(a: K, b: K) -> bool {
    key_lt(a, b) || a == b
}

/// Of two keys exactly one holds: the first is smaller, they are equal, or
/// the second is smaller.
pub proof fn lemma_trichotomy<K: Ord + Clone>(a: K, b: K)
    requires
        key_laws::<K>(),
    ensures
        key_lt(a, b) || a == b || key_lt(b, a),
        !(key_lt(a, b) && a == b),
        !(key_lt(b, a) && a == b),
        !(key_lt(a, b) && key_lt(b, a)),
{
    reveal(vstd::laws_cmp::obeys_cmp_partial_ord);
    reveal(vstd::laws_cmp::obeys_cmp_ord);
    reveal(vstd::laws_cmp::obeys_partial_cmp_spec_properties);
    reveal(vstd::laws_eq::obeys_eq_spec_properties);
    reveal(obeys_concrete_eq);
}

/// Smaller-than is transitive.
pub proof fn lemma_lt_transitive<K: Ord + Clone>(a: K, b: K, c: K)
    requires
        key_laws::<K>(),
        key_lt(a, b),
        key_lt(b, c),
    ensures
        key_lt(a, c),
{
    reveal(vstd::laws_cmp::obeys_cmp_partial_ord);
    reveal(vstd::laws_cmp::obeys_cmp_ord);
    reveal(vstd::laws_cmp::obeys_partial_cmp_spec_properties);
}

/// Whether `a` sorts strictly before `b`.
pub fn is_less<K: Ord + Clone>(a: &K, b: &K) -> (r: bool)
    requires
        key_laws::<K>(),
    ensures
        r == key_lt(*a, *b),
{
    proof {
        reveal(vstd::laws_cmp::obeys_cmp_ord);
    }
    match a.cmp(b) {
        Ordering::Less => true,
        _ => false,
    }
}

/// Whether `a` and `b` are the same key.
pub fn is_same<K: Ord + Clone>(a: &K, b: &K) -> (r: bool)
    requires
        key_laws::<K>(),
    ensures
        r == (*a == *b),
{
    proof {
        reveal(vstd::laws_cmp::obeys_cmp_ord);
        reveal(vstd::laws_cmp::obeys_cmp_partial_ord);
        reveal(obeys_concrete_eq);
    }
    match a.cmp(b) {
        Ordering::Equal => true,
        _ => false,
    }
}

/// A copy of `key`.
pub fn copy_key<K: Ord + Clone>(key: &K) -> (r: K)
    requires
        key_laws::<K>(),
    ensures
        r == *key,
{
    let r = key.clone();
    assert(cloned(*key, r));
    r
}

/// The unsigned integer types meet the laws, and their order as keys is
/// their order as numbers.
pub proof fn lemma_integer_keys()
    ensures
        key_laws::<u8>(),
        key_laws::<u16>(),
        key_laws::<u32>(),
        key_laws::<u64>(),
        key_laws::<usize>(),
        forall|a: u32, b: u32| key_lt(a, b) <==> a < b,
        forall|a: u64, b: u64| key_lt(a, b) <==> a < b,
        forall|a: usize, b: usize| key_lt(a, b) <==> a < b,
{
    broadcast use vstd::laws_cmp::group_laws_cmp;
    broadcast use vstd::laws_eq::group_laws_eq;
}

} // verus!
