//! What the tree asks of its element type.

use std::cmp::Ordering;
use vstd::prelude::*;
use vstd::std_specs::cmp::{OrdSpec, PartialEqSpec};

verus! {

/// `a` comes strictly before `b` in the order of `T`.
pub open spec fn precedes<T: Ord>(a: T, b: T) -> bool {
    a.cmp_spec(&b) == Ordering::Less
}

/// The comparison of `T` is a strict total order that agrees with equality: `==` and
/// `cmp` compute what their specifications say, two values compare equal exactly when
/// they are the same, `a` is greater than `b` exactly when `b` precedes `a`, and
/// precedence is transitive.
pub open spec fn total_order<T: Ord>() -> bool {
    &&& T::obeys_eq_spec()
    &&& T::obeys_cmp_spec()
    &&& forall|a: T, b: T| #[trigger] a.eq_spec(&b) <==> a == b
    &&& forall|a: T, b: T| (#[trigger] a.cmp_spec(&b)) == Ordering::Equal <==> a == b
    &&& forall|a: T, b: T| (#[trigger] a.cmp_spec(&b)) == Ordering::Greater <==> precedes(b, a)
    &&& forall|a: T, b: T, c: T|
        #[trigger] precedes(a, b) && #[trigger] precedes(b, c) ==> precedes(a, c)
}

/// A clone of a value of `T` is equal to the value.
pub open spec fn faithful_clone<T: Clone>() -> bool {
    forall|a: T, b: T| #[trigger] call_ensures(T::clone, (&a,), b) ==> a == b
}

/// What the tree asks of its element type: a total order, and clones that are equal to
/// what they were made from.
pub open spec fn lawful<T: Ord + Clone>() -> bool {
    total_order::<T>() && faithful_clone::<T>()
}

/// No value precedes itself.
pub proof fn lemma_irreflexive<T: Ord>(a: T)
    requires
        total_order::<T>(),
    ensures
        !precedes(a, a),
{
    assert(a.cmp_spec(&a) == Ordering::Equal);
}

/// Of two values at most one precedes the other.
pub proof fn lemma_asymmetric<T: Ord>(a: T, b: T)
    requires
        total_order::<T>(),
        precedes(a, b),
    ensures
        !precedes(b, a),
        a != b,
{
    lemma_irreflexive(a);
    if precedes(b, a) {
        assert(precedes(a, a));
    }
}

/// Two distinct values are ordered one way or the other.
pub proof fn lemma_connected<T: Ord>(a: T, b: T)
    requires
        total_order::<T>(),
        a != b,
    ensures
        precedes(a, b) || precedes(b, a),
{
    assert(a.cmp_spec(&b) != Ordering::Equal);
    if a.cmp_spec(&b) == Ordering::Greater {
        assert(precedes(b, a));
    }
}

} // verus!
