//! What holds of the operations taken together.

use crate::order::total_order;
use crate::traversal::{
    ascending, lemma_cardinality, lemma_in_order_ascending, lemma_in_order_determined,
};
use crate::tree::{lemma_deleted, lemma_inserted, BST};
use vstd::prelude::*;

verus! {

/// The tree that results from adding the values of `s`, first to last, to the empty tree.
pub open spec fn built<T: Ord>(s: Seq<T>) -> BST<T>
    decreases s.len(),
{
    if s.len() == 0 {
        BST::Empty
    } else {
        built(s.drop_last()).inserted(s.last())
    }
}

/// A tree built by adding values obeys the invariant and holds exactly the values that
/// were added.
pub proof fn lemma_built<T: Ord>(s: Seq<T>)
    requires
        total_order::<T>(),
    ensures
        built(s).well_formed(),
        built(s)@ == s.to_set(),
    decreases s.len(),
{
    if s.len() == 0 {
        assert(built(s)@ =~= s.to_set());
    } else {
        let front = s.drop_last();
        lemma_built(front);
        lemma_inserted(built(front), s.last());
        assert forall|x: T| built(s)@.contains(x) <==> s.to_set().contains(x) by {
            if s.contains(x) {
                let i = choose|i: int| 0 <= i < s.len() && s[i] == x;
                if i < s.len() - 1 {
                    assert(front[i] == x);
                    assert(front.contains(x));
                }
            }
            if front.contains(x) {
                let i = choose|i: int| 0 <= i < front.len() && front[i] == x;
                assert(s[i] == x);
            }
            assert(s[s.len() - 1] == s.last());
        }
        assert(built(s)@ =~= s.to_set());
    }
}

/// After any sequence of additions the tree holds a value if and only if the value
/// occurs in the sequence.
pub proof fn law_contains_what_was_inserted<T: Ord>(s: Seq<T>, v: T)
    requires
        total_order::<T>(),
    ensures
        built(s)@.contains(v) <==> s.contains(v),
{
    lemma_built(s);
}

/// Adding a value that the tree holds leaves the number of nodes as it was; adding one
/// that it lacks makes it one more.
pub proof fn law_insert_node_count<T: Ord>(t: BST<T>, v: T)
    requires
        total_order::<T>(),
        t.well_formed(),
    ensures
        t@.contains(v) ==> t.inserted(v).node_count() == t.node_count(),
        !t@.contains(v) ==> t.inserted(v).node_count() == t.node_count() + 1,
{
    lemma_inserted(t, v);
    lemma_cardinality(t);
    lemma_cardinality(t.inserted(v));
}

/// Removing a value that the tree holds makes the number of nodes one less.
pub proof fn law_delete_node_count<T: Ord>(t: BST<T>, v: T)
    requires
        total_order::<T>(),
        t.well_formed(),
        t@.contains(v),
    ensures
        t.deleted(v).node_count() == t.node_count() - 1,
{
    lemma_deleted(t, v);
    lemma_cardinality(t);
    lemma_cardinality(t.deleted(v));
}

/// Adding a value that the tree lacks and removing it again gives back the traversal
/// that the tree had.
pub proof fn law_insert_then_delete<T: Ord>(t: BST<T>, v: T)
    requires
        total_order::<T>(),
        t.well_formed(),
        !t@.contains(v),
    ensures
        t.inserted(v).deleted(v).well_formed(),
        t.inserted(v).deleted(v)@ == t@,
        t.inserted(v).deleted(v).in_order() == t.in_order(),
{
    lemma_inserted(t, v);
    lemma_deleted(t.inserted(v), v);
    assert(t.inserted(v).deleted(v)@ =~= t@);
    lemma_in_order_determined(t.inserted(v).deleted(v), t);
}

/// Removing a value that the tree lacks changes neither the number of nodes nor
/// whether any value is held.
pub proof fn law_delete_absent<T: Ord>(t: BST<T>, v: T, w: T)
    requires
        total_order::<T>(),
        t.well_formed(),
        !t@.contains(v),
    ensures
        t.deleted(v).node_count() == t.node_count(),
        t.deleted(v)@.contains(w) == t@.contains(w),
{
    lemma_deleted(t, v);
}

/// The traversal of a tree built by adding values is strictly ascending and holds no
/// value twice.
pub proof fn law_built_in_order_ascending<T: Ord>(s: Seq<T>)
    requires
        total_order::<T>(),
    ensures
        ascending(built(s).in_order()),
        built(s).in_order().no_duplicates(),
{
    lemma_built(s);
    lemma_in_order_ascending(built(s));
}

} // verus!
