//! Testing the invariant of a tree at run time.

use crate::order::{precedes, total_order};
use crate::tree::BST;
use std::cmp::Ordering;
use vstd::prelude::*;

verus! {

/// Whether `a` comes strictly before `b`.
fn is_before<T: Ord>(a: &T, b: &T) -> (before: bool)
    requires
        total_order::<T>(),
    ensures
        before == precedes(*a, *b),
{
    match a.cmp(b) {
        Ordering::Less => true,
        _ => false,
    }
}

impl<T: Ord> BST<T> {
    /// Every value of the tree lies strictly between `lo` and `hi`, where they are given.
    spec fn bounded(self, lo: Option<&T>, hi: Option<&T>) -> bool {
        forall|x: T| #[trigger]
            self.contents().contains(x) ==> {
                &&& lo matches Some(a) ==> precedes(*a, x)
                &&& hi matches Some(b) ==> precedes(x, *b)
            }
    }

    /// Whether the tree obeys the invariant and its values lie between the bounds.
    fn is_well_formed_within(&self, lo: Option<&T>, hi: Option<&T>) -> (ok: bool)
        requires
            total_order::<T>(),
        ensures
            ok == (self.well_formed() && self.bounded(lo, hi)),
        decreases *self,
    {
        match *self {
            BST::INode(ref l, ref d, ref r) => {
                let above = match lo {
                    Some(a) => is_before(a, d),
                    None => true,
                };
                let below = match hi {
                    Some(b) => is_before(d, b),
                    None => true,
                };
                let left = l.is_well_formed_within(lo, Some(d));
                let right = r.is_well_formed_within(Some(d), hi);
                let childless = match (&**l, &**r) {
                    (BST::Empty, BST::Empty) => true,
                    _ => false,
                };
                proof {
                    assert(self.contents().contains(*d));
                    if above && below && left && right {
                        assert forall|x: T| #[trigger] self.contents().contains(x) implies {
                            &&& lo matches Some(a) ==> precedes(*a, x)
                            &&& hi matches Some(b) ==> precedes(x, *b)
                        } by {
                            if l.contents().contains(x) {
                                assert(precedes(x, *d));
                            } else if r.contents().contains(x) {
                                assert(precedes(*d, x));
                            }
                        }
                    }
                    if self.well_formed() && self.bounded(lo, hi) {
                        assert forall|x: T| #[trigger] l.contents().contains(x) implies {
                            &&& lo matches Some(a) ==> precedes(*a, x)
                            &&& precedes(x, *d)
                        } by {
                            assert(self.contents().contains(x));
                        }
                        assert forall|x: T| #[trigger] r.contents().contains(x) implies {
                            &&& precedes(*d, x)
                            &&& hi matches Some(b) ==> precedes(x, *b)
                        } by {
                            assert(self.contents().contains(x));
                        }
                    }
                }
                above && below && left && right && !childless
            },
            BST::Leaf(ref d) => {
                let above = match lo {
                    Some(a) => is_before(a, d),
                    None => true,
                };
                let below = match hi {
                    Some(b) => is_before(d, b),
                    None => true,
                };
                proof {
                    assert(self.contents().contains(*d));
                }
                above && below
            },
            BST::Empty => true,
        }
    }

    /// Whether the tree obeys its invariant: it is ordered, and no inner node is
    /// without children.
    pub fn is_well_formed(&self) -> (ok: bool)
        requires
            total_order::<T>(),
        ensures
            ok == self.well_formed(),
    {
        self.is_well_formed_within(None, None)
    }
}

} // verus!
