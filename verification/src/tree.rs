//! The tree, its mathematical model and what its operations compute.

use crate::order::{
    faithful_clone, lemma_asymmetric, lemma_connected, lemma_irreflexive, precedes, total_order,
};
use vstd::prelude::*;

verus! {

/// A binary search tree: an inner node with two owned children, a leaf, or nothing.
#[derive(Debug)]
pub enum BST<T: Ord> {
    INode(Box<BST<T>>, T, Box<BST<T>>),
    Leaf(T),
    Empty,
}

impl<T: Ord + Clone> Clone for BST<T> {
    /// A copy of the tree, node by node: the same tree where a clone of a value is
    /// equal to the value.
    fn clone(&self) -> (copy: Self)
        ensures
            faithful_clone::<T>() ==> copy == *self,
        decreases self,
    {
        match self {
            BST::INode(l, d, r) => BST::INode(
                Box::new((&**l).clone()),
                d.clone(),
                Box::new((&**r).clone()),
            ),
            BST::Leaf(d) => BST::Leaf(d.clone()),
            BST::Empty => BST::Empty,
        }
    }
}

impl<T: Ord> View for BST<T> {
    type V = Set<T>;

    /// A tree is viewed as the set of values that it stores.
    open spec fn view(&self) -> Set<T> {
        self.contents()
    }
}

impl<T: Ord> BST<T> {
    /// The set of values stored in the tree.
    pub open spec fn contents(self) -> Set<T>
        decreases self,
    {
        match self {
            BST::INode(l, d, r) => l.contents().union(r.contents()).insert(d),
            BST::Leaf(d) => set![d],
            BST::Empty => Set::empty(),
        }
    }

    /// Every value of a left subtree precedes the node's value, which precedes every
    /// value of the right subtree.
    pub open spec fn ordered(self) -> bool
        decreases self,
    {
        match self {
            BST::INode(l, d, r) => {
                &&& l.ordered()
                &&& r.ordered()
                &&& forall|x: T| #[trigger] l.contents().contains(x) ==> precedes(x, d)
                &&& forall|x: T| #[trigger] r.contents().contains(x) ==> precedes(d, x)
            },
            _ => true,
        }
    }

    /// No inner node is without children: such a node is a leaf.
    pub open spec fn compact(self) -> bool
        decreases self,
    {
        match self {
            BST::INode(l, _, r) => {
                &&& l.compact()
                &&& r.compact()
                &&& !(*l is Empty && *r is Empty)
            },
            _ => true,
        }
    }

    /// The invariant of the tree: what adding and removing values keep.
    pub open spec fn well_formed(self) -> bool {
        self.ordered() && self.compact()
    }

    /// The leftmost value: the least one of an ordered tree.
    pub open spec fn least(self) -> Option<T>
        decreases self,
    {
        match self {
            BST::INode(l, d, _) => if *l is Empty {
                Some(d)
            } else {
                l.least()
            },
            BST::Leaf(d) => Some(d),
            BST::Empty => None,
        }
    }

    /// The rightmost value: the greatest one of an ordered tree.
    pub open spec fn greatest(self) -> Option<T>
        decreases self,
    {
        match self {
            BST::INode(_, d, r) => if *r is Empty {
                Some(d)
            } else {
                r.greatest()
            },
            BST::Leaf(d) => Some(d),
            BST::Empty => None,
        }
    }

    /// The values from left to right.
    pub open spec fn in_order(self) -> Seq<T>
        decreases self,
    {
        match self {
            BST::INode(l, d, r) => l.in_order().push(d) + r.in_order(),
            BST::Leaf(d) => seq![d],
            BST::Empty => Seq::empty(),
        }
    }

    /// The same tree, with an inner node that has no children written as the leaf it is.
    pub open spec fn settled(self) -> BST<T> {
        match self {
            BST::INode(l, d, r) => if *l is Empty && *r is Empty {
                BST::Leaf(d)
            } else {
                self
            },
            _ => self,
        }
    }

    /// The tree after `v` has been removed.
    ///
    /// The search for `v` goes left of a greater value and right of a lesser one. A leaf
    /// that holds `v` becomes empty. An inner node that holds `v` takes the greatest
    /// value of its left subtree, which loses that value; where the left subtree is
    /// empty it takes the least value of its right subtree, and becomes a leaf where
    /// the right subtree is one. A node that is left without children becomes a leaf.
    pub open spec fn deleted(self, v: T) -> BST<T>
        decreases self,
    {
        match self {
            BST::INode(l, d, r) => {
                let node = if precedes(v, d) {
                    BST::INode(Box::new(l.deleted(v)), d, r)
                } else if precedes(d, v) {
                    BST::INode(l, d, Box::new(r.deleted(v)))
                } else {
                    match (l.greatest(), r.least()) {
                        (Some(m), _) => BST::INode(Box::new(l.deleted(m)), m, r),
                        (None, Some(m)) => if *r is Leaf {
                            BST::Leaf(m)
                        } else {
                            BST::INode(l, m, Box::new(r.deleted(m)))
                        },
                        // a node without children: there is none in a well-formed tree
                        (None, None) => self,
                    }
                };
                node.settled()
            },
            BST::Leaf(d) => if v == d {
                BST::Empty
            } else {
                self
            },
            BST::Empty => self,
        }
    }

    /// The tree after `v` has been added.
    ///
    /// The search for `v` goes left of a greater value and right of a lesser one. Where
    /// it ends in an empty tree, a leaf with `v` takes its place; where it ends in a
    /// leaf with another value, the leaf becomes an inner node with `v` as its only
    /// child. Where it finds `v`, nothing changes.
    pub open spec fn inserted(self, v: T) -> BST<T>
        decreases self,
    {
        match self {
            BST::INode(l, d, r) => {
                if precedes(v, d) {
                    BST::INode(Box::new(l.inserted(v)), d, r)
                } else if precedes(d, v) {
                    BST::INode(l, d, Box::new(r.inserted(v)))
                } else {
                    self
                }
            },
            BST::Leaf(d) => {
                if precedes(v, d) {
                    BST::INode(Box::new(BST::Leaf(v)), d, Box::new(BST::Empty))
                } else if precedes(d, v) {
                    BST::INode(Box::new(BST::Empty), d, Box::new(BST::Leaf(v)))
                } else {
                    self
                }
            },
            BST::Empty => BST::Leaf(v),
        }
    }
}

/// Only the empty tree has no contents.
pub proof fn lemma_empty<T: Ord>(t: BST<T>)
    ensures
        t is Empty <==> t@ == Set::<T>::empty(),
        t@.finite(),
    decreases t,
{
    match t {
        BST::INode(l, d, r) => {
            lemma_empty(*l);
            lemma_empty(*r);
            assert(t@.contains(d));
        },
        BST::Leaf(d) => {
            assert(t@.contains(d));
        },
        BST::Empty => {},
    }
}

/// The leftmost value of an ordered tree is in it and precedes every other value.
pub proof fn lemma_least<T: Ord>(t: BST<T>)
    requires
        total_order::<T>(),
        t.ordered(),
    ensures
        t.least() is None <==> t is Empty,
        t.least() matches Some(m) ==> t@.contains(m) && forall|x: T|
            #[trigger] t@.contains(x) ==> x == m || precedes(m, x),
    decreases t,
{
    match t {
        BST::INode(l, d, r) => {
            lemma_least(*l);
            lemma_empty(*l);
            let m = t.least().unwrap();
            assert(m == d || precedes(m, d));
            assert forall|x: T| #[trigger] t@.contains(x) implies x == m || precedes(m, x) by {
                if r.contents().contains(x) {
                    assert(precedes(d, x));
                } else if l.contents().contains(x) {
                    assert(precedes(x, d));
                }
            }
        },
        _ => {},
    }
}

/// The rightmost value of an ordered tree is in it and every other value precedes it.
pub proof fn lemma_greatest<T: Ord>(t: BST<T>)
    requires
        total_order::<T>(),
        t.ordered(),
    ensures
        t.greatest() is None <==> t is Empty,
        t.greatest() matches Some(m) ==> t@.contains(m) && forall|x: T|
            #[trigger] t@.contains(x) ==> x == m || precedes(x, m),
    decreases t,
{
    match t {
        BST::INode(l, d, r) => {
            lemma_greatest(*r);
            lemma_empty(*r);
            let m = t.greatest().unwrap();
            assert(m == d || precedes(d, m));
            assert forall|x: T| #[trigger] t@.contains(x) implies x == m || precedes(x, m) by {
                if l.contents().contains(x) {
                    assert(precedes(x, d));
                } else if r.contents().contains(x) {
                    assert(precedes(d, x));
                }
            }
        },
        _ => {},
    }
}

/// Adding a value keeps the invariant and adds exactly that value to the contents; a
/// value that is already there leaves the tree as it is.
pub proof fn lemma_inserted<T: Ord>(t: BST<T>, v: T)
    requires
        total_order::<T>(),
        t.well_formed(),
    ensures
        t.inserted(v).well_formed(),
        t.inserted(v)@ == t@.insert(v),
        t@.contains(v) ==> t.inserted(v) == t,
        !(t.inserted(v) is Empty),
    decreases t,
{
    let u = t.inserted(v);
    match t {
        BST::INode(l, d, r) => {
            if precedes(v, d) {
                lemma_asymmetric(v, d);
                lemma_inserted(*l, v);
                if r.contents().contains(v) {
                    lemma_asymmetric(d, v);
                }
                assert(u == BST::INode(Box::new(l.inserted(v)), d, r));
                assert(l.inserted(v).contents() == l.contents().insert(v));
                assert(u.contents() =~= t.contents().insert(v));
            } else if precedes(d, v) {
                lemma_asymmetric(d, v);
                lemma_inserted(*r, v);
                if l.contents().contains(v) {
                    lemma_asymmetric(v, d);
                }
                assert(u == BST::INode(l, d, Box::new(r.inserted(v))));
                assert(r.inserted(v).contents() == r.contents().insert(v));
                assert(u.contents() =~= t.contents().insert(v));
            } else {
                if v != d {
                    lemma_connected(v, d);
                }
                assert(u.contents() =~= t.contents().insert(v));
            }
        },
        BST::Leaf(d) => {
            if precedes(v, d) {
                lemma_asymmetric(v, d);
                let l = BST::Leaf(v);
                let r = BST::<T>::Empty;
                assert(u == BST::INode(Box::new(l), d, Box::new(r)));
                assert(l.contents() =~= set![v]);
                assert(r.contents() =~= Set::empty());
                assert(u.contents() =~= t.contents().insert(v));
                assert(l.well_formed() && r.well_formed());
            } else if precedes(d, v) {
                lemma_asymmetric(d, v);
                let l = BST::<T>::Empty;
                let r = BST::Leaf(v);
                assert(u == BST::INode(Box::new(l), d, Box::new(r)));
                assert(l.contents() =~= Set::empty());
                assert(r.contents() =~= set![v]);
                assert(u.contents() =~= t.contents().insert(v));
                assert(l.well_formed() && r.well_formed());
            } else {
                if v != d {
                    lemma_connected(v, d);
                }
                assert(u.contents() =~= t.contents().insert(v));
            }
        },
        BST::Empty => {
            assert(u.contents() =~= t.contents().insert(v));
        },
    }
}

/// Writing a childless inner node as a leaf changes neither the contents nor the order,
/// and leaves a tree that obeys the invariant where the children did.
proof fn lemma_settled<T: Ord>(t: BST<T>)
    requires
        t.ordered(),
        t matches BST::INode(l, _, r) ==> l.compact() && r.compact(),
    ensures
        t.settled().well_formed(),
        t.settled()@ == t@,
        t.compact() ==> t.settled() == t,
{
    match t {
        BST::INode(l, d, r) => {
            if *l is Empty && *r is Empty {
                assert(l.contents() =~= Set::empty());
                assert(r.contents() =~= Set::empty());
            }
        },
        _ => {},
    }
    assert(t.settled()@ =~= t@);
}

/// An inner node of a well-formed tree holds a value besides any given one.
proof fn lemma_inner_holds_two<T: Ord>(t: BST<T>, m: T)
    requires
        total_order::<T>(),
        t.well_formed(),
        t is INode,
    ensures
        t@.remove(m) != Set::<T>::empty(),
{
    match t {
        BST::INode(l, d, r) => {
            lemma_empty(*l);
            lemma_empty(*r);
            let c = if *l is Empty { *r } else { *l };
            assert(c@ != Set::<T>::empty());
            if forall|x: T| !c@.contains(x) {
                assert(c@ =~= Set::<T>::empty());
            }
            let e = choose|x: T| c@.contains(x);
            assert(t@.contains(e) && t@.contains(d));
            if *l is Empty {
                lemma_asymmetric(d, e);
            } else {
                lemma_asymmetric(e, d);
            }
            if m == d {
                assert(t@.remove(m).contains(e));
            } else {
                assert(t@.remove(m).contains(d));
            }
        },
        _ => {},
    }
}

/// Removing a value keeps the invariant and takes exactly that value from the contents;
/// a value that is not there leaves the tree as it is.
pub proof fn lemma_deleted<T: Ord>(t: BST<T>, v: T)
    requires
        total_order::<T>(),
        t.well_formed(),
    ensures
        t.deleted(v).well_formed(),
        t.deleted(v)@ == t@.remove(v),
        !t@.contains(v) ==> t.deleted(v) == t,
    decreases t,
{
    let u = t.deleted(v);
    match t {
        BST::INode(l, d, r) => {
            lemma_irreflexive(d);
            if precedes(v, d) {
                lemma_asymmetric(v, d);
                lemma_deleted(*l, v);
                if r.contents().contains(v) {
                    lemma_asymmetric(d, v);
                }
                let n = BST::INode(Box::new(l.deleted(v)), d, r);
                assert(l.deleted(v).contents() == l.contents().remove(v));
                assert(n.contents() =~= t.contents().remove(v));
                lemma_settled(n);
            } else if precedes(d, v) {
                lemma_asymmetric(d, v);
                lemma_deleted(*r, v);
                if l.contents().contains(v) {
                    lemma_asymmetric(v, d);
                }
                let n = BST::INode(l, d, Box::new(r.deleted(v)));
                assert(r.deleted(v).contents() == r.contents().remove(v));
                assert(n.contents() =~= t.contents().remove(v));
                lemma_settled(n);
            } else {
                if v != d {
                    lemma_connected(v, d);
                }
                lemma_greatest(*l);
                lemma_least(*r);
                match (l.greatest(), r.least()) {
                    (Some(m), _) => {
                        lemma_deleted(*l, m);
                        let n = BST::INode(Box::new(l.deleted(m)), m, r);
                        assert(precedes(m, d));
                        assert(l.deleted(m).contents() == l.contents().remove(m));
                        assert forall|x: T| #[trigger]
                            r.contents().contains(x) implies precedes(m, x) by {
                            assert(precedes(d, x));
                        }
                        assert(!l.contents().contains(d) && !r.contents().contains(d));
                        assert(n.contents() =~= l.contents().remove(m).union(r.contents()).insert(m));
                        assert(n.contents() =~= t.contents().remove(v));
                        lemma_settled(n);
                    },
                    (None, Some(m)) => {
                        assert(l.contents() =~= Set::empty());
                        assert(!r.contents().contains(d));
                        if *r is Leaf {
                            assert(r.contents() =~= set![m]);
                            assert(u.contents() =~= t.contents().remove(v));
                        } else {
                            lemma_deleted(*r, m);
                            lemma_inner_holds_two(*r, m);
                            lemma_empty(r.deleted(m));
                            let n = BST::INode(l, m, Box::new(r.deleted(m)));
                            assert(r.deleted(m).contents() == r.contents().remove(m));
                            assert(n.contents() =~= t.contents().remove(v));
                            lemma_settled(n);
                        }
                    },
                    (None, None) => {},
                }
            }
        },
        BST::Leaf(d) => {
            assert(u.contents() =~= t.contents().remove(v));
        },
        BST::Empty => {
            assert(u.contents() =~= t.contents().remove(v));
        },
    }
}

} // verus!
