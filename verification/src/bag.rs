//! The operations of a bag of values, and the tree as one.

use crate::order::{faithful_clone, lawful, lemma_asymmetric, precedes};
use crate::traversal::lemma_cardinality;
use crate::tree::{
    lemma_deleted, lemma_empty, lemma_greatest, lemma_inserted, lemma_least, BST,
};
use std::cmp::Ordering;
use std::fmt::Debug;
use vstd::pervasive::unreached;
use vstd::prelude::*;

verus! {

/// A collection that holds each value at most once.
pub trait Bag<T> {
    /// The values that the bag holds.
    spec fn elements(&self) -> Set<T>;

    /// What holds of a bag before and after each operation.
    spec fn valid(&self) -> bool;

    /// The order by which the bag tells its least and greatest value: `a` comes
    /// strictly before `b`.
    spec fn comes_before(a: T, b: T) -> bool;

    /// Whether `val` is in the bag.
    fn contains(&self, val: T) -> (found: bool)
        requires
            self.valid(),
        ensures
            found == self.elements().contains(val),
    ;

    /// Removes `val`; a value that is not there leaves the bag as it is.
    fn delete(&mut self, val: T)
        requires
            old(self).valid(),
        ensures
            final(self).valid(),
            final(self).elements() == old(self).elements().remove(val),
    ;

    /// Adds `val`; a value that is already there is not added again.
    fn insert(&mut self, val: T)
        requires
            old(self).valid(),
        ensures
            final(self).valid(),
            final(self).elements() == old(self).elements().insert(val),
    ;

    /// The least value of the bag: the one that comes before all others. `None` where
    /// the bag is empty.
    fn min_element(&self) -> (least: Option<T>)
        requires
            self.valid(),
        ensures
            least is None <==> self.elements() == Set::<T>::empty(),
            least matches Some(m) ==> self.elements().contains(m) && forall|x: T|
                #[trigger] self.elements().contains(x) ==> x == m || Self::comes_before(m, x),
    ;

    /// The greatest value of the bag: the one that all others come before. `None` where
    /// the bag is empty.
    fn max_element(&self) -> (greatest: Option<T>)
        requires
            self.valid(),
        ensures
            greatest is None <==> self.elements() == Set::<T>::empty(),
            greatest matches Some(m) ==> self.elements().contains(m) && forall|x: T|
                #[trigger] self.elements().contains(x) ==> x == m || Self::comes_before(x, m),
    ;
}

impl<T: Ord + Clone> BST<T> {
    /// Turns an inner node whose children are both empty into a leaf.
    fn settle(&mut self)
        requires
            faithful_clone::<T>(),
        ensures
            *final(self) == old(self).settled(),
    {
        let leaf = match *self {
            BST::INode(ref l, ref d, ref r) => {
                match (&**l, &**r) {
                    (BST::Empty, BST::Empty) => Some(BST::Leaf(d.clone())),
                    _ => None,
                }
            },
            _ => None,
        };
        if let Some(leaf) = leaf {
            *self = leaf;
        }
    }
}

impl<T> Bag<T> for BST<T> where T: Ord + Clone + Debug {
    open spec fn elements(&self) -> Set<T> {
        self@
    }

    /// The element type is lawful and the tree obeys its invariant.
    open spec fn valid(&self) -> bool {
        lawful::<T>() && self.well_formed()
    }

    open spec fn comes_before(a: T, b: T) -> bool {
        precedes(a, b)
    }

    /// Searches from the root down, to the left of a greater value and to the right of
    /// a lesser one.
    fn contains(&self, val: T) -> (found: bool)
        decreases *self,
    {
        match self {
            BST::INode(l, d, r) => {
                proof {
                    if precedes(*d, val) {
                        lemma_asymmetric(*d, val);
                        if l.contents().contains(val) {
                            lemma_asymmetric(val, *d);
                        }
                    }
                    if precedes(val, *d) {
                        lemma_asymmetric(val, *d);
                        if r.contents().contains(val) {
                            lemma_asymmetric(*d, val);
                        }
                    }
                }
                match d.cmp(&val) {
                    Ordering::Less => r.contains(val),
                    Ordering::Equal => true,
                    Ordering::Greater => l.contains(val),
                }
            },
            BST::Leaf(d) => val == *d,
            BST::Empty => false,
        }
    }

    /// Removes `val` where the search finds it. A leaf becomes empty. An inner node
    /// takes the greatest value of its left subtree, which loses it; without a left
    /// subtree it takes the least value of its right subtree, and becomes a leaf where
    /// that subtree is one. A node that is left without children becomes a leaf.
    fn delete(&mut self, val: T)
        ensures
            *final(self) == old(self).deleted(val),
            !old(self)@.contains(val) ==> *final(self) == *old(self),
            old(self).node_count() == final(self).node_count() + (if old(self)@.contains(val) {
                1nat
            } else {
                0nat
            }),
        decreases *old(self),
    {
        proof {
            lemma_deleted(*self, val);
            lemma_cardinality(*self);
            lemma_cardinality(self.deleted(val));
        }
        let new_node = match *self {
            BST::INode(ref mut l, ref mut d, ref mut r) => match val.cmp(d) {
                Ordering::Less => {
                    l.delete(val);
                    None
                },
                Ordering::Equal => {
                    match l.max_element() {
                        None => match r.min_element() {
                            Some(v) => {
                                if let BST::Leaf(_) = **r {
                                    Some(BST::Leaf(v))
                                } else {
                                    r.delete(v.clone());
                                    *d = v;
                                    None
                                }
                            },
                            None => unreached(),
                        },
                        Some(v) => {
                            l.delete(v.clone());
                            *d = v;
                            None
                        },
                    }
                },
                Ordering::Greater => {
                    r.delete(val);
                    None
                },
            },
            BST::Leaf(ref v) => if *v == val {
                Some(BST::Empty)
            } else {
                None
            },
            BST::Empty => None,
        };
        if let Some(new_node) = new_node {
            *self = new_node;
        }
        self.settle();
    }

    /// Puts `val` where the search for it ends: in place of an empty tree, or beside
    /// the value of a leaf, which becomes an inner node.
    fn insert(&mut self, val: T)
        ensures
            *final(self) == old(self).inserted(val),
            old(self)@.contains(val) ==> *final(self) == *old(self),
            final(self).node_count() == old(self).node_count() + (if old(self)@.contains(val) {
                0nat
            } else {
                1nat
            }),
        decreases *old(self),
    {
        proof {
            lemma_inserted(*self, val);
            lemma_cardinality(*self);
            lemma_cardinality(self.inserted(val));
        }
        let update = match *self {
            BST::INode(ref mut l, ref d, ref mut r) => {
                match d.cmp(&val) {
                    Ordering::Less => { r.insert(val) },
                    Ordering::Greater => { l.insert(val) },
                    _ => {},
                };
                None
            },
            BST::Leaf(ref d) => {
                match d.cmp(&val) {
                    Ordering::Less => Some(
                        BST::INode(Box::new(BST::Empty), d.clone(), Box::new(BST::Leaf(val))),
                    ),
                    Ordering::Greater => Some(
                        BST::INode(Box::new(BST::Leaf(val)), d.clone(), Box::new(BST::Empty)),
                    ),
                    Ordering::Equal => None,
                }
            },
            BST::Empty => Some(BST::Leaf(val)),
        };
        if let Some(v) = update {
            *self = v;
        }
    }

    /// The leftmost value.
    fn min_element(&self) -> (least: Option<T>)
        ensures
            least == self.least(),
        decreases *self,
    {
        proof {
            lemma_least(*self);
            lemma_empty(*self);
        }
        match *self {
            BST::INode(ref l, ref d, _) => {
                if let BST::Empty = **l {
                    Some(d.clone())
                } else {
                    l.min_element()
                }
            },
            BST::Leaf(ref d) => Some(d.clone()),
            BST::Empty => None,
        }
    }

    /// The rightmost value.
    fn max_element(&self) -> (greatest: Option<T>)
        ensures
            greatest == self.greatest(),
        decreases *self,
    {
        proof {
            lemma_greatest(*self);
            lemma_empty(*self);
        }
        match *self {
            BST::INode(_, ref d, ref r) => {
                if let BST::Empty = **r {
                    Some(d.clone())
                } else {
                    r.max_element()
                }
            },
            BST::Leaf(ref d) => Some(d.clone()),
            BST::Empty => None,
        }
    }
}

} // verus!
