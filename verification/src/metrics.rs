//! Measures of a tree's shape.

use crate::tree::BST;
use std::fmt::Debug;
use vstd::prelude::*;

verus! {

impl<T: Ord> BST<T> {
    /// The number of nodes: inner nodes and leaves.
    pub open spec fn node_count(self) -> nat
        decreases self,
    {
        match self {
            BST::INode(l, _, r) => 1 + l.node_count() + r.node_count(),
            BST::Leaf(_) => 1,
            BST::Empty => 0,
        }
    }

    /// The number of leaves.
    pub open spec fn leaf_count(self) -> nat
        decreases self,
    {
        match self {
            BST::INode(l, _, r) => l.leaf_count() + r.leaf_count(),
            BST::Leaf(_) => 1,
            BST::Empty => 0,
        }
    }

    /// The number of inner nodes.
    pub open spec fn inner_count(self) -> nat
        decreases self,
    {
        match self {
            BST::INode(l, _, r) => 1 + l.inner_count() + r.inner_count(),
            _ => 0,
        }
    }

    /// The number of edges: one from each inner node to each child that is not empty.
    pub open spec fn edge_count(self) -> nat
        decreases self,
    {
        match self {
            BST::INode(l, _, r) => {
                let left: nat = if *l is Empty {
                    0
                } else {
                    l.edge_count() + 1
                };
                let right: nat = if *r is Empty {
                    0
                } else {
                    r.edge_count() + 1
                };
                left + right
            },
            _ => 0,
        }
    }

    /// The number of nodes on the longest way from the root down.
    pub open spec fn levels(self) -> nat
        decreases self,
    {
        match self {
            BST::INode(l, _, r) => {
                if l.levels() >= r.levels() {
                    1 + l.levels()
                } else {
                    1 + r.levels()
                }
            },
            BST::Leaf(_) => 1,
            BST::Empty => 0,
        }
    }
}

/// Counts the leaves of `bt`.
pub fn leaves<T: Ord + Debug>(bt: &BST<T>) -> (n: usize)
    requires
        bt.leaf_count() <= usize::MAX,
    ensures
        n == bt.leaf_count(),
    decreases *bt,
{
    match *bt {
        BST::INode(ref l, _, ref r) => leaves(l) + leaves(r),
        BST::Leaf(_) => 1,
        BST::Empty => 0,
    }
}

/// Counts the edges of `bt`.
pub fn edges<T: Ord + Debug>(bt: &BST<T>) -> (n: usize)
    requires
        bt.edge_count() <= usize::MAX,
    ensures
        n == bt.edge_count(),
    decreases *bt,
{
    match *bt {
        BST::INode(ref l, _, ref r) => {
            (match **l {
                BST::Empty => 0,
                _ => edges(l) + 1,
            }) + (match **r {
                BST::Empty => 0,
                _ => edges(r) + 1,
            })
        },
        _ => 0,
    }
}

/// Measures the height of `bt`: 0 for the empty tree, 1 for a single node.
pub fn height<T: Ord + Debug>(bt: &BST<T>) -> (n: usize)
    requires
        bt.levels() <= usize::MAX,
    ensures
        n == bt.levels(),
    decreases *bt,
{
    match *bt {
        BST::INode(ref l, _, ref r) => {
            let left: usize = height(l);
            let right: usize = height(r);
            if left >= right {
                1 + left
            } else {
                1 + right
            }
        },
        BST::Leaf(_) => 1,
        BST::Empty => 0,
    }
}

/// Counts the nodes of `bt`.
pub fn nodes<T: Ord + Debug>(bt: &BST<T>) -> (n: usize)
    requires
        bt.node_count() <= usize::MAX,
    ensures
        n == bt.node_count(),
    decreases *bt,
{
    match *bt {
        BST::INode(ref l, _, ref r) => 1 + nodes(l) + nodes(r),
        BST::Leaf(_) => 1,
        BST::Empty => 0,
    }
}

/// Every node is a leaf or an inner node, and a tree that is not empty has one edge
/// less than it has nodes.
pub proof fn law_counts<T: Ord>(t: BST<T>)
    ensures
        t.node_count() == t.leaf_count() + t.inner_count(),
        t is Empty <==> t.node_count() == 0,
        t is Empty ==> t.edge_count() == 0,
        !(t is Empty) ==> t.edge_count() == t.node_count() - 1,
    decreases t,
{
    match t {
        BST::INode(l, _, r) => {
            law_counts(*l);
            law_counts(*r);
        },
        _ => {},
    }
}

/// A tree is at most as high as it has nodes, and a tree of one node has height 1.
pub proof fn law_height<T: Ord>(t: BST<T>)
    ensures
        t.levels() <= t.node_count(),
        t is Empty <==> t.levels() == 0,
        t.node_count() == 1 ==> t.levels() == 1,
    decreases t,
{
    match t {
        BST::INode(l, _, r) => {
            law_height(*l);
            law_height(*r);
            law_counts(*l);
            law_counts(*r);
        },
        _ => {},
    }
}

} // verus!
