//! An unbalanced binary search tree over a totally ordered element type.
//!
//! The tree is a bag without repetition: it holds each value at most once. Adding,
//! removing and looking up a value follow the order of the values from the root down;
//! nothing rebalances the tree, so its shape follows the order in which the values came.
//! Each operation says which tree results, and the proofs in [`laws`] relate the
//! operations to one another.

pub mod bag;
pub mod laws;
pub mod metrics;
pub mod order;
pub mod traversal;
pub mod tree;
pub mod validity;

pub use bag::Bag;
pub use metrics::{edges, height, leaves, nodes};
pub use traversal::traverse;
pub use tree::BST;
