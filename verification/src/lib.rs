//! An ordered key-value store backed by an unbalanced binary search tree.
//!
//! Keys are `u64`; values are an arbitrary payload type. Duplicate keys are
//! accepted rather than rejected or merged: a key equal to one already in the
//! tree is routed into the right subtree, so equal keys end up next to each
//! other in insertion order. The tree never rebalances, so a lookup walks one
//! root-to-leaf path whose length is the tree's height; for adversarial
//! (e.g. sorted) insertion orders that height degrades to the tree's size.
//!
//! The abstract model of a tree is the sequence of its `(key, value)` entries
//! in in-order traversal order; every operation's contract is stated against
//! that sequence.

pub mod entries;
pub mod shift;
pub mod tree;

pub use tree::BST;
