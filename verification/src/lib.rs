//! An in-memory binary search tree over unique `i32` keys.
//!
//! Nodes live in an index-addressed arena: each node owns its children
//! through `Option<usize>` links and carries a non-owning back-reference
//! to its parent, so upward traversals (root resolution, in-order
//! successor) never form ownership cycles.
//!
//! The `bst` module holds the search tree and its operations; the
//! `laws` module states the properties that tie the operations
//! together over the tree's abstract key set; the `tree` module holds
//! the plain binary tree that the search tree grew out of.

pub mod bst;
pub mod laws;
pub mod tree;
