//! Self-balancing binary search trees over `u32` keys.
//!
//! Two independent engines with the same capability surface: a red-black
//! tree ([`rbtree::RedBlackTree`]) and a height-balanced AVL tree
//! ([`avl::AVL_Tree`]). Both support insertion with automatic rebalancing,
//! membership lookup, leaf count, height, emptiness, in-order traversal and
//! a structural listing; deletion is out of scope for both.

pub mod avl;
pub mod order;
pub mod rbtree;
