//! Ordered search trees over `i64` keys: an unbalanced binary search tree,
//! an AVL tree and a red-black tree, with a shared query layer.

pub mod avltree;
pub mod base;
pub mod bstree;
pub mod prelude;
pub mod rbtree;
