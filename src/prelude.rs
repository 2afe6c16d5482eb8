//! The tree types and the query trait, for a single `use`.

pub use crate::avltree::AVLTree;
pub use crate::base::QueryableTree;
pub use crate::bstree::BinarySearchTree;
pub use crate::rbtree::RedBlackTree;
