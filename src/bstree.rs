//! Unbalanced binary search tree.
//!
//! Insertion adds a leaf; deletion splices out a node with at most one child
//! and, for a node with two children, takes the in-order successor's key and
//! deletes that key from the right subtree.

use vstd::prelude::*;

use crate::base::{lemma_size_after_insert, lemma_size_after_remove, QueryableTree, QueryableTreeNode, Shape, subtree_min};

verus! {

/// A one-node shape.
pub open spec fn leaf(v: i64) -> Shape {
    Shape::Node { left: Box::new(Shape::Empty), value: v, right: Box::new(Shape::Empty) }
}

/// The shape after inserting `v` without rebalancing.
pub open spec fn bst_insert(t: Shape, v: i64) -> Shape
    decreases t,
{
    match t {
        Shape::Empty => leaf(v),
        Shape::Node { left, value, right } => {
            if v < value {
                Shape::Node { left: Box::new(bst_insert(*left, v)), value, right }
            } else if value < v {
                Shape::Node { left, value, right: Box::new(bst_insert(*right, v)) }
            } else {
                t
            }
        },
    }
}

/// The shape after deleting `v` without rebalancing, replacing a node with
/// two children by its in-order successor.
pub open spec fn bst_delete(t: Shape, v: i64) -> Shape
    decreases t,
{
    match t {
        Shape::Empty => Shape::Empty,
        Shape::Node { left, value, right } => {
            if v < value {
                Shape::Node { left: Box::new(bst_delete(*left, v)), value, right }
            } else if value < v {
                Shape::Node { left, value, right: Box::new(bst_delete(*right, v)) }
            } else if *left is Empty {
                *right
            } else if *right is Empty {
                *left
            } else {
                let m = right.leftmost();
                Shape::Node { left, value: m, right: Box::new(bst_delete(*right, m)) }
            }
        },
    }
}

/// Insertion keeps the search order and adds exactly `v`.
pub proof fn lemma_bst_insert(t: Shape, v: i64)
    requires
        t.is_bst(),
    ensures
        bst_insert(t, v).is_bst(),
        bst_insert(t, v).elems() == t.elems().insert(v),
    decreases t,
{
    if let Shape::Node { left, value, right } = t {
        lemma_bst_insert(*left, v);
        lemma_bst_insert(*right, v);
        let r = bst_insert(t, v);
        assert(r.elems() =~= t.elems().insert(v));
    } else {
        assert(leaf(v).elems() =~= t.elems().insert(v));
    }
}

/// Deletion keeps the search order and removes exactly `v`.
pub proof fn lemma_bst_delete(t: Shape, v: i64)
    requires
        t.is_bst(),
    ensures
        bst_delete(t, v).is_bst(),
        bst_delete(t, v).elems() == t.elems().remove(v),
    decreases t,
{
    if let Shape::Node { left, value, right } = t {
        let r = bst_delete(t, v);
        if v < value {
            lemma_bst_delete(*left, v);
            assert(!right.elems().contains(v));
            assert(r.elems() =~= t.elems().remove(v));
        } else if value < v {
            lemma_bst_delete(*right, v);
            assert(!left.elems().contains(v));
            assert(r.elems() =~= t.elems().remove(v));
        } else if *left is Empty {
            assert(!right.elems().contains(v));
            assert(left.elems() =~= Set::empty());
            assert(r.elems() =~= t.elems().remove(v));
        } else if *right is Empty {
            assert(!left.elems().contains(v));
            assert(right.elems() =~= Set::empty());
            assert(r.elems() =~= t.elems().remove(v));
        } else {
            let m = right.leftmost();
            right.lemma_leftmost_is_least();
            lemma_bst_delete(*right, m);
            assert(!left.elems().contains(v));
            assert(!right.elems().contains(v));
            assert(right.elems().contains(m));
            assert(r.elems() =~= t.elems().remove(v));
        }
    } else {
        assert(t.elems() =~= t.elems().remove(v));
    }
}

/// Inserting a key that is not held and then deleting it gives back the very
/// same tree.
pub proof fn lemma_bst_insert_delete_round_trip(t: Shape, v: i64)
    requires
        t.is_bst(),
        !t.elems().contains(v),
    ensures
        bst_delete(bst_insert(t, v), v) == t,
    decreases t,
{
    if let Shape::Node { left, value, right } = t {
        if v < value {
            lemma_bst_insert_delete_round_trip(*left, v);
        } else {
            lemma_bst_insert_delete_round_trip(*right, v);
        }
    }
}

/// Inserting a key that is already held leaves the tree as it is.
pub proof fn lemma_bst_duplicate_insert(t: Shape, v: i64)
    requires
        t.is_bst(),
        t.elems().contains(v),
    ensures
        bst_insert(t, v) == t,
    decreases t,
{
    if let Shape::Node { left, value, right } = t {
        if v < value {
            assert(!right.elems().contains(v));
            lemma_bst_duplicate_insert(*left, v);
        } else if value < v {
            assert(!left.elems().contains(v));
            lemma_bst_duplicate_insert(*right, v);
        }
    }
}

/// Node of a `BinarySearchTree`.
pub struct BinarySearchTreeNode {
    /// The key stored in the node.
    pub data: i64,
    left: Option<Box<BinarySearchTreeNode>>,
    right: Option<Box<BinarySearchTreeNode>>,
}

impl BinarySearchTreeNode {
    /// The shape of an optional subtree.
    pub closed spec fn link_shape(link: Option<Box<BinarySearchTreeNode>>) -> Shape
        decreases link,
    {
        match link {
            None => Shape::Empty,
            Some(n) => Shape::Node {
                left: Box::new(Self::link_shape(n.left)),
                value: n.data,
                right: Box::new(Self::link_shape(n.right)),
            },
        }
    }
}

impl QueryableTreeNode for BinarySearchTreeNode {
    closed spec fn shape(&self) -> Shape {
        Shape::Node {
            left: Box::new(Self::link_shape(self.left)),
            value: self.data,
            right: Box::new(Self::link_shape(self.right)),
        }
    }

    fn get_left(&self) -> (r: &Option<Box<Self>>) {
        &self.left
    }

    fn get_right(&self) -> (r: &Option<Box<Self>>) {
        &self.right
    }

    fn get_data(&self) -> (r: i64) {
        self.data
    }
}

impl BinarySearchTreeNode {
    /// A childless node holding `data`.
    fn new(data: i64) -> (r: Self)
        ensures
            r.shape() == leaf(data),
    {
        BinarySearchTreeNode { data, left: None, right: None }
    }

    /// Inserts `new_value` below this node; a key already present is ignored.
    fn insert(&mut self, new_value: i64)
        ensures
            final(self).shape() == bst_insert(old(self).shape(), new_value),
        decreases old(self).shape().size(),
    {
        if self.data == new_value {
            return;
        }
        if new_value < self.data {
            match self.left.take() {
                Some(mut node) => {
                    assert(Self::link_shape(Some(node)) == node.shape());
                    node.insert(new_value);
                    self.left = Some(node);
                },
                None => {
                    self.left = Some(Box::new(Self::new(new_value)));
                },
            }
        } else {
            match self.right.take() {
                Some(mut node) => {
                    assert(Self::link_shape(Some(node)) == node.shape());
                    node.insert(new_value);
                    self.right = Some(node);
                },
                None => {
                    self.right = Some(Box::new(Self::new(new_value)));
                },
            }
        }
    }

    /// Deletes `val` from the subtree `link`; a key not present is ignored.
    fn delete(link: Option<Box<Self>>, val: i64) -> (r: Option<Box<Self>>)
        requires
            Self::link_shape(link).is_bst(),
        ensures
            Self::link_shape(r) == bst_delete(Self::link_shape(link), val),
        decreases Self::link_shape(link).size(), 1nat,
    {
        match link {
            None => None,
            Some(mut node) => {
                if val < node.data {
                    node.left = Self::delete(node.left.take(), val);
                    Some(node)
                } else if node.data < val {
                    node.right = Self::delete(node.right.take(), val);
                    Some(node)
                } else if node.left.is_none() {
                    node.right
                } else if node.right.is_none() {
                    node.left
                } else {
                    node.delete_node_have_two_children();
                    Some(node)
                }
            },
        }
    }

    /// Replaces this node's key by its in-order successor and deletes the
    /// successor from the right subtree.
    fn delete_node_have_two_children(&mut self)
        requires
            old(self).shape().is_bst(),
            old(self).shape().right() is Node,
        ensures
            final(self).shape() == (Shape::Node {
                left: Box::new(old(self).shape().left()),
                value: old(self).shape().right().leftmost(),
                right: Box::new(
                    bst_delete(old(self).shape().right(), old(self).shape().right().leftmost()),
                ),
            }),
        decreases old(self).shape().size(), 0nat,
    {
        let right = self.right.take();
        match right {
            Some(node) => {
                assert(Self::link_shape(Some(node)) == node.shape());
                let m = subtree_min(&*node);
                self.right = Self::delete(Some(node), m);
                self.data = m;
            },
            None => {},
        }
    }
}

/// An unbalanced binary search tree of `i64` keys.
pub struct BinarySearchTree {
    root: Option<Box<BinarySearchTreeNode>>,
}

impl QueryableTree<BinarySearchTreeNode> for BinarySearchTree {
    closed spec fn tree_shape(&self) -> Shape {
        BinarySearchTreeNode::link_shape(self.root)
    }

    closed spec fn well_formed(&self) -> bool {
        &&& self.tree_shape().is_bst()
        &&& self.tree_shape().size() <= usize::MAX
    }

    proof fn lemma_well_formed_search_tree(&self) {
    }

    fn get_root(&self) -> (r: &Option<Box<BinarySearchTreeNode>>) {
        &self.root
    }
}

impl BinarySearchTree {
    /// An empty tree.
    pub fn new() -> (r: Self)
        ensures
            r.well_formed(),
            r.tree_shape() == Shape::Empty,
    {
        BinarySearchTree { root: None }
    }

    /// Inserts `new_val` as a new leaf; a key already present is ignored.
    pub fn insert(&mut self, new_val: i64)
        requires
            old(self).well_formed(),
            old(self).tree_shape().size() < usize::MAX,
        ensures
            final(self).well_formed(),
            final(self).tree_shape() == bst_insert(old(self).tree_shape(), new_val),
            final(self).tree_shape().elems() == old(self).tree_shape().elems().insert(new_val),
            final(self).tree_shape().size() == old(self).tree_shape().size() + (if old(
                self,
            ).tree_shape().elems().contains(new_val) {
                0nat
            } else {
                1nat
            }),
    {
        proof {
            lemma_bst_insert(self.tree_shape(), new_val);
            lemma_size_after_insert(self.tree_shape(), bst_insert(self.tree_shape(), new_val), new_val);
        }
        match self.root.take() {
            None => {
                self.root = Some(Box::new(BinarySearchTreeNode::new(new_val)));
            },
            Some(mut node) => {
                assert(BinarySearchTreeNode::link_shape(Some(node)) == node.shape());
                node.insert(new_val);
                self.root = Some(node);
            },
        }
    }

    /// Deletes `val`; a key not present is ignored.
    pub fn delete(&mut self, val: i64)
        requires
            old(self).well_formed(),
        ensures
            final(self).well_formed(),
            final(self).tree_shape() == bst_delete(old(self).tree_shape(), val),
            final(self).tree_shape().elems() == old(self).tree_shape().elems().remove(val),
            final(self).tree_shape().size() + (if old(self).tree_shape().elems().contains(val) {
                1nat
            } else {
                0nat
            }) == old(self).tree_shape().size(),
    {
        proof {
            lemma_bst_delete(self.tree_shape(), val);
            lemma_size_after_remove(self.tree_shape(), bst_delete(self.tree_shape(), val), val);
        }
        let root = self.root.take();
        self.root = BinarySearchTreeNode::delete(root, val);
    }
}

} // verus!
