//! AVL tree.
//!
//! Every node caches the height of its subtree. After an insertion or a
//! deletion each node on the way back up is rebalanced: when one side is two
//! levels higher than the other, a single rotation (or a double rotation when
//! the heavy child leans the other way) restores the balance.

use vstd::prelude::*;

use crate::base::{lemma_size_after_insert, lemma_size_after_remove, QueryableTree, QueryableTreeNode, Shape, node, subtree_height, subtree_min};

verus! {

/// At every node the heights of the two subtrees differ by at most one.
pub open spec fn height_balanced(t: Shape) -> bool
    decreases t,
{
    match t {
        Shape::Empty => true,
        Shape::Node { left, right, .. } => {
            &&& height_balanced(*left)
            &&& height_balanced(*right)
            &&& left.height() <= right.height() + 1
            &&& right.height() <= left.height() + 1
        },
    }
}

/// A node whose subtrees differ in height by two, rebalanced: a left-heavy
/// node rotates right (after rotating its left child left when that child
/// leans right), a right-heavy node mirrors this; any other node is kept.
pub open spec fn avl_rebalance(t: Shape) -> Shape {
    match t {
        Shape::Empty => t,
        Shape::Node { left, value, right } => {
            if left.height() > right.height() + 1 {
                let l2 = if left.left().height() < left.right().height() {
                    left.rotate_left()
                } else {
                    *left
                };
                node(l2, value, *right).rotate_right()
            } else if right.height() > left.height() + 1 {
                let r2 = if right.right().height() < right.left().height() {
                    right.rotate_right()
                } else {
                    *right
                };
                node(*left, value, r2).rotate_left()
            } else {
                t
            }
        },
    }
}

/// The shape after an AVL insertion of `v`: a new leaf, then every node on
/// the path back up rebalanced.
pub open spec fn avl_insert(t: Shape, v: i64) -> Shape
    decreases t,
{
    match t {
        Shape::Empty => node(Shape::Empty, v, Shape::Empty),
        Shape::Node { left, value, right } => {
            if v < value {
                avl_rebalance(node(avl_insert(*left, v), value, *right))
            } else if value < v {
                avl_rebalance(node(*left, value, avl_insert(*right, v)))
            } else {
                t
            }
        },
    }
}

/// The shape after an AVL deletion of `v`: the node is spliced out, or takes
/// its in-order successor's key when it has two children, then every node on
/// the path back up is rebalanced.
pub open spec fn avl_delete(t: Shape, v: i64) -> Shape
    decreases t,
{
    match t {
        Shape::Empty => t,
        Shape::Node { left, value, right } => {
            if v == value {
                if *left is Node && *right is Node {
                    let m = right.leftmost();
                    avl_rebalance(node(*left, m, avl_delete(*right, m)))
                } else if *left is Node {
                    *left
                } else {
                    *right
                }
            } else if v < value {
                avl_rebalance(node(avl_delete(*left, v), value, *right))
            } else {
                avl_rebalance(node(*left, value, avl_delete(*right, v)))
            }
        },
    }
}

pub proof fn lemma_node_height(l: Shape, v: i64, r: Shape)
    ensures
        node(l, v, r).height() == (if l.height() >= r.height() {
            l.height() + 1
        } else {
            r.height() + 1
        }),
        height_balanced(node(l, v, r)) == {
            &&& height_balanced(l)
            &&& height_balanced(r)
            &&& l.height() <= r.height() + 1
            &&& r.height() <= l.height() + 1
        },
{
}

/// Restoring a node whose left subtree `l` is two levels higher than its
/// right subtree `c`: rotate `l` left first when it leans right, then rotate
/// the node right.
pub proof fn lemma_fix_left_heavy(l: Shape, y: i64, c: Shape)
    requires
        height_balanced(l),
        height_balanced(c),
        l.height() == c.height() + 2,
    ensures
        ({
            let l2 = if l.left().height() < l.right().height() {
                l.rotate_left()
            } else {
                l
            };
            let r = node(l2, y, c).rotate_right();
            &&& height_balanced(r)
            &&& l.height() <= r.height() <= l.height() + 1
        }),
{
    l.lemma_unfold();
    let a = l.left();
    let x = l.value();
    let b = l.right();
    assert(l == node(a, x, b));
    lemma_node_height(a, x, b);
    if a.height() < b.height() {
        b.lemma_unfold();
        let b1 = b.left();
        let z = b.value();
        let b2 = b.right();
        assert(b == node(b1, z, b2));
        lemma_node_height(b1, z, b2);
        let lo = node(a, x, b1);
        let hi = node(b2, y, c);
        assert(l.rotate_left() == node(lo, z, b2));
        assert(node(node(lo, z, b2), y, c).rotate_right() == node(lo, z, hi));
        lemma_node_height(a, x, b1);
        lemma_node_height(b2, y, c);
        lemma_node_height(lo, z, hi);
    } else {
        let hi = node(b, y, c);
        assert(node(l, y, c).rotate_right() == node(a, x, hi));
        lemma_node_height(b, y, c);
        lemma_node_height(a, x, hi);
    }
}

/// Mirror image of `lemma_fix_left_heavy`.
pub proof fn lemma_fix_right_heavy(a: Shape, y: i64, r: Shape)
    requires
        height_balanced(a),
        height_balanced(r),
        r.height() == a.height() + 2,
    ensures
        ({
            let r2 = if r.right().height() < r.left().height() {
                r.rotate_right()
            } else {
                r
            };
            let t = node(a, y, r2).rotate_left();
            &&& height_balanced(t)
            &&& r.height() <= t.height() <= r.height() + 1
        }),
{
    r.lemma_unfold();
    let b = r.left();
    let x = r.value();
    let c = r.right();
    assert(r == node(b, x, c));
    lemma_node_height(b, x, c);
    if c.height() < b.height() {
        b.lemma_unfold();
        let b1 = b.left();
        let z = b.value();
        let b2 = b.right();
        assert(b == node(b1, z, b2));
        lemma_node_height(b1, z, b2);
        let lo = node(a, y, b1);
        let hi = node(b2, x, c);
        assert(r.rotate_right() == node(b1, z, hi));
        assert(node(a, y, node(b1, z, hi)).rotate_left() == node(lo, z, hi));
        lemma_node_height(a, y, b1);
        lemma_node_height(b2, x, c);
        lemma_node_height(lo, z, hi);
    } else {
        let lo = node(a, y, b);
        assert(node(a, y, r).rotate_left() == node(lo, x, c));
        lemma_node_height(a, y, b);
        lemma_node_height(lo, x, c);
    }
}

/// Node of an `AVLTree`.
pub struct AVLTreeNode {
    /// The key stored in the node.
    pub data: i64,
    left: Option<Box<AVLTreeNode>>,
    right: Option<Box<AVLTreeNode>>,
    height: usize,
}

impl AVLTreeNode {
    /// The shape of an optional subtree.
    pub closed spec fn link_shape(link: Option<Box<AVLTreeNode>>) -> Shape
        decreases link,
    {
        match link {
            None => Shape::Empty,
            Some(n) => node(Self::link_shape(n.left), n.data, Self::link_shape(n.right)),
        }
    }

    /// Every node below `link` caches its true height.
    pub closed spec fn heights_ok(link: Option<Box<AVLTreeNode>>) -> bool
        decreases link,
    {
        match link {
            None => true,
            Some(n) => {
                &&& Self::heights_ok(n.left)
                &&& Self::heights_ok(n.right)
                &&& n.height == n.shape().height()
            },
        }
    }

    /// This node and every node below it cache their true heights.
    pub closed spec fn node_ok(&self) -> bool {
        &&& Self::heights_ok(self.left)
        &&& Self::heights_ok(self.right)
        &&& self.height == self.shape().height()
    }
}

impl QueryableTreeNode for AVLTreeNode {
    closed spec fn shape(&self) -> Shape {
        node(Self::link_shape(self.left), self.data, Self::link_shape(self.right))
    }

    fn get_left(&self) -> (r: &Option<Box<Self>>) {
        &self.left
    }

    fn get_right(&self) -> (r: &Option<Box<Self>>) {
        &self.right
    }

    fn get_data(&self) -> (r: i64) {
        self.data
    }
}

impl AVLTreeNode {
    /// A childless node holding `data`.
    fn new(data: i64) -> (r: Self)
        ensures
            r.node_ok(),
            r.shape() == node(Shape::Empty, data, Shape::Empty),
    {
        proof {
            lemma_node_height(Shape::Empty, data, Shape::Empty);
        }
        AVLTreeNode { data, left: None, right: None, height: 1 }
    }

    fn max(a: usize, b: usize) -> (r: usize)
        ensures
            r == (if a >= b {
                a
            } else {
                b
            }),
    {
        if a >= b {
            a
        } else {
            b
        }
    }

    /// The cached height of a subtree; 0 when absent.
    fn get_height(link: &Option<Box<Self>>) -> (r: usize)
        requires
            Self::heights_ok(*link),
        ensures
            r == Self::link_shape(*link).height(),
    {
        match link {
            Some(n) => n.height,
            None => 0,
        }
    }

    /// Recomputes this node's cached height from its children's.
    fn update_height(&mut self)
        requires
            Self::heights_ok(old(self).left),
            Self::heights_ok(old(self).right),
            old(self).shape().size() <= usize::MAX,
        ensures
            final(self).node_ok(),
            final(self).shape() == old(self).shape(),
            final(self).left == old(self).left,
            final(self).right == old(self).right,
            final(self).data == old(self).data,
    {
        let hl = Self::get_height(&self.left);
        let hr = Self::get_height(&self.right);
        proof {
            Self::link_shape(self.left).lemma_height_le_size();
            Self::link_shape(self.right).lemma_height_le_size();
        }
        self.height = Self::max(hl, hr) + 1;
    }

    /// Single rotation to the right: the left child becomes the subtree's root.
    fn right_rotate(mut root: Box<Self>) -> (r: Box<Self>)
        requires
            root.left is Some,
            Self::heights_ok(root.left),
            Self::heights_ok(root.right),
            root.shape().size() <= usize::MAX,
        ensures
            r.node_ok(),
            r.shape() == root.shape().rotate_right(),
    {
        proof {
            root.shape().lemma_rotate_right();
        }
        let mut new_root = root.left.take().unwrap();
        root.left = new_root.right.take();
        root.update_height();
        new_root.right = Some(root);
        new_root.update_height();
        new_root
    }

    /// Single rotation to the left: the right child becomes the subtree's root.
    fn left_rotate(mut root: Box<Self>) -> (r: Box<Self>)
        requires
            root.right is Some,
            Self::heights_ok(root.left),
            Self::heights_ok(root.right),
            root.shape().size() <= usize::MAX,
        ensures
            r.node_ok(),
            r.shape() == root.shape().rotate_left(),
    {
        proof {
            root.shape().lemma_rotate_left();
        }
        let mut new_root = root.right.take().unwrap();
        root.right = new_root.left.take();
        root.update_height();
        new_root.left = Some(root);
        new_root.update_height();
        new_root
    }

    /// Brings a node whose subtrees are balanced and differ in height by at
    /// most two back into balance, and recomputes its cached height.
    fn rebalance(mut n: Box<Self>) -> (r: Box<Self>)
        requires
            Self::heights_ok(n.left),
            Self::heights_ok(n.right),
            height_balanced(Self::link_shape(n.left)),
            height_balanced(Self::link_shape(n.right)),
            Self::link_shape(n.left).height() <= Self::link_shape(n.right).height() + 2,
            Self::link_shape(n.right).height() <= Self::link_shape(n.left).height() + 2,
            n.shape().size() <= usize::MAX,
        ensures
            r.node_ok(),
            r.shape() == avl_rebalance(n.shape()),
            height_balanced(r.shape()),
            r.shape().inorder() == n.shape().inorder(),
            r.shape().elems() == n.shape().elems(),
            r.shape().size() == n.shape().size(),
            n.shape().is_bst() ==> r.shape().is_bst(),
            ({
                let hl = Self::link_shape(n.left).height();
                let hr = Self::link_shape(n.right).height();
                let m = if hl >= hr {
                    hl
                } else {
                    hr
                };
                &&& m <= r.shape().height() <= m + 1
                &&& (hl <= hr + 1 && hr <= hl + 1) ==> r.shape().height() == m + 1
            }),
    {
        let ghost c = Self::link_shape(n.right);
        let ghost a = Self::link_shape(n.left);
        let ghost y = n.data;
        proof {
            a.lemma_height_le_size();
            c.lemma_height_le_size();
            lemma_node_height(a, y, c);
        }
        let hl = Self::get_height(&n.left);
        let hr = Self::get_height(&n.right);
        if hl > hr + 1 {
            let mut left = n.left.take().unwrap();
            let ghost l = left.shape();
            let ghost l2 = if l.left().height() < l.right().height() {
                l.rotate_left()
            } else {
                l
            };
            if Self::get_height(&left.left) < Self::get_height(&left.right) {
                left = Self::left_rotate(left);
            }
            proof {
                l.lemma_rotate_left();
                lemma_fix_left_heavy(l, y, c);
            }
            n.left = Some(left);
            assert(n.shape() == node(l2, y, c));
            let r = Self::right_rotate(n);
            proof {
                node(l2, y, c).lemma_rotate_right();
            }
            r
        } else if hr > hl + 1 {
            let mut right = n.right.take().unwrap();
            let ghost rs = right.shape();
            let ghost r2 = if rs.right().height() < rs.left().height() {
                rs.rotate_right()
            } else {
                rs
            };
            if Self::get_height(&right.right) < Self::get_height(&right.left) {
                right = Self::right_rotate(right);
            }
            proof {
                rs.lemma_rotate_right();
                lemma_fix_right_heavy(a, y, rs);
            }
            n.right = Some(right);
            assert(n.shape() == node(a, y, r2));
            let r = Self::left_rotate(n);
            proof {
                node(a, y, r2).lemma_rotate_left();
            }
            r
        } else {
            n.update_height();
            n
        }
    }

    /// Inserts `data` below `link` and rebalances on the way back up; a key
    /// already present is ignored.
    fn insert(link: Option<Box<Self>>, data: i64) -> (r: Option<Box<Self>>)
        requires
            Self::heights_ok(link),
            height_balanced(Self::link_shape(link)),
            Self::link_shape(link).is_bst(),
            Self::link_shape(link).size() < usize::MAX,
        ensures
            Self::heights_ok(r),
            Self::link_shape(r) == avl_insert(Self::link_shape(link), data),
            height_balanced(Self::link_shape(r)),
            Self::link_shape(r).is_bst(),
            Self::link_shape(r).elems() == Self::link_shape(link).elems().insert(data),
            Self::link_shape(r).size() <= Self::link_shape(link).size() + 1,
            Self::link_shape(link).height() <= Self::link_shape(r).height(),
            Self::link_shape(r).height() <= Self::link_shape(link).height() + 1,
        decreases link,
    {
        match link {
            None => {
                proof {
                    let t = node(Shape::Empty, data, Shape::Empty);
                    t.lemma_unfold();
                    assert(Shape::Empty.elems() =~= Set::<i64>::empty());
                    assert(t.elems() =~= Set::<i64>::empty().insert(data));
                }
                Some(Box::new(Self::new(data)))
            },
            Some(mut n) => {
                let ghost t = n.shape();
                proof {
                    t.lemma_unfold();
                    lemma_node_height(t.left(), t.value(), t.right());
                }
                if data < n.data {
                    n.left = Self::insert(n.left.take(), data);
                    proof {
                        assert(!t.right().elems().contains(data));
                        assert(n.shape().elems() =~= t.elems().insert(data));
                        lemma_node_height(Self::link_shape(n.left), n.data, t.right());
                    }
                    Some(Self::rebalance(n))
                } else if n.data < data {
                    n.right = Self::insert(n.right.take(), data);
                    proof {
                        assert(!t.left().elems().contains(data));
                        assert(n.shape().elems() =~= t.elems().insert(data));
                        lemma_node_height(t.left(), n.data, Self::link_shape(n.right));
                    }
                    Some(Self::rebalance(n))
                } else {
                    proof {
                        assert(t.elems() =~= t.elems().insert(data));
                    }
                    Some(n)
                }
            },
        }
    }

    /// Deletes `data` below `link` and rebalances on the way back up; a node
    /// with two children takes its in-order successor's key. A key not
    /// present is ignored.
    #[verifier::rlimit(40)]
    fn delete(link: Option<Box<Self>>, data: i64) -> (r: Option<Box<Self>>)
        requires
            Self::heights_ok(link),
            height_balanced(Self::link_shape(link)),
            Self::link_shape(link).is_bst(),
            Self::link_shape(link).size() <= usize::MAX,
        ensures
            Self::heights_ok(r),
            Self::link_shape(r) == avl_delete(Self::link_shape(link), data),
            height_balanced(Self::link_shape(r)),
            Self::link_shape(r).is_bst(),
            Self::link_shape(r).elems() == Self::link_shape(link).elems().remove(data),
            Self::link_shape(r).size() <= Self::link_shape(link).size(),
            Self::link_shape(r).height() <= Self::link_shape(link).height(),
            Self::link_shape(link).height() <= Self::link_shape(r).height() + 1,
        decreases link,
    {
        match link {
            None => {
                proof {
                    assert(Shape::Empty.elems() =~= Shape::Empty.elems().remove(data));
                }
                None
            },
            Some(mut n) => {
                let ghost t = n.shape();
                proof {
                    t.lemma_unfold();
                    lemma_node_height(t.left(), t.value(), t.right());
                }
                if n.data == data {
                    proof {
                        assert(!t.left().elems().contains(data));
                        assert(!t.right().elems().contains(data));
                    }
                    if n.left.is_some() && n.right.is_some() {
                        let min_val = match &n.right {
                            Some(r) => subtree_min(&**r),
                            None => data,
                        };
                        proof {
                            t.right().lemma_leftmost_is_least();
                        }
                        n.right = Self::delete(n.right.take(), min_val);
                        n.data = min_val;
                        proof {
                            assert(n.shape().elems() =~= t.elems().remove(data));
                            lemma_node_height(t.left(), min_val, Self::link_shape(n.right));
                        }
                        Some(Self::rebalance(n))
                    } else if n.left.is_some() {
                        proof {
                            assert(t.right().elems() =~= Set::empty());
                            assert(t.left().elems() =~= t.elems().remove(data));
                        }
                        n.left
                    } else {
                        proof {
                            assert(t.left().elems() =~= Set::empty());
                            assert(t.right().elems() =~= t.elems().remove(data));
                        }
                        n.right
                    }
                } else if data < n.data {
                    n.left = Self::delete(n.left.take(), data);
                    proof {
                        assert(!t.right().elems().contains(data));
                        assert(n.shape().elems() =~= t.elems().remove(data));
                        lemma_node_height(Self::link_shape(n.left), n.data, t.right());
                    }
                    Some(Self::rebalance(n))
                } else {
                    n.right = Self::delete(n.right.take(), data);
                    proof {
                        assert(!t.left().elems().contains(data));
                        assert(n.shape().elems() =~= t.elems().remove(data));
                        lemma_node_height(t.left(), n.data, Self::link_shape(n.right));
                    }
                    Some(Self::rebalance(n))
                }
            },
        }
    }

    /// Whether every node below this one has subtrees whose heights, counted
    /// afresh, differ by at most one.
    fn is_balanced(&self) -> (r: bool)
        requires
            self.shape().size() <= usize::MAX,
        ensures
            r == height_balanced(self.shape()),
        decreases self.shape().size(),
    {
        let ghost t = self.shape();
        proof {
            t.lemma_unfold();
            lemma_node_height(t.left(), t.value(), t.right());
        }
        let left_height: usize = match &self.left {
            Some(n) => subtree_height(&**n),
            None => 0,
        };
        let right_height: usize = match &self.right {
            Some(n) => subtree_height(&**n),
            None => 0,
        };
        proof {
            t.left().lemma_height_le_size();
            t.right().lemma_height_le_size();
        }
        if left_height > right_height + 1 || right_height > left_height + 1 {
            false
        } else {
            let left_balanced = match &self.left {
                Some(n) => n.is_balanced(),
                None => true,
            };
            let right_balanced = match &self.right {
                Some(n) => n.is_balanced(),
                None => true,
            };
            left_balanced && right_balanced
        }
    }
}

/// A height-balanced (AVL) search tree of `i64` keys.
pub struct AVLTree {
    root: Option<Box<AVLTreeNode>>,
}

impl QueryableTree<AVLTreeNode> for AVLTree {
    closed spec fn tree_shape(&self) -> Shape {
        AVLTreeNode::link_shape(self.root)
    }

    closed spec fn well_formed(&self) -> bool {
        &&& AVLTreeNode::heights_ok(self.root)
        &&& height_balanced(self.tree_shape())
        &&& self.tree_shape().is_bst()
        &&& self.tree_shape().size() <= usize::MAX
    }

    proof fn lemma_well_formed_search_tree(&self) {
    }

    fn get_root(&self) -> (r: &Option<Box<AVLTreeNode>>) {
        &self.root
    }
}

impl AVLTree {
    /// An empty tree.
    pub fn new() -> (r: Self)
        ensures
            r.well_formed(),
            r.tree_shape() == Shape::Empty,
    {
        AVLTree { root: None }
    }

    /// Inserts `val`, rebalancing as needed; a key already present is ignored.
    pub fn insert(&mut self, val: i64)
        requires
            old(self).well_formed(),
            old(self).tree_shape().size() < usize::MAX,
        ensures
            final(self).well_formed(),
            final(self).tree_shape() == avl_insert(old(self).tree_shape(), val),
            height_balanced(final(self).tree_shape()),
            old(self).tree_shape().height() <= final(self).tree_shape().height(),
            final(self).tree_shape().height() <= old(self).tree_shape().height() + 1,
            final(self).tree_shape().elems() == old(self).tree_shape().elems().insert(val),
            final(self).tree_shape().size() == old(self).tree_shape().size() + (if old(
                self,
            ).tree_shape().elems().contains(val) {
                0nat
            } else {
                1nat
            }),
    {
        let root = self.root.take();
        self.root = AVLTreeNode::insert(root, val);
        proof {
            lemma_size_after_insert(old(self).tree_shape(), self.tree_shape(), val);
        }
    }

    /// Deletes `val`, rebalancing as needed; a key not present is ignored.
    pub fn delete(&mut self, val: i64)
        requires
            old(self).well_formed(),
        ensures
            final(self).well_formed(),
            final(self).tree_shape() == avl_delete(old(self).tree_shape(), val),
            height_balanced(final(self).tree_shape()),
            final(self).tree_shape().height() <= old(self).tree_shape().height(),
            old(self).tree_shape().height() <= final(self).tree_shape().height() + 1,
            final(self).tree_shape().elems() == old(self).tree_shape().elems().remove(val),
            final(self).tree_shape().size() + (if old(self).tree_shape().elems().contains(val) {
                1nat
            } else {
                0nat
            }) == old(self).tree_shape().size(),
    {
        let root = self.root.take();
        self.root = AVLTreeNode::delete(root, val);
        proof {
            lemma_size_after_remove(old(self).tree_shape(), self.tree_shape(), val);
        }
    }

    /// Whether the subtrees of every node differ in height by at most one,
    /// with heights counted afresh rather than read from the nodes.
    pub fn is_balanced(&self) -> (r: bool)
        requires
            self.well_formed(),
        ensures
            r == height_balanced(self.tree_shape()),
    {
        match &self.root {
            Some(n) => n.is_balanced(),
            None => true,
        }
    }
}

} // verus!
