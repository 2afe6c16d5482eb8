//! Red-black tree.
//!
//! Every node is red or black; the root is black; a red node has no red
//! child; and every path from a node down to an absent child meets the same
//! number of black nodes. Insertion adds a red leaf and repairs colors on the
//! way back up; deletion removes a node with at most one child (a node with
//! two children first takes its in-order predecessor's key) and, where a black
//! level went missing, repairs it at the parent from the sibling's colors.
//! The upward walk of both repairs is the return path of the recursion, so a
//! node needs no link to its parent.

use vstd::prelude::*;

use crate::base::{lemma_size_after_insert, lemma_size_after_remove, QueryableTree, QueryableTreeNode, Shape, node, rearranged, subtree_max};

verus! {

/// Color of a red-black tree node.
#[derive(Clone, Copy, Debug, PartialEq, Eq, Structural)]
pub enum NodeColor {
    Red,
    Black,
}

/// Node of a `RedBlackTree`.
pub struct RedBlackTreeNode {
    /// The key stored in the node.
    pub data: i64,
    /// The color of the node.
    pub color: NodeColor,
    /// The left subtree.
    pub left: Option<Box<RedBlackTreeNode>>,
    /// The right subtree.
    pub right: Option<Box<RedBlackTreeNode>>,
}

/// The shape of an optional subtree.
pub open spec fn link_shape(link: Option<Box<RedBlackTreeNode>>) -> Shape
    decreases link,
{
    match link {
        None => Shape::Empty,
        Some(n) => node(link_shape(n.left), n.data, link_shape(n.right)),
    }
}

/// Whether a subtree has a red root; an absent subtree counts as black.
pub open spec fn is_red(link: Option<Box<RedBlackTreeNode>>) -> bool {
    match link {
        None => false,
        Some(n) => n.color == NodeColor::Red,
    }
}

/// Black nodes on the leftmost path below the root, the root included.
pub open spec fn black_count(link: Option<Box<RedBlackTreeNode>>) -> nat
    decreases link,
{
    match link {
        None => 0,
        Some(n) => black_count(n.left) + if n.color == NodeColor::Black {
            1nat
        } else {
            0nat
        },
    }
}

/// A red-black subtree whose root may be of either color: no red node has a
/// red child, and both subtrees of every node meet the same number of black
/// nodes on every downward path.
pub open spec fn rb_ok(link: Option<Box<RedBlackTreeNode>>) -> bool
    decreases link,
{
    match link {
        None => true,
        Some(n) => {
            &&& rb_ok(n.left)
            &&& rb_ok(n.right)
            &&& black_count(n.left) == black_count(n.right)
            &&& n.color == NodeColor::Red ==> !is_red(n.left) && !is_red(n.right)
        },
    }
}

/// What an insertion below a red node hands back: a subtree with sound
/// children of equal black count whose red root may have one red child.
pub open spec fn rb_almost(link: Option<Box<RedBlackTreeNode>>) -> bool {
    match link {
        None => true,
        Some(n) => {
            &&& rb_ok(n.left)
            &&& rb_ok(n.right)
            &&& black_count(n.left) == black_count(n.right)
            &&& !(is_red(n.left) && is_red(n.right))
        },
    }
}

/// A node with the given fields.
pub open spec fn rb_node(
    data: i64,
    color: NodeColor,
    left: Option<Box<RedBlackTreeNode>>,
    right: Option<Box<RedBlackTreeNode>>,
) -> Box<RedBlackTreeNode> {
    Box::new(RedBlackTreeNode { data, color, left, right })
}

/// `n` with its color replaced.
pub open spec fn recolored(n: Box<RedBlackTreeNode>, color: NodeColor) -> Box<RedBlackTreeNode> {
    rb_node(n.data, color, n.left, n.right)
}

/// `n` rotated left: its right child on top, colors kept with their keys.
pub open spec fn rotated_left(n: Box<RedBlackTreeNode>) -> Box<RedBlackTreeNode> {
    let c = n.right.unwrap();
    rb_node(c.data, c.color, Some(rb_node(n.data, n.color, n.left, c.left)), c.right)
}

/// `n` rotated right: its left child on top, colors kept with their keys.
pub open spec fn rotated_right(n: Box<RedBlackTreeNode>) -> Box<RedBlackTreeNode> {
    let l = n.left.unwrap();
    rb_node(l.data, l.color, l.left, Some(rb_node(n.data, n.color, l.right, n.right)))
}

/// The repair of a black node `g` after an insertion into its left subtree.
pub open spec fn insert_repaired_left(g: Box<RedBlackTreeNode>) -> Box<RedBlackTreeNode> {
    let p = g.left.unwrap();
    if is_red(g.left) && (is_red(p.left) || is_red(p.right)) {
        if is_red(g.right) {
            rb_node(
                g.data,
                NodeColor::Red,
                Some(recolored(p, NodeColor::Black)),
                Some(recolored(g.right.unwrap(), NodeColor::Black)),
            )
        } else {
            let p1 = if !is_red(p.left) {
                rotated_left(p)
            } else {
                p
            };
            let r = rotated_right(rb_node(g.data, g.color, Some(p1), g.right));
            rb_node(r.data, NodeColor::Black, r.left, Some(recolored(r.right.unwrap(), NodeColor::Red)))
        }
    } else {
        g
    }
}

/// The repair of a black node `g` after an insertion into its right subtree.
pub open spec fn insert_repaired_right(g: Box<RedBlackTreeNode>) -> Box<RedBlackTreeNode> {
    let p = g.right.unwrap();
    if is_red(g.right) && (is_red(p.left) || is_red(p.right)) {
        if is_red(g.left) {
            rb_node(
                g.data,
                NodeColor::Red,
                Some(recolored(g.left.unwrap(), NodeColor::Black)),
                Some(recolored(p, NodeColor::Black)),
            )
        } else {
            let p1 = if !is_red(p.right) {
                rotated_right(p)
            } else {
                p
            };
            let r = rotated_left(rb_node(g.data, g.color, g.left, Some(p1)));
            rb_node(r.data, NodeColor::Black, Some(recolored(r.left.unwrap(), NodeColor::Red)), r.right)
        }
    } else {
        g
    }
}

/// The subtree after inserting `v` below `link`, colors repaired below the
/// top.
pub open spec fn inserted(link: Option<Box<RedBlackTreeNode>>, v: i64) -> Option<
    Box<RedBlackTreeNode>,
>
    decreases link,
{
    match link {
        None => Some(rb_node(v, NodeColor::Red, None, None)),
        Some(n) => {
            if v < n.data {
                let n1 = rb_node(n.data, n.color, inserted(n.left, v), n.right);
                if n.color == NodeColor::Black {
                    Some(insert_repaired_left(n1))
                } else {
                    Some(n1)
                }
            } else if n.data < v {
                let n1 = rb_node(n.data, n.color, n.left, inserted(n.right, v));
                if n.color == NodeColor::Black {
                    Some(insert_repaired_right(n1))
                } else {
                    Some(n1)
                }
            } else {
                link
            }
        },
    }
}

/// The repair of a node `n`, one black node short on the left, whose
/// sibling (right child) is black.
pub open spec fn delete_repaired_black_sibling_left(n: Box<RedBlackTreeNode>) -> (
    Box<RedBlackTreeNode>,
    bool,
) {
    let s = n.right.unwrap();
    if !is_red(s.left) && !is_red(s.right) {
        let n1 = rb_node(n.data, n.color, n.left, Some(recolored(s, NodeColor::Red)));
        if n.color == NodeColor::Red {
            (recolored(n1, NodeColor::Black), false)
        } else {
            (n1, true)
        }
    } else {
        let s1 = if !is_red(s.right) {
            let t = rotated_right(s);
            rb_node(t.data, NodeColor::Black, t.left, Some(recolored(t.right.unwrap(), NodeColor::Red)))
        } else {
            s
        };
        let r = rotated_left(rb_node(n.data, n.color, n.left, Some(s1)));
        (
            rb_node(
                r.data,
                n.color,
                Some(recolored(r.left.unwrap(), NodeColor::Black)),
                Some(recolored(r.right.unwrap(), NodeColor::Black)),
            ),
            false,
        )
    }
}

/// The repair of a node `n` that is one black node short on the left.
pub open spec fn delete_repaired_left(n: Box<RedBlackTreeNode>) -> (Box<RedBlackTreeNode>, bool) {
    if is_red(n.right) {
        let r = rotated_left(n);
        let lower = recolored(r.left.unwrap(), NodeColor::Red);
        (rb_node(r.data, NodeColor::Black, Some(delete_repaired_black_sibling_left(lower).0), r.right), false)
    } else {
        delete_repaired_black_sibling_left(n)
    }
}

/// The repair of a node `n`, one black node short on the right, whose
/// sibling (left child) is black.
pub open spec fn delete_repaired_black_sibling_right(n: Box<RedBlackTreeNode>) -> (
    Box<RedBlackTreeNode>,
    bool,
) {
    let s = n.left.unwrap();
    if !is_red(s.right) && !is_red(s.left) {
        let n1 = rb_node(n.data, n.color, Some(recolored(s, NodeColor::Red)), n.right);
        if n.color == NodeColor::Red {
            (recolored(n1, NodeColor::Black), false)
        } else {
            (n1, true)
        }
    } else {
        let s1 = if !is_red(s.left) {
            let t = rotated_left(s);
            rb_node(t.data, NodeColor::Black, Some(recolored(t.left.unwrap(), NodeColor::Red)), t.right)
        } else {
            s
        };
        let r = rotated_right(rb_node(n.data, n.color, Some(s1), n.right));
        (
            rb_node(
                r.data,
                n.color,
                Some(recolored(r.left.unwrap(), NodeColor::Black)),
                Some(recolored(r.right.unwrap(), NodeColor::Black)),
            ),
            false,
        )
    }
}

/// The repair of a node `n` that is one black node short on the right.
pub open spec fn delete_repaired_right(n: Box<RedBlackTreeNode>) -> (Box<RedBlackTreeNode>, bool) {
    if is_red(n.left) {
        let r = rotated_right(n);
        let lower = recolored(r.right.unwrap(), NodeColor::Red);
        (rb_node(r.data, NodeColor::Black, r.left, Some(delete_repaired_black_sibling_right(lower).0)), false)
    } else {
        delete_repaired_black_sibling_right(n)
    }
}

/// The subtree after deleting `v` below `link`, and whether it came out one
/// black node short.
pub open spec fn deleted(link: Option<Box<RedBlackTreeNode>>, v: i64) -> (
    Option<Box<RedBlackTreeNode>>,
    bool,
)
    decreases link,
{
    match link {
        None => (None, false),
        Some(n) => {
            if n.data == v {
                if n.left is Some && n.right is Some {
                    let m = link_shape(n.left).rightmost();
                    let (l, short) = deleted(n.left, m);
                    let n1 = rb_node(m, n.color, l, n.right);
                    if short {
                        (Some(delete_repaired_left(n1).0), delete_repaired_left(n1).1)
                    } else {
                        (Some(n1), false)
                    }
                } else {
                    let child = if n.left is Some {
                        n.left
                    } else {
                        n.right
                    };
                    if n.color == NodeColor::Red {
                        (child, false)
                    } else if is_red(child) {
                        (Some(recolored(child.unwrap(), NodeColor::Black)), false)
                    } else {
                        (child, true)
                    }
                }
            } else if v < n.data {
                let (l, short) = deleted(n.left, v);
                let n1 = rb_node(n.data, n.color, l, n.right);
                if short {
                    (Some(delete_repaired_left(n1).0), delete_repaired_left(n1).1)
                } else {
                    (Some(n1), false)
                }
            } else {
                let (r, short) = deleted(n.right, v);
                let n1 = rb_node(n.data, n.color, n.left, r);
                if short {
                    (Some(delete_repaired_right(n1).0), delete_repaired_right(n1).1)
                } else {
                    (Some(n1), false)
                }
            }
        },
    }
}

/// One level of the definitions on a present node.
pub proof fn lemma_rb_unfold(n: Box<RedBlackTreeNode>)
    ensures
        rb_ok(Some(n)) == {
            &&& rb_ok(n.left)
            &&& rb_ok(n.right)
            &&& black_count(n.left) == black_count(n.right)
            &&& n.color == NodeColor::Red ==> !is_red(n.left) && !is_red(n.right)
        },
        black_count(Some(n)) == black_count(n.left) + if n.color == NodeColor::Black {
            1nat
        } else {
            0nat
        },
        link_shape(Some(n)) == node(link_shape(n.left), n.data, link_shape(n.right)),
        is_red(Some(n)) == (n.color == NodeColor::Red),
{
}

/// No red node has a red child.
pub open spec fn no_red_red(link: Option<Box<RedBlackTreeNode>>) -> bool
    decreases link,
{
    match link {
        None => true,
        Some(n) => {
            &&& no_red_red(n.left)
            &&& no_red_red(n.right)
            &&& n.color == NodeColor::Red ==> !is_red(n.left) && !is_red(n.right)
        },
    }
}

/// Black nodes on every path from the top of `link` down to an absent child,
/// the absent child counted as one; `None` when two paths disagree.
pub open spec fn uniform_black_height(link: Option<Box<RedBlackTreeNode>>) -> Option<nat>
    decreases link,
{
    match link {
        None => Some(1),
        Some(n) => {
            let lh = uniform_black_height(n.left);
            let rh = uniform_black_height(n.right);
            if lh is Some && rh is Some && lh.unwrap() == rh.unwrap() {
                Some(
                    lh.unwrap() + if n.color == NodeColor::Black {
                        1nat
                    } else {
                        0nat
                    },
                )
            } else {
                None
            }
        },
    }
}

/// The red-black properties of a whole tree: a black (or absent) root, no red
/// node with a red child, and one black height on every path.
pub open spec fn color_properties(link: Option<Box<RedBlackTreeNode>>) -> bool {
    &&& !is_red(link)
    &&& no_red_red(link)
    &&& uniform_black_height(link) is Some
}

/// The structural invariant used by the operations is the same as the
/// property check: `rb_ok` holds exactly when there is no red-red pair and
/// the black height is uniform.
pub proof fn lemma_rb_ok_properties(link: Option<Box<RedBlackTreeNode>>)
    ensures
        rb_ok(link) <==> (no_red_red(link) && uniform_black_height(link) is Some),
        rb_ok(link) ==> uniform_black_height(link) == Some(black_count(link) + 1),
    decreases link,
{
    if let Some(n) = link {
        lemma_rb_ok_properties(n.left);
        lemma_rb_ok_properties(n.right);
    }
}

impl QueryableTreeNode for RedBlackTreeNode {
    closed spec fn shape(&self) -> Shape {
        node(link_shape(self.left), self.data, link_shape(self.right))
    }

    fn get_left(&self) -> (r: &Option<Box<Self>>) {
        &self.left
    }

    fn get_right(&self) -> (r: &Option<Box<Self>>) {
        &self.right
    }

    fn get_data(&self) -> (r: i64) {
        self.data
    }
}

impl RedBlackTreeNode {
    /// A childless node.
    pub fn new(data: i64, color: NodeColor) -> (r: Self)
        ensures
            r.data == data,
            r.color == color,
            r.left is None,
            r.right is None,
    {
        RedBlackTreeNode { data, color, left: None, right: None }
    }

    /// The color of a subtree; an absent subtree is black.
    pub fn color(link: &Option<Box<Self>>) -> (r: NodeColor)
        ensures
            r == NodeColor::Red <==> is_red(*link),
    {
        match link {
            None => NodeColor::Black,
            Some(n) => n.color,
        }
    }

    /// Rotates the subtree rooted at `root` to the right: its left child
    /// becomes the root. Colors stay with their keys.
    pub fn rotate_right(mut root: Box<Self>) -> (r: Box<Self>)
        requires
            root.left is Some,
        ensures
            r == rotated_right(root),
            link_shape(Some(r)) == link_shape(Some(root)).rotate_right(),
    {
        let ghost n0 = root;
        let ghost l0 = root.left.unwrap();
        let mut new_root = root.left.take().unwrap();
        root.left = new_root.right.take();
        new_root.right = Some(root);
        proof {
            let a = link_shape(l0.left);
            let b = link_shape(l0.right);
            let c = link_shape(n0.right);
            assert(link_shape(Some(l0)) == node(a, l0.data, b));
            assert(link_shape(Some(n0)) == node(node(a, l0.data, b), n0.data, c));
            assert(link_shape(new_root.right) == node(b, n0.data, c));
            assert(link_shape(Some(new_root)) == node(a, l0.data, node(b, n0.data, c)));
        }
        new_root
    }

    /// Rotates the subtree rooted at `root` to the left: its right child
    /// becomes the root. Colors stay with their keys.
    pub fn rotate_left(mut root: Box<Self>) -> (r: Box<Self>)
        requires
            root.right is Some,
        ensures
            r == rotated_left(root),
            link_shape(Some(r)) == link_shape(Some(root)).rotate_left(),
    {
        let ghost n0 = root;
        let ghost c0 = root.right.unwrap();
        let mut new_root = root.right.take().unwrap();
        root.right = new_root.left.take();
        new_root.left = Some(root);
        proof {
            let a = link_shape(n0.left);
            let b = link_shape(c0.left);
            let c = link_shape(c0.right);
            assert(link_shape(Some(c0)) == node(b, c0.data, c));
            assert(link_shape(Some(n0)) == node(a, n0.data, node(b, c0.data, c)));
            assert(link_shape(new_root.left) == node(a, n0.data, b));
            assert(link_shape(Some(new_root)) == node(node(a, n0.data, b), c0.data, c));
        }
        new_root
    }

    /// Checks the red-black properties of the tree `link`: a black (or
    /// absent) root, no red node with a red child, one black height on every
    /// path.
    pub fn check_color_properties(link: &Option<Box<Self>>) -> (r: bool)
        requires
            link_shape(*link).size() < usize::MAX,
        ensures
            r == color_properties(*link),
    {
        if Self::color(link) == NodeColor::Red {
            return false;
        }
        if !Self::check_coloring(link) {
            return false;
        }
        let h = Self::black_height(link);
        h.is_some()
    }

    /// Whether no red node in `link` has a red child.
    pub fn check_coloring(link: &Option<Box<Self>>) -> (r: bool)
        ensures
            r == no_red_red(*link),
        decreases link_shape(*link).size(),
    {
        match link {
            None => true,
            Some(n) => {
                if n.color == NodeColor::Red {
                    if Self::color(&n.left) == NodeColor::Red || Self::color(&n.right)
                        == NodeColor::Red {
                        return false;
                    }
                }
                if !Self::check_coloring(&n.left) {
                    return false;
                }
                Self::check_coloring(&n.right)
            },
        }
    }

    /// Black nodes on every path from the top of `link` down to an absent
    /// child, the absent child counted as one; `None` when two paths disagree.
    pub fn black_height(link: &Option<Box<Self>>) -> (r: Option<usize>)
        requires
            link_shape(*link).size() < usize::MAX,
        ensures
            uniform_black_height(*link) matches Some(h) ==> r == Some(h as usize),
            uniform_black_height(*link) is None ==> r is None,
        decreases link_shape(*link).size(),
    {
        match link {
            None => Some(1),
            Some(n) => {
                proof {
                    lemma_uniform_black_height_bound(n.left);
                    lemma_uniform_black_height_bound(n.right);
                    assert(link_shape(*link) == node(link_shape(n.left), n.data, link_shape(n.right)));
                    link_shape(*link).lemma_unfold();
                }
                let lh = Self::black_height(&n.left);
                let rh = Self::black_height(&n.right);
                match (lh, rh) {
                    (Some(a), Some(b)) => {
                        if a != b {
                            None
                        } else {
                            match n.color {
                                NodeColor::Red => Some(a),
                                NodeColor::Black => Some(a + 1),
                            }
                        }
                    },
                    _ => None,
                }
            },
        }
    }

    /// The node holding `v` at or below `node`, if any.
    pub fn search(node: &Self, v: i64) -> (r: Option<&Self>)
        requires
            node.shape().is_bst(),
        ensures
            r is Some <==> node.shape().elems().contains(v),
            r matches Some(m) ==> m.data == v,
        decreases node.shape().size(),
    {
        proof {
            node.shape().lemma_unfold();
        }
        if node.data == v {
            Some(node)
        } else if node.data < v {
            match &node.right {
                None => None,
                Some(r) => Self::search(&**r, v),
            }
        } else {
            match &node.left {
                None => None,
                Some(l) => Self::search(&**l, v),
            }
        }
    }

    /// The greatest key at or below `node`.
    pub fn get_max(node: &Self) -> (r: i64)
        ensures
            r == node.shape().rightmost(),
    {
        subtree_max(node)
    }

    /// Whether two subtrees hold the same keys in the same places.
    pub fn is_equal(left: &Option<Box<Self>>, right: &Option<Box<Self>>) -> (r: bool)
        ensures
            r == (link_shape(*left) == link_shape(*right)),
        decreases link_shape(*left).size(),
    {
        match (left, right) {
            (None, None) => true,
            (Some(_), None) => false,
            (None, Some(_)) => false,
            (Some(l), Some(r)) => {
                if l.data == r.data {
                    let a = Self::is_equal(&l.left, &r.left);
                    if !a {
                        return false;
                    }
                    Self::is_equal(&l.right, &r.right)
                } else {
                    false
                }
            },
        }
    }

    /// Appends the keys at and below `node` to `container` in pre-order.
    pub fn preorder_traverse(node: &Self, container: &mut Vec<i64>)
        ensures
            final(container)@ == old(container)@ + node.shape().preorder(),
        decreases node.shape().size(),
    {
        container.push(node.data);
        if let Some(l) = &node.left {
            Self::preorder_traverse(&**l, container);
        }
        if let Some(r) = &node.right {
            Self::preorder_traverse(&**r, container);
        }
        proof {
            node.shape().lemma_unfold();
        }
        assert(final(container)@ =~= old(container)@ + node.shape().preorder());
    }

    /// Appends the keys at and below `node` to `container` in in-order.
    pub fn inorder_traverse(node: &Self, container: &mut Vec<i64>)
        ensures
            final(container)@ == old(container)@ + node.shape().inorder(),
        decreases node.shape().size(),
    {
        if let Some(l) = &node.left {
            Self::inorder_traverse(&**l, container);
        }
        container.push(node.data);
        if let Some(r) = &node.right {
            Self::inorder_traverse(&**r, container);
        }
        proof {
            node.shape().lemma_unfold();
        }
        assert(final(container)@ =~= old(container)@ + node.shape().inorder());
    }

    /// Appends the keys at and below `node` to `container` in post-order.
    pub fn postorder_traverse(node: &Self, container: &mut Vec<i64>)
        ensures
            final(container)@ == old(container)@ + node.shape().postorder(),
        decreases node.shape().size(),
    {
        if let Some(l) = &node.left {
            Self::postorder_traverse(&**l, container);
        }
        if let Some(r) = &node.right {
            Self::postorder_traverse(&**r, container);
        }
        container.push(node.data);
        proof {
            node.shape().lemma_unfold();
        }
        assert(final(container)@ =~= old(container)@ + node.shape().postorder());
    }
}

impl RedBlackTreeNode {
    /// Repairs a black node whose left subtree came back from an insertion
    /// red with a red child. A red uncle is recolored black together with the
    /// parent and the node turns red, leaving any conflict to the level above.
    /// A black uncle gets a rotation of the node to the right, preceded by a
    /// left rotation of the parent when the red child is the parent's right
    /// child, and the new top turns black.
    fn insert_repair_left(mut g: Box<Self>) -> (r: Box<Self>)
        requires
            g.color == NodeColor::Black,
            rb_ok(g.left) || rb_almost(g.left),
            rb_ok(g.right),
            black_count(g.left) == black_count(g.right),
        ensures
            r == insert_repaired_left(g),
            rb_ok(Some(r)),
            black_count(Some(r)) == black_count(Some(g)),
            rearranged(link_shape(Some(g)), link_shape(Some(r))),
    {
        let ghost g0 = g;
        proof {
            lemma_rb_unfold(g0);
        }
        if Self::color(&g.left) == NodeColor::Red {
            let mut p = g.left.take().unwrap();
            let ghost p0 = p;
            proof {
                lemma_rb_unfold(p0);
            }
            if Self::color(&p.left) == NodeColor::Red || Self::color(&p.right) == NodeColor::Red {
                if Self::color(&g.right) == NodeColor::Red {
                    let mut u = g.right.take().unwrap();
                    let ghost u0 = u;
                    proof {
                        lemma_rb_unfold(u0);
                    }
                    u.color = NodeColor::Black;
                    p.color = NodeColor::Black;
                    proof {
                        lemma_rb_unfold(u);
                        lemma_rb_unfold(p);
                    }
                    g.right = Some(u);
                    g.left = Some(p);
                    g.color = NodeColor::Red;
                    proof {
                        lemma_rb_unfold(g);
                    }
                    g
                } else {
                    if Self::color(&p.left) != NodeColor::Red {
                        let ghost x0 = p.right.unwrap();
                        proof {
                            lemma_rb_unfold(x0);
                            link_shape(Some(p)).lemma_rotate_left();
                        }
                        p = Self::rotate_left(p);
                        proof {
                            lemma_rb_unfold(p.left.unwrap());
                            lemma_rb_unfold(p);
                        }
                    }
                    let ghost p1 = p;
                    g.left = Some(p);
                    proof {
                        lemma_rb_unfold(p1.left.unwrap());
                        lemma_rb_unfold(g);
                        link_shape(Some(g)).lemma_rotate_right();
                    }
                    let mut r = Self::rotate_right(g);
                    r.color = NodeColor::Black;
                    let mut lowered = r.right.take().unwrap();
                    lowered.color = NodeColor::Red;
                    proof {
                        lemma_rb_unfold(lowered);
                    }
                    r.right = Some(lowered);
                    proof {
                        lemma_rb_unfold(r);
                    }
                    r
                }
            } else {
                g.left = Some(p);
                g
            }
        } else {
            g
        }
    }

    /// Mirror image of `insert_repair_left`.
    fn insert_repair_right(mut g: Box<Self>) -> (r: Box<Self>)
        requires
            g.color == NodeColor::Black,
            rb_ok(g.right) || rb_almost(g.right),
            rb_ok(g.left),
            black_count(g.left) == black_count(g.right),
        ensures
            r == insert_repaired_right(g),
            rb_ok(Some(r)),
            black_count(Some(r)) == black_count(Some(g)),
            rearranged(link_shape(Some(g)), link_shape(Some(r))),
    {
        let ghost g0 = g;
        proof {
            lemma_rb_unfold(g0);
        }
        if Self::color(&g.right) == NodeColor::Red {
            let mut p = g.right.take().unwrap();
            let ghost p0 = p;
            proof {
                lemma_rb_unfold(p0);
            }
            if Self::color(&p.left) == NodeColor::Red || Self::color(&p.right) == NodeColor::Red {
                if Self::color(&g.left) == NodeColor::Red {
                    let mut u = g.left.take().unwrap();
                    let ghost u0 = u;
                    proof {
                        lemma_rb_unfold(u0);
                    }
                    u.color = NodeColor::Black;
                    p.color = NodeColor::Black;
                    proof {
                        lemma_rb_unfold(u);
                        lemma_rb_unfold(p);
                    }
                    g.left = Some(u);
                    g.right = Some(p);
                    g.color = NodeColor::Red;
                    proof {
                        lemma_rb_unfold(g);
                    }
                    g
                } else {
                    if Self::color(&p.right) != NodeColor::Red {
                        let ghost x0 = p.left.unwrap();
                        proof {
                            lemma_rb_unfold(x0);
                            link_shape(Some(p)).lemma_rotate_right();
                        }
                        p = Self::rotate_right(p);
                        proof {
                            lemma_rb_unfold(p.right.unwrap());
                            lemma_rb_unfold(p);
                        }
                    }
                    let ghost p1 = p;
                    g.right = Some(p);
                    proof {
                        lemma_rb_unfold(p1.right.unwrap());
                        lemma_rb_unfold(g);
                        link_shape(Some(g)).lemma_rotate_left();
                    }
                    let mut r = Self::rotate_left(g);
                    r.color = NodeColor::Black;
                    let mut lowered = r.left.take().unwrap();
                    lowered.color = NodeColor::Red;
                    proof {
                        lemma_rb_unfold(lowered);
                    }
                    r.left = Some(lowered);
                    proof {
                        lemma_rb_unfold(r);
                    }
                    r
                }
            } else {
                g.right = Some(p);
                g
            }
        } else {
            g
        }
    }
}

impl RedBlackTreeNode {
    /// Inserts `data` below `link` as a red leaf and repairs colors on the
    /// way back up; a key already present is ignored. Below a black node the
    /// result is sound; below a red one it may keep one red-red conflict at
    /// its top, for the level above to repair.
    fn insert(link: Option<Box<Self>>, data: i64) -> (r: Option<Box<Self>>)
        requires
            rb_ok(link),
            link_shape(link).is_bst(),
        ensures
            r == inserted(link, data),
            !is_red(link) ==> rb_ok(r),
            is_red(link) ==> rb_almost(r) && is_red(r),
            black_count(r) == black_count(link),
            link_shape(r).is_bst(),
            link_shape(r).elems() == link_shape(link).elems().insert(data),
            link_shape(r).size() <= link_shape(link).size() + 1,
        decreases link,
    {
        match link {
            None => {
                let leaf = Box::new(Self::new(data, NodeColor::Red));
                proof {
                    lemma_rb_unfold(leaf);
                    link_shape(Some(leaf)).lemma_unfold();
                    assert(link_shape(Some(leaf)).elems() =~= Set::<i64>::empty().insert(data));
                }
                Some(leaf)
            },
            Some(mut n) => {
                let ghost n0 = n;
                let ghost t = link_shape(Some(n0));
                proof {
                    lemma_rb_unfold(n0);
                    t.lemma_unfold();
                }
                if data < n.data {
                    n.left = Self::insert(n.left.take(), data);
                    proof {
                        lemma_rb_unfold(n);
                        link_shape(Some(n)).lemma_unfold();
                        assert(!t.right().elems().contains(data));
                        assert(link_shape(Some(n)).elems() =~= t.elems().insert(data));
                    }
                    if n.color == NodeColor::Black {
                        Some(Self::insert_repair_left(n))
                    } else {
                        Some(n)
                    }
                } else if n.data < data {
                    n.right = Self::insert(n.right.take(), data);
                    proof {
                        lemma_rb_unfold(n);
                        link_shape(Some(n)).lemma_unfold();
                        assert(!t.left().elems().contains(data));
                        assert(link_shape(Some(n)).elems() =~= t.elems().insert(data));
                    }
                    if n.color == NodeColor::Black {
                        Some(Self::insert_repair_right(n))
                    } else {
                        Some(n)
                    }
                } else {
                    proof {
                        assert(t.elems() =~= t.elems().insert(data));
                    }
                    Some(n)
                }
            },
        }
    }
}

impl RedBlackTreeNode {
    /// Repairs a node whose left subtree came back from a deletion one black
    /// node short, using the colors around its sibling `s` (the right child):
    /// - `s` red: rotate left, `s` turns black and the node red, and the
    ///   node is repaired again against its new, black sibling;
    /// - `s` black with two black children: `s` turns red; a red node turns
    ///   black and absorbs the loss, a black one passes it upward;
    /// - `s` black with a red near (left) child and a black far one: rotate
    ///   `s` right and swap the colors, giving the next case;
    /// - `s` black with a red far child: rotate left; the new top takes the
    ///   node's color and both its children turn black.
    /// The flag in the result says whether the subtree is still one black
    /// node short.
    fn delete_repair_left(mut n: Box<Self>) -> (r: (Box<Self>, bool))
        requires
            rb_ok(n.left),
            !is_red(n.left),
            rb_ok(n.right),
            black_count(n.left) + 1 == black_count(n.right),
            n.color == NodeColor::Red ==> !is_red(n.right),
        ensures
            r == delete_repaired_left(n),
            rb_ok(Some(r.0)),
            black_count(Some(r.0)) + (if r.1 {
                1nat
            } else {
                0nat
            }) == black_count(n.right) + (if n.color == NodeColor::Black {
                1nat
            } else {
                0nat
            }),
            is_red(Some(r.0)) ==> n.color == NodeColor::Red,
            r.1 ==> n.color == NodeColor::Black && !is_red(Some(r.0)),
            rearranged(link_shape(Some(n)), link_shape(Some(r.0))),
        decreases link_shape(Some(n)).size(),
    {
        let ghost n0 = n;
        proof {
            lemma_rb_unfold(n0);
            lemma_rb_unfold(n0.right.unwrap());
        }
        if Self::color(&n.right) == NodeColor::Red {
            proof {
                link_shape(Some(n)).lemma_rotate_left();
            }
            let mut r = Self::rotate_left(n);
            r.color = NodeColor::Black;
            let mut lower = r.left.take().unwrap();
            lower.color = NodeColor::Red;
            proof {
                lemma_rb_unfold(lower);
                lemma_rb_unfold(lower.right.unwrap());
                link_shape(Some(r)).lemma_unfold();
                link_shape(Some(n0)).lemma_rotate_left();
                link_shape(Some(n0)).rotate_left().lemma_unfold();
                link_shape(Some(n0)).rotate_left().lemma_unfold();
                link_shape(Some(n0)).lemma_unfold();
            }
            let (fixed, short) = Self::delete_repair_left(lower);
            r.left = Some(fixed);
            proof {
                lemma_rb_unfold(r);
                link_shape(Some(r)).lemma_unfold();
            }
            (r, false)
        } else {
            let mut s = n.right.take().unwrap();
            let ghost s0 = s;
            if Self::color(&s.left) != NodeColor::Red && Self::color(&s.right) != NodeColor::Red {
                s.color = NodeColor::Red;
                proof {
                    lemma_rb_unfold(s);
                }
                n.right = Some(s);
                if n.color == NodeColor::Red {
                    n.color = NodeColor::Black;
                    proof {
                        lemma_rb_unfold(n);
                    }
                    (n, false)
                } else {
                    proof {
                        lemma_rb_unfold(n);
                    }
                    (n, true)
                }
            } else {
                if Self::color(&s.right) != NodeColor::Red {
                    proof {
                        lemma_rb_unfold(s.left.unwrap());
                        link_shape(Some(s)).lemma_rotate_right();
                    }
                    s = Self::rotate_right(s);
                    s.color = NodeColor::Black;
                    let mut x = s.right.take().unwrap();
                    x.color = NodeColor::Red;
                    proof {
                        lemma_rb_unfold(x);
                    }
                    s.right = Some(x);
                    proof {
                        lemma_rb_unfold(s);
                    }
                }
                let ghost s1 = s;
                proof {
                    lemma_rb_unfold(s1.right.unwrap());
                }
                let c = n.color;
                n.right = Some(s);
                proof {
                    lemma_rb_unfold(n);
                    link_shape(Some(n)).lemma_rotate_left();
                }
                let mut r = Self::rotate_left(n);
                r.color = c;
                let mut l = r.left.take().unwrap();
                l.color = NodeColor::Black;
                proof {
                    lemma_rb_unfold(l);
                }
                r.left = Some(l);
                let mut rr = r.right.take().unwrap();
                rr.color = NodeColor::Black;
                proof {
                    lemma_rb_unfold(rr);
                }
                r.right = Some(rr);
                proof {
                    lemma_rb_unfold(r);
                }
                (r, false)
            }
        }
    }

    /// Mirror image of `delete_repair_left`.
    fn delete_repair_right(mut n: Box<Self>) -> (r: (Box<Self>, bool))
        requires
            rb_ok(n.right),
            !is_red(n.right),
            rb_ok(n.left),
            black_count(n.right) + 1 == black_count(n.left),
            n.color == NodeColor::Red ==> !is_red(n.left),
        ensures
            r == delete_repaired_right(n),
            rb_ok(Some(r.0)),
            black_count(Some(r.0)) + (if r.1 {
                1nat
            } else {
                0nat
            }) == black_count(n.left) + (if n.color == NodeColor::Black {
                1nat
            } else {
                0nat
            }),
            is_red(Some(r.0)) ==> n.color == NodeColor::Red,
            r.1 ==> n.color == NodeColor::Black && !is_red(Some(r.0)),
            rearranged(link_shape(Some(n)), link_shape(Some(r.0))),
        decreases link_shape(Some(n)).size(),
    {
        let ghost n0 = n;
        proof {
            lemma_rb_unfold(n0);
            lemma_rb_unfold(n0.left.unwrap());
        }
        if Self::color(&n.left) == NodeColor::Red {
            proof {
                link_shape(Some(n)).lemma_rotate_right();
            }
            let mut r = Self::rotate_right(n);
            r.color = NodeColor::Black;
            let mut lower = r.right.take().unwrap();
            lower.color = NodeColor::Red;
            proof {
                lemma_rb_unfold(lower);
                lemma_rb_unfold(lower.left.unwrap());
                link_shape(Some(r)).lemma_unfold();
                link_shape(Some(n0)).lemma_rotate_right();
                link_shape(Some(n0)).rotate_right().lemma_unfold();
                link_shape(Some(n0)).rotate_right().lemma_unfold();
                link_shape(Some(n0)).lemma_unfold();
            }
            let (fixed, short) = Self::delete_repair_right(lower);
            r.right = Some(fixed);
            proof {
                lemma_rb_unfold(r);
                link_shape(Some(r)).lemma_unfold();
            }
            (r, false)
        } else {
            let mut s = n.left.take().unwrap();
            let ghost s0 = s;
            if Self::color(&s.right) != NodeColor::Red && Self::color(&s.left) != NodeColor::Red {
                s.color = NodeColor::Red;
                proof {
                    lemma_rb_unfold(s);
                }
                n.left = Some(s);
                if n.color == NodeColor::Red {
                    n.color = NodeColor::Black;
                    proof {
                        lemma_rb_unfold(n);
                    }
                    (n, false)
                } else {
                    proof {
                        lemma_rb_unfold(n);
                    }
                    (n, true)
                }
            } else {
                if Self::color(&s.left) != NodeColor::Red {
                    proof {
                        lemma_rb_unfold(s.right.unwrap());
                        link_shape(Some(s)).lemma_rotate_left();
                    }
                    s = Self::rotate_left(s);
                    s.color = NodeColor::Black;
                    let mut x = s.left.take().unwrap();
                    x.color = NodeColor::Red;
                    proof {
                        lemma_rb_unfold(x);
                    }
                    s.left = Some(x);
                    proof {
                        lemma_rb_unfold(s);
                    }
                }
                let ghost s1 = s;
                proof {
                    lemma_rb_unfold(s1.left.unwrap());
                }
                let c = n.color;
                n.left = Some(s);
                proof {
                    lemma_rb_unfold(n);
                    link_shape(Some(n)).lemma_rotate_right();
                }
                let mut r = Self::rotate_right(n);
                r.color = c;
                let mut l = r.right.take().unwrap();
                l.color = NodeColor::Black;
                proof {
                    lemma_rb_unfold(l);
                }
                r.right = Some(l);
                let mut rr = r.left.take().unwrap();
                rr.color = NodeColor::Black;
                proof {
                    lemma_rb_unfold(rr);
                }
                r.left = Some(rr);
                proof {
                    lemma_rb_unfold(r);
                }
                (r, false)
            }
        }
    }
}

impl RedBlackTreeNode {
    /// Deletes `val` below `link`; a key not present is ignored. A node with
    /// two children first takes the key of its in-order predecessor, which is
    /// then deleted from the left subtree. A red node with at most one child
    /// is unlinked; a black one hands over its red child, recolored black, or
    /// leaves the subtree one black node short, which the levels above repair.
    /// The flag in the result says whether the subtree is still short.
    fn delete(link: Option<Box<Self>>, val: i64) -> (r: (Option<Box<Self>>, bool))
        requires
            rb_ok(link),
            link_shape(link).is_bst(),
        ensures
            r == deleted(link, val),
            rb_ok(r.0),
            black_count(r.0) + (if r.1 {
                1nat
            } else {
                0nat
            }) == black_count(link),
            is_red(r.0) ==> is_red(link),
            r.1 ==> !is_red(link) && !is_red(r.0),
            link_shape(r.0).is_bst(),
            link_shape(r.0).elems() == link_shape(link).elems().remove(val),
            link_shape(r.0).size() <= link_shape(link).size(),
        decreases link,
    {
        match link {
            None => {
                proof {
                    assert(Shape::Empty.elems() =~= Shape::Empty.elems().remove(val));
                }
                (None, false)
            },
            Some(mut n) => {
                let ghost n0 = n;
                let ghost t = link_shape(Some(n0));
                proof {
                    lemma_rb_unfold(n0);
                    t.lemma_unfold();
                }
                if n.data == val {
                    proof {
                        assert(!t.left().elems().contains(val));
                        assert(!t.right().elems().contains(val));
                    }
                    if n.left.is_some() && n.right.is_some() {
                        let v = match &n.left {
                            Some(l) => Self::get_max(&**l),
                            None => val,
                        };
                        proof {
                            t.left().lemma_rightmost_is_greatest();
                        }
                        let (l, short) = Self::delete(n.left.take(), v);
                        n.left = l;
                        n.data = v;
                        proof {
                            lemma_rb_unfold(n);
                            link_shape(Some(n)).lemma_unfold();
                            assert(link_shape(Some(n)).elems() =~= t.elems().remove(val));
                        }
                        if short {
                            let (r, still_short) = Self::delete_repair_left(n);
                            (Some(r), still_short)
                        } else {
                            (Some(n), false)
                        }
                    } else {
                        let child = if n.left.is_some() {
                            n.left.take()
                        } else {
                            n.right.take()
                        };
                        proof {
                            assert(link_shape(child).elems() =~= t.elems().remove(val));
                        }
                        if n.color == NodeColor::Red {
                            (child, false)
                        } else if Self::color(&child) == NodeColor::Red {
                            let mut c = child.unwrap();
                            proof {
                                lemma_rb_unfold(c);
                            }
                            c.color = NodeColor::Black;
                            proof {
                                lemma_rb_unfold(c);
                            }
                            (Some(c), false)
                        } else {
                            (child, true)
                        }
                    }
                } else if val < n.data {
                    let (l, short) = Self::delete(n.left.take(), val);
                    n.left = l;
                    proof {
                        lemma_rb_unfold(n);
                        link_shape(Some(n)).lemma_unfold();
                        assert(!t.right().elems().contains(val));
                        assert(link_shape(Some(n)).elems() =~= t.elems().remove(val));
                    }
                    if short {
                        let (r, still_short) = Self::delete_repair_left(n);
                        (Some(r), still_short)
                    } else {
                        (Some(n), false)
                    }
                } else {
                    let (r, short) = Self::delete(n.right.take(), val);
                    n.right = r;
                    proof {
                        lemma_rb_unfold(n);
                        link_shape(Some(n)).lemma_unfold();
                        assert(!t.left().elems().contains(val));
                        assert(link_shape(Some(n)).elems() =~= t.elems().remove(val));
                    }
                    if short {
                        let (r, still_short) = Self::delete_repair_right(n);
                        (Some(r), still_short)
                    } else {
                        (Some(n), false)
                    }
                }
            },
        }
    }
}

/// A red-black search tree of `i64` keys.
pub struct RedBlackTree {
    root: Option<Box<RedBlackTreeNode>>,
}

impl RedBlackTree {
    /// The root link.
    pub closed spec fn root_link(&self) -> Option<Box<RedBlackTreeNode>> {
        self.root
    }
}

impl QueryableTree<RedBlackTreeNode> for RedBlackTree {
    closed spec fn tree_shape(&self) -> Shape {
        link_shape(self.root)
    }

    closed spec fn well_formed(&self) -> bool {
        &&& rb_ok(self.root)
        &&& !is_red(self.root)
        &&& self.tree_shape().is_bst()
        &&& self.tree_shape().size() <= usize::MAX
    }

    proof fn lemma_well_formed_search_tree(&self) {
    }

    fn get_root(&self) -> (r: &Option<Box<RedBlackTreeNode>>) {
        &self.root
    }
}

impl RedBlackTree {
    /// An empty tree.
    pub fn new() -> (r: Self)
        ensures
            r.well_formed(),
            r.tree_shape() == Shape::Empty,
    {
        RedBlackTree { root: None }
    }

    /// The root node, if any.
    pub fn root(&self) -> (r: &Option<Box<RedBlackTreeNode>>)
        ensures
            *r == self.root_link(),
            link_shape(*r) == self.tree_shape(),
    {
        &self.root
    }

    /// A valid tree has the red-black properties.
    pub proof fn lemma_well_formed_color_properties(&self)
        requires
            self.well_formed(),
        ensures
            color_properties(self.root_link()),
    {
        lemma_rb_ok_properties(self.root);
    }

    /// Inserts `val` and repairs the colors; a key already present is
    /// ignored.
    pub fn insert(&mut self, val: i64)
        requires
            old(self).well_formed(),
            old(self).tree_shape().size() < usize::MAX,
        ensures
            final(self).well_formed(),
            final(self).root_link() == Some(
                recolored(inserted(old(self).root_link(), val).unwrap(), NodeColor::Black),
            ),
            color_properties(final(self).root_link()),
            final(self).tree_shape().elems() == old(self).tree_shape().elems().insert(val),
            final(self).tree_shape().size() == old(self).tree_shape().size() + (if old(
                self,
            ).tree_shape().elems().contains(val) {
                0nat
            } else {
                1nat
            }),
    {
        let root = self.root.take();
        let mut r = RedBlackTreeNode::insert(root, val).unwrap();
        proof {
            lemma_rb_unfold(r);
        }
        r.color = NodeColor::Black;
        proof {
            lemma_rb_unfold(r);
        }
        self.root = Some(r);
        proof {
            self.lemma_well_formed_color_properties();
            lemma_size_after_insert(old(self).tree_shape(), self.tree_shape(), val);
        }
    }

    /// Deletes `val` and repairs the colors; a key not present is ignored.
    pub fn delete(&mut self, val: i64)
        requires
            old(self).well_formed(),
        ensures
            final(self).well_formed(),
            final(self).root_link() == deleted(old(self).root_link(), val).0,
            color_properties(final(self).root_link()),
            final(self).tree_shape().elems() == old(self).tree_shape().elems().remove(val),
            final(self).tree_shape().size() + (if old(self).tree_shape().elems().contains(val) {
                1nat
            } else {
                0nat
            }) == old(self).tree_shape().size(),
    {
        let root = self.root.take();
        let (r, _short) = RedBlackTreeNode::delete(root, val);
        self.root = r;
        proof {
            self.lemma_well_formed_color_properties();
            lemma_size_after_remove(old(self).tree_shape(), self.tree_shape(), val);
        }
    }

    /// Whether both trees hold the same keys in the same places.
    pub fn is_equal(&self, other: &RedBlackTree) -> (r: bool)
        ensures
            r == (self.tree_shape() == other.tree_shape()),
    {
        RedBlackTreeNode::is_equal(&self.root, &other.root)
    }
}

/// A uniform black height never exceeds one more than the number of nodes.
pub proof fn lemma_uniform_black_height_bound(link: Option<Box<RedBlackTreeNode>>)
    ensures
        uniform_black_height(link) matches Some(h) ==> h <= link_shape(link).size() + 1,
    decreases link,
{
    if let Some(n) = link {
        lemma_uniform_black_height_bound(n.left);
        lemma_uniform_black_height_bound(n.right);
    }
}

} // verus!
