//! The query layer shared by every tree kind.
//!
//! Each node type maps onto a `Shape`, the plain binary tree of keys that it
//! stands for. The read-only queries (height, leaves, size, min, max,
//! membership, in-order listing) are written once: as generic functions over
//! any `QueryableTreeNode`, and as default methods of `QueryableTree` that
//! apply them to the root. Their contracts speak of the shape.

use vstd::prelude::*;

verus! {

/// The abstract shape of a binary tree holding `i64` keys.
pub enum Shape {
    Empty,
    Node { left: Box<Shape>, value: i64, right: Box<Shape> },
}

/// The node `Node { l, v, r }`.
pub open spec fn node(l: Shape, v: i64, r: Shape) -> Shape {
    Shape::Node { left: Box::new(l), value: v, right: Box::new(r) }
}

/// `after` holds the keys of `before` in the same in-order sequence, and is
/// a search tree whenever `before` is one.
pub open spec fn rearranged(before: Shape, after: Shape) -> bool {
    &&& after.inorder() == before.inorder()
    &&& after.elems() == before.elems()
    &&& after.size() == before.size()
    &&& before.is_bst() ==> after.is_bst()
}

/// A sequence whose elements strictly increase.
pub open spec fn strictly_ascending(s: Seq<i64>) -> bool {
    forall|i: int, j: int| 0 <= i < j < s.len() ==> s[i] < s[j]
}

impl Shape {
    pub open spec fn left(self) -> Shape {
        match self {
            Shape::Empty => Shape::Empty,
            Shape::Node { left, .. } => *left,
        }
    }

    pub open spec fn right(self) -> Shape {
        match self {
            Shape::Empty => Shape::Empty,
            Shape::Node { right, .. } => *right,
        }
    }

    pub open spec fn value(self) -> i64 {
        match self {
            Shape::Empty => 0,
            Shape::Node { value, .. } => value,
        }
    }

    /// Number of nodes.
    pub open spec fn size(self) -> nat
        decreases self,
    {
        match self {
            Shape::Empty => 0,
            Shape::Node { left, right, .. } => left.size() + right.size() + 1,
        }
    }

    /// Number of nodes on the longest path from the root down; 0 when empty.
    pub open spec fn height(self) -> nat
        decreases self,
    {
        match self {
            Shape::Empty => 0,
            Shape::Node { left, right, .. } => {
                let a = left.height();
                let b = right.height();
                if a >= b {
                    a + 1
                } else {
                    b + 1
                }
            },
        }
    }

    /// Number of nodes without children.
    pub open spec fn leaves(self) -> nat
        decreases self,
    {
        match self {
            Shape::Empty => 0,
            Shape::Node { left, right, .. } => {
                if *left is Empty && *right is Empty {
                    1
                } else {
                    left.leaves() + right.leaves()
                }
            },
        }
    }

    /// The keys in in-order: left subtree, node, right subtree.
    pub open spec fn inorder(self) -> Seq<i64>
        decreases self,
    {
        match self {
            Shape::Empty => Seq::empty(),
            Shape::Node { left, value, right } => left.inorder().push(value) + right.inorder(),
        }
    }

    /// The keys in pre-order: node, left subtree, right subtree.
    pub open spec fn preorder(self) -> Seq<i64>
        decreases self,
    {
        match self {
            Shape::Empty => Seq::empty(),
            Shape::Node { left, value, right } => seq![value] + left.preorder() + right.preorder(),
        }
    }

    /// The keys in post-order: left subtree, right subtree, node.
    pub open spec fn postorder(self) -> Seq<i64>
        decreases self,
    {
        match self {
            Shape::Empty => Seq::empty(),
            Shape::Node { left, value, right } => left.postorder() + right.postorder().push(value),
        }
    }

    /// The set of keys held.
    pub open spec fn elems(self) -> Set<i64>
        decreases self,
    {
        match self {
            Shape::Empty => Set::empty(),
            Shape::Node { left, value, right } => left.elems().union(right.elems()).insert(value),
        }
    }

    /// Every key of a left subtree is below its node, every key of a right
    /// subtree above it.
    pub open spec fn is_bst(self) -> bool
        decreases self,
    {
        match self {
            Shape::Empty => true,
            Shape::Node { left, value, right } => {
                &&& left.is_bst()
                &&& right.is_bst()
                &&& forall|x: i64| left.elems().contains(x) ==> x < value
                &&& forall|x: i64| right.elems().contains(x) ==> value < x
            },
        }
    }

    /// The key reached by always going left.
    pub open spec fn leftmost(self) -> i64
        decreases self,
    {
        match self {
            Shape::Empty => 0,
            Shape::Node { left, value, .. } => {
                if *left is Empty {
                    value
                } else {
                    left.leftmost()
                }
            },
        }
    }

    /// The key reached by always going right.
    pub open spec fn rightmost(self) -> i64
        decreases self,
    {
        match self {
            Shape::Empty => 0,
            Shape::Node { value, right, .. } => {
                if *right is Empty {
                    value
                } else {
                    right.rightmost()
                }
            },
        }
    }

    /// A node's measures in terms of its children's.
    pub proof fn lemma_unfold(self)
        requires
            self is Node,
        ensures
            self == (Shape::Node {
                left: Box::new(self.left()),
                value: self.value(),
                right: Box::new(self.right()),
            }),
            self.size() == self.left().size() + self.right().size() + 1,
            self.elems() == self.left().elems().union(self.right().elems()).insert(self.value()),
            self.inorder() == self.left().inorder().push(self.value()) + self.right().inorder(),
            self.preorder() == seq![self.value()] + self.left().preorder() + self.right().preorder(),
            self.postorder() == self.left().postorder() + self.right().postorder().push(self.value()),
            self.is_bst() == {
                &&& self.left().is_bst()
                &&& self.right().is_bst()
                &&& forall|x: i64| self.left().elems().contains(x) ==> x < self.value()
                &&& forall|x: i64| self.right().elems().contains(x) ==> self.value() < x
            },
    {
    }

    /// The left child takes this node's place; this node becomes its right
    /// child and takes over its former right subtree.
    pub open spec fn rotate_right(self) -> Shape {
        match self {
            Shape::Node { left, value, right } => match *left {
                Shape::Node { left: a, value: x, right: b } => Shape::Node {
                    left: a,
                    value: x,
                    right: Box::new(Shape::Node { left: b, value, right }),
                },
                Shape::Empty => self,
            },
            Shape::Empty => self,
        }
    }

    /// The right child takes this node's place; this node becomes its left
    /// child and takes over its former left subtree.
    pub open spec fn rotate_left(self) -> Shape {
        match self {
            Shape::Node { left, value, right } => match *right {
                Shape::Node { left: b, value: x, right: c } => Shape::Node {
                    left: Box::new(Shape::Node { left, value, right: b }),
                    value: x,
                    right: c,
                },
                Shape::Empty => self,
            },
            Shape::Empty => self,
        }
    }

    /// A rotation keeps the in-order sequence, hence the keys, the size and
    /// the search order.
    pub proof fn lemma_rotate_right(self)
        ensures
            self.rotate_right().inorder() == self.inorder(),
            self.rotate_right().elems() == self.elems(),
            self.rotate_right().size() == self.size(),
            self.is_bst() ==> self.rotate_right().is_bst(),
    {
        if let Shape::Node { left, value, right } = self {
            if let Shape::Node { left: a, value: x, right: b } = *left {
                let inner = Shape::Node { left: b, value, right };
                let r = self.rotate_right();
                assert(r == Shape::Node { left: a, value: x, right: Box::new(inner) });
                assert(left.inorder() == a.inorder().push(x) + b.inorder());
                assert(inner.inorder() == b.inorder().push(value) + right.inorder());
                assert(r.inorder() == a.inorder().push(x) + inner.inorder());
                assert(self.inorder() == left.inorder().push(value) + right.inorder());
                assert(r.inorder() =~= self.inorder());
                assert(left.elems() == a.elems().union(b.elems()).insert(x));
                assert(r.elems() == a.elems().union(inner.elems()).insert(x));
                assert(r.elems() =~= self.elems());
                assert(left.size() == a.size() + b.size() + 1);
                assert(inner.size() == b.size() + right.size() + 1);
                assert(r.size() == a.size() + inner.size() + 1);
                assert(inner.elems() =~= b.elems().union(right.elems()).insert(value));
                if self.is_bst() {
                    self.lemma_unfold();
                    left.lemma_unfold();
                    inner.lemma_unfold();
                    r.lemma_unfold();
                    assert forall|y: i64| b.elems().contains(y) implies y < value by {
                        assert(left.elems().contains(y));
                    }
                    assert(inner.is_bst());
                    assert(left.elems().contains(x));
                    assert(x < value);
                    assert forall|y: i64| inner.elems().contains(y) implies x < y by {
                        if right.elems().contains(y) {
                            assert(value < y);
                        } else if b.elems().contains(y) {
                            assert(x < y);
                        }
                    }
                }
            }
        }
    }

    /// See `lemma_rotate_right`.
    pub proof fn lemma_rotate_left(self)
        ensures
            self.rotate_left().inorder() == self.inorder(),
            self.rotate_left().elems() == self.elems(),
            self.rotate_left().size() == self.size(),
            self.is_bst() ==> self.rotate_left().is_bst(),
    {
        if let Shape::Node { left, value, right } = self {
            if let Shape::Node { left: b, value: x, right: c } = *right {
                let inner = Shape::Node { left, value, right: b };
                let r = self.rotate_left();
                assert(r == Shape::Node { left: Box::new(inner), value: x, right: c });
                assert(right.inorder() == b.inorder().push(x) + c.inorder());
                assert(inner.inorder() == left.inorder().push(value) + b.inorder());
                assert(r.inorder() == inner.inorder().push(x) + c.inorder());
                assert(self.inorder() == left.inorder().push(value) + right.inorder());
                assert(r.inorder() =~= self.inorder());
                assert(right.elems() == b.elems().union(c.elems()).insert(x));
                assert(r.elems() == inner.elems().union(c.elems()).insert(x));
                assert(r.elems() =~= self.elems());
                assert(right.size() == b.size() + c.size() + 1);
                assert(inner.size() == left.size() + b.size() + 1);
                assert(r.size() == inner.size() + c.size() + 1);
                assert(inner.elems() =~= left.elems().union(b.elems()).insert(value));
                if self.is_bst() {
                    self.lemma_unfold();
                    right.lemma_unfold();
                    inner.lemma_unfold();
                    r.lemma_unfold();
                    assert forall|y: i64| b.elems().contains(y) implies value < y by {
                        assert(right.elems().contains(y));
                    }
                    assert(inner.is_bst());
                    assert(right.elems().contains(x));
                    assert(value < x);
                    assert forall|y: i64| inner.elems().contains(y) implies y < x by {
                        if left.elems().contains(y) {
                            assert(y < value);
                        } else if b.elems().contains(y) {
                            assert(y < x);
                        }
                    }
                }
            }
        }
    }

    pub proof fn lemma_height_le_size(self)
        ensures
            self.height() <= self.size(),
        decreases self,
    {
        if let Shape::Node { left, right, .. } = self {
            left.lemma_height_le_size();
            right.lemma_height_le_size();
        }
    }

    pub proof fn lemma_leaves_le_size(self)
        ensures
            self.leaves() <= self.size(),
        decreases self,
    {
        if let Shape::Node { left, right, .. } = self {
            left.lemma_leaves_le_size();
            right.lemma_leaves_le_size();
        }
    }

    /// The leftmost key of a search tree is its least key.
    pub proof fn lemma_leftmost_is_least(self)
        requires
            self.is_bst(),
            self is Node,
        ensures
            self.elems().contains(self.leftmost()),
            forall|x: i64| self.elems().contains(x) ==> self.leftmost() <= x,
        decreases self,
    {
        if let Shape::Node { left, value, right } = self {
            if !(*left is Empty) {
                left.lemma_leftmost_is_least();
                assert(self.leftmost() < value);
            }
            assert forall|x: i64| self.elems().contains(x) implies self.leftmost() <= x by {
                if right.elems().contains(x) {
                    assert(value < x);
                } else if left.elems().contains(x) {
                    assert(!(*left is Empty));
                    assert(left.leftmost() <= x);
                }
            }
        }
    }

    /// The rightmost key of a search tree is its greatest key.
    pub proof fn lemma_rightmost_is_greatest(self)
        requires
            self.is_bst(),
            self is Node,
        ensures
            self.elems().contains(self.rightmost()),
            forall|x: i64| self.elems().contains(x) ==> x <= self.rightmost(),
        decreases self,
    {
        if let Shape::Node { left, value, right } = self {
            if !(*right is Empty) {
                right.lemma_rightmost_is_greatest();
                assert(value < self.rightmost());
            }
            assert forall|x: i64| self.elems().contains(x) implies x <= self.rightmost() by {
                if left.elems().contains(x) {
                    assert(x < value);
                } else if right.elems().contains(x) {
                    assert(!(*right is Empty));
                    assert(x <= right.rightmost());
                }
            }
        }
    }

    /// The in-order listing holds exactly the keys of the tree.
    pub proof fn lemma_inorder_elems(self)
        ensures
            forall|x: i64| self.inorder().contains(x) <==> self.elems().contains(x),
            self.inorder().len() == self.size(),
        decreases self,
    {
        if let Shape::Node { left, value, right } = self {
            left.lemma_inorder_elems();
            right.lemma_inorder_elems();
            let s = left.inorder().push(value);
            assert forall|x: i64| self.inorder().contains(x) <==> self.elems().contains(x) by {
                if self.inorder().contains(x) {
                    let k = choose|k: int| 0 <= k < self.inorder().len() && self.inorder()[k] == x;
                    if k < left.inorder().len() {
                        assert(left.inorder().contains(x));
                    } else if k > left.inorder().len() {
                        assert(right.inorder()[k - s.len()] == x);
                        assert(right.inorder().contains(x));
                    }
                }
                if self.elems().contains(x) {
                    if left.elems().contains(x) {
                        let k = choose|k: int| 0 <= k < left.inorder().len() && left.inorder()[k] == x;
                        assert(self.inorder()[k] == x);
                    } else if right.elems().contains(x) {
                        let k = choose|k: int| 0 <= k < right.inorder().len() && right.inorder()[k] == x;
                        assert(self.inorder()[k + s.len()] == x);
                    } else {
                        assert(self.inorder()[left.inorder().len() as int] == x);
                    }
                }
            }
        }
    }

    /// The in-order listing of a search tree is strictly ascending.
    pub proof fn lemma_bst_inorder_ascending(self)
        requires
            self.is_bst(),
        ensures
            strictly_ascending(self.inorder()),
        decreases self,
    {
        if let Shape::Node { left, value, right } = self {
            left.lemma_bst_inorder_ascending();
            right.lemma_bst_inorder_ascending();
            left.lemma_inorder_elems();
            right.lemma_inorder_elems();
            let l = left.inorder();
            let r = right.inorder();
            let s = self.inorder();
            assert forall|i: int, j: int| 0 <= i < j < s.len() implies s[i] < s[j] by {
                let n = l.len() as int;
                if i < n {
                    assert(left.elems().contains(l[i]));
                }
                if j > n {
                    assert(r.contains(r[j - n - 1]));
                    assert(right.elems().contains(s[j]));
                }
                if i > n {
                    assert(s[i] == r[i - n - 1]);
                }
            }
        }
    }

    /// In a search tree the node count is the number of distinct keys.
    pub proof fn lemma_bst_size_is_count(self)
        requires
            self.is_bst(),
        ensures
            self.elems().finite(),
            self.elems().len() == self.size(),
        decreases self,
    {
        if let Shape::Node { left, value, right } = self {
            left.lemma_bst_size_is_count();
            right.lemma_bst_size_is_count();
            let u = left.elems().union(right.elems());
            assert(left.elems().disjoint(right.elems()));
            vstd::set_lib::lemma_set_disjoint_lens(left.elems(), right.elems());
            assert(left.elems() + right.elems() == u);
            assert(!u.contains(value));
        }
    }
}

/// In search trees, adding a key grows the size by one exactly when the
/// key was not held before.
pub proof fn lemma_size_after_insert(before: Shape, after: Shape, v: i64)
    requires
        before.is_bst(),
        after.is_bst(),
        after.elems() == before.elems().insert(v),
    ensures
        after.size() == before.size() + (if before.elems().contains(v) {
            0nat
        } else {
            1nat
        }),
{
    before.lemma_bst_size_is_count();
    after.lemma_bst_size_is_count();
    if before.elems().contains(v) {
        assert(before.elems().insert(v) =~= before.elems());
    }
}

/// In search trees, removing a key shrinks the size by one exactly when the
/// key was held before.
pub proof fn lemma_size_after_remove(before: Shape, after: Shape, v: i64)
    requires
        before.is_bst(),
        after.is_bst(),
        after.elems() == before.elems().remove(v),
    ensures
        after.size() + (if before.elems().contains(v) {
            1nat
        } else {
            0nat
        }) == before.size(),
{
    before.lemma_bst_size_is_count();
    after.lemma_bst_size_is_count();
    if !before.elems().contains(v) {
        assert(before.elems().remove(v) =~= before.elems());
    }
}

/// The keys held after inserting `vals`, one at a time in order, into a
/// tree holding `keys`.
pub open spec fn keys_after_inserts(keys: Set<i64>, vals: Seq<i64>) -> Set<i64>
    decreases vals.len(),
{
    if vals.len() == 0 {
        keys
    } else {
        keys_after_inserts(keys, vals.drop_last()).insert(vals.last())
    }
}

/// The keys held after deleting `vals`, one at a time in order, from a tree
/// holding `keys`.
pub open spec fn keys_after_deletes(keys: Set<i64>, vals: Seq<i64>) -> Set<i64>
    decreases vals.len(),
{
    if vals.len() == 0 {
        keys
    } else {
        keys_after_deletes(keys, vals.drop_last()).remove(vals.last())
    }
}

proof fn lemma_keys_after_inserts(vals: Seq<i64>)
    requires
        vals.no_duplicates(),
    ensures
        keys_after_inserts(Set::empty(), vals).finite(),
        keys_after_inserts(Set::empty(), vals).len() == vals.len(),
        forall|x: i64| keys_after_inserts(Set::empty(), vals).contains(x) <==> vals.contains(x),
    decreases vals.len(),
{
    if vals.len() > 0 {
        let init = vals.drop_last();
        assert forall|i: int, j: int| 0 <= i < j < init.len() implies init[i] != init[j] by {
            assert(init[i] == vals[i] && init[j] == vals[j]);
        }
        lemma_keys_after_inserts(init);
        assert(!init.contains(vals.last())) by {
            if init.contains(vals.last()) {
                let k = choose|k: int| 0 <= k < init.len() && init[k] == vals.last();
                assert(vals[k] == vals[vals.len() - 1]);
            }
        }
        assert forall|x: i64| keys_after_inserts(Set::empty(), vals).contains(x) <==> vals.contains(x) by {
            if vals.contains(x) && x != vals.last() {
                let k = choose|k: int| 0 <= k < vals.len() && vals[k] == x;
                assert(init[k] == x);
            }
            if init.contains(x) {
                let k = choose|k: int| 0 <= k < init.len() && init[k] == x;
                assert(vals[k] == x);
            }
        }
    }
}

proof fn lemma_keys_after_deletes(keys: Set<i64>, vals: Seq<i64>)
    requires
        keys.finite(),
        vals.no_duplicates(),
        forall|i: int| 0 <= i < vals.len() ==> keys.contains(#[trigger] vals[i]),
    ensures
        keys_after_deletes(keys, vals).finite(),
        keys_after_deletes(keys, vals).len() == keys.len() - vals.len(),
        forall|x: i64| keys_after_deletes(keys, vals).contains(x) <==> (keys.contains(x) && !vals.contains(x)),
    decreases vals.len(),
{
    if vals.len() > 0 {
        let init = vals.drop_last();
        assert forall|i: int, j: int| 0 <= i < j < init.len() implies init[i] != init[j] by {
            assert(init[i] == vals[i] && init[j] == vals[j]);
        }
        assert forall|i: int| 0 <= i < init.len() implies keys.contains(#[trigger] init[i]) by {
            assert(init[i] == vals[i]);
        }
        lemma_keys_after_deletes(keys, init);
        assert(!init.contains(vals.last())) by {
            if init.contains(vals.last()) {
                let k = choose|k: int| 0 <= k < init.len() && init[k] == vals.last();
                assert(vals[k] == vals[vals.len() - 1]);
            }
        }
        assert(keys.contains(vals[vals.len() - 1]));
        assert forall|x: i64| keys_after_deletes(keys, vals).contains(x) <==> (keys.contains(x)
            && !vals.contains(x)) by {
            if vals.contains(x) && x != vals.last() {
                let k = choose|k: int| 0 <= k < vals.len() && vals[k] == x;
                assert(init[k] == x);
            }
            if init.contains(x) {
                let k = choose|k: int| 0 <= k < init.len() && init[k] == x;
                assert(vals[k] == x);
            }
        }
    }
}

/// Size consistency: inserting `n` distinct keys one at a time into an empty
/// tree leaves `n` keys, and deleting `k` distinct ones of them afterwards
/// leaves `n - k`. Every tree here updates its keys by exactly these set
/// operations, and `len` counts its keys.
pub proof fn lemma_size_consistency(inserted: Seq<i64>, deleted: Seq<i64>)
    requires
        inserted.no_duplicates(),
        deleted.no_duplicates(),
        forall|i: int| 0 <= i < deleted.len() ==> inserted.contains(#[trigger] deleted[i]),
    ensures
        keys_after_inserts(Set::empty(), inserted).len() == inserted.len(),
        keys_after_deletes(keys_after_inserts(Set::empty(), inserted), deleted).len() == inserted.len()
            - deleted.len(),
{
    lemma_keys_after_inserts(inserted);
    let keys = keys_after_inserts(Set::empty(), inserted);
    assert forall|i: int| 0 <= i < deleted.len() implies keys.contains(#[trigger] deleted[i]) by {
        assert(inserted.contains(deleted[i]));
    }
    lemma_keys_after_deletes(keys, deleted);
}

/// Round trip: inserting a key that is not held and then deleting it gives
/// back the same set of keys.
pub proof fn lemma_insert_delete_round_trip_keys(keys: Set<i64>, v: i64)
    requires
        !keys.contains(v),
    ensures
        keys.insert(v).remove(v) == keys,
{
    assert(keys.insert(v).remove(v) =~= keys);
}

/// Search order: the in-order listing of any valid tree strictly ascends.
/// Every insertion and deletion keeps the tree valid, so this holds after
/// any sequence of them.
pub proof fn lemma_inorder_strictly_ascending<N: QueryableTreeNode, T: QueryableTree<N>>(t: &T)
    requires
        t.well_formed(),
    ensures
        strictly_ascending(t.tree_shape().inorder()),
{
    t.lemma_well_formed_search_tree();
    t.tree_shape().lemma_bst_inorder_ascending();
}

/// Read access to a node: its key and its two children. The queries are
/// written once over this access.
pub trait QueryableTreeNode: Sized {
    /// The subtree rooted at this node.
    spec fn shape(&self) -> Shape;

    fn get_left(&self) -> (r: &Option<Box<Self>>)
        ensures
            self.shape() is Node,
            r is None <==> self.shape().left() is Empty,
            r matches Some(c) ==> c.shape() == self.shape().left(),
    ;

    fn get_right(&self) -> (r: &Option<Box<Self>>)
        ensures
            self.shape() is Node,
            r is None <==> self.shape().right() is Empty,
            r matches Some(c) ==> c.shape() == self.shape().right(),
    ;

    fn get_data(&self) -> (r: i64)
        ensures
            self.shape() is Node,
            r == self.shape().value(),
    ;
}

/// Height of the subtree rooted at `n`.
pub fn subtree_height<N: QueryableTreeNode>(n: &N) -> (r: usize)
    requires
        n.shape().size() <= usize::MAX,
    ensures
        r == n.shape().height(),
    decreases n.shape().size(),
{
    let ghost t = n.shape();
    let lh: usize = match n.get_left() {
        Some(l) => subtree_height(&**l),
        None => 0,
    };
    let rh: usize = match n.get_right() {
        Some(r) => subtree_height(&**r),
        None => 0,
    };
    proof {
        t.left().lemma_height_le_size();
        t.right().lemma_height_le_size();
    }
    if lh >= rh {
        lh + 1
    } else {
        rh + 1
    }
}

/// Number of leaves under `n`: a childless node counts one, a node with one
/// child counts what that child counts.
pub fn subtree_leaves<N: QueryableTreeNode>(n: &N) -> (r: usize)
    requires
        n.shape().size() <= usize::MAX,
    ensures
        r == n.shape().leaves(),
    decreases n.shape().size(),
{
    let ghost t = n.shape();
    proof {
        t.left().lemma_leaves_le_size();
        t.right().lemma_leaves_le_size();
    }
    match n.get_left() {
        None => match n.get_right() {
            None => 1,
            Some(r) => subtree_leaves(&**r),
        },
        Some(l) => match n.get_right() {
            None => subtree_leaves(&**l),
            Some(r) => subtree_leaves(&**l) + subtree_leaves(&**r),
        },
    }
}

/// Number of nodes under `n`, itself included.
pub fn subtree_len<N: QueryableTreeNode>(n: &N) -> (r: usize)
    requires
        n.shape().size() <= usize::MAX,
    ensures
        r == n.shape().size(),
    decreases n.shape().size(),
{
    let ln: usize = match n.get_left() {
        Some(l) => subtree_len(&**l),
        None => 0,
    };
    let rn: usize = match n.get_right() {
        Some(r) => subtree_len(&**r),
        None => 0,
    };
    proof {
        n.shape().lemma_unfold();
    }
    ln + rn + 1
}

/// The key reached from `n` by always going left.
pub fn subtree_min<N: QueryableTreeNode>(n: &N) -> (r: i64)
    ensures
        r == n.shape().leftmost(),
    decreases n.shape().size(),
{
    match n.get_left() {
        Some(l) => subtree_min(&**l),
        None => n.get_data(),
    }
}

/// The key reached from `n` by always going right.
pub fn subtree_max<N: QueryableTreeNode>(n: &N) -> (r: i64)
    ensures
        r == n.shape().rightmost(),
    decreases n.shape().size(),
{
    match n.get_right() {
        Some(r) => subtree_max(&**r),
        None => n.get_data(),
    }
}

/// Search-tree descent for `value` below `n`.
pub fn subtree_contains<N: QueryableTreeNode>(n: &N, value: i64) -> (r: bool)
    requires
        n.shape().is_bst(),
    ensures
        r == n.shape().elems().contains(value),
    decreases n.shape().size(),
{
    let data = n.get_data();
    proof {
        n.shape().lemma_unfold();
    }
    if data == value {
        true
    } else if data < value {
        match n.get_right() {
            Some(r) => subtree_contains(&**r, value),
            None => false,
        }
    } else {
        match n.get_left() {
            Some(l) => subtree_contains(&**l, value),
            None => false,
        }
    }
}

/// Appends the keys under `n` to `out`, in in-order.
pub fn subtree_inorder<N: QueryableTreeNode>(n: &N, out: &mut Vec<i64>)
    ensures
        final(out)@ == old(out)@ + n.shape().inorder(),
    decreases n.shape().size(),
{
    let ghost t = n.shape();
    if let Some(l) = n.get_left() {
        subtree_inorder(&**l, out);
    }
    out.push(n.get_data());
    if let Some(r) = n.get_right() {
        subtree_inorder(&**r, out);
    }
    proof {
        t.lemma_unfold();
    }
    assert(final(out)@ =~= old(out)@ + t.inorder());
}

/// The queries of a whole tree, answered from its root node.
pub trait QueryableTree<N: QueryableTreeNode> {
    /// The whole tree as a shape; `Empty` when there is no root.
    spec fn tree_shape(&self) -> Shape;

    /// The invariant of this kind of tree.
    spec fn well_formed(&self) -> bool;

    /// Every kind of tree here is a search tree whose size fits a `usize`.
    proof fn lemma_well_formed_search_tree(&self)
        requires
            self.well_formed(),
        ensures
            self.tree_shape().is_bst(),
            self.tree_shape().size() <= usize::MAX,
    ;

    fn get_root(&self) -> (r: &Option<Box<N>>)
        ensures
            r is None <==> self.tree_shape() is Empty,
            r matches Some(n) ==> n.shape() == self.tree_shape(),
    ;

    /// Number of leaves; 0 for an empty tree.
    fn count_leaves(&self) -> (r: usize)
        requires
            self.well_formed(),
        ensures
            r == self.tree_shape().leaves(),
    {
        proof {
            self.lemma_well_formed_search_tree();
        }
        match self.get_root() {
            None => 0,
            Some(n) => subtree_leaves(&**n),
        }
    }

    /// Number of levels; 0 for an empty tree.
    fn height(&self) -> (r: usize)
        requires
            self.well_formed(),
        ensures
            r == self.tree_shape().height(),
    {
        proof {
            self.lemma_well_formed_search_tree();
        }
        match self.get_root() {
            None => 0,
            Some(n) => subtree_height(&**n),
        }
    }

    /// The keys in ascending order.
    fn inorder(&self) -> (r: Vec<i64>)
        requires
            self.well_formed(),
        ensures
            r@ == self.tree_shape().inorder(),
            r@.len() == self.tree_shape().size(),
            strictly_ascending(r@),
            r@.to_set() == self.tree_shape().elems(),
    {
        let mut out: Vec<i64> = Vec::new();
        if let Some(n) = self.get_root() {
            subtree_inorder(&**n, &mut out);
        }
        proof {
            let t = self.tree_shape();
            self.lemma_well_formed_search_tree();
            t.lemma_bst_inorder_ascending();
            t.lemma_inorder_elems();
            assert(out@ =~= t.inorder());
            assert(out@.to_set() =~= t.elems());
        }
        out
    }

    /// Whether the tree has no root.
    fn is_empty(&self) -> (r: bool)
        requires
            self.well_formed(),
        ensures
            r == (self.tree_shape() is Empty),
            r == (self.tree_shape().elems() == Set::<i64>::empty()),
    {
        proof {
            let t = self.tree_shape();
            if t is Node {
                assert(t.elems().contains(t.value()));
            }
        }
        self.get_root().is_none()
    }

    /// The least key, or `None` for an empty tree.
    fn min(&self) -> (r: Option<i64>)
        requires
            self.well_formed(),
        ensures
            r is None <==> self.tree_shape() is Empty,
            r matches Some(m) ==> {
                &&& m == self.tree_shape().leftmost()
                &&& self.tree_shape().elems().contains(m)
                &&& forall|x: i64| self.tree_shape().elems().contains(x) ==> m <= x
            },
    {
        match self.get_root() {
            None => None,
            Some(n) => {
                proof {
                    self.lemma_well_formed_search_tree();
                    self.tree_shape().lemma_leftmost_is_least();
                }
                Some(subtree_min(&**n))
            },
        }
    }

    /// The greatest key, or `None` for an empty tree.
    fn max(&self) -> (r: Option<i64>)
        requires
            self.well_formed(),
        ensures
            r is None <==> self.tree_shape() is Empty,
            r matches Some(m) ==> {
                &&& m == self.tree_shape().rightmost()
                &&& self.tree_shape().elems().contains(m)
                &&& forall|x: i64| self.tree_shape().elems().contains(x) ==> x <= m
            },
    {
        match self.get_root() {
            None => None,
            Some(n) => {
                proof {
                    self.lemma_well_formed_search_tree();
                    self.tree_shape().lemma_rightmost_is_greatest();
                }
                Some(subtree_max(&**n))
            },
        }
    }

    /// Whether `value` is held.
    fn contains(&self, value: i64) -> (r: bool)
        requires
            self.well_formed(),
        ensures
            r == self.tree_shape().elems().contains(value),
    {
        proof {
            self.lemma_well_formed_search_tree();
        }
        match self.get_root() {
            None => false,
            Some(n) => subtree_contains(&**n, value),
        }
    }

    /// Number of keys held.
    fn len(&self) -> (r: usize)
        requires
            self.well_formed(),
        ensures
            r == self.tree_shape().size(),
            r == self.tree_shape().elems().len(),
    {
        proof {
            self.lemma_well_formed_search_tree();
            self.tree_shape().lemma_bst_size_is_count();
        }
        match self.get_root() {
            None => 0,
            Some(n) => subtree_len(&**n),
        }
    }
}

} // verus!
