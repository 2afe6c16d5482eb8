use rand::seq::SliceRandom;
use rand::{rngs::StdRng, SeedableRng};
use trees::base::QueryableTree;
use trees::rbtree::{NodeColor, RedBlackTree, RedBlackTreeNode};

fn boxed(
    data: i64,
    color: NodeColor,
    left: Option<Box<RedBlackTreeNode>>,
    right: Option<Box<RedBlackTreeNode>>,
) -> Option<Box<RedBlackTreeNode>> {
    let mut n = RedBlackTreeNode::new(data, color);
    n.left = left;
    n.right = right;
    Some(Box::new(n))
}

fn black_leaf(data: i64) -> Option<Box<RedBlackTreeNode>> {
    boxed(data, NodeColor::Black, None, None)
}

#[test]
// Test that the rotate_left and rotate_right functions work.
fn rotations() {
    // Make a tree to test on
    let tree = boxed(
        0,
        NodeColor::Black,
        boxed(-10, NodeColor::Black, black_leaf(-20), black_leaf(-5)),
        boxed(10, NodeColor::Black, black_leaf(5), black_leaf(20)),
    );
    // Make the left rotation
    let left_rot = boxed(
        10,
        NodeColor::Black,
        boxed(
            0,
            NodeColor::Black,
            boxed(-10, NodeColor::Black, black_leaf(-20), black_leaf(-5)),
            black_leaf(5),
        ),
        black_leaf(20),
    );
    let rotated = RedBlackTreeNode::rotate_left(tree.unwrap());
    assert!(RedBlackTreeNode::is_equal(&Some(rotated), &left_rot));

}

#[test]
fn insert() {
    // Test the insert() method of the tree correctly
    // balances, colors and inserts.
    let mut tree = RedBlackTree::new();
    tree.insert(0);
    vec![8, -8, 4, 12, 10, 11].iter().for_each(|v| {
        tree.insert(*v);
    });

    let ans = boxed(
        0,
        NodeColor::Black,
        boxed(-8, NodeColor::Black, None, None),
        boxed(
            8,
            NodeColor::Red,
            boxed(4, NodeColor::Black, None, None),
            boxed(
                11,
                NodeColor::Black,
                boxed(10, NodeColor::Red, None, None),
                boxed(12, NodeColor::Red, None, None),
            ),
        ),
    );

    assert!(RedBlackTreeNode::is_equal(tree.get_root(), &ans));
}

#[test]
fn insert_and_search() {
    // Test searching through the tree for values.
    let mut tree = RedBlackTree::new();
    tree.insert(0);
    vec![8, -8, 4, 12, 10, 11].iter().for_each(|v| {
        tree.insert(*v);
    });
    // Did not find something in the tree
    vec![5, -6, -10, 13].iter().for_each(|v| {
        assert!(!tree.contains(*v));
    });
    // Found something in the tree
    vec![11, 12, -8, 0].iter().for_each(|v| {
        assert!(tree.contains(*v));
    })
}

#[test]
fn insert_delete() {
    // Test the insert() and delete() method of the tree, verifying the
    // insertion, deletion of elements, and the balancing of the tree.
    let mut tree = RedBlackTree::new();
    tree.insert(0);
    vec![-12, 8, -8, 15, 4, 12, 10, 9, 11].iter().for_each(|v| {
        tree.insert(*v);
    });
    vec![15, -12, 9].iter().for_each(|v| {
        tree.delete(*v);
        // Did not find something in the tree
        assert!(!tree.contains(*v));
    });

    assert!(RedBlackTreeNode::check_color_properties(tree.get_root()));
    let root = tree.get_root().as_ref().unwrap();
    let mut container = vec![];
    RedBlackTreeNode::inorder_traverse(root, &mut container);
    assert_eq!(container, vec![-8, 0, 4, 8, 10, 11, 12]);
}

#[test]
fn tree_traversal() {
    // Test the three different tree traversal functions.
    let mut tree = RedBlackTree::new();
    tree.insert(0);
    vec![-16, 16, 8, 24, 20, 22].iter().for_each(|v| {
        tree.insert(*v);
    });
    let root = tree.get_root().as_ref().unwrap();

    let mut container = vec![];
    RedBlackTreeNode::inorder_traverse(root, &mut container);
    assert_eq!(container, vec![-16, 0, 8, 16, 20, 22, 24]);

    let mut container = vec![];
    RedBlackTreeNode::preorder_traverse(root, &mut container);
    assert_eq!(container, vec![0, -16, 16, 8, 22, 20, 24]);

    let mut container = vec![];
    RedBlackTreeNode::postorder_traverse(root, &mut container);
    assert_eq!(container, vec![-16, 8, 20, 24, 22, 16, 0]);
}

#[test]
fn max() {
    // Test the get_max functions in the tree.
    let mut tree = RedBlackTree::new();
    tree.insert(0);
    vec![-16, 16, 8, 24, 20, 22].iter().for_each(|v| {
        tree.insert(*v);
    });
    let v_max = RedBlackTreeNode::get_max(tree.get_root().as_ref().unwrap());
    assert_eq!(v_max, 24)
}

#[test]
fn rbtree_insert_delete_inorder() {
    let mut tree = RedBlackTree::new();
    let tree_size: i64 = 1000;
    for v in 0..tree_size {
        tree.insert(v);
    }
    for (i, v) in (0..tree_size).enumerate() {
        tree.delete(v);
        assert_eq!(tree.len(), tree_size as usize - i - 1);
    }
}

#[test]
fn rbtree_insert_delete_reverse_inorder() {
    let mut tree = RedBlackTree::new();
    let tree_size: i64 = 1000;
    for v in (0..tree_size).rev() {
        tree.insert(v);
    }
    for (i, v) in (0..tree_size).rev().enumerate() {
        tree.delete(v);
        assert_eq!(tree.len(), tree_size as usize - i - 1);
    }
}

#[test]
fn rbtree_insert_delete_random() {
    let seed = [0u8; 32];
    let mut rng: StdRng = SeedableRng::from_seed(seed);
    let mut tree = RedBlackTree::new();
    let tree_size: i64 = 1000;
    let mut x: Vec<i64> = (0..tree_size).collect();
    x.shuffle(&mut rng);

    for v in x.iter() {
        tree.insert(*v);
    }
    for (i, v) in x.iter().enumerate() {
        tree.delete(*v);
        assert_eq!(tree.len(), tree_size as usize - i - 1);
    }
}
