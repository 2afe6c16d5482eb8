use trees::avltree::AVLTree;
use trees::base::QueryableTree;
use trees::bstree::BinarySearchTree;
use trees::prelude;
use trees::rbtree::{NodeColor, RedBlackTree, RedBlackTreeNode};

fn ascending(v: &Vec<i64>) -> bool {
    v.windows(2).all(|w| w[0] < w[1])
}

fn rb_valid(tree: &RedBlackTree) -> bool {
    RedBlackTreeNode::check_color_properties(tree.root())
}

/// A fixed mixed sequence of keys, some repeated.
fn mixed_keys() -> Vec<i64> {
    let mut keys = Vec::new();
    let mut x: i64 = 17;
    for _ in 0..300 {
        x = (x * 37 + 11) % 211;
        keys.push(x - 100);
    }
    keys
}

#[test]
fn avl_scenario_small() {
    let mut avl = AVLTree::new();
    for v in [1, 0, 2, 3, 5] {
        avl.insert(v);
    }
    assert_eq!(avl.height(), 3);
    assert_eq!(avl.len(), 5);
    assert_eq!(avl.min(), Some(0));
    assert_eq!(avl.max(), Some(5));
    assert_eq!(avl.contains(2), true);
    assert_eq!(avl.contains(10), false);
}

#[test]
fn bst_scenario_delete_root_with_two_children() {
    let mut bst = BinarySearchTree::new();
    for v in [5, 3, 2, 4, 7, 6, 8] {
        bst.insert(v);
    }
    assert_eq!(bst.height(), 3);
    assert_eq!(bst.count_leaves(), 4);
    bst.delete(5);
    assert_eq!(bst.len(), 6);
    assert_eq!(bst.inorder(), vec![2, 3, 4, 6, 7, 8]);
    // The successor 6 took the root's place.
    assert_eq!(bst.height(), 3);
    assert_eq!(bst.count_leaves(), 3);
}

#[test]
fn rb_scenario_colors() {
    let mut rbt = RedBlackTree::new();
    for v in [0, 8, -8, 4, 12, 10, 11] {
        rbt.insert(v);
        assert!(rb_valid(&rbt));
    }
    let root = rbt.root().as_ref().unwrap();
    assert_eq!(root.color, NodeColor::Black);
    assert!(RedBlackTreeNode::check_coloring(rbt.get_root()));
    assert_eq!(RedBlackTreeNode::black_height(rbt.get_root()), Some(3));
}

#[test]
fn avl_ascending_then_deleted_in_order() {
    let mut avl = AVLTree::new();
    for v in 0..1000 {
        avl.insert(v);
    }
    assert_eq!(avl.len(), 1000);
    for v in 0..1000 {
        let before = avl.len();
        avl.delete(v);
        assert!(avl.is_balanced());
        assert_eq!(avl.len(), before - 1);
    }
    assert_eq!(avl.len(), 0);
    assert!(avl.is_empty());
}

#[test]
fn empty_trees() {
    let mut bst = BinarySearchTree::new();
    let mut avl = AVLTree::new();
    let mut rbt = RedBlackTree::new();
    assert_eq!((bst.height(), avl.height(), rbt.height()), (0, 0, 0));
    assert!(bst.is_empty() && avl.is_empty() && rbt.is_empty());
    assert_eq!((bst.min(), avl.min(), rbt.min()), (None, None, None));
    assert_eq!((bst.max(), avl.max(), rbt.max()), (None, None, None));
    assert_eq!((bst.count_leaves(), avl.count_leaves(), rbt.count_leaves()), (0, 0, 0));
    assert!(!bst.contains(3) && !avl.contains(3) && !rbt.contains(3));
    bst.delete(3);
    avl.delete(3);
    rbt.delete(3);
    assert_eq!((bst.len(), avl.len(), rbt.len()), (0, 0, 0));
    assert!(bst.inorder().is_empty() && avl.inorder().is_empty() && rbt.inorder().is_empty());
    assert!(rb_valid(&rbt));
}

#[test]
fn delete_absent_leaves_tree_unchanged() {
    let mut bst = BinarySearchTree::new();
    let mut avl = AVLTree::new();
    let mut rbt = RedBlackTree::new();
    bst.insert(4);
    avl.insert(4);
    rbt.insert(4);
    bst.delete(9);
    avl.delete(9);
    rbt.delete(9);
    assert_eq!((bst.len(), avl.len(), rbt.len()), (1, 1, 1));
    assert!(bst.contains(4) && avl.contains(4) && rbt.contains(4));
}

#[test]
fn inorder_stays_ascending() {
    let mut bst = BinarySearchTree::new();
    let mut avl = AVLTree::new();
    let mut rbt = RedBlackTree::new();
    for (i, k) in mixed_keys().into_iter().enumerate() {
        if i % 3 == 2 {
            bst.delete(k);
            avl.delete(k);
            rbt.delete(k);
        } else {
            bst.insert(k);
            avl.insert(k);
            rbt.insert(k);
        }
        assert!(ascending(&bst.inorder()));
        assert!(ascending(&avl.inorder()));
        assert!(ascending(&rbt.inorder()));
        assert_eq!(bst.inorder(), avl.inorder());
        assert_eq!(avl.inorder(), rbt.inorder());
    }
}

#[test]
fn avl_balanced_after_every_operation() {
    let mut avl = AVLTree::new();
    for (i, k) in mixed_keys().into_iter().enumerate() {
        if i % 4 == 3 {
            avl.delete(k);
        } else {
            avl.insert(k);
        }
        assert!(avl.is_balanced());
    }
}

#[test]
fn rb_properties_after_every_operation() {
    let mut rbt = RedBlackTree::new();
    for (i, k) in mixed_keys().into_iter().enumerate() {
        if i % 3 == 1 {
            rbt.delete(k);
        } else {
            rbt.insert(k);
        }
        assert!(rb_valid(&rbt));
    }
    for k in mixed_keys() {
        rbt.delete(k);
        assert!(rb_valid(&rbt));
    }
    assert!(rbt.is_empty());
}

#[test]
fn size_counts_distinct_keys() {
    let mut bst = BinarySearchTree::new();
    let mut avl = AVLTree::new();
    let mut rbt = RedBlackTree::new();
    let keys: Vec<i64> = (0..50).map(|i| (i * 7) % 50 - 25).collect();
    for k in keys.iter() {
        bst.insert(*k);
        avl.insert(*k);
        rbt.insert(*k);
    }
    assert_eq!((bst.len(), avl.len(), rbt.len()), (50, 50, 50));
    for k in keys.iter().take(20) {
        bst.delete(*k);
        avl.delete(*k);
        rbt.delete(*k);
    }
    assert_eq!((bst.len(), avl.len(), rbt.len()), (30, 30, 30));
}

#[test]
fn insert_then_delete_round_trip() {
    let mut bst = BinarySearchTree::new();
    let mut avl = AVLTree::new();
    let mut rbt = RedBlackTree::new();
    for k in [50, 20, 70, 10, 30, 60, 80, 25] {
        bst.insert(k);
        avl.insert(k);
        rbt.insert(k);
    }
    let bst_keys = bst.inorder();
    let bst_shape = (bst.height(), bst.count_leaves());
    bst.insert(27);
    bst.delete(27);
    assert_eq!(bst.inorder(), bst_keys);
    assert_eq!((bst.height(), bst.count_leaves()), bst_shape);

    let avl_keys = avl.inorder();
    avl.insert(27);
    avl.delete(27);
    assert_eq!(avl.inorder(), avl_keys);
    assert!(avl.is_balanced());

    let mut before = RedBlackTree::new();
    for k in [50, 20, 70, 10, 30, 60, 80, 25] {
        before.insert(k);
    }
    rbt.insert(27);
    rbt.delete(27);
    assert_eq!(rbt.inorder(), before.inorder());
    assert!(rb_valid(&rbt));
}

#[test]
fn duplicate_insert_keeps_len() {
    let mut bst = BinarySearchTree::new();
    let mut avl = AVLTree::new();
    let mut rbt = RedBlackTree::new();
    for k in [3, 1, 4, 5, 9, 2, 6] {
        bst.insert(k);
        avl.insert(k);
        rbt.insert(k);
    }
    let shape = (bst.height(), bst.count_leaves());
    for k in [3, 1, 4, 5, 9, 2, 6] {
        bst.insert(k);
        avl.insert(k);
        rbt.insert(k);
        assert_eq!((bst.len(), avl.len(), rbt.len()), (7, 7, 7));
    }
    assert_eq!((bst.height(), bst.count_leaves()), shape);
}

#[test]
fn extreme_keys() {
    let mut avl = AVLTree::new();
    let mut rbt = RedBlackTree::new();
    for k in [i64::MAX, i64::MIN, 0, -1, 1] {
        avl.insert(k);
        rbt.insert(k);
    }
    assert_eq!(avl.min(), Some(i64::MIN));
    assert_eq!(avl.max(), Some(i64::MAX));
    assert_eq!(rbt.min(), Some(i64::MIN));
    assert_eq!(rbt.max(), Some(i64::MAX));
    assert_eq!(rbt.inorder(), vec![i64::MIN, -1, 0, 1, i64::MAX]);
}

#[test]
fn rb_search_finds_node() {
    let mut rbt = RedBlackTree::new();
    for k in [10, 5, 15, 3, 7] {
        rbt.insert(k);
    }
    let root = rbt.root().as_ref().unwrap();
    let found = RedBlackTreeNode::search(root, 7);
    assert_eq!(found.map(|n| n.data), Some(7));
    assert!(RedBlackTreeNode::search(root, 8).is_none());
}

#[test]
fn rb_tree_equality() {
    let mut a = RedBlackTree::new();
    let mut b = RedBlackTree::new();
    for k in [1, 2, 3] {
        a.insert(k);
    }
    for k in [2, 1, 3] {
        b.insert(k);
    }
    assert!(a.is_equal(&b));
    b.insert(4);
    assert!(!a.is_equal(&b));
}

#[test]
fn rb_color_check_rejects_bad_trees() {
    let mut red_root = RedBlackTreeNode::new(1, NodeColor::Red);
    red_root.left = None;
    assert!(!RedBlackTreeNode::check_color_properties(&Some(Box::new(red_root))));

    let mut unbalanced = RedBlackTreeNode::new(1, NodeColor::Black);
    unbalanced.left = Some(Box::new(RedBlackTreeNode::new(0, NodeColor::Black)));
    let tree = Some(Box::new(unbalanced));
    assert_eq!(RedBlackTreeNode::black_height(&tree), None);
    assert!(!RedBlackTreeNode::check_color_properties(&tree));

    let mut red_red = RedBlackTreeNode::new(2, NodeColor::Red);
    red_red.right = Some(Box::new(RedBlackTreeNode::new(3, NodeColor::Red)));
    let mut top = RedBlackTreeNode::new(1, NodeColor::Black);
    top.right = Some(Box::new(red_red));
    let tree = Some(Box::new(top));
    assert!(!RedBlackTreeNode::check_coloring(&tree));
    assert_eq!(RedBlackTreeNode::color(&tree), NodeColor::Black);
    assert_eq!(RedBlackTreeNode::color(&None), NodeColor::Black);
}

#[test]
fn rotate_right_restores_rotate_left() {
    let mut inner = RedBlackTreeNode::new(10, NodeColor::Black);
    inner.left = Some(Box::new(RedBlackTreeNode::new(5, NodeColor::Black)));
    inner.right = Some(Box::new(RedBlackTreeNode::new(20, NodeColor::Black)));
    let mut top = RedBlackTreeNode::new(0, NodeColor::Black);
    top.left = Some(Box::new(RedBlackTreeNode::new(-10, NodeColor::Black)));
    top.right = Some(Box::new(inner));
    let mut copy = Vec::new();
    RedBlackTreeNode::preorder_traverse(&top, &mut copy);
    let rotated = RedBlackTreeNode::rotate_left(Box::new(top));
    assert_eq!(rotated.data, 10);
    let back = RedBlackTreeNode::rotate_right(rotated);
    let mut after = Vec::new();
    RedBlackTreeNode::preorder_traverse(&back, &mut after);
    assert_eq!(after, copy);
    assert_eq!(copy, vec![0, -10, 10, 5, 20]);
}

#[test]
fn prelude_brings_the_trees() {
    let mut a = prelude::AVLTree::new();
    let mut b = prelude::BinarySearchTree::new();
    let mut r = prelude::RedBlackTree::new();
    a.insert(3);
    b.insert(3);
    r.insert(3);
    assert_eq!(a.len() + b.len() + r.len(), 3);
}
