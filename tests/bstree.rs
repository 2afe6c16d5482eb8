use rand::seq::SliceRandom;
use rand::{rngs::StdRng, SeedableRng};
use trees::base::QueryableTree;
use trees::bstree::BinarySearchTree;

#[test]
fn bstree_test_demo() {
    let mut bst = BinarySearchTree::new();
    assert_eq!(bst.height(), 0);
    bst.insert(1);
    assert_eq!(bst.height(), 1);
    bst.insert(2);
    bst.delete(2);
    assert_eq!(bst.height(), 1);
}

#[test]
fn test_count_leaves() {
    let mut bst = BinarySearchTree::new();
    assert_eq!(bst.count_leaves(), 0);
    bst.insert(5);
    assert_eq!(bst.count_leaves(), 1);
    bst.insert(3);
    assert_eq!(bst.count_leaves(), 1);
    bst.insert(2);
    assert_eq!(bst.count_leaves(), 1);
    bst.insert(4);
    assert_eq!(bst.count_leaves(), 2);
    bst.insert(7);
    assert_eq!(bst.count_leaves(), 3);
    bst.insert(6);
    assert_eq!(bst.count_leaves(), 3);
    bst.insert(8);
    assert_eq!(bst.count_leaves(), 4);
}

#[test]
fn test_height() {
    let mut bst = BinarySearchTree::new();
    assert_eq!(bst.height(), 0);
    bst.insert(5);
    assert_eq!(bst.height(), 1);
    bst.insert(3);
    assert_eq!(bst.height(), 2);
    bst.insert(2);
    assert_eq!(bst.height(), 3);
    bst.insert(4);
    assert_eq!(bst.height(), 3);
    bst.insert(7);
    assert_eq!(bst.height(), 3);
    bst.insert(6);
    assert_eq!(bst.height(), 3);
    bst.insert(8);
    assert_eq!(bst.height(), 3);
    bst.insert(10);
    assert_eq!(bst.height(), 4);
}

#[test]
fn test_is_empty() {
    let mut bst = BinarySearchTree::new();
    assert_eq!(bst.is_empty(), true);
    bst.insert(5);
    assert_eq!(bst.is_empty(), false);
    bst.delete(5);
    assert_eq!(bst.is_empty(), true);
}

#[test]
fn test_min() {
    let mut bst = BinarySearchTree::new();
    assert_eq!(bst.min(), None);
    bst.insert(5);
    assert_eq!(bst.min(), Some(5));
    bst.insert(3);
    assert_eq!(bst.min(), Some(3));
    bst.insert(2);
    assert_eq!(bst.min(), Some(2));
    bst.insert(4);
    assert_eq!(bst.min(), Some(2));
    bst.insert(7);
    assert_eq!(bst.min(), Some(2));
    bst.insert(6);
    assert_eq!(bst.min(), Some(2));
    bst.insert(8);
    assert_eq!(bst.min(), Some(2));
}

#[test]
fn test_max() {
    let mut bst = BinarySearchTree::new();
    assert_eq!(bst.max(), None);
    bst.insert(5);
    assert_eq!(bst.max(), Some(5));
    bst.insert(3);
    assert_eq!(bst.max(), Some(5));
    bst.insert(2);
    assert_eq!(bst.max(), Some(5));
    bst.insert(4);
    assert_eq!(bst.max(), Some(5));
    bst.insert(7);
    assert_eq!(bst.max(), Some(7));
    bst.insert(6);
    assert_eq!(bst.max(), Some(7));
    bst.insert(8);
    assert_eq!(bst.max(), Some(8));
}

#[test]
fn test_contains() {
    let mut bst = BinarySearchTree::new();
    assert_eq!(bst.contains(5), false);
    bst.insert(5);
    assert_eq!(bst.contains(5), true);
    assert_eq!(bst.contains(3), false);
    bst.insert(3);
    assert_eq!(bst.contains(3), true);
    assert_eq!(bst.contains(2), false);
    bst.insert(2);
    assert_eq!(bst.contains(2), true);
    assert_eq!(bst.contains(4), false);
    bst.insert(4);
    assert_eq!(bst.contains(4), true);
    assert_eq!(bst.contains(7), false);
    bst.insert(7);
    assert_eq!(bst.contains(7), true);
    assert_eq!(bst.contains(6), false);
    bst.insert(6);
    assert_eq!(bst.contains(6), true);
    assert_eq!(bst.contains(8), false);
    bst.insert(8);
    assert_eq!(bst.contains(8), true);
}

#[test]
fn test_len() {
    let mut bst = BinarySearchTree::new();
    assert_eq!(bst.len(), 0);
    bst.insert(5);
    assert_eq!(bst.len(), 1);
    bst.insert(3);
    assert_eq!(bst.len(), 2);
    bst.insert(2);
    assert_eq!(bst.len(), 3);
    bst.delete(5);
    assert_eq!(bst.len(), 2);
    bst.delete(3);
    assert_eq!(bst.len(), 1);
    bst.delete(2);
    assert_eq!(bst.len(), 0);
}

//          5
//        /   \
//       3     7
//      / \   / \
//     2   4 6   8
#[test]
fn test_delete() {
    let mut bst = BinarySearchTree::new();
    bst.insert(5);
    bst.insert(3);
    bst.insert(2);
    bst.insert(4);
    bst.insert(7);
    bst.insert(6);
    bst.insert(8);
    assert_eq!(bst.height(), 3);
    assert_eq!(bst.count_leaves(), 4);
    bst.delete(2);
    assert_eq!(bst.height(), 3);
    assert_eq!(bst.count_leaves(), 3);
    bst.delete(3);
    println!("{:?}", bst.inorder());
    assert_eq!(bst.height(), 3);
    assert_eq!(bst.count_leaves(), 3);
    bst.delete(7);
    println!("{:?}", bst.inorder());
}

#[test]
fn test_delete2() {
    // delete a left child with two children
    let mut bst = BinarySearchTree::new();
    bst.insert(5);
    bst.insert(3);
    bst.insert(2);
    bst.insert(4);
    bst.insert(7);
    bst.insert(6);
    bst.insert(8);
    assert_eq!(bst.len(), 7);
    bst.delete(3);
    assert_eq!(bst.len(), 6);
    println!("{:?}", bst.inorder());
}

#[test]
fn test_delete3() {
    // delete a right child with two children
    let mut bst = BinarySearchTree::new();
    bst.insert(5);
    bst.insert(3);
    bst.insert(2);
    bst.insert(4);
    bst.insert(7);
    bst.insert(6);
    bst.insert(8);
    assert_eq!(bst.len(), 7);
    bst.delete(7);
    assert_eq!(bst.len(), 6);
    println!("{:?}", bst.inorder());
}

#[test]
fn test_delete4() {
    // delete root with two children
    let mut bst = BinarySearchTree::new();
    bst.insert(5);
    bst.insert(3);
    bst.insert(2);
    bst.insert(4);
    bst.insert(7);
    bst.insert(6);
    bst.insert(8);
    assert_eq!(bst.len(), 7);
    bst.delete(5);
    assert_eq!(bst.len(), 6);
    println!("{:?}", bst.inorder());
}

#[test]
fn bstree_insert_delete_inorder() {
    let mut tree = BinarySearchTree::new();
    let tree_size: i64 = 1000;
    for v in 0..tree_size {
        tree.insert(v);
    }
    for (i, v) in (0..tree_size).enumerate() {
        tree.delete(v);
        assert_eq!(tree.len(), tree_size as usize - i - 1);
    }
}

#[test]
fn bstree_insert_delete_reverse_inorder() {
    let mut tree = BinarySearchTree::new();
    let tree_size: i64 = 1000;
    for v in (0..tree_size).rev() {
        tree.insert(v);
    }
    for (i, v) in (0..tree_size).rev().enumerate() {
        tree.delete(v);
        assert_eq!(tree.len(), tree_size as usize - i - 1);
    }
}

#[test]
fn bstree_insert_delete_random() {
    let seed = [0u8; 32];
    let mut rng: StdRng = SeedableRng::from_seed(seed);
    let mut tree = BinarySearchTree::new();
    let tree_size: i64 = 1000;
    let mut x: Vec<i64> = (0..tree_size).collect();
    x.shuffle(&mut rng);

    for v in x.iter() {
        tree.insert(*v);
    }
    for (i, v) in x.iter().enumerate() {
        tree.delete(*v);
        assert_eq!(tree.len(), tree_size as usize - i - 1);
    }
}
