use rand::seq::SliceRandom;
use rand::{rngs::StdRng, SeedableRng};
use trees::avltree::AVLTree;
use trees::base::QueryableTree;

#[test]
fn test_basic_avl() {
    let mut avl = AVLTree::new();

    assert_eq!(avl.height(), 0);
    assert_eq!(avl.is_empty(), true);
    assert_eq!(avl.len(), 0);

    for a in vec![1, 0, 2, 3, 5, 10, 6, 9, 4] {
        avl.insert(a);
        println!("{:?}", avl.inorder());
    }
    println!("{:?}", avl.inorder());
    assert_eq!(avl.len(), 9);
    assert_eq!(avl.is_empty(), false);
    assert_eq!(avl.height(), 4);
    assert_eq!(avl.contains(2), true);
    assert_eq!(avl.contains(8), false);
    assert_eq!(avl.min().unwrap(), 0);
    assert_eq!(avl.max().unwrap(), 10);

    println!("{:#?}", avl.inorder());
}

#[test]
fn insert_delete_inorder_avl() {
    let mut tree = AVLTree::new();
    let tree_size: i64 = 1000;
    for v in 0..tree_size {
        tree.insert(v);
        assert!(tree.is_balanced());
    }
    for (i, v) in (0..tree_size).enumerate() {
        tree.delete(v);
        assert!(tree.is_balanced());
        assert_eq!(tree.len(), tree_size as usize - i - 1);
    }
}

#[test]
fn insert_delete_reverse_inorder_avl() {
    let mut tree = AVLTree::new();
    let tree_size: i64 = 1000;
    for v in (0..tree_size).rev() {
        tree.insert(v);
        assert!(tree.is_balanced());
    }
    for (i, v) in (0..tree_size).rev().enumerate() {
        tree.delete(v);
        assert!(tree.is_balanced());
        assert_eq!(tree.len(), tree_size as usize - i - 1);
    }
}

#[test]
fn insert_delete_random_avl() {
    let seed = [0u8; 32];
    let mut rng: StdRng = SeedableRng::from_seed(seed);
    let mut tree = AVLTree::new();
    let tree_size: i64 = 1000;
    let mut x: Vec<i64> = (0..tree_size).collect();
    x.shuffle(&mut rng);

    for v in x.iter() {
        tree.insert(*v);
        assert!(tree.is_balanced());
    }
    assert_eq!(tree.len(), tree_size as usize);
    assert!(tree.is_balanced());
    for (i, v) in x.iter().enumerate() {
        tree.delete(*v);
        assert_eq!(tree.len(), tree_size as usize - i - 1);
        assert!(tree.is_balanced());
    }
}

#[test]
fn test_debug_delete_avl() {
    let mut tree = AVLTree::new();

    for x in vec![7, 2, 4, 0, 9, 3, 5, 8, 6, 1] {
        tree.insert(x);
        assert!(tree.is_balanced());
        println!("{:?}", tree.inorder());
    }
    assert_eq!(tree.len(), 10);
    assert!(tree.is_balanced());
    println!("{:?}", tree.inorder());

    for (i, v) in (0..10).enumerate() {
        tree.delete(v);
        assert_eq!(tree.len(), 10 - i - 1);
        assert!(tree.is_balanced());
    }
}
