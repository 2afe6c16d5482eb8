use trees::base::QueryableTree;
use trees::bstree;

#[test]
fn tests_test_demo() {
    let mut bst = bstree::BinarySearchTree::new();
    bst.insert(0);
    assert_eq!(bst.height(), 1);
}
