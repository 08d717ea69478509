use huffman_coding::binary_tree::BinaryTree;

#[test]
fn counts_per_value() {
    let mut tree = BinaryTree::new(5);
    tree.insert_node(3);
    tree.insert_node(7);
    tree.insert_node(5);
    tree.insert_node(3);
    assert_eq!(tree.get_value_count(5), Some(2));
    assert_eq!(tree.get_value_count(3), Some(2));
    assert_eq!(tree.get_value_count(7), Some(1));
    assert_eq!(tree.get_value_count(10), None);
}

#[test]
fn ascending_walk_is_sorted() {
    let mut tree = BinaryTree::new(50);
    tree.insert_node(20);
    tree.insert_node(70);
    tree.insert_node(20);
    tree.insert_node(90);
    tree.insert_node(10);
    assert_eq!(tree.to_vec_ascending(), vec![10, 20, 50, 70, 90]);
}

#[test]
fn descending_walk_is_reversed() {
    let mut tree = BinaryTree::new(50);
    tree.insert_node(20);
    tree.insert_node(70);
    tree.insert_node(90);
    tree.insert_node(10);
    assert_eq!(tree.to_vec_descending(), vec![90, 70, 50, 20, 10]);
}

#[test]
fn single_node_walks() {
    let tree = BinaryTree::new(42);
    assert_eq!(tree.to_vec_ascending(), vec![42]);
    assert_eq!(tree.to_vec_descending(), vec![42]);
    assert_eq!(tree.get_value_count(42), Some(1));
}
