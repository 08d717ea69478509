use huffman_coding::huffman::{HuffmanTree, HuffmanTreeItem, HuffmanTreeNode};

fn items_from(freqs: &[u32]) -> Vec<HuffmanTreeItem<char>> {
    let mut v: Vec<HuffmanTreeItem<char>> = Vec::new();
    for (i, f) in freqs.iter().enumerate() {
        v.push(HuffmanTreeItem::new((b'a' + i as u8) as char, *f));
    }
    v
}

fn built(freqs: &[u32]) -> HuffmanTree<char> {
    let mut tree = HuffmanTree::new(items_from(freqs));
    tree.build();
    tree
}

fn encoded(freqs: &[u32]) -> usize {
    built(freqs).encoded_data_size()
}

#[test]
fn item_accessors() {
    let item = HuffmanTreeItem::new('x', 7);
    assert_eq!(item.frequency, 7);
    assert_eq!(item.data, Some('x'));
    let node = item.create_node(3);
    assert_eq!(node.weight, 7);
    assert_eq!(node.item, Some(3));
    assert!(node.left.is_none());
    assert!(node.right.is_none());
}

#[test]
fn single_item_sizes() {
    let tree = built(&[1]);
    assert_eq!(tree.original_data_size(), 8);
    assert_eq!(tree.encoded_data_size(), 0);
    let root = tree.tree.as_ref().unwrap();
    assert_eq!(root.item, Some(0));
    assert_eq!(root.weight, 1);
    assert!(root.left.is_none());
    assert!(root.right.is_none());
}

#[test]
fn two_items_sizes_and_shape() {
    let tree = built(&[1, 1]);
    assert_eq!(tree.original_data_size(), 16);
    assert_eq!(tree.encoded_data_size(), 2);
    let root = tree.tree.as_ref().unwrap();
    assert_eq!(root.item, None);
    assert_eq!(root.weight, 2);
    let left = root.left.as_ref().unwrap();
    let right = root.right.as_ref().unwrap();
    assert_eq!(left.item, Some(0));
    assert_eq!(left.weight, 1);
    assert!(left.left.is_none() && left.right.is_none());
    assert_eq!(right.item, Some(1));
    assert_eq!(right.weight, 1);
    assert!(right.left.is_none() && right.right.is_none());
}

#[test]
fn classic_six_symbol_example() {
    let tree = built(&[5, 9, 12, 13, 16, 45]);
    assert_eq!(tree.original_data_size(), 800);
    assert_eq!(tree.encoded_data_size(), 224);
    let root = tree.tree.as_ref().unwrap();
    assert_eq!(root.weight, 100);
    assert_eq!(root.item, None);
}

#[test]
fn empty_input_no_root() {
    let tree = built(&[]);
    assert!(tree.tree.is_none());
    assert_eq!(tree.original_data_size(), 0);
    assert_eq!(tree.encoded_data_size(), 0);
}

#[test]
fn zero_frequency_items_accepted() {
    let tree = built(&[0, 0]);
    assert_eq!(tree.original_data_size(), 0);
    assert_eq!(tree.encoded_data_size(), 0);
    let root = tree.tree.as_ref().unwrap();
    assert_eq!(root.weight, 0);
    assert_eq!(root.item, None);
}

#[test]
fn three_equal_weights_tie_break() {
    let tree = built(&[1, 1, 1]);
    assert_eq!(tree.original_data_size(), 24);
    assert_eq!(tree.encoded_data_size(), 5);
    let root = tree.tree.as_ref().unwrap();
    let left = root.left.as_ref().unwrap();
    let right = root.right.as_ref().unwrap();
    assert_eq!(left.item, None);
    assert_eq!(left.left.as_ref().unwrap().item, Some(0));
    assert_eq!(left.right.as_ref().unwrap().item, Some(1));
    assert_eq!(right.item, Some(2));
}

#[test]
fn raising_one_frequency_never_shrinks_encoding() {
    assert_eq!(encoded(&[1, 1, 2]), 6);
    assert!(encoded(&[2, 1, 2]) >= encoded(&[1, 1, 2]));
    assert!(encoded(&[1, 2, 2]) >= encoded(&[1, 1, 2]));
    assert!(encoded(&[1, 1, 3]) >= encoded(&[1, 1, 2]));
    assert!(encoded(&[5, 9, 12, 13, 16, 46]) >= encoded(&[5, 9, 12, 13, 16, 45]));
    assert!(encoded(&[5, 10, 12, 13, 16, 45]) >= encoded(&[5, 9, 12, 13, 16, 45]));
}

fn collect_leaves(node: &HuffmanTreeNode, out: &mut Vec<usize>) {
    if let Some(i) = node.item {
        out.push(i);
    }
    if let Some(l) = &node.left {
        collect_leaves(l, out);
    }
    if let Some(r) = &node.right {
        collect_leaves(r, out);
    }
}

fn strictly_binary(node: &HuffmanTreeNode) -> bool {
    match (&node.left, &node.right) {
        (None, None) => node.item.is_some(),
        (Some(l), Some(r)) => node.item.is_none() && strictly_binary(l) && strictly_binary(r),
        _ => false,
    }
}

#[test]
fn leaves_are_exactly_the_items() {
    let tree = built(&[5, 9, 12, 13, 16, 45]);
    let mut leaves: Vec<usize> = Vec::new();
    collect_leaves(tree.tree.as_ref().unwrap(), &mut leaves);
    leaves.sort();
    assert_eq!(leaves, vec![0, 1, 2, 3, 4, 5]);
}

#[test]
fn no_internal_node_has_one_child() {
    for freqs in [&[1u32, 2][..], &[3, 1, 4, 1, 5], &[2, 2, 2, 2], &[5, 9, 12, 13, 16, 45]] {
        let tree = built(freqs);
        assert!(strictly_binary(tree.tree.as_ref().unwrap()));
    }
}

#[test]
fn generic_symbol_type() {
    let mut items: Vec<HuffmanTreeItem<String>> = Vec::new();
    items.push(HuffmanTreeItem::new(String::from("north"), 3));
    items.push(HuffmanTreeItem::new(String::from("south"), 4));
    let mut tree = HuffmanTree::new(items);
    tree.build();
    assert_eq!(tree.original_data_size(), 56);
    assert_eq!(tree.encoded_data_size(), 7);
    assert_eq!(tree.data[0].data.as_deref(), Some("north"));
}
