use bplus_tree::node::Node;
use bplus_tree::tree::{BPlusTree, BPlusTreeError};

#[test]
fn new_tree_is_empty_with_defaults() {
    let tree = BPlusTree::new(4);
    assert_eq!(tree.order, 4);
    assert_eq!(tree.depth, 0);
    assert_eq!(tree.leaf_node_size, 1024);
    assert!(tree.root.keys.is_empty());
    assert!(tree.root.values.is_empty());
    assert!(tree.root.children.is_empty());
    assert_eq!(tree.root.order, 4);
}

#[test]
fn builders_chain_and_take_effect() {
    let tree = BPlusTree::new(4).with_leaf_node_size(16).with_order(8);
    assert_eq!(tree.leaf_node_size, 16);
    assert_eq!(tree.order, 8);
    assert_eq!(tree.depth, 0);
    assert_eq!(tree.root.order, 4);
}

#[test]
fn depth_is_one_for_nine_keys_order_four() {
    let tree = BPlusTree::new(4);
    assert_eq!(tree.depth(9), 1);
}

#[test]
fn depth_is_one_for_empty_input() {
    let tree = BPlusTree::new(4);
    assert_eq!(tree.depth(0), 1);
}

#[test]
fn depth_matches_power_formula() {
    let tree = BPlusTree::new(2).with_leaf_node_size(1);
    // 2^1 = 2 > 1, so one level is enough for one entry.
    assert_eq!(tree.depth(1), 1);
    // 2^3 = 8 > 7 >= 4 = 2^2.
    assert_eq!(tree.depth(7), 3);
    // 2^4 = 16 > 8 >= 8 = 2^3.
    assert_eq!(tree.depth(8), 4);
}

#[test]
fn depth_steps_exactly_at_leaf_capacity() {
    let tree = BPlusTree::new(4);
    // 4 * 1024 = 4096 entries still fit at depth 1.
    assert_eq!(tree.depth(4095), 1);
    assert_eq!(tree.depth(4096), 2);
}

#[test]
fn depth_is_monotone_over_a_range() {
    let tree = BPlusTree::new(3).with_leaf_node_size(2);
    let mut last = 0;
    for n in 0..200 {
        let d = tree.depth(n);
        assert!(d >= last);
        last = d;
    }
}

#[test]
fn split_keys_order_four_takes_chunk_heads() {
    let tree = BPlusTree::new(4);
    let keys: Vec<u64> = vec![1, 2, 3, 4, 5, 6, 7, 8, 9];
    // Chunks of size 3: [1,2,3], [4,5,6], [7,8,9].
    assert_eq!(tree.split_keys(&keys), vec![1, 4, 7]);
}

#[test]
fn split_keys_counts_a_short_last_chunk() {
    let tree = BPlusTree::new(4);
    let keys: Vec<u64> = vec![1, 2, 3, 4];
    // ceil(4 / 3) = 2 chunks: [1,2,3], [4].
    assert_eq!(tree.split_keys(&keys), vec![1, 4]);
}

#[test]
fn split_keys_of_empty_input_is_empty() {
    let tree = BPlusTree::new(4);
    let keys: Vec<u64> = Vec::new();
    assert_eq!(tree.split_keys(&keys), Vec::<u64>::new());
}

#[test]
fn split_keys_chunk_size_one() {
    let tree = BPlusTree::new(2);
    let keys: Vec<u64> = vec![10, 20, 30];
    // Order 2 means chunks of one key each: every key is a split value.
    assert_eq!(tree.split_keys(&keys), vec![10, 20, 30]);
}

#[test]
fn node_insert_keeps_keys_sorted_and_values_aligned() {
    let mut node = Node::new(4);
    node.insert(5, 50);
    node.insert(2, 20);
    node.insert(8, 80);
    assert_eq!(node.keys, vec![2, 5, 8]);
    assert_eq!(node.values, vec![20, 50, 80]);
}

#[test]
fn node_insert_duplicate_lands_before_the_existing_key() {
    let mut node = Node::new(4);
    node.insert(5, 50);
    node.insert(2, 20);
    node.insert(8, 80);
    node.insert(5, 55);
    // The length grows by one and the new pair sits before the old 5.
    assert_eq!(node.keys, vec![2, 5, 5, 8]);
    assert_eq!(node.values, vec![20, 55, 50, 80]);
}

#[test]
fn node_insert_child_follows_parent_key_positions() {
    let mut parent = Node::new(4);
    parent.insert(10, 1);
    parent.insert(20, 2);
    parent.insert(30, 3);
    for first_key in [5u64, 15, 25] {
        let mut child = Node::new(4);
        child.insert(first_key, 0);
        parent.insert_child(child);
    }
    // Probes 5, 15, 25 against keys [10,20,30] give slots 0, 1, 2.
    assert_eq!(parent.children.len(), 3);
    assert_eq!(parent.children[0].keys, vec![5]);
    assert_eq!(parent.children[1].keys, vec![15]);
    assert_eq!(parent.children[2].keys, vec![25]);
}

#[test]
fn node_insert_child_slot_is_clamped_to_child_count() {
    let mut parent = Node::new(4);
    parent.insert(10, 1);
    parent.insert(20, 2);
    // The probe 99 sits after both parent keys, but there are no
    // children yet, so the slot is clamped to 0.
    let mut high = Node::new(4);
    high.insert(99, 0);
    parent.insert_child(high);
    assert_eq!(parent.children.len(), 1);
    assert_eq!(parent.children[0].keys, vec![99]);
    // A low child then goes in front of it.
    let mut low = Node::new(4);
    low.insert(5, 0);
    parent.insert_child(low);
    assert_eq!(parent.children[0].keys, vec![5]);
    assert_eq!(parent.children[1].keys, vec![99]);
}

#[test]
fn from_items_order_four_nine_keys() {
    let mut tree = BPlusTree::new(4);
    let keys: Vec<u64> = vec![1, 2, 3, 4, 5, 6, 7, 8, 9];
    let values: Vec<u64> = vec![10, 20, 30, 40, 50, 60, 70, 80, 90];
    let result = tree.from_items(4, keys, values);
    assert_eq!(result, Ok(()));
    assert_eq!(tree.depth, 1);
    // The root accumulates every pair directly, in order.
    assert_eq!(tree.root.keys, vec![1, 2, 3, 4, 5, 6, 7, 8, 9]);
    assert_eq!(tree.root.values, vec![10, 20, 30, 40, 50, 60, 70, 80, 90]);
    // One one-entry child per split value 1, 4, 7, attached in order,
    // holding (split_values[i], values[i]).
    assert_eq!(tree.root.children.len(), 3);
    assert_eq!(tree.root.children[0].keys, vec![1]);
    assert_eq!(tree.root.children[0].values, vec![10]);
    assert_eq!(tree.root.children[1].keys, vec![4]);
    assert_eq!(tree.root.children[1].values, vec![20]);
    assert_eq!(tree.root.children[2].keys, vec![7]);
    assert_eq!(tree.root.children[2].values, vec![30]);
    for child in &tree.root.children {
        assert!(child.children.is_empty());
        assert_eq!(child.order, 4);
    }
}

#[test]
fn from_items_empty_input_builds_an_empty_root() {
    let mut tree = BPlusTree::new(4);
    let result = tree.from_items(4, Vec::new(), Vec::new());
    assert_eq!(result, Ok(()));
    assert_eq!(tree.depth, 1);
    assert!(tree.root.keys.is_empty());
    assert!(tree.root.values.is_empty());
    assert!(tree.root.children.is_empty());
}

#[test]
fn from_items_with_equal_keys_inserts_before_the_run() {
    let mut tree = BPlusTree::new(4);
    let result = tree.from_items(4, vec![5, 5], vec![1, 2]);
    assert_eq!(result, Ok(()));
    // The later pair's key lands before the earlier equal key.
    assert_eq!(tree.root.keys, vec![5, 5]);
    assert_eq!(tree.root.values, vec![2, 1]);
    assert_eq!(tree.root.children.len(), 1);
    assert_eq!(tree.root.children[0].keys, vec![5]);
    assert_eq!(tree.root.children[0].values, vec![1]);
}

#[test]
fn from_items_node_order_may_differ_from_tree_order() {
    // The tree's own order (5) drives chunking; the passed order (3)
    // sizes the fresh nodes.
    let mut tree = BPlusTree::new(5);
    let result = tree.from_items(3, vec![1, 2, 3, 4, 5], vec![10, 20, 30, 40, 50]);
    assert_eq!(result, Ok(()));
    assert_eq!(tree.root.order, 3);
    assert_eq!(tree.root.keys, vec![1, 2, 3, 4, 5]);
    // Chunks of 4: split values 1 and 5, paired with values[0], values[1].
    assert_eq!(tree.root.children.len(), 2);
    assert_eq!(tree.root.children[0].keys, vec![1]);
    assert_eq!(tree.root.children[0].values, vec![10]);
    assert_eq!(tree.root.children[1].keys, vec![5]);
    assert_eq!(tree.root.children[1].values, vec![20]);
}

#[test]
fn from_items_rejects_order_one() {
    let mut tree = BPlusTree::new(1);
    let result = tree.from_items(1, vec![1, 2, 3], vec![1, 2, 3]);
    assert_eq!(result, Err(BPlusTreeError::InvalidConfiguration));
    // The tree is left untouched.
    assert_eq!(tree.depth, 0);
    assert!(tree.root.keys.is_empty());
}

#[test]
fn from_items_rejects_a_degenerate_tree_order() {
    // The passed order is fine, but the tree's own order drives the
    // chunking and must be at least two.
    let mut tree = BPlusTree::new(4).with_order(1);
    let result = tree.from_items(4, vec![1, 2], vec![1, 2]);
    assert_eq!(result, Err(BPlusTreeError::InvalidConfiguration));
}

#[test]
fn from_items_rejects_a_zero_leaf_size() {
    let mut tree = BPlusTree::new(4).with_leaf_node_size(0);
    let result = tree.from_items(4, vec![1, 2], vec![1, 2]);
    assert_eq!(result, Err(BPlusTreeError::InvalidConfiguration));
}

#[test]
fn from_items_replaces_the_previous_root() {
    let mut tree = BPlusTree::new(4);
    tree.from_items(4, vec![1, 2, 3], vec![10, 20, 30]).unwrap();
    tree.from_items(4, vec![7, 8], vec![70, 80]).unwrap();
    assert_eq!(tree.root.keys, vec![7, 8]);
    assert_eq!(tree.root.values, vec![70, 80]);
    assert_eq!(tree.root.children.len(), 1);
    assert_eq!(tree.root.children[0].keys, vec![7]);
}
