use bson::Document;
use r2d2p2::bptree::Node;
use r2d2p2::nodes::{ChildKind, InternalNode, LeafNode};
use r2d2p2::tree::BPlusTree;

fn doc(n: i64) -> Document {
    let mut d = Document::new();
    d.insert("n", n);
    d
}

fn person(name: &str, age: i32, student: bool) -> Document {
    let mut d = Document::new();
    d.insert("name", name);
    d.insert("age", age);
    d.insert("student", student);
    d
}

/// Walks a subtree and panics where it is no B+-tree: keys out of order or out
/// of bounds, a node too small or too large, a leaf at the wrong depth.
fn check_node(node: &Node, lo: Option<u128>, hi: Option<u128>, depth: usize, min: usize, max: usize, root: bool) {
    for pair in node.keys.windows(2) {
        assert!(pair[0] < pair[1]);
    }
    for k in &node.keys {
        assert!(lo.map_or(true, |l| l <= *k));
        assert!(hi.map_or(true, |h| *k < h));
    }
    assert!(node.keys.len() <= max);
    if !root {
        assert!(node.keys.len() >= min);
    }
    if node.is_leaf {
        assert_eq!(depth, 0);
        assert_eq!(node.values.len(), node.keys.len());
        assert!(node.children.is_empty());
    } else {
        assert!(depth > 0);
        assert!(!node.keys.is_empty());
        assert_eq!(node.children.len(), node.keys.len() + 1);
        for (i, child) in node.children.iter().enumerate() {
            let clo = if i == 0 { lo } else { Some(node.keys[i - 1]) };
            let chi = if i == node.keys.len() { hi } else { Some(node.keys[i]) };
            check_node(child, clo, chi, depth - 1, min, max, false);
        }
    }
}

fn check_tree(tree: &BPlusTree) {
    assert_eq!(tree.min_capacity, tree.max_capacity / 2);
    check_node(&tree.root, None, None, tree.depth, tree.min_capacity, tree.max_capacity, true);
}

#[test]
fn tree_keeps_its_shape_under_inserts_and_removals() {
    for capacity in [2usize, 3, 4, 5] {
        let mut tree = BPlusTree::new(capacity);
        let keys: Vec<u128> = (0..200u128).map(|i| (i * 37) % 211).collect();
        for (n, k) in keys.iter().enumerate() {
            assert!(tree.insert(*k, doc(*k as i64)).is_none());
            check_tree(&tree);
            assert_eq!(tree.len(), n + 1);
        }
        assert!(tree.depth > 0);
        for k in &keys {
            assert_eq!(tree.lookup(*k).unwrap().get_i64("n").unwrap(), *k as i64);
        }
        assert!(tree.lookup(500).is_none());
        let all = tree.range(0, u128::MAX);
        assert_eq!(all.len(), 200);
        for pair in all.windows(2) {
            assert!(pair[0].0 < pair[1].0);
        }
        for (n, k) in keys.iter().enumerate() {
            assert_eq!(tree.remove(*k).unwrap().get_i64("n").unwrap(), *k as i64);
            assert!(tree.remove(*k).is_none());
            check_tree(&tree);
            assert_eq!(tree.len(), 199 - n);
        }
        assert_eq!(tree.depth, 0);
        assert!(tree.root.is_leaf);
    }
}

#[test]
fn tree_insert_replaces_and_returns_previous() {
    let mut tree = BPlusTree::new(3);
    assert!(tree.insert(37, doc(1)).is_none());
    assert!(tree.set(37, doc(2)).is_some());
    assert_eq!(tree.insert(37, doc(3)).unwrap().get_i64("n").unwrap(), 2);
    assert_eq!(tree.get(37).unwrap().get_i64("n").unwrap(), 3);
    assert_eq!(tree.len(), 1);
}

#[test]
fn tree_range_is_inclusive_and_ascending() {
    let mut tree = BPlusTree::new(2);
    for k in [9u128, 3, 7, 1, 5, 11, 13] {
        tree.insert(k, doc(k as i64));
    }
    let keys: Vec<u128> = tree.range(3, 11).iter().map(|r| r.0).collect();
    assert_eq!(keys, vec![3, 5, 7, 9, 11]);
    assert!(tree.range(11, 3).is_empty());
    let from_twelve: Vec<u128> = tree.range(12, u128::MAX).iter().map(|r| r.0).collect();
    assert_eq!(from_twelve, vec![13]);
    assert!(tree.range(14, u128::MAX).is_empty());
}

#[test]
fn tree_holds_greatest_key() {
    let mut tree = BPlusTree::new(2);
    tree.insert(u128::MAX, doc(1));
    tree.insert(0, doc(2));
    assert_eq!(tree.lookup(u128::MAX).unwrap().get_i64("n").unwrap(), 1);
    assert_eq!(tree.range(0, u128::MAX).len(), 2);
}

#[test]
fn node_positions_and_splits() {
    let mut leaf = Node::new(true);
    for k in [30u128, 10, 20, 40] {
        assert!(leaf.set(k, doc(k as i64)).is_none());
    }
    assert_eq!(leaf.keys, vec![10, 20, 30, 40]);
    assert_eq!(leaf.index_of_child(5), 0);
    assert_eq!(leaf.index_of_child(20), 2);
    assert_eq!(leaf.index_of_child(45), 4);
    assert_eq!(leaf.index_of_key(30), Some(2));
    assert_eq!(leaf.index_of_key(31), None);
    assert_eq!(leaf.get(20).unwrap().get_i64("n").unwrap(), 20);
    assert!(leaf.get(21).is_none());
    assert_eq!(leaf.set(20, doc(21)).unwrap().get_i64("n").unwrap(), 20);
    let mut wide = Node::new(true);
    for k in [1u128, 2, 3, 4, 5] {
        wide.set(k, doc(k as i64));
    }
    let (sep, left, right) = wide.split_leaf();
    assert_eq!(sep, 4);
    assert_eq!(left.keys, vec![1, 2, 3]);
    assert_eq!(right.keys, vec![4, 5]);
    assert_eq!(right.values.len(), 2);

    let mut inner = Node::new(false);
    inner.keys = vec![10, 20, 30];
    for _ in 0..4 {
        inner.children.push(Node::new(true));
    }
    inner.children[1].keys.push(15);
    assert_eq!(inner.get_child(15).keys, vec![15]);
    let mut l = Node::new(true);
    l.keys.push(12);
    let mut r = Node::new(true);
    r.keys.push(17);
    inner.set_child(16, vec![l, r]);
    assert_eq!(inner.keys, vec![10, 16, 20, 30]);
    assert_eq!(inner.children.len(), 5);
    assert_eq!(inner.children[1].keys, vec![12]);
    assert_eq!(inner.children[2].keys, vec![17]);
    let (mid, left, right) = inner.split_internal();
    assert_eq!(mid, 20);
    assert_eq!(left.keys, vec![10, 16]);
    assert_eq!(left.children.len(), 3);
    assert_eq!(right.keys, vec![30]);
    assert_eq!(right.children.len(), 2);
}

#[test]
fn leaf_node_tests() {
    let mut node = LeafNode::new(3);
    assert_eq!(node.min_size, 1);
    assert_eq!(node.insert(3, person("Matthew", 21, true)), 0);
    assert_eq!(node.insert(1, person("Dr. Kim", 40, false)), 0);
    assert_eq!(node.insert(1, person("Aiden", 21, true)), 2);
    assert_eq!(node.insert(2, person("Aiden", 21, true)), 0);
    assert_eq!(node.keys, vec![1, 2, 3]);
    assert_eq!(node.insert(4, person("Aiden", 21, true)), 1);
    assert_eq!(node.find(2), Some(1));
    assert_eq!(node.find(9), None);

    let (status, taken) = node.remove(5);
    assert_eq!(status, 2);
    assert!(taken.is_none());
    let (status, taken) = node.remove(2);
    assert_eq!(status, 0);
    let (k, d) = taken.unwrap();
    assert_eq!(k, 2);
    assert_eq!(d.get_str("name").unwrap(), "Aiden");
    let (status, taken) = node.remove(1);
    assert_eq!(status, 0);
    assert_eq!(taken.unwrap().1.get_str("name").unwrap(), "Dr. Kim");
    let (status, taken) = node.remove(3);
    assert_eq!(status, 1);
    assert!(taken.is_none());
    assert_eq!(node.keys, vec![3]);
}

#[test]
fn internal_node_tests() {
    let mut leaf = Node::new(true);
    leaf.set(3, person("Matthew", 21, true));
    leaf.set(1, person("Dr. Kim", 40, false));
    let mut root = InternalNode::new(3, ChildKind::Leaf);
    assert_eq!(root.min_size, 1);
    assert_eq!(root.insert(1, leaf), 0);
    assert_eq!(root.insert(7, Node::new(true)), 0);
    assert_eq!(root.insert(5, Node::new(true)), 0);
    assert_eq!(root.keys, vec![1, 5, 7]);
    assert_eq!(root.insert(5, Node::new(true)), 1);
    assert_eq!(root.find(7), Some(2));
    let (status, taken) = root.remove(1);
    assert_eq!(status, 0);
    assert_eq!(taken.unwrap().1.keys, vec![1, 3]);
    assert_eq!(root.insert(5, Node::new(true)), 2);
    assert_eq!(root.remove(9).0, 2);
    assert_eq!(root.remove(5).0, 0);
    assert_eq!(root.remove(7).0, 1);
}

#[test]
fn cursor_seeks_and_yields_in_order() {
    let mut tree = BPlusTree::new(2);
    let mut unplaced = tree.iter();
    assert!(unplaced.next().is_none());
    for k in [20u128, 5, 15, 10, 25, 30, u128::MAX] {
        tree.insert(k, doc(k as i64 & 0xff));
    }
    let mut cursor = tree.iter();
    assert!(cursor.next().is_none());
    cursor.seek_to_first();
    let mut seen = Vec::new();
    while let Some((k, d)) = cursor.next() {
        assert_eq!(d.get_i64("n").unwrap(), k as i64 & 0xff);
        seen.push(k);
    }
    assert_eq!(seen, vec![5, 10, 15, 20, 25, 30, u128::MAX]);
    assert!(cursor.next().is_none());
    cursor.seek(11);
    assert_eq!(cursor.next().unwrap().0, 15);
    assert_eq!(cursor.next().unwrap().0, 20);
    cursor.seek(20);
    assert_eq!(cursor.next().unwrap().0, 20);
    cursor.seek(31);
    assert_eq!(cursor.next().unwrap().0, u128::MAX);
    assert!(cursor.next().is_none());
    tree.remove(u128::MAX);
    let mut cursor = tree.iter();
    cursor.seek(31);
    assert!(cursor.next().is_none());
}

fn leaf_of(keys: &[u128]) -> Node {
    let mut leaf = Node::new(true);
    for k in keys {
        leaf.set(*k, doc(*k as i64));
    }
    leaf
}

fn two_level(leaves: &[&[u128]], capacity: usize) -> BPlusTree {
    let mut root = Node::new(false);
    for (i, keys) in leaves.iter().enumerate() {
        if i > 0 {
            root.keys.push(keys[0]);
        }
        root.children.push(leaf_of(keys));
    }
    let tree = BPlusTree { root, max_capacity: capacity, min_capacity: capacity / 2, depth: 1 };
    check_tree(&tree);
    tree
}

#[test]
fn tree_grows_only_by_root_split() {
    let mut tree = BPlusTree::new(2);
    tree.insert(10, doc(10));
    tree.insert(20, doc(20));
    assert_eq!(tree.depth, 0);
    tree.insert(20, doc(21));
    assert_eq!(tree.depth, 0);
    tree.insert(30, doc(30));
    assert_eq!(tree.depth, 1);
    assert!(!tree.root.is_leaf);
    assert_eq!(tree.root.keys, vec![30]);
    assert_eq!(tree.root.children.len(), 2);
    assert_eq!(tree.root.children[0].keys, vec![10, 20]);
    assert_eq!(tree.root.children[1].keys, vec![30]);
    tree.insert(40, doc(40));
    assert_eq!(tree.depth, 1);
    assert_eq!(tree.root.keys, vec![30]);
}

#[test]
fn repair_borrows_right_before_left() {
    let mut tree = two_level(&[&[1, 2, 3], &[10, 11], &[20, 21, 22]], 4);
    assert!(tree.remove(11).is_some());
    assert_eq!(tree.root.keys, vec![10, 21]);
    assert_eq!(tree.root.children[0].keys, vec![1, 2, 3]);
    assert_eq!(tree.root.children[1].keys, vec![10, 20]);
    assert_eq!(tree.root.children[2].keys, vec![21, 22]);
    check_tree(&tree);
}

#[test]
fn repair_borrows_left_where_right_has_none_to_spare() {
    let mut tree = two_level(&[&[1, 2, 3], &[10, 11], &[20, 21]], 4);
    assert!(tree.remove(10).is_some());
    assert_eq!(tree.root.keys, vec![3, 20]);
    assert_eq!(tree.root.children[0].keys, vec![1, 2]);
    assert_eq!(tree.root.children[1].keys, vec![3, 11]);
    assert_eq!(tree.root.children[2].keys, vec![20, 21]);
    check_tree(&tree);
}

#[test]
fn repair_merges_right_before_left() {
    let mut tree = two_level(&[&[1, 2], &[10, 11], &[20, 21]], 4);
    assert!(tree.remove(11).is_some());
    assert_eq!(tree.root.keys, vec![10]);
    assert_eq!(tree.root.children.len(), 2);
    assert_eq!(tree.root.children[0].keys, vec![1, 2]);
    assert_eq!(tree.root.children[1].keys, vec![10, 20, 21]);
    check_tree(&tree);
    let mut last = two_level(&[&[1, 2], &[10, 11]], 4);
    assert!(last.remove(10).is_some());
    assert_eq!(last.depth, 0);
    assert!(last.root.is_leaf);
    assert_eq!(last.root.keys, vec![1, 2, 11]);
    check_tree(&last);
}
