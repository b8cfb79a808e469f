use matching_engine::btree::{BTree, Node};

fn build(t: usize, keys: &[i32]) -> BTree {
    let mut bt = BTree::new(t);
    for &k in keys {
        bt.insert(k);
    }
    bt
}

fn max_keys(n: &Node) -> usize {
    let below = n.children.iter().map(|c| max_keys(c)).max().unwrap_or(0);
    n.keys.len().max(below)
}

#[test]
fn traverse_gives_sorted_keys() {
    let bt = build(3, &[10, 20, 5, 6, 12, 30, 7, 17, 3, 2, 4, 25, 26, 27, 28]);
    assert_eq!(bt.traverse(), vec![2, 3, 4, 5, 6, 7, 10, 12, 17, 20, 25, 26, 27, 28, 30]);
}

#[test]
fn search_finds_present_keys_only() {
    let bt = build(3, &[10, 20, 5, 6, 12, 30, 7, 17, 3, 2, 4, 25, 26, 27, 28]);
    assert!(bt.search(12));
    assert!(!bt.search(99));
    assert!(bt.search(2));
    assert!(bt.search(30));
    assert!(!bt.search(11));
}

#[test]
fn empty_tree_holds_nothing() {
    let bt = BTree::new(2);
    assert!(bt.traverse().is_empty());
    assert!(!bt.search(0));
    assert!(bt.root.leaf);
}

#[test]
fn root_splits_when_full() {
    let bt = build(2, &[1, 2, 3, 4]);
    assert!(!bt.root.leaf);
    assert_eq!(bt.root.keys, vec![2]);
    assert_eq!(bt.traverse(), vec![1, 2, 3, 4]);
}

#[test]
fn nodes_never_exceed_capacity() {
    let keys: Vec<i32> = (0..200).map(|i| (i * 37) % 101 - 50).collect();
    let bt = build(2, &keys);
    assert!(max_keys(&bt.root) <= 3);
    let mut expected = keys.clone();
    expected.sort();
    assert_eq!(bt.traverse(), expected);
}

#[test]
fn duplicates_are_kept() {
    let bt = build(2, &[5, 5, 5, 1, 5]);
    assert_eq!(bt.traverse(), vec![1, 5, 5, 5, 5]);
    assert!(bt.search(5));
}

#[test]
fn new_node_is_empty() {
    let n = Node::new(true, 4);
    assert!(n.leaf && n.keys.is_empty() && n.children.is_empty());
}
