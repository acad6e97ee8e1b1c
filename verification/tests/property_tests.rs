use red_black_tree::node::{Node, NodeColor};
use red_black_tree::tree::Tree;

fn is_red(link: &Option<Box<Node>>) -> bool {
    match link {
        Some(n) => n.color == NodeColor::Red,
        None => false,
    }
}

fn check_red_node_property(link: &Option<Box<Node>>) -> bool {
    match link {
        None => true,
        Some(n) => {
            if is_red(link) && (is_red(&n.left) || is_red(&n.right)) {
                return false;
            }
            check_red_node_property(&n.left) && check_red_node_property(&n.right)
        }
    }
}

fn count_black_nodes(link: &Option<Box<Node>>) -> Vec<i32> {
    match link {
        None => vec![1],
        Some(n) => {
            let own = if n.color == NodeColor::Black { 1 } else { 0 };
            count_black_nodes(&n.left)
                .into_iter()
                .chain(count_black_nodes(&n.right).into_iter())
                .map(|c| c + own)
                .collect()
        }
    }
}

/// The four checks of invariant preservation: black root, no red-red
/// edge, equal black counts on every path, and a length that matches the
/// in-order traversal. An empty tree satisfies them trivially.
fn holds_invariants(tree: &Tree) -> bool {
    let root_ok = !is_red(&tree.root);
    let red_ok = check_red_node_property(&tree.root);
    let counts = count_black_nodes(&tree.root);
    let heights_ok = counts.iter().min() == counts.iter().max();
    let len_ok = tree.len() == tree.in_order_keys().len();
    root_ok && red_ok && heights_ok && len_ok
}

#[test]
fn test_invariants_along_operation_sequence() {
    let mut tree = Tree::new();
    assert!(holds_invariants(&tree));
    let inserts = [8, 3, 11, 1, 6, 9, 14, 0, 2, 5, 7, 13, 15, 4, 12, 10];
    for k in inserts {
        tree.insert(k);
        assert!(holds_invariants(&tree));
    }
    let deletes = [8, 0, 15, 6, 3, 10, 1, 14];
    for k in deletes {
        tree.delete(k);
        assert!(holds_invariants(&tree));
    }
    assert_eq!(tree.len(), 8);
}

#[test]
fn test_in_order_traversal_sorted() {
    let mut tree = Tree::new();
    for k in [9, 4, 13, 2, 6, 11, 16, 4, 9] {
        tree.insert(k);
    }
    let keys = tree.in_order_keys();
    assert_eq!(keys, vec![2, 4, 4, 6, 9, 9, 11, 13, 16]);
    for pair in keys.windows(2) {
        assert!(pair[0] <= pair[1]);
    }
}

#[test]
fn test_insert_contains_delete_round_trip() {
    let mut tree = Tree::new();
    tree.insert(19);
    tree.insert(23);
    tree.insert(42);
    assert!(tree.contains_key(42));
    tree.delete(42);
    assert!(!tree.contains_key(42));
}

#[test]
fn test_minimum_maximum_of_triples() {
    let triples = [(1, 2, 3), (3, 2, 1), (2, 3, 1), (7, 7, 1), (5, 5, 5), (-4, 10, 0)];
    for (a, b, c) in triples {
        let mut tree = Tree::new();
        tree.insert(a);
        tree.insert(b);
        tree.insert(c);
        let expected_min = a.min(b).min(c);
        let expected_max = a.max(b).max(c);
        assert_eq!(tree.minimum(), Some(expected_min));
        assert_eq!(tree.maximum(), Some(expected_max));
    }
}

#[test]
fn test_minimum_maximum_empty() {
    let tree = Tree::new();
    assert_eq!(tree.minimum(), None);
    assert_eq!(tree.maximum(), None);
}

#[test]
fn test_clear_is_idempotent() {
    let mut tree = Tree::new();
    let before = tree.in_order_keys();
    tree.clear();
    assert_eq!(tree.in_order_keys(), before);
    assert_eq!(tree.len(), 0);
    assert!(tree.is_empty());

    tree.insert(30);
    tree.insert(20);
    tree.clear();
    assert_eq!(tree.len(), 0);
    assert!(tree.is_empty());
    tree.clear();
    assert_eq!(tree.len(), 0);
    assert!(tree.is_empty());
}

#[test]
fn test_delete_single_key_leaves_empty() {
    let mut tree = Tree::new();
    tree.insert(77);
    tree.delete(77);
    assert!(tree.is_empty());
    assert_eq!(tree.len(), 0);
}

#[test]
fn test_size_tracking() {
    let mut tree = Tree::new();
    let keys = [5, 1, 9, 3, 7, 11, 2];
    for k in keys {
        tree.insert(k);
    }
    assert_eq!(tree.len(), keys.len());
    for (m, k) in [9, 1, 7].into_iter().enumerate() {
        tree.delete(k);
        assert_eq!(tree.len(), keys.len() - m - 1);
    }
    assert_eq!(tree.len(), 4);
}

#[test]
fn test_duplicate_keys_form_multiset() {
    let mut tree = Tree::new();
    tree.insert(5);
    tree.insert(5);
    assert_eq!(tree.len(), 2);
    assert!(tree.contains_key(5));
    tree.delete(5);
    assert_eq!(tree.len(), 1);
    assert!(tree.contains_key(5));
    tree.delete(5);
    assert_eq!(tree.len(), 0);
    assert!(!tree.contains_key(5));
}

#[test]
fn test_delete_absent_key_is_noop() {
    let mut tree = Tree::new();
    for k in [10, 20, 30] {
        tree.insert(k);
    }
    let before = tree.in_order_keys();
    tree.delete(25);
    assert_eq!(tree.in_order_keys(), before);
    assert_eq!(tree.len(), 3);
}

#[test]
fn test_scenario_seven_keys() {
    let mut tree = Tree::new();
    for k in [10, 5, 15, 2, 7, 12, 17] {
        tree.insert(k);
    }
    assert_eq!(tree.len(), 7);
    assert!(holds_invariants(&tree));
    assert_eq!(tree.minimum(), Some(2));
    assert_eq!(tree.maximum(), Some(17));

    tree.delete(17);
    tree.delete(7);
    tree.delete(2);
    assert_eq!(tree.len(), 4);
    assert!(holds_invariants(&tree));
}

#[test]
fn test_descending_and_ascending_runs() {
    let mut tree = Tree::new();
    for k in (0..32).rev() {
        tree.insert(k);
    }
    for k in 32..64 {
        tree.insert(k);
    }
    assert_eq!(tree.len(), 64);
    assert!(holds_invariants(&tree));
    assert_eq!(tree.minimum(), Some(0));
    assert_eq!(tree.maximum(), Some(63));
    for k in 0..64 {
        assert!(tree.contains_key(k));
        tree.delete(k);
        assert!(holds_invariants(&tree));
    }
    assert!(tree.is_empty());
}
