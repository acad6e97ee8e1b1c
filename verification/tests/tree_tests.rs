use red_black_tree::node::{Node, NodeColor};
use red_black_tree::tree::Tree;

fn is_red(link: &Option<Box<Node>>) -> bool {
    match link {
        Some(n) => n.color == NodeColor::Red,
        None => false,
    }
}

fn is_black(link: &Option<Box<Node>>) -> bool {
    !is_red(link)
}

fn check_red_node_property(link: &Option<Box<Node>>) -> bool {
    match link {
        // Nil links are black
        None => true,
        Some(n) => {
            if is_red(link) && !(is_black(&n.left) && is_black(&n.right)) {
                return false;
            }
            check_red_node_property(&n.left) && check_red_node_property(&n.right)
        }
    }
}

fn count_black_nodes(link: &Option<Box<Node>>) -> Vec<i32> {
    match link {
        // Nil links are black, count as one black node
        None => vec![1],
        Some(n) => {
            let left_counts = count_black_nodes(&n.left);
            let right_counts = count_black_nodes(&n.right);
            let own = if n.color == NodeColor::Black { 1 } else { 0 };

            let mut counts = vec![];
            for count in left_counts.into_iter().chain(right_counts.into_iter()) {
                counts.push(count + own);
            }
            counts
        }
    }
}

fn assert_red_black_tree_properties(tree: &Tree) {
    if tree.root.is_none() {
        panic!("Assertions on empty red-black trees cause a panic for your own sake")
    }
    // Root property
    assert!(is_black(&tree.root));

    // Red node property
    assert!(check_red_node_property(&tree.root));

    // Black height property
    let black_node_counts = count_black_nodes(&tree.root);
    // Ensure all paths have the same number of black nodes
    assert_eq!(
        black_node_counts.iter().min(),
        black_node_counts.iter().max()
    );
}

#[test]
fn test_left_rotate() {
    // Build a Tree that looks like this:
    //
    //               2
    //             /   \
    //            1      4
    //                  /  \
    //                 3    5
    //
    let mut a = Node::new(1);
    a.set_left_child(None);
    a.set_right_child(None);
    let mut b = Node::new(3);
    b.set_left_child(None);
    b.set_right_child(None);
    let mut c = Node::new(5);
    c.set_left_child(None);
    c.set_right_child(None);
    let mut y = Node::new(4);
    let mut x = Node::new(2);
    y.set_left_child(Some(Box::new(b)));
    y.set_right_child(Some(Box::new(c)));
    x.set_left_child(Some(Box::new(a)));
    x.set_right_child(Some(Box::new(y)));
    let mut actual_tree = Tree {
        root: Some(Box::new(x)),
        length: 0,
    };

    // Build the expected Tree after performing a left rotate
    //
    //                4
    //               /  \
    //              2    5
    //            /  \
    //           1     3
    //
    let mut a = Node::new(1);
    a.set_left_child(None);
    a.set_right_child(None);
    let mut b = Node::new(3);
    b.set_left_child(None);
    b.set_right_child(None);
    let mut c = Node::new(5);
    c.set_left_child(None);
    c.set_right_child(None);
    let mut y = Node::new(4);
    let mut x = Node::new(2);
    x.set_left_child(Some(Box::new(a)));
    x.set_right_child(Some(Box::new(b)));
    y.set_left_child(Some(Box::new(x)));
    y.set_right_child(Some(Box::new(c)));
    let expected_tree = Tree {
        root: Some(Box::new(y)),
        length: 0,
    };

    actual_tree.left_rotate();

    assert_eq!(actual_tree, expected_tree);
}

#[test]
fn test_right_rotate() {
    // Build the Tree before performing a right rotate
    //
    //                4
    //               /  \
    //              2    5
    //            /  \
    //           1     3
    //
    let mut a = Node::new(1);
    a.set_left_child(None);
    a.set_right_child(None);
    let mut b = Node::new(3);
    b.set_left_child(None);
    b.set_right_child(None);
    let mut c = Node::new(5);
    c.set_left_child(None);
    c.set_right_child(None);
    let mut y = Node::new(4);
    let mut x = Node::new(2);
    x.set_left_child(Some(Box::new(a)));
    x.set_right_child(Some(Box::new(b)));
    y.set_left_child(Some(Box::new(x)));
    y.set_right_child(Some(Box::new(c)));
    let mut actual_tree = Tree {
        root: Some(Box::new(y)),
        length: 0,
    };

    // Build an expected Tree that looks like this:
    //
    //               2
    //             /   \
    //            1      4
    //                  /  \
    //                 3    5
    //
    let mut a = Node::new(1);
    a.set_left_child(None);
    a.set_right_child(None);
    let mut b = Node::new(3);
    b.set_left_child(None);
    b.set_right_child(None);
    let mut c = Node::new(5);
    c.set_left_child(None);
    c.set_right_child(None);
    let mut y = Node::new(4);
    let mut x = Node::new(2);
    y.set_left_child(Some(Box::new(b)));
    y.set_right_child(Some(Box::new(c)));
    x.set_left_child(Some(Box::new(a)));
    x.set_right_child(Some(Box::new(y)));
    let expected_tree = Tree {
        root: Some(Box::new(x)),
        length: 0,
    };

    actual_tree.right_rotate();

    assert_eq!(actual_tree, expected_tree);
}

#[test]
fn test_insert_maintains_properties() {
    let mut tree = Tree::new();
    tree.insert(5);
    assert_eq!(tree.length, 1);
    assert_red_black_tree_properties(&tree);

    tree.insert(15);
    assert_red_black_tree_properties(&tree);
    assert_eq!(tree.length, 2);

    tree.insert(2);
    assert_red_black_tree_properties(&tree);
    assert_eq!(tree.length, 3);

    tree.insert(7);
    assert_red_black_tree_properties(&tree);
    assert_eq!(tree.length, 4);

    tree.insert(12);
    assert_red_black_tree_properties(&tree);
    assert_eq!(tree.length, 5);

    tree.insert(17);
    assert_red_black_tree_properties(&tree);
    assert_eq!(tree.length, 6);
}

#[test]
fn test_insert_types() {
    let mut i64_tree = Tree::new();
    i64_tree.insert(0_i64);
    i64_tree.insert(100_i64);
    i64_tree.insert(75_i64);

    assert_red_black_tree_properties(&i64_tree);
}

#[test]
fn test_delete_maintains_properties() {
    let mut tree = Tree::new();
    tree.insert(10);
    assert_eq!(tree.length, 1);
    tree.delete(10);
    assert!(tree.root.is_none());
    assert_eq!(tree.length, 0);

    tree.insert(5);
    tree.insert(15);
    tree.insert(2);
    tree.insert(7);
    tree.insert(12);
    tree.insert(17);
    assert_eq!(tree.length, 6);

    tree.delete(17);
    assert_red_black_tree_properties(&tree);
    assert_eq!(tree.length, 5);

    tree.delete(7);
    assert_red_black_tree_properties(&tree);
    assert_eq!(tree.length, 4);

    tree.delete(2);
    assert_red_black_tree_properties(&tree);
    assert_eq!(tree.length, 3);
}

#[test]
fn test_contains_key() {
    let mut tree = Tree::new();

    assert!(!tree.contains_key(1));
    assert!(!tree.contains_key(2));

    tree.insert(1);

    assert!(tree.contains_key(1));
    assert!(!tree.contains_key(2));

    tree.insert(2);

    assert!(tree.contains_key(1));
    assert!(tree.contains_key(2));

    tree.delete(1);

    assert!(!tree.contains_key(1));
    assert!(tree.contains_key(2));

    tree.delete(2);

    assert!(!tree.contains_key(1));
    assert!(!tree.contains_key(2));
}

#[test]
fn test_is_empty() {
    let mut tree = Tree::new();
    assert!(tree.is_empty());

    tree.insert(1);
    assert!(!tree.is_empty());

    tree.delete(1);
    assert!(tree.is_empty());
}

#[test]
fn test_len() {
    let mut tree = Tree::new();
    assert_eq!(tree.len(), 0);

    tree.insert(1);
    assert_eq!(tree.len(), 1);

    tree.insert(2);
    assert_eq!(tree.len(), 2);

    tree.delete(2);
    assert_eq!(tree.len(), 1);

    tree.delete(1);
    assert_eq!(tree.len(), 0);
}

#[test]
fn test_clear() {
    let mut tree = Tree::new();
    assert_eq!(tree.len(), 0);

    tree.clear();
    assert_eq!(tree.len(), 0);
    assert!(tree.root.is_none());

    tree.insert(1);
    tree.insert(2);
    tree.insert(3);
    assert_eq!(tree.len(), 3);
    assert!(!tree.root.is_none());

    tree.clear();
    assert_eq!(tree.len(), 0);
    assert!(tree.root.is_none());
}
