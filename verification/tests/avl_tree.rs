use data_structures::avl_tree::AVLTree;

/// Returns `true` if all nodes in the tree are balanced.
fn is_balanced(tree: &AVLTree<i32>) -> bool {
    let mut nodes = tree.node_iter();
    while let Some(n) = nodes.next() {
        if !(-1..=1).contains(&n.balance_factor()) {
            return false;
        }
    }
    true
}

fn elements(tree: &AVLTree<i32>) -> Vec<i32> {
    let mut out = vec![];
    let mut iter = tree.iter();
    while let Some(x) = iter.next() {
        out.push(*x);
    }
    out
}

#[test]
fn len() {
    let tree: AVLTree<_> = AVLTree::from_vec((1..4).collect());
    assert_eq!(tree.len(), 3);
}

#[test]
fn contains() {
    let tree: AVLTree<_> = AVLTree::from_vec((1..4).collect());
    assert!(tree.contains(&1));
    assert!(!tree.contains(&4));
}

#[test]
fn insert() {
    let mut tree = AVLTree::new();
    // First insert succeeds
    assert!(tree.insert(1));
    // Second insert fails
    assert!(!tree.insert(1));
}

#[test]
fn remove() {
    let mut tree: AVLTree<_> = AVLTree::from_vec((1..8).collect());
    // First remove succeeds
    assert!(tree.remove(&4));
    // Second remove fails
    assert!(!tree.remove(&4));
}

#[test]
fn sorted() {
    let tree: AVLTree<_> = AVLTree::from_vec((1..8).rev().collect());
    assert!((1..8).eq(elements(&tree).into_iter()));
}

#[test]
fn balanced() {
    let mut tree: AVLTree<_> = AVLTree::from_vec((1..8).collect());
    assert!(is_balanced(&tree));
    for x in 1..8 {
        tree.remove(&x);
        assert!(is_balanced(&tree));
    }
}

#[test]
fn avl_stays_balanced_and_sorted_under_churn() {
    let mut tree: AVLTree<i32> = AVLTree::default();
    assert!(tree.is_empty());
    let mut expected = std::collections::BTreeSet::new();
    let mut x: i32 = 7;
    for round in 0..2000 {
        x = (x.wrapping_mul(1103515245).wrapping_add(12345)) % 1000;
        if round % 3 == 2 {
            assert_eq!(tree.remove(&x), expected.remove(&x));
        } else {
            assert_eq!(tree.insert(x), expected.insert(x));
        }
        assert_eq!(tree.len(), expected.len());
        if round % 50 == 0 {
            assert!(is_balanced(&tree));
            assert_eq!(elements(&tree), expected.iter().cloned().collect::<Vec<_>>());
        }
    }
    assert!(is_balanced(&tree));
    assert_eq!(elements(&tree), expected.iter().cloned().collect::<Vec<_>>());
}

#[test]
fn avl_take_min_hands_out_the_least() {
    let mut tree: AVLTree<i32> = AVLTree::from_vec(vec![5, 3, 8, 1, 4]);
    assert_eq!(elements(&tree), vec![1, 3, 4, 5, 8]);
    assert!(tree.remove(&1));
    assert_eq!(elements(&tree), vec![3, 4, 5, 8]);
    assert!(!tree.is_empty());
}
