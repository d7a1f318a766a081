use balanced_trees::rbtree::RedBlackTree;

#[test]
fn rb_empty_tree_reports() {
    let t = RedBlackTree::new();
    assert!(t.is_tree_empty());
    assert_eq!(t.get_tree_height(), 0);
    assert_eq!(t.count_leaves(), 0);
    assert!(!t.is_node_exists(0));
    assert!(!t.is_node_exists(7));
    assert!(!t.is_node_exists(u32::MAX));
    assert_eq!(t.in_order_traversal(), Vec::<u32>::new());
    assert_eq!(t.structure(), Vec::<(u32, u64, bool)>::new());
}

#[test]
fn rb_insert_10_20_30_single_left_rotation() {
    let mut t = RedBlackTree::new();
    t.insert_node(10);
    t.insert_node(20);
    t.insert_node(30);
    // the left-left imbalance is resolved by one left rotation: root 20
    // (black) with red children 10 and 30
    assert_eq!(t.structure(), vec![(30, 1, true), (20, 0, false), (10, 1, true)]);
    assert_eq!(t.get_tree_height(), 2);
    assert_eq!(t.count_leaves(), 2);
    assert_eq!(t.in_order_traversal(), vec![10, 20, 30]);
    assert!(!t.is_tree_empty());
}

#[test]
fn rb_insert_30_20_10_single_right_rotation() {
    let mut t = RedBlackTree::new();
    t.insert_node(30);
    t.insert_node(20);
    t.insert_node(10);
    assert_eq!(t.structure(), vec![(30, 1, true), (20, 0, false), (10, 1, true)]);
    assert_eq!(t.get_tree_height(), 2);
    assert_eq!(t.count_leaves(), 2);
}

#[test]
fn rb_double_rotations_lift_the_middle_key() {
    let mut t = RedBlackTree::new();
    t.insert_node(10);
    t.insert_node(30);
    t.insert_node(20);
    assert_eq!(t.structure(), vec![(30, 1, true), (20, 0, false), (10, 1, true)]);

    let mut u = RedBlackTree::new();
    u.insert_node(30);
    u.insert_node(10);
    u.insert_node(20);
    assert_eq!(u.structure(), vec![(30, 1, true), (20, 0, false), (10, 1, true)]);
}

#[test]
fn rb_red_uncle_recolors_instead_of_rotating() {
    let mut t = RedBlackTree::new();
    t.insert_node(10);
    t.insert_node(20);
    t.insert_node(30);
    t.insert_node(25);
    // 25 lands under the red 30 with red uncle 10: both turn black, the
    // root stays black, no rotation
    assert_eq!(
        t.structure(),
        vec![(30, 1, false), (25, 2, true), (20, 0, false), (10, 1, false)]
    );
    assert_eq!(t.get_tree_height(), 3);
    assert_eq!(t.count_leaves(), 2);
    assert_eq!(t.in_order_traversal(), vec![10, 20, 25, 30]);
}

#[test]
fn rb_contains_after_insert() {
    let mut t = RedBlackTree::new();
    assert!(!t.is_node_exists(42));
    t.insert_node(42);
    assert!(t.is_node_exists(42));
    t.insert_node(7);
    assert!(t.is_node_exists(7));
    assert!(t.is_node_exists(42));
    assert!(!t.is_node_exists(8));
}

#[test]
fn rb_duplicate_insert_is_noop() {
    let mut t = RedBlackTree::new();
    t.insert_node(5);
    t.insert_node(5);
    assert_eq!(t.in_order_traversal(), vec![5]);
    assert_eq!(t.count_leaves(), 1);
    assert_eq!(t.get_tree_height(), 1);
    t.insert_node(3);
    t.insert_node(3);
    assert_eq!(t.in_order_traversal(), vec![3, 5]);
}

#[test]
fn rb_sequential_inserts_stay_balanced() {
    let mut t = RedBlackTree::new();
    for k in 1..=10u32 {
        t.insert_node(k);
    }
    assert_eq!(
        t.structure(),
        vec![
            (10, 4, true),
            (9, 3, false),
            (8, 2, true),
            (7, 3, false),
            (6, 1, false),
            (5, 2, false),
            (4, 0, false),
            (3, 2, false),
            (2, 1, false),
            (1, 2, false),
        ]
    );
    assert_eq!(t.get_tree_height(), 5);
    assert_eq!(t.count_leaves(), 5);
    assert_eq!(t.in_order_traversal(), (1..=10u32).collect::<Vec<u32>>());
}

#[test]
fn rb_scrambled_inserts_sort_and_balance() {
    let keys = [50u32, 30, 70, 20, 40, 60, 80, 10, 25, 35, 45, 55, 65, 75, 85, 5];
    let mut t = RedBlackTree::new();
    for &k in keys.iter() {
        t.insert_node(k);
    }
    let mut expected: Vec<u32> = keys.to_vec();
    expected.sort();
    assert_eq!(t.in_order_traversal(), expected);
    assert_eq!(t.get_tree_height(), 5);
    assert_eq!(t.count_leaves(), 8);
    for &k in keys.iter() {
        assert!(t.is_node_exists(k));
    }
    assert!(!t.is_node_exists(0));
    assert!(!t.is_node_exists(51));
    assert!(!t.is_node_exists(100));
}

#[test]
fn rb_structure_lists_every_node_with_its_colour() {
    let keys = [50u32, 30, 70, 20, 40, 60, 80, 10, 25, 35, 45, 55, 65, 75, 85, 5];
    let mut t = RedBlackTree::new();
    for &k in keys.iter() {
        t.insert_node(k);
    }
    let s = t.structure();
    assert_eq!(s.len(), keys.len());
    // the root is black and stands at depth 0
    let root: Vec<&(u32, u64, bool)> = s.iter().filter(|e| e.1 == 0).collect();
    assert_eq!(root.len(), 1);
    assert_eq!(root[0].0, 50);
    assert!(!root[0].2);
    // a structural listing walks right subtrees first, so keys descend
    let keys_listed: Vec<u32> = s.iter().map(|e| e.0).collect();
    let mut descending = keys_listed.clone();
    descending.sort();
    descending.reverse();
    assert_eq!(keys_listed, descending);
}

#[test]
fn rb_boundary_keys() {
    let mut t = RedBlackTree::new();
    t.insert_node(0);
    t.insert_node(u32::MAX);
    t.insert_node(1);
    assert_eq!(t.in_order_traversal(), vec![0, 1, u32::MAX]);
    assert!(t.is_node_exists(0));
    assert!(t.is_node_exists(u32::MAX));
    assert!(!t.is_node_exists(2));
    assert_eq!(t.get_tree_height(), 2);
}
