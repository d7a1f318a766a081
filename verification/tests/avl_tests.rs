use balanced_trees::avl::AVL_Tree;
use balanced_trees::avl::AVL_Tree_Node;

#[test]
fn avl_empty_tree_reports() {
    let t = AVL_Tree::new();
    assert!(t.is_tree_empty_avl());
    assert_eq!(t.height_of_tree_avl(), 0);
    assert_eq!(t.count_leaves_avl(), 0);
    assert!(!t.is_node_exists_avl(0));
    assert!(!t.is_node_exists_avl(9));
    assert!(!t.is_node_exists_avl(u32::MAX));
    assert_eq!(t.in_order_traversal_avl(), Vec::<u32>::new());
    assert_eq!(t.structure_avl(), Vec::<(u32, u64)>::new());
}

#[test]
fn avl_node_new_is_a_unit_height_leaf() {
    let n = AVL_Tree_Node::new(11);
    assert_eq!(n.value, 11);
    assert_eq!(n.height, 1);
    assert!(n.left.is_none());
    assert!(n.right.is_none());
}

#[test]
fn avl_insert_30_20_10_right_rotation() {
    let mut t = AVL_Tree::new();
    t.insert_val_avl(30);
    t.insert_val_avl(20);
    t.insert_val_avl(10);
    // the left-left chain is resolved by one right rotation: root 20 with
    // children 10 and 30
    assert_eq!(t.structure_avl(), vec![(20, 0), (10, 1), (30, 1)]);
    assert_eq!(t.height_of_tree_avl(), 2);
    assert_eq!(t.count_leaves_avl(), 2);
    assert_eq!(t.in_order_traversal_avl(), vec![10, 20, 30]);
    assert!(!t.is_tree_empty_avl());
}

#[test]
fn avl_insert_10_20_30_left_rotation() {
    let mut t = AVL_Tree::new();
    t.insert_val_avl(10);
    t.insert_val_avl(20);
    t.insert_val_avl(30);
    assert_eq!(t.structure_avl(), vec![(20, 0), (10, 1), (30, 1)]);
    assert_eq!(t.height_of_tree_avl(), 2);
}

#[test]
fn avl_double_rotations_lift_the_middle_key() {
    let mut t = AVL_Tree::new();
    t.insert_val_avl(30);
    t.insert_val_avl(10);
    t.insert_val_avl(20);
    assert_eq!(t.structure_avl(), vec![(20, 0), (10, 1), (30, 1)]);

    let mut u = AVL_Tree::new();
    u.insert_val_avl(10);
    u.insert_val_avl(30);
    u.insert_val_avl(20);
    assert_eq!(u.structure_avl(), vec![(20, 0), (10, 1), (30, 1)]);
}

#[test]
fn avl_contains_after_insert() {
    let mut t = AVL_Tree::new();
    assert!(!t.is_node_exists_avl(42));
    t.insert_val_avl(42);
    assert!(t.is_node_exists_avl(42));
    t.insert_val_avl(7);
    assert!(t.is_node_exists_avl(7));
    assert!(t.is_node_exists_avl(42));
    assert!(!t.is_node_exists_avl(8));
}

#[test]
fn avl_duplicate_insert_is_noop() {
    let mut t = AVL_Tree::new();
    t.insert_val_avl(5);
    t.insert_val_avl(5);
    assert_eq!(t.in_order_traversal_avl(), vec![5]);
    assert_eq!(t.count_leaves_avl(), 1);
    assert_eq!(t.height_of_tree_avl(), 1);
    t.insert_val_avl(3);
    t.insert_val_avl(3);
    assert_eq!(t.in_order_traversal_avl(), vec![3, 5]);
}

#[test]
fn avl_sequential_inserts_stay_balanced() {
    let mut t = AVL_Tree::new();
    for k in 1..=10u32 {
        t.insert_val_avl(k);
    }
    assert_eq!(
        t.structure_avl(),
        vec![
            (4, 0),
            (2, 1),
            (1, 2),
            (3, 2),
            (8, 1),
            (6, 2),
            (5, 3),
            (7, 3),
            (9, 2),
            (10, 3),
        ]
    );
    assert_eq!(t.height_of_tree_avl(), 4);
    assert_eq!(t.count_leaves_avl(), 5);
    assert_eq!(t.in_order_traversal_avl(), (1..=10u32).collect::<Vec<u32>>());
}

#[test]
fn avl_scrambled_inserts_sort_and_balance() {
    let keys = [50u32, 30, 70, 20, 40, 60, 80, 10, 25, 35, 45, 55, 65, 75, 85, 5];
    let mut t = AVL_Tree::new();
    for &k in keys.iter() {
        t.insert_val_avl(k);
    }
    let mut expected: Vec<u32> = keys.to_vec();
    expected.sort();
    assert_eq!(t.in_order_traversal_avl(), expected);
    assert_eq!(t.height_of_tree_avl(), 5);
    assert_eq!(t.count_leaves_avl(), 8);
    for &k in keys.iter() {
        assert!(t.is_node_exists_avl(k));
    }
    assert!(!t.is_node_exists_avl(0));
    assert!(!t.is_node_exists_avl(51));
    assert!(!t.is_node_exists_avl(100));
}

#[test]
fn avl_structure_lists_nodes_before_their_subtrees() {
    let keys = [50u32, 30, 70, 20, 40, 60, 80, 10, 25, 35, 45, 55, 65, 75, 85, 5];
    let mut t = AVL_Tree::new();
    for &k in keys.iter() {
        t.insert_val_avl(k);
    }
    let s = t.structure_avl();
    assert_eq!(s.len(), keys.len());
    let root: Vec<&(u32, u64)> = s.iter().filter(|e| e.1 == 0).collect();
    assert_eq!(root.len(), 1);
    assert_eq!(root[0].0, 50);
}

#[test]
fn avl_boundary_keys() {
    let mut t = AVL_Tree::new();
    t.insert_val_avl(0);
    t.insert_val_avl(u32::MAX);
    t.insert_val_avl(1);
    assert_eq!(t.in_order_traversal_avl(), vec![0, 1, u32::MAX]);
    assert!(t.is_node_exists_avl(0));
    assert!(t.is_node_exists_avl(u32::MAX));
    assert!(!t.is_node_exists_avl(2));
    assert_eq!(t.height_of_tree_avl(), 2);
}
