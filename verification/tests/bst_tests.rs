use bstree::bst::{tree_edges, BstNode, Tree};

/// Builds the example tree by inserting 15, 5, 18, 3, 7, 17, 20 in
/// that order.
fn example_tree() -> Tree {
    let mut t = BstNode::new_bst_nodelink(15);
    for k in [5, 18, 3, 7, 17, 20] {
        let r = t.root_of().unwrap();
        BstNode::tree_insert(&mut t, r, k);
    }
    t
}

fn root_of(t: &Tree) -> usize {
    t.root_of().unwrap()
}

#[test]
fn new_tree_holds_one_key() {
    let t = BstNode::new_bst_nodelink(42);
    let r = root_of(&t);
    assert_eq!(t.key_of(r), 42);
    assert_eq!(t.inorder(), vec![42]);
    assert!(t.left_of(r).is_none());
    assert!(t.right_of(r).is_none());
    assert!(t.parent_of(r).is_none());
}

#[test]
fn example_scenario_inorder_min_max() {
    let t = example_tree();
    let r = root_of(&t);
    assert_eq!(t.inorder(), vec![3, 5, 7, 15, 17, 18, 20]);
    let mn = BstNode::minimum(&t, r);
    let mx = BstNode::maximum(&t, r);
    assert_eq!(t.key_of(mn), 3);
    assert_eq!(t.key_of(mx), 20);
}

#[test]
fn example_scenario_successors() {
    let t = example_tree();
    let r = root_of(&t);
    let seven = BstNode::tree_search(&t, r, 7).unwrap();
    let succ = BstNode::tree_successor(&t, seven).unwrap();
    assert_eq!(t.key_of(succ), 15);
    let twenty = BstNode::tree_search(&t, r, 20).unwrap();
    assert!(BstNode::tree_successor(&t, twenty).is_none());
}

#[test]
fn example_scenario_delete_root() {
    let mut t = example_tree();
    BstNode::tree_delete(&mut t, 15);
    assert_eq!(t.inorder(), vec![3, 5, 7, 17, 18, 20]);
    let r = root_of(&t);
    assert_eq!(t.key_of(r), 17);
    let gone = BstNode::tree_search(&t, r, 15);
    assert!(gone.is_none());
}

#[test]
fn search_finds_every_inserted_key() {
    let t = example_tree();
    let r = root_of(&t);
    for k in [15, 5, 18, 3, 7, 17, 20] {
        let found = BstNode::tree_search(&t, r, k).expect("inserted key must be found");
        assert_eq!(t.key_of(found), k);
    }
    assert!(BstNode::tree_search(&t, r, 4).is_none());
    assert!(BstNode::tree_search(&t, r, 100).is_none());
}

#[test]
fn successor_walks_keys_in_order() {
    let t = example_tree();
    let r = root_of(&t);
    let sorted = [3, 5, 7, 15, 17, 18, 20];
    for w in sorted.windows(2) {
        let node = BstNode::tree_search(&t, r, w[0]).unwrap();
        let succ = BstNode::tree_successor(&t, node).unwrap();
        assert_eq!(t.key_of(succ), w[1]);
    }
}

#[test]
fn successor_simpler_matches_successor() {
    let t = example_tree();
    let r = root_of(&t);
    for k in [3, 5, 7, 15, 17, 18] {
        let node = BstNode::tree_search(&t, r, k).unwrap();
        let a = BstNode::tree_successor(&t, node).map(|n| t.key_of(n));
        let b = BstNode::tree_successor_simpler(&t, node).map(|n| t.key_of(n));
        assert_eq!(a, b);
    }
    let mx = BstNode::tree_search(&t, r, 20).unwrap();
    assert!(BstNode::tree_successor_simpler(&t, mx).is_none());
}

#[test]
fn delete_leaf_keeps_other_keys() {
    let mut t = example_tree();
    BstNode::tree_delete(&mut t, 3);
    assert_eq!(t.inorder(), vec![5, 7, 15, 17, 18, 20]);
    let r = root_of(&t);
    assert!(BstNode::tree_search(&t, r, 3).is_none());
    for k in [5, 7, 15, 17, 18, 20] {
        assert!(BstNode::tree_search(&t, r, k).is_some());
    }
}

#[test]
fn delete_node_with_one_child() {
    // 10 has a single right child 12 after these inserts
    let mut t = BstNode::new_bst_nodelink(8);
    for k in [10, 12, 4] {
        let r = root_of(&t);
        BstNode::tree_insert(&mut t, r, k);
    }
    BstNode::tree_delete(&mut t, 10);
    assert_eq!(t.inorder(), vec![4, 8, 12]);
    let r = root_of(&t);
    let twelve = BstNode::tree_search(&t, r, 12).unwrap();
    assert_eq!(t.parent_of(twelve).map(|p| t.key_of(p)), Some(8));
}

#[test]
fn delete_node_with_two_children_direct_successor() {
    // deleting 18: its successor 20 is its direct right child
    let mut t = example_tree();
    BstNode::tree_delete(&mut t, 18);
    assert_eq!(t.inorder(), vec![3, 5, 7, 15, 17, 20]);
}

#[test]
fn delete_node_with_two_children_deep_successor() {
    // 10's successor 11 sits at the bottom of the right subtree
    let mut t = BstNode::new_bst_nodelink(10);
    for k in [5, 14, 12, 11, 13, 16, 2, 7] {
        let r = root_of(&t);
        BstNode::tree_insert(&mut t, r, k);
    }
    BstNode::tree_delete(&mut t, 10);
    assert_eq!(t.inorder(), vec![2, 5, 7, 11, 12, 13, 14, 16]);
    let r = root_of(&t);
    assert_eq!(t.key_of(r), 11);
}

#[test]
fn delete_root_with_only_right_child_promotes_successor() {
    // the root 10 has no left child; its successor 15 sits at the
    // bottom of the right subtree and takes over the root position
    let mut t = BstNode::new_bst_nodelink(10);
    for k in [20, 15, 25] {
        let r = root_of(&t);
        BstNode::tree_insert(&mut t, r, k);
    }
    BstNode::tree_delete(&mut t, 10);
    assert_eq!(t.inorder(), vec![15, 20, 25]);
    let r = root_of(&t);
    assert_eq!(t.key_of(r), 15);
}

#[test]
fn delete_root_with_direct_right_leaf_promotes_it() {
    let mut t = BstNode::new_bst_nodelink(10);
    let r = root_of(&t);
    BstNode::tree_insert(&mut t, r, 20);
    BstNode::tree_delete(&mut t, 10);
    assert_eq!(t.inorder(), vec![20]);
    assert_eq!(t.key_of(root_of(&t)), 20);
}

#[test]
fn delete_missing_key_is_silent() {
    let mut t = example_tree();
    BstNode::tree_delete(&mut t, 99);
    assert_eq!(t.inorder(), vec![3, 5, 7, 15, 17, 18, 20]);
}

#[test]
fn delete_down_to_empty_and_refill() {
    let mut t = BstNode::new_bst_nodelink(2);
    let r = root_of(&t);
    BstNode::tree_insert(&mut t, r, 1);
    BstNode::tree_delete(&mut t, 2);
    BstNode::tree_delete(&mut t, 1);
    assert!(t.root_of().is_none());
    assert_eq!(t.inorder(), Vec::<i32>::new());
    // inserting into the emptied tree makes a new root
    BstNode::tree_insert(&mut t, 0, 9);
    let r2 = root_of(&t);
    assert_eq!(t.key_of(r2), 9);
    assert_eq!(t.inorder(), vec![9]);
}

#[test]
fn get_root_from_deep_node() {
    let t = example_tree();
    let r = root_of(&t);
    let three = BstNode::tree_search(&t, r, 3).unwrap();
    let found_root = BstNode::get_root(&t, three);
    assert_eq!(found_root, r);
    assert_eq!(t.key_of(found_root), 15);
}

#[test]
fn parent_slots_point_back() {
    let mut t = example_tree();
    BstNode::tree_delete(&mut t, 5);
    let r = root_of(&t);
    for k in [3, 7, 15, 17, 18, 20] {
        let n = BstNode::tree_search(&t, r, k).unwrap();
        match t.parent_of(n) {
            Some(p) => {
                let left_back = t.left_of(p) == Some(n);
                let right_back = t.right_of(p) == Some(n);
                assert!(left_back || right_back);
            },
            None => {
                assert_eq!(t.root_of(), Some(n));
            },
        }
    }
}

#[test]
fn inorder_stays_sorted_under_mixed_operations() {
    let mut t = BstNode::new_bst_nodelink(50);
    for k in [30, 70, 20, 40, 60, 80, 35, 45, 75, 85] {
        let r = root_of(&t);
        BstNode::tree_insert(&mut t, r, k);
    }
    for k in [30, 80, 50] {
        BstNode::tree_delete(&mut t, k);
    }
    let out = t.inorder();
    assert_eq!(out, vec![20, 35, 40, 45, 60, 70, 75, 85]);
    for w in out.windows(2) {
        assert!(w[0] < w[1]);
    }
}

#[test]
fn add_children_builds_a_tree_by_hand() {
    let mut t = BstNode::new_bst_nodelink(15);
    let r = root_of(&t);
    BstNode::add_left_child(&mut t, r, 6);
    BstNode::add_right_child(&mut t, r, 18);
    let six = BstNode::tree_search(&t, r, 6).unwrap();
    BstNode::add_left_child(&mut t, six, 3);
    BstNode::add_right_child(&mut t, six, 7);
    let eighteen = BstNode::tree_search(&t, r, 18).unwrap();
    BstNode::add_left_child(&mut t, eighteen, 17);
    BstNode::add_right_child(&mut t, eighteen, 20);
    assert_eq!(t.inorder(), vec![3, 6, 7, 15, 17, 18, 20]);
    let three = BstNode::tree_search(&t, r, 3).unwrap();
    assert_eq!(t.parent_of(three).map(|p| t.key_of(p)), Some(6));
}

#[test]
fn node_copy_reports_the_record() {
    let t = example_tree();
    let r = root_of(&t);
    let nd = BstNode::get_bst_nodelink_copy(&t, r);
    assert_eq!(nd.key, 15);
    assert!(nd.parent.is_none());
    assert!(nd.left.is_some());
    assert!(nd.right.is_some());
}

#[test]
fn edges_cover_the_example_tree() {
    let t = example_tree();
    let edges = tree_edges(&t);
    assert_eq!(edges.len(), 6);
    for (p, c) in [(15, 5), (15, 18), (5, 3), (5, 7), (18, 17), (18, 20)] {
        assert!(edges.contains(&(p, c)), "missing edge {}--{}", p, c);
    }
}

#[test]
fn minimum_and_maximum_of_subtrees() {
    let t = example_tree();
    let r = root_of(&t);
    let eighteen = BstNode::tree_search(&t, r, 18).unwrap();
    assert_eq!(t.key_of(BstNode::minimum(&t, eighteen)), 17);
    assert_eq!(t.key_of(BstNode::maximum(&t, eighteen)), 20);
    let five = BstNode::tree_search(&t, r, 5).unwrap();
    assert_eq!(t.key_of(BstNode::minimum(&t, five)), 3);
    assert_eq!(t.key_of(BstNode::maximum(&t, five)), 7);
}

#[test]
fn larger_tree_search_and_successor_sweep() {
    let mut t = BstNode::new_bst_nodelink(15);
    for k in [
        5, 18, 3, 7, 17, 20, 2, 4, 6, 10, 16, 19, 25, 1, 8, 11, 24, 9, 13, 23, 12, 14, 22, 21,
    ] {
        let r = root_of(&t);
        BstNode::tree_insert(&mut t, r, k);
    }
    let r = root_of(&t);
    let expected: Vec<i32> = (1..=25).collect();
    assert_eq!(t.inorder(), expected);
    for k in 1..=24 {
        let n = BstNode::tree_search(&t, r, k).unwrap();
        let s = BstNode::tree_successor(&t, n).unwrap();
        assert_eq!(t.key_of(s), k + 1);
    }
    let top = BstNode::tree_search(&t, r, 25).unwrap();
    assert!(BstNode::tree_successor(&t, top).is_none());
}
