use bstree::tree::{binary_tree_edges, Node};

#[test]
fn plain_tree_construction_and_links() {
    let mut t = Node::new_nodelink(5);
    let r = t.root.unwrap();
    assert_eq!(t.value_of(r), 5);
    Node::add_left_child(&mut t, r, 3);
    Node::add_right_child(&mut t, r, 7);
    let left = Node::get_nodelink_copy(&t, r).left.unwrap();
    let right = Node::get_nodelink_copy(&t, r).right.unwrap();
    assert_eq!(t.value_of(left), 3);
    assert_eq!(t.value_of(right), 7);
    assert_eq!(Node::get_nodelink_copy(&t, left).parent, Some(r));
    assert_eq!(Node::get_nodelink_copy(&t, right).parent, Some(r));
}

#[test]
fn plain_tree_sibling_lookup() {
    let mut t = Node::new_nodelink(5);
    let r = t.root.unwrap();
    Node::add_left_child(&mut t, r, 3);
    Node::add_right_child(&mut t, r, 7);
    let left = Node::get_nodelink_copy(&t, r).left.unwrap();
    let right = Node::get_nodelink_copy(&t, r).right.unwrap();
    assert_eq!(Node::get_sibling(&t, left), Some(right));
    assert_eq!(Node::get_sibling(&t, right), Some(left));
    assert_eq!(Node::get_sibling(&t, r), None);
}

#[test]
fn plain_tree_sibling_of_only_child() {
    let mut t = Node::new_nodelink(2);
    let r = t.root.unwrap();
    Node::add_right_child(&mut t, r, 10);
    let right = Node::get_nodelink_copy(&t, r).right.unwrap();
    assert_eq!(Node::get_sibling(&t, right), None);
}

#[test]
fn plain_tree_count_nodes() {
    let mut t = Node::new_nodelink(5);
    let r = t.root.unwrap();
    assert_eq!(Node::count_nodes(&t, r), 1);
    Node::add_left_child(&mut t, r, 3);
    Node::add_right_child(&mut t, r, 7);
    let left = Node::get_nodelink_copy(&t, r).left.unwrap();
    Node::add_left_child(&mut t, left, 2);
    Node::add_right_child(&mut t, left, 4);
    let right = Node::get_nodelink_copy(&t, r).right.unwrap();
    Node::add_right_child(&mut t, right, 10);
    assert_eq!(Node::count_nodes(&t, r), 6);
    assert_eq!(Node::count_nodes(&t, left), 3);
    assert_eq!(Node::count_nodes(&t, right), 2);
    // the accumulator form folds the accumulator into every visit
    assert_eq!(Node::count_nodes_by_nodelink(&t, right, 0), 2);
    assert_eq!(Node::count_nodes_by_nodelink(&t, left, 1), 6);
}

#[test]
fn plain_tree_depth() {
    let mut t = Node::new_nodelink(5);
    let r = t.root.unwrap();
    assert_eq!(Node::tree_depth(&t, r), 0);
    Node::add_left_child(&mut t, r, 3);
    Node::add_right_child(&mut t, r, 7);
    assert_eq!(Node::tree_depth(&t, r), 1);
    let left = Node::get_nodelink_copy(&t, r).left.unwrap();
    Node::add_left_child(&mut t, left, 2);
    assert_eq!(Node::tree_depth(&t, r), 2);
    let two = Node::get_nodelink_copy(&t, left).left.unwrap();
    Node::add_right_child(&mut t, two, 1);
    assert_eq!(Node::tree_depth(&t, r), 3);
    assert_eq!(Node::tree_depth(&t, left), 2);
}

#[test]
fn plain_tree_find_by_value_follows_one_branch() {
    let mut t = Node::new_nodelink(5);
    let r = t.root.unwrap();
    Node::add_left_child(&mut t, r, 3);
    Node::add_right_child(&mut t, r, 7);
    let left = Node::get_nodelink_copy(&t, r).left.unwrap();
    Node::add_left_child(&mut t, left, 2);
    // found at the top or down the left branch
    assert_eq!(Node::get_node_by_value(&t, r, 5), Some(r));
    assert_eq!(Node::get_node_by_value(&t, r, 3), Some(left));
    assert!(Node::get_node_by_value(&t, r, 2).is_some());
    // the walk enters the left branch and never reaches 7
    assert_eq!(Node::get_node_by_value(&t, r, 7), None);
}

#[test]
fn plain_tree_find_by_full_property() {
    let mut t = Node::new_nodelink(5);
    let r = t.root.unwrap();
    Node::add_left_child(&mut t, r, 3);
    let left = Node::get_nodelink_copy(&t, r).left.unwrap();
    Node::add_left_child(&mut t, left, 2);
    let probe = Node::get_nodelink_copy(&t, left);
    assert_eq!(Node::get_node_by_full_property(&t, &probe, r), Some(left));
    let mut stranger = probe.clone();
    stranger.value = 4;
    assert_eq!(Node::get_node_by_full_property(&t, &stranger, r), None);
}

#[test]
fn plain_tree_edges_cover_every_link() {
    let mut t = Node::new_nodelink(5);
    let r = t.root.unwrap();
    Node::add_left_child(&mut t, r, 3);
    Node::add_right_child(&mut t, r, 7);
    let left = Node::get_nodelink_copy(&t, r).left.unwrap();
    Node::add_left_child(&mut t, left, 2);
    Node::add_right_child(&mut t, left, 4);
    let edges = binary_tree_edges(&t);
    assert_eq!(edges.len(), 4);
    for (p, c) in [(5, 3), (5, 7), (3, 2), (3, 4)] {
        assert!(edges.contains(&(p, c)), "missing edge {}--{}", p, c);
    }
}

#[test]
fn plain_tree_upgrade_back_reference() {
    let mut t = Node::new_nodelink(1);
    let r = t.root.unwrap();
    Node::add_left_child(&mut t, r, 0);
    let left = Node::get_nodelink_copy(&t, r).left.unwrap();
    let back = Node::get_nodelink_copy(&t, left).parent;
    assert_eq!(Node::upgrade_weak_to_strong(&t, back), Some(r));
    assert_eq!(Node::upgrade_weak_to_strong(&t, None), None);
}
