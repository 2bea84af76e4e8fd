use bezier_biarc::tree::Tree;

fn leaf_count(tree: &Tree<usize>) -> usize {
    let mut count = 0;
    for i in 0..tree.len() {
        let node = tree.get(i).unwrap();
        if tree.left(node).is_none() && tree.right(node).is_none() {
            count += 1;
        }
    }
    count
}

#[test]
fn complete_depth_zero_is_a_single_leaf() {
    let tree = Tree::new_complete(0, |i| i);
    assert_eq!(tree.len(), 1);
    let root = tree.get(0).unwrap();
    assert!(tree.left(root).is_none());
    assert!(tree.right(root).is_none());
    assert!(tree.parent(root).is_none());
}

#[test]
fn complete_tree_links_follow_positions() {
    let tree = Tree::new_complete(2, |i| i * 10);
    assert_eq!(tree.len(), 7);
    for i in 0..7 {
        let node = tree.get(i).unwrap();
        assert_eq!(node.value, i * 10);
        if i < 3 {
            assert_eq!(tree.left(node).unwrap().value, (2 * i + 1) * 10);
            assert_eq!(tree.right(node).unwrap().value, (2 * i + 2) * 10);
        } else {
            assert!(tree.left(node).is_none());
            assert!(tree.right(node).is_none());
        }
        if i == 0 {
            assert!(tree.parent(node).is_none());
        } else {
            assert_eq!(tree.parent(node).unwrap().value, ((i - 1) / 2) * 10);
        }
    }
}

#[test]
fn split_count_gives_node_and_leaf_counts() {
    for n in 0..6usize {
        let tree = Tree::new_complete(n + 1, |i| i);
        assert_eq!(tree.len(), (1usize << (n + 2)) - 1);
        assert_eq!(leaf_count(&tree), 1usize << (n + 1));
    }
}

#[test]
fn one_biarc_has_two_leaf_arcs() {
    let tree = Tree::new_complete(1, |i| i);
    assert_eq!(tree.len(), 3);
    assert_eq!(leaf_count(&tree), 2);
}

#[test]
fn more_splits_double_the_leaves() {
    let before = Tree::new_complete(2, |i| i);
    let after = Tree::new_complete(3, |i| i);
    assert_eq!(leaf_count(&after), 2 * leaf_count(&before));
}

#[test]
fn leaves_are_the_last_nodes() {
    let tree = Tree::new_complete(3, |i| i);
    for i in 0..tree.len() {
        let node = tree.get(i).unwrap();
        let is_leaf = tree.left(node).is_none() && tree.right(node).is_none();
        assert_eq!(is_leaf, i >= 7);
    }
}

#[test]
fn post_order_of_complete_tree() {
    let tree = Tree::new_complete(2, |i| i);
    assert_eq!(tree.post_trav(), vec![3, 4, 1, 5, 6, 2, 0]);
}

#[test]
fn post_order_of_single_node() {
    let tree = Tree::new_complete(0, |i| i);
    assert_eq!(tree.post_trav(), vec![0]);
}

#[test]
fn post_order_visits_each_node_once_children_first() {
    let tree = Tree::new_complete(4, |i| i);
    let order = tree.post_trav();
    assert_eq!(order.len(), tree.len());
    let mut position = vec![usize::MAX; tree.len()];
    for (p, &i) in order.iter().enumerate() {
        assert_eq!(position[i], usize::MAX);
        position[i] = p;
    }
    for i in 0..15 {
        assert!(position[2 * i + 1] < position[i]);
        assert!(position[2 * i + 2] < position[i]);
    }
}

#[test]
fn get_out_of_range_is_none() {
    let mut tree = Tree::new_complete(1, |i| i);
    assert!(tree.get(3).is_none());
    assert!(tree.get_mut(3).is_none());
    assert!(tree.get(2).is_some());
}

#[test]
fn get_mut_changes_only_that_value() {
    let mut tree = Tree::new_complete(1, |i| i);
    tree.get_mut(1).unwrap().value = 42;
    assert_eq!(tree.get(0).unwrap().value, 0);
    assert_eq!(tree.get(1).unwrap().value, 42);
    assert_eq!(tree.get(2).unwrap().value, 2);
    let root = tree.get(0).unwrap();
    assert_eq!(tree.left(root).unwrap().value, 42);
}

#[test]
fn new_node_appends_unlinked_node() {
    let mut tree = Tree::new_complete(0, |i| i);
    let id = tree.new_node(9);
    assert_eq!(id, 1);
    assert_eq!(tree.len(), 2);
    let node = tree.get(id).unwrap();
    assert_eq!(node.value, 9);
    assert!(tree.parent(node).is_none());
    assert!(tree.left(node).is_none());
    assert!(tree.right(node).is_none());
    assert_eq!(tree.post_trav(), vec![0]);
}

#[test]
fn set_children_links_both_ways() {
    let mut tree = Tree::new_complete(0, |i| i);
    let l = tree.set_left(0, 5).unwrap();
    let r = tree.set_right(0, 7).unwrap();
    assert_eq!((l, r), (1, 2));
    let root = tree.get(0).unwrap();
    assert_eq!(tree.left(root).unwrap().value, 5);
    assert_eq!(tree.right(root).unwrap().value, 7);
    let left = tree.get(l).unwrap();
    assert_eq!(tree.parent(left).unwrap().value, 0);
    let ll = tree.set_left(l, 8).unwrap();
    assert_eq!(ll, 3);
    assert_eq!(tree.post_trav(), vec![3, 1, 2, 0]);
}

#[test]
fn set_child_of_missing_node_is_none() {
    let mut tree = Tree::new_complete(0, |i| i);
    assert!(tree.set_left(1, 5).is_none());
    assert!(tree.set_right(4, 5).is_none());
    assert_eq!(tree.len(), 1);
}

#[test]
fn replacing_a_left_child_unlinks_the_old_one() {
    let mut tree = Tree::new_complete(0, |i| i);
    tree.set_left(0, 1).unwrap();
    tree.set_left(0, 2).unwrap();
    assert_eq!(tree.len(), 3);
    let root = tree.get(0).unwrap();
    assert_eq!(tree.left(root).unwrap().value, 2);
    assert_eq!(tree.post_trav(), vec![2, 0]);
}

#[test]
fn set_new_complete_replaces_the_arena() {
    let mut tree = Tree::new_complete(1, |i| i);
    tree.set_new_complete(3, |i| i + 100);
    assert_eq!(tree.len(), 15);
    assert_eq!(leaf_count(&tree), 8);
    assert_eq!(tree.get(0).unwrap().value, 100);
    tree.set_new_complete(0, |i| i);
    assert_eq!(tree.len(), 1);
}


#[test]
fn node_derefs_to_its_value() {
    let tree = Tree::new_complete(1, |i| i + 10);
    let node = tree.get(1).unwrap();
    assert_eq!(**node, 11);
    assert_eq!(node.value, 11);
}

#[test]
fn post_order_lists_leaves_left_to_right() {
    let tree = Tree::new_complete(3, |i| i);
    let leaves: Vec<usize> = tree.post_trav().into_iter().filter(|&i| i >= 7).collect();
    assert_eq!(leaves, (7..15).collect::<Vec<usize>>());
}
