use bst::{edges, height, leaves, nodes, traverse, Bag, BST};

fn build(values: &[i32]) -> BST<i32> {
    let mut tree = BST::Empty;
    for v in values {
        tree.insert(*v);
    }
    tree
}

fn dump(tree: &BST<i32>) -> String {
    format!("{:?}", tree)
}

#[test]
fn insert_into_empty_makes_a_leaf() {
    let mut tree: BST<i32> = BST::Empty;
    tree.insert(4);
    assert_eq!(dump(&tree), "Leaf(4)");
}

#[test]
fn insert_smaller_value_goes_left_of_a_leaf() {
    let tree = build(&[4, 2]);
    assert_eq!(dump(&tree), "INode(Leaf(2), 4, Empty)");
}

#[test]
fn insert_larger_value_goes_right_of_a_leaf() {
    let tree = build(&[4, 9]);
    assert_eq!(dump(&tree), "INode(Empty, 4, Leaf(9))");
}

#[test]
fn insert_duplicate_into_leaf_changes_nothing() {
    let tree = build(&[4, 4]);
    assert_eq!(dump(&tree), "Leaf(4)");
}

#[test]
fn insert_descends_by_comparison() {
    let tree = build(&[10, 5, 15, 3, 7]);
    assert_eq!(dump(&tree), "INode(INode(Leaf(3), 5, Leaf(7)), 10, Leaf(15))");
}

#[test]
fn insert_duplicate_keeps_node_count() {
    let mut tree = build(&[10, 5, 15, 3, 7]);
    let before = nodes(&tree);
    tree.insert(7);
    tree.insert(10);
    assert_eq!(nodes(&tree), before);
    assert_eq!(dump(&tree), "INode(INode(Leaf(3), 5, Leaf(7)), 10, Leaf(15))");
}

#[test]
fn insert_new_value_adds_one_node() {
    let mut tree = build(&[10, 5, 15]);
    assert_eq!(nodes(&tree), 3);
    tree.insert(12);
    assert_eq!(nodes(&tree), 4);
}

#[test]
fn contains_matches_what_was_inserted() {
    let values = [8, 3, 10, 1, 6, 14, 4, 7, 13];
    let tree = build(&values);
    for v in -2..20 {
        assert_eq!(tree.contains(v), values.contains(&v), "value {}", v);
    }
}

#[test]
fn contains_on_empty_is_false() {
    let tree: BST<i32> = BST::Empty;
    assert!(!tree.contains(0));
}

#[test]
fn scenario_with_a_repeated_value() {
    let tree = build(&[320, 320, 319, 2, 5, 7, 420]);
    assert_eq!(nodes(&tree), 6);
    assert!(tree.contains(319));
    assert!(!tree.contains(1));
}

#[test]
fn min_and_max_of_five_values() {
    let tree = build(&[5, 2, 7, 1, 3]);
    assert_eq!(tree.min_element(), Some(1));
    assert_eq!(tree.max_element(), Some(7));
}

#[test]
fn min_and_max_of_empty_are_none() {
    let tree: BST<i32> = BST::Empty;
    assert_eq!(tree.min_element(), None);
    assert_eq!(tree.max_element(), None);
}

#[test]
fn min_and_max_of_a_leaf_are_its_value() {
    let tree = build(&[42]);
    assert_eq!(tree.min_element(), Some(42));
    assert_eq!(tree.max_element(), Some(42));
}

#[test]
fn min_descends_left_to_the_end() {
    let tree = build(&[50, 30, 70, 20, 40, 10, 25]);
    assert_eq!(tree.min_element(), Some(10));
    assert_eq!(tree.max_element(), Some(70));
}

#[test]
fn min_of_node_without_left_child_is_its_value() {
    let tree = build(&[1, 2, 3]);
    assert_eq!(tree.min_element(), Some(1));
    assert_eq!(tree.max_element(), Some(3));
}

#[test]
fn delete_from_empty_is_a_no_op() {
    let mut tree: BST<i32> = BST::Empty;
    tree.delete(1);
    assert_eq!(dump(&tree), "Empty");
}

#[test]
fn delete_the_value_of_a_leaf_empties_it() {
    let mut tree = build(&[1]);
    tree.delete(1);
    assert_eq!(dump(&tree), "Empty");
}

#[test]
fn delete_another_value_from_a_leaf_is_a_no_op() {
    let mut tree = build(&[1]);
    tree.delete(2);
    assert_eq!(dump(&tree), "Leaf(1)");
}

#[test]
fn delete_root_takes_the_greatest_of_the_left() {
    let mut tree = build(&[10, 5, 15, 3, 7]);
    tree.delete(10);
    match &tree {
        BST::INode(_, value, _) => assert_eq!(*value, 7),
        other => panic!("root is {:?}", other),
    }
    assert_eq!(traverse(&tree), vec![3, 5, 7, 15]);
    assert_eq!(dump(&tree), "INode(INode(Leaf(3), 5, Empty), 7, Leaf(15))");
}

#[test]
fn delete_root_without_left_takes_the_least_of_the_right() {
    let mut tree = build(&[10, 20, 15, 30]);
    assert_eq!(dump(&tree), "INode(Empty, 10, INode(Leaf(15), 20, Leaf(30)))");
    tree.delete(10);
    assert_eq!(dump(&tree), "INode(Empty, 15, INode(Empty, 20, Leaf(30)))");
}

#[test]
fn delete_root_with_a_single_right_leaf_collapses_to_a_leaf() {
    let mut tree = build(&[10, 20]);
    tree.delete(10);
    assert_eq!(dump(&tree), "Leaf(20)");
}

#[test]
fn delete_root_with_a_single_left_leaf_becomes_a_leaf() {
    let mut tree = build(&[10, 5]);
    tree.delete(10);
    assert_eq!(dump(&tree), "Leaf(5)");
}

#[test]
fn delete_the_last_child_turns_the_node_into_a_leaf() {
    let mut tree = build(&[10, 5]);
    tree.delete(5);
    assert_eq!(dump(&tree), "Leaf(10)");
    assert_eq!(leaves(&tree), 1);
    tree.delete(10);
    assert_eq!(dump(&tree), "Empty");
}

#[test]
fn delete_deep_value_keeps_the_rest() {
    let mut tree = build(&[8, 3, 10, 1, 6, 14, 4, 7, 13]);
    tree.delete(6);
    assert_eq!(traverse(&tree), vec![1, 3, 4, 7, 8, 10, 13, 14]);
    assert!(!tree.contains(6));
    assert!(tree.is_well_formed());
}

#[test]
fn delete_absent_value_changes_nothing() {
    let values = [8, 3, 10, 1, 6, 14];
    let mut tree = build(&values);
    let before = dump(&tree);
    let count = nodes(&tree);
    tree.delete(5);
    assert_eq!(nodes(&tree), count);
    assert_eq!(dump(&tree), before);
    for v in 0..16 {
        assert_eq!(tree.contains(v), values.contains(&v));
    }
}

#[test]
fn delete_present_value_removes_one_node() {
    let mut tree = build(&[8, 3, 10, 1, 6, 14]);
    tree.delete(3);
    assert_eq!(nodes(&tree), 5);
    assert!(!tree.contains(3));
    assert!(tree.contains(1) && tree.contains(6));
}

#[test]
fn delete_everything_in_any_order_ends_empty() {
    let values = [8, 3, 10, 1, 6, 14, 4, 7, 13];
    let mut tree = build(&values);
    for v in [6, 8, 1, 14, 3, 13, 4, 10, 7] {
        tree.delete(v);
        assert!(tree.is_well_formed(), "after deleting {}", v);
        assert!(!tree.contains(v));
    }
    assert_eq!(dump(&tree), "Empty");
}

#[test]
fn insert_then_delete_restores_the_traversal() {
    let mut tree = build(&[8, 3, 10, 1, 6, 14]);
    let before = traverse(&tree);
    tree.insert(5);
    assert_eq!(traverse(&tree), vec![1, 3, 5, 6, 8, 10, 14]);
    tree.delete(5);
    assert_eq!(traverse(&tree), before);
}

#[test]
fn traversal_is_strictly_ascending() {
    let tree = build(&[41, 7, 99, 7, 23, 64, 1, 41, 88, 15]);
    let values = traverse(&tree);
    assert_eq!(values, vec![1, 7, 15, 23, 41, 64, 88, 99]);
    for pair in values.windows(2) {
        assert!(pair[0] < pair[1]);
    }
}

#[test]
fn traversal_of_empty_is_empty() {
    let tree: BST<i32> = BST::Empty;
    assert_eq!(traverse(&tree), Vec::<i32>::new());
}

#[test]
fn counts_of_the_empty_tree() {
    let tree: BST<i32> = BST::Empty;
    assert_eq!(nodes(&tree), 0);
    assert_eq!(leaves(&tree), 0);
    assert_eq!(edges(&tree), 0);
    assert_eq!(height(&tree), 0);
}

#[test]
fn counts_of_a_single_value() {
    let tree = build(&[3]);
    assert_eq!(nodes(&tree), 1);
    assert_eq!(leaves(&tree), 1);
    assert_eq!(edges(&tree), 0);
    assert_eq!(height(&tree), 1);
}

#[test]
fn counts_of_a_small_tree() {
    let tree = build(&[10, 5, 15, 3, 7]);
    assert_eq!(nodes(&tree), 5);
    assert_eq!(leaves(&tree), 3);
    assert_eq!(edges(&tree), 4);
    assert_eq!(height(&tree), 3);
}

#[test]
fn counts_of_a_tree_with_empty_children() {
    let tree = build(&[320, 320, 319, 2, 5, 7, 420]);
    assert_eq!(
        dump(&tree),
        "INode(INode(INode(Empty, 2, INode(Empty, 5, Leaf(7))), 319, Empty), 320, Leaf(420))"
    );
    assert_eq!(nodes(&tree), 6);
    assert_eq!(leaves(&tree), 2);
    assert_eq!(edges(&tree), 5);
    assert_eq!(height(&tree), 5);
}

#[test]
fn sorted_input_makes_a_tree_as_high_as_it_has_nodes() {
    let tree = build(&[1, 2, 3, 4, 5, 6]);
    assert_eq!(nodes(&tree), 6);
    assert_eq!(height(&tree), 6);
    assert_eq!(leaves(&tree), 1);
    assert_eq!(edges(&tree), 5);
}

#[test]
fn edges_are_one_less_than_nodes() {
    let mut tree: BST<i32> = BST::Empty;
    for v in [50, 20, 80, 10, 30, 70, 90, 25, 35, 75] {
        tree.insert(v);
        assert_eq!(edges(&tree), nodes(&tree) - 1);
        assert!(leaves(&tree) <= nodes(&tree));
        assert!(height(&tree) <= nodes(&tree));
    }
}

#[test]
fn height_of_a_childless_inner_node_is_one() {
    let tree: BST<i32> = BST::INode(Box::new(BST::Empty), 1, Box::new(BST::Empty));
    assert_eq!(nodes(&tree), 1);
    assert_eq!(height(&tree), 1);
    assert_eq!(leaves(&tree), 0);
    assert_eq!(edges(&tree), 0);
}

#[test]
fn well_formed_trees_pass_the_test() {
    let empty: BST<i32> = BST::Empty;
    assert!(empty.is_well_formed());
    assert!(build(&[1]).is_well_formed());
    assert!(build(&[10, 5, 15, 3, 7]).is_well_formed());
}

#[test]
fn childless_inner_node_is_not_well_formed() {
    let tree: BST<i32> = BST::INode(Box::new(BST::Empty), 1, Box::new(BST::Empty));
    assert!(!tree.is_well_formed());
}

#[test]
fn unordered_tree_is_not_well_formed() {
    let tree: BST<i32> = BST::INode(Box::new(BST::Leaf(9)), 5, Box::new(BST::Empty));
    assert!(!tree.is_well_formed());
    let equal: BST<i32> = BST::INode(Box::new(BST::Empty), 5, Box::new(BST::Leaf(5)));
    assert!(!equal.is_well_formed());
    let deep: BST<i32> = BST::INode(
        Box::new(BST::INode(Box::new(BST::Empty), 3, Box::new(BST::Leaf(12)))),
        10,
        Box::new(BST::Empty),
    );
    assert!(!deep.is_well_formed());
}

#[test]
fn clone_copies_the_tree() {
    let tree = build(&[10, 5, 15, 3, 7]);
    let mut copy = tree.clone();
    assert_eq!(dump(&copy), dump(&tree));
    copy.delete(5);
    assert!(tree.contains(5));
    assert!(!copy.contains(5));
}

#[test]
fn works_on_other_ordered_types() {
    let mut tree: BST<u64> = BST::Empty;
    for v in [3u64, 1, 2] {
        tree.insert(v);
    }
    assert_eq!(traverse(&tree), vec![1u64, 2, 3]);
    let mut words: BST<(u8, u8)> = BST::Empty;
    words.insert((2, 1));
    words.insert((1, 9));
    words.insert((2, 0));
    assert_eq!(traverse(&words), vec![(1, 9), (2, 0), (2, 1)]);
    assert_eq!(words.min_element(), Some((1, 9)));
}

#[test]
fn long_run_agrees_with_a_sorted_set() {
    let mut tree: BST<i32> = BST::Empty;
    let mut model = std::collections::BTreeSet::new();
    let mut state: u32 = 12345;
    for _ in 0..2000 {
        state = state.wrapping_mul(1664525).wrapping_add(1013904223);
        let value = ((state >> 16) % 64) as i32;
        if (state >> 8) % 3 == 0 {
            tree.delete(value);
            model.remove(&value);
        } else {
            tree.insert(value);
            model.insert(value);
        }
        assert!(tree.is_well_formed());
        assert_eq!(nodes(&tree), model.len());
        assert_eq!(tree.min_element(), model.iter().next().copied());
        assert_eq!(tree.max_element(), model.iter().next_back().copied());
    }
    assert_eq!(traverse(&tree), model.iter().copied().collect::<Vec<i32>>());
    for v in 0..64 {
        assert_eq!(tree.contains(v), model.contains(&v));
    }
}
