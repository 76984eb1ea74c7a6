use proptest::arbitrary::any;
use proptest::test_runner::TestRunner;
use rs_sol::dsa::tree::bs_tree::BinarySearchTree;
use rs_sol::dsa::tree::bs_tree::BinarySearchTreeNode;
use rs_sol::dsa::tree::bs_tree::TraversalType;
use std::collections::HashSet;

fn tree_of(values: &[i32]) -> BinarySearchTree {
    let mut bstree = BinarySearchTree::new();
    for &value in values {
        bstree.insert(value);
    }
    bstree
}

fn depth_below(tree: &BinarySearchTree, node: Option<&BinarySearchTreeNode>) -> usize {
    match node {
        None => 0,
        Some(n) => {
            let left = depth_below(tree, tree.left_of(n));
            let right = depth_below(tree, tree.right_of(n));
            1 + left.max(right)
        }
    }
}

fn check_links(tree: &BinarySearchTree, node: &BinarySearchTreeNode) -> usize {
    let mut count = 1;
    for child in [tree.left_of(node), tree.right_of(node)].into_iter().flatten() {
        let back = tree.parent_of(child).expect("a child has a parent");
        assert_eq!(back.get_data(), node.get_data());
        count += check_links(tree, child);
    }
    count
}

#[test]
fn inorder_traversal_gives_sorted_elements() {
    let mut runner = TestRunner::default();
    let strategy = proptest::collection::vec(any::<i32>(), 1..500);

    runner
        .run(&strategy, |values| {
            let mut bstree = BinarySearchTree::new();

            for &value in &values {
                bstree.insert(value);
            }

            let mut seen_values = HashSet::new();
            let mut unique_values = Vec::new();

            for &value in &values {
                if seen_values.insert(value) {
                    unique_values.push(value);
                }
            }

            let maybe_inorder_vec = bstree.get_inorder_vec();
            if let Some(inorder_vec) = maybe_inorder_vec {
                let mut sorted = inorder_vec.clone();
                sorted.sort();
                assert_eq!(inorder_vec, sorted);
            }

            Ok(())
        })
        .unwrap();
}

#[test]
fn no_duplicate_elements() {
    let mut runner = TestRunner::default();
    let strategy = proptest::collection::vec(any::<i32>(), 1..500);

    runner
        .run(&strategy, |values| {
            let mut bstree = BinarySearchTree::new();

            for &value in &values {
                bstree.insert(value);
            }

            let mut seen_values = HashSet::new();
            let mut unique_values = Vec::new();

            for &value in &values {
                if seen_values.insert(value) {
                    unique_values.push(value);
                }
            }

            assert_eq!(
                bstree.get_len(),
                unique_values.len(),
                "bstree get_len() must match number of unique elements"
            );

            for &unique_value in &unique_values {
                let len_before_deletion = bstree.get_len();
                bstree.delete(unique_value);

                assert_eq!(bstree.get_len(), len_before_deletion - 1);

                assert!(
                    bstree.search(unique_value).is_none(),
                    "No duplicate elements should be present"
                );
            }

            assert_eq!(bstree.get_len(), 0);

            for &unique_value in &unique_values {
                assert!(bstree.search(unique_value).is_none());
            }

            Ok(())
        })
        .unwrap();
}

#[test]
fn inserted_node_should_be_found() {
    let mut runner = TestRunner::default();
    let strategy = proptest::collection::vec(any::<i32>(), 1..500);

    runner
        .run(&strategy, |values| {
            let mut bstree = BinarySearchTree::new();

            for &value in &values {
                bstree.insert(value);
            }

            let mut seen_values = HashSet::new();
            let mut unique_values_in_tree = Vec::new();
            for &v in &values {
                if seen_values.insert(v) {
                    unique_values_in_tree.push(v);
                }
            }

            for &unique_value in &unique_values_in_tree {
                assert!(
                    bstree.search(unique_value).is_some(),
                    "value {} should be present in the tree",
                    unique_value
                );
            }

            if let Some(max_value) = unique_values_in_tree.iter().max() {
                assert!(
                    bstree.search(max_value + 1).is_none(),
                    "value {} should NOT be present in the tree",
                    max_value + 1
                );
            }

            assert_eq!(
                bstree.get_len(),
                unique_values_in_tree.len(),
                "get_len MUST be the same len with unique_values_in_tree"
            );

            Ok(())
        })
        .unwrap();
}

#[test]
fn deleted_nodes_should_not_be_found() {
    let mut runner = TestRunner::default();
    let strategy = proptest::collection::vec(any::<i32>(), 1..500);

    runner
        .run(&strategy, |values| {
            let mut bstree = BinarySearchTree::new();

            for &value in &values {
                bstree.insert(value);
            }

            let mut seen_values = HashSet::new();
            let mut unique_values_in_tree = Vec::new();
            for &v in &values {
                if seen_values.insert(v) {
                    unique_values_in_tree.push(v);
                }
            }

            let nodes_to_delete: Vec<i32> = unique_values_in_tree
                .iter()
                .enumerate()
                .filter(|(i, _)| i % 2 == 0)
                .map(|(_, &v)| v)
                .collect();

            for &node_to_delete in &nodes_to_delete {
                bstree.delete(node_to_delete);
            }

            for &node in &nodes_to_delete {
                assert!(
                    bstree.search(node).is_none(),
                    "deleted value {} should not be found",
                    node
                );
            }

            let remaining_nodes_after_deletion: Vec<i32> = unique_values_in_tree
                .into_iter()
                .filter(|node| !nodes_to_delete.contains(node))
                .collect();

            for node in &remaining_nodes_after_deletion {
                assert!(
                    bstree.search(*node).is_some(),
                    "non deleted value {} should still be found",
                    node
                );
            }

            assert_eq!(
                bstree.get_len(),
                remaining_nodes_after_deletion.len(),
                "bstree get_len() must match number of remaining unique elements"
            );

            Ok(())
        })
        .unwrap();
}

#[test]
fn links_stay_answered_under_random_updates() {
    let mut runner = TestRunner::default();
    let strategy = proptest::collection::vec(any::<i8>(), 1..300);

    runner
        .run(&strategy, |values| {
            let mut bstree = BinarySearchTree::new();
            let mut model = std::collections::BTreeSet::new();
            for (step, &value) in values.iter().enumerate() {
                let value = value as i32;
                if step % 3 == 2 {
                    bstree.delete(value);
                    model.remove(&value);
                } else {
                    bstree.insert(value);
                    model.insert(value);
                }
                assert_eq!(bstree.get_len(), model.len());
                let expected: Vec<i32> = model.iter().copied().collect();
                assert_eq!(bstree.traverse(TraversalType::InOrder), Some(expected));
                match bstree.get_root() {
                    Some(root) => {
                        assert!(bstree.parent_of(root).is_none());
                        assert_eq!(check_links(&bstree, root), model.len());
                    }
                    None => assert!(model.is_empty()),
                }
            }
            Ok(())
        })
        .unwrap();
}

#[test]
fn seven_values_in_three_orders() {
    let bstree = tree_of(&[50, 30, 70, 20, 40, 60, 80]);
    assert_eq!(
        bstree.traverse(TraversalType::InOrder),
        Some(vec![20, 30, 40, 50, 60, 70, 80])
    );
    assert_eq!(
        bstree.traverse(TraversalType::PreOrder),
        Some(vec![50, 30, 20, 40, 70, 60, 80])
    );
    assert_eq!(
        bstree.traverse(TraversalType::PostOrder),
        Some(vec![20, 40, 30, 60, 80, 70, 50])
    );
    assert_eq!(bstree.get_len(), 7);
}

#[test]
fn delete_with_two_children_takes_the_predecessor() {
    let mut bstree = tree_of(&[50, 30, 70, 20, 40, 60, 80]);
    bstree.delete(30);
    assert_eq!(
        bstree.traverse(TraversalType::InOrder),
        Some(vec![20, 40, 50, 60, 70, 80])
    );
    assert_eq!(
        bstree.traverse(TraversalType::PreOrder),
        Some(vec![50, 20, 40, 70, 60, 80])
    );
    assert_eq!(bstree.get_len(), 6);
    assert!(bstree.search(30).is_none());
    let moved = bstree.search(20).expect("20 is still in the tree");
    assert_eq!(moved.get_data(), 20);
    assert_eq!(moved.num_of_childs(), 1);
    assert!(bstree.left_of(moved).is_none());
    assert_eq!(bstree.right_of(moved).map(|n| n.get_data()), Some(40));
    assert_eq!(bstree.parent_of(moved).map(|n| n.get_data()), Some(50));
}

#[test]
fn delete_of_the_top_with_two_children() {
    let mut bstree = tree_of(&[50, 30, 70, 20, 40, 60, 80]);
    bstree.delete(50);
    assert_eq!(
        bstree.traverse(TraversalType::PreOrder),
        Some(vec![40, 30, 20, 70, 60, 80])
    );
    assert_eq!(bstree.get_root().map(|n| n.get_data()), Some(40));
    assert_eq!(bstree.get_len(), 6);
}

#[test]
fn delete_of_a_leaf_and_of_a_node_with_one_child() {
    let mut bstree = tree_of(&[50, 30, 70, 20, 60, 65]);
    bstree.delete(20);
    assert_eq!(
        bstree.traverse(TraversalType::PreOrder),
        Some(vec![50, 30, 70, 60, 65])
    );
    bstree.delete(60);
    assert_eq!(
        bstree.traverse(TraversalType::PreOrder),
        Some(vec![50, 30, 70, 65])
    );
    let node = bstree.search(65).expect("65 is in the tree");
    assert_eq!(bstree.parent_of(node).map(|n| n.get_data()), Some(70));
    assert_eq!(bstree.get_len(), 4);
}

#[test]
fn left_chain_has_depth_four() {
    let mut bstree = tree_of(&[10, 9, 8, 7]);
    assert_eq!(bstree.get_depth(), 4);
    assert_eq!(depth_below(&bstree, bstree.get_root()), 4);
    assert_eq!(
        bstree.traverse(TraversalType::PreOrder),
        Some(vec![10, 9, 8, 7])
    );
    assert!(bstree.search(7).is_some());
    bstree.delete(10);
    let root = bstree.get_root().expect("three values are left");
    assert_eq!(root.get_data(), 9);
    assert!(bstree.parent_of(root).is_none());
    assert_eq!(bstree.get_depth(), 3);
    assert_eq!(depth_below(&bstree, bstree.get_root()), 3);
    assert_eq!(bstree.get_len(), 3);
}

#[test]
fn depth_follows_the_order_of_insertion() {
    assert_eq!(BinarySearchTree::new().get_depth(), 0);
    assert_eq!(tree_of(&[5]).get_depth(), 1);
    assert_eq!(tree_of(&[50, 30, 70, 20, 40, 60, 80]).get_depth(), 3);
    assert_eq!(tree_of(&[20, 30, 40, 50, 60, 70, 80]).get_depth(), 7);
    assert_eq!(tree_of(&[4, 2, 1, 3]).get_depth(), 3);
}

#[test]
fn a_subtree_is_walked_from_its_top() {
    let bstree = tree_of(&[50, 30, 70, 20, 40, 60, 80]);
    let node = bstree.search(30);
    assert_eq!(
        bstree.values_below(node, TraversalType::InOrder),
        vec![20, 30, 40]
    );
    assert_eq!(
        bstree.values_below(node, TraversalType::PreOrder),
        vec![30, 20, 40]
    );
    assert_eq!(
        bstree.values_below(node, TraversalType::PostOrder),
        vec![20, 40, 30]
    );
    assert_eq!(
        bstree.values_below(None, TraversalType::InOrder),
        Vec::<i32>::new()
    );
}

#[test]
fn empty_tree_finds_nothing_and_walks_nothing() {
    let mut bstree = BinarySearchTree::new();
    assert!(bstree.search(0).is_none());
    assert!(bstree.search(i32::MIN).is_none());
    assert!(bstree.search(i32::MAX).is_none());
    assert_eq!(bstree.traverse(TraversalType::InOrder), Some(vec![]));
    assert_eq!(bstree.traverse(TraversalType::PreOrder), Some(vec![]));
    assert_eq!(bstree.traverse(TraversalType::PostOrder), Some(vec![]));
    assert!(bstree.get_root().is_none());
    bstree.delete(5);
    assert_eq!(bstree.get_len(), 0);
    assert!(bstree.get_root().is_none());
}

#[test]
fn count_is_the_number_of_distinct_values() {
    let bstree = tree_of(&[5, 3, 5, 8, 3, 3, 8, 1]);
    assert_eq!(bstree.get_len(), 4);
    assert_eq!(bstree.get_inorder_vec(), Some(vec![1, 3, 5, 8]));
}

#[test]
fn insert_of_a_held_value_changes_nothing() {
    let mut bstree = tree_of(&[4, 2, 6]);
    let before = bstree.get_preorder_vec();
    bstree.insert(2);
    assert_eq!(bstree.get_preorder_vec(), before);
    assert_eq!(bstree.get_len(), 3);
}

#[test]
fn delete_of_an_absent_value_changes_nothing() {
    let mut bstree = tree_of(&[4, 2, 6, 1, 3]);
    let before_pre = bstree.get_preorder_vec();
    let before_in = bstree.get_inorder_vec();
    bstree.delete(5);
    assert_eq!(bstree.get_preorder_vec(), before_pre);
    assert_eq!(bstree.get_inorder_vec(), before_in);
    assert_eq!(bstree.get_len(), 5);
}

#[test]
fn delete_makes_the_value_unfindable_and_the_count_one_less() {
    let mut bstree = tree_of(&[4, 2, 6, 1, 3]);
    bstree.delete(2);
    assert!(bstree.search(2).is_none());
    assert_eq!(bstree.get_len(), 4);
    for kept in [4, 6, 1, 3] {
        assert!(bstree.search(kept).is_some());
    }
}

#[test]
fn drain_in_another_order_leaves_nothing() {
    let values = [8, 3, 10, 1, 6, 14, 4, 7, 13];
    let mut bstree = tree_of(&values);
    for key in [6, 8, 1, 14, 3, 13, 10, 7, 4] {
        bstree.delete(key);
    }
    assert_eq!(bstree.get_len(), 0);
    for key in values {
        assert!(bstree.search(key).is_none());
    }
    assert!(bstree.get_root().is_none());
}

#[test]
fn removing_the_only_value_empties_the_tree() {
    let mut bstree = tree_of(&[42]);
    assert_eq!(bstree.get_root().map(|n| n.num_of_childs()), Some(0));
    bstree.delete(42);
    assert!(bstree.get_root().is_none());
    assert_eq!(bstree.get_len(), 0);
    bstree.insert(7);
    assert_eq!(bstree.get_root().map(|n| n.get_data()), Some(7));
}

#[test]
fn fresh_nodes_have_no_children() {
    let alone = BinarySearchTreeNode::new(3);
    assert_eq!(alone.get_data(), 3);
    assert_eq!(alone.num_of_childs(), 0);
    let linked = BinarySearchTreeNode::with_parent(9, 0);
    assert_eq!(linked.get_data(), 9);
    assert_eq!(linked.num_of_childs(), 0);
}

#[test]
fn search_gives_the_node_with_its_children() {
    let bstree = tree_of(&[50, 30, 70, 20, 40]);
    let node = bstree.search(30).expect("30 is in the tree");
    assert_eq!(node.get_data(), 30);
    assert_eq!(node.num_of_childs(), 2);
    assert_eq!(bstree.left_of(node).map(|n| n.get_data()), Some(20));
    assert_eq!(bstree.right_of(node).map(|n| n.get_data()), Some(40));
    let leaf = bstree.search(70).expect("70 is in the tree");
    assert_eq!(leaf.num_of_childs(), 0);
}

#[test]
fn each_value_is_found_right_after_its_insertion() {
    let mut bstree = BinarySearchTree::new();
    let values = [12, -4, 30, 7, i32::MAX, i32::MIN, 0];
    for (done, &value) in values.iter().enumerate() {
        assert!(bstree.search(value).is_none());
        bstree.insert(value);
        assert_eq!(bstree.search(value).map(|n| n.get_data()), Some(value));
        for &earlier in &values[..done] {
            assert!(bstree.search(earlier).is_some());
        }
    }
    bstree.delete(30);
    for &value in &values {
        assert_eq!(bstree.search(value).is_some(), value != 30);
    }
}

#[test]
fn inorder_is_sorted_without_repeats() {
    let bstree = tree_of(&[9, -3, 9, 14, 0, -3, 27, 14, 1]);
    assert_eq!(bstree.get_inorder_vec(), Some(vec![-3, 0, 1, 9, 14, 27]));
    assert_eq!(
        bstree.traverse(TraversalType::InOrder),
        bstree.get_inorder_vec()
    );
    assert_eq!(
        bstree.traverse(TraversalType::PreOrder),
        bstree.get_preorder_vec()
    );
    assert_eq!(
        bstree.traverse(TraversalType::PostOrder),
        bstree.get_postorder_vec()
    );
}
