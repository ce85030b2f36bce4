//! The depth-first postorder and the immediate dominators of a graph.

use ir_lang::domtree::compute_idoms;
use ir_lang::graph::postorder;

#[test]
fn test_postorder_lists_reachable_nodes_children_first() {
    // 0 -> 1, 0 -> 2, 1 -> 3, 2 -> 3; node 4 is unreachable.
    let succs = vec![vec![1, 2], vec![3], vec![3], vec![], vec![0]];
    assert_eq!(postorder(&succs, 0), vec![3, 1, 2, 0]);
}

#[test]
fn test_postorder_of_a_loop() {
    // 0 -> 1 -> 2 -> 1, 2 -> 3
    let succs = vec![vec![1], vec![2], vec![1, 3], vec![]];
    assert_eq!(postorder(&succs, 0), vec![3, 2, 1, 0]);
}

#[test]
fn test_idoms_of_a_diamond() {
    let succs = vec![vec![1, 2], vec![3], vec![3], vec![], vec![0]];
    assert_eq!(
        compute_idoms(0, &succs),
        vec![Some(0), Some(0), Some(0), Some(0), None]
    );
}

#[test]
fn test_idoms_of_a_chain_with_a_loop() {
    // 0 -> 1 -> 2 -> 3, 3 -> 1, 2 -> 4
    let succs = vec![vec![1], vec![2], vec![3, 4], vec![1], vec![]];
    assert_eq!(
        compute_idoms(0, &succs),
        vec![Some(0), Some(0), Some(1), Some(2), Some(2)]
    );
}

#[test]
fn test_postorder_of_a_branch_tries_successors_in_order() {
    let succs = vec![vec![1, 2], vec![], vec![]];
    assert_eq!(postorder(&succs, 0), vec![1, 2, 0]);
}

#[test]
fn test_postorder_skips_successors_that_are_not_nodes() {
    let succs = vec![vec![7, 1], vec![0, 9]];
    assert_eq!(postorder(&succs, 0), vec![1, 0]);
}

#[test]
fn test_postorder_from_an_entry_that_is_not_a_node_is_empty() {
    let succs = vec![vec![0]];
    assert_eq!(postorder(&succs, 3), Vec::<usize>::new());
}
