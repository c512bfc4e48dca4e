use lib::control_flow::{RegionControlFlowGraph, RegionShape, TerminatorShape};
use lib::dominance_frontier::RegionDominanceFrontier;
use lib::dominator_tree::RegionDominatorTree;

fn jump(operation: u32, target: usize) -> Option<TerminatorShape> {
    Some(TerminatorShape { operation, successors: vec![target] })
}

fn branch(operation: u32, then_block: usize, else_block: usize) -> Option<TerminatorShape> {
    Some(TerminatorShape { operation, successors: vec![then_block, else_block] })
}

fn region(terminators: Vec<Option<TerminatorShape>>) -> RegionShape {
    RegionShape { region: 0, entry: 0, terminators }
}

#[test]
fn computes_dominators_for_linear_control_flow() {
    let (entry, middle, exit) = (0, 1, 2);
    let shape = region(vec![jump(10, middle), jump(11, exit), None]);
    let graph = RegionControlFlowGraph::compute(&shape);
    let dominance = RegionDominatorTree::compute(&graph);

    assert_eq!(dominance.immediate_dominator(entry), None);
    assert_eq!(dominance.immediate_dominator(middle), Some(entry));
    assert_eq!(dominance.immediate_dominator(exit), Some(middle));
    assert!(dominance.dominates(entry, exit));
    assert!(dominance.dominates(middle, exit));
    assert!(!dominance.dominates(exit, middle));
}

#[test]
fn computes_dominators_for_a_diamond() {
    let (entry, left, right, join) = (0, 1, 2, 3);
    let shape = region(vec![branch(10, left, right), jump(11, join), jump(12, join), None]);
    let graph = RegionControlFlowGraph::compute(&shape);
    let dominance = RegionDominatorTree::compute(&graph);

    assert_eq!(dominance.immediate_dominator(left), Some(entry));
    assert_eq!(dominance.immediate_dominator(right), Some(entry));
    assert_eq!(dominance.immediate_dominator(join), Some(entry));
    assert!(dominance.dominates(entry, join));
    assert!(!dominance.dominates(left, join));
    assert!(!dominance.dominates(right, join));
}

#[test]
fn computes_dominators_for_a_loop_backedge() {
    let (entry, header, body, exit) = (0, 1, 2, 3);
    let shape = region(vec![jump(10, header), branch(11, body, exit), jump(12, header), None]);
    let graph = RegionControlFlowGraph::compute(&shape);
    let dominance = RegionDominatorTree::compute(&graph);

    assert_eq!(dominance.immediate_dominator(header), Some(entry));
    assert_eq!(dominance.immediate_dominator(body), Some(header));
    assert_eq!(dominance.immediate_dominator(exit), Some(header));
    assert!(dominance.dominates(header, body));
    assert!(dominance.dominates(header, exit));
    assert!(!dominance.dominates(body, exit));
}

#[test]
fn excludes_unreachable_blocks() {
    let (entry, exit, unreachable) = (0, 1, 2);
    let shape = region(vec![jump(10, exit), None, None]);
    let graph = RegionControlFlowGraph::compute(&shape);
    let dominance = RegionDominatorTree::compute(&graph);

    assert_eq!(dominance.immediate_dominator(exit), Some(entry));
    assert_eq!(dominance.immediate_dominator(unreachable), None);
    assert!(!dominance.dominates(unreachable, unreachable));
    assert!(!dominance.dominates(entry, unreachable));
}

#[test]
fn computes_the_frontier_of_a_diamond() {
    let (entry, left, right, join) = (0, 1, 2, 3);
    let shape = region(vec![branch(10, left, right), jump(11, join), jump(12, join), None]);
    let graph = RegionControlFlowGraph::compute(&shape);
    let dominance = RegionDominatorTree::compute(&graph);
    let frontier = RegionDominanceFrontier::compute(&graph, &dominance);

    assert_eq!(frontier.frontier(entry), Some([].as_slice()));
    assert_eq!(frontier.frontier(left), Some([join].as_slice()));
    assert_eq!(frontier.frontier(right), Some([join].as_slice()));
    assert_eq!(frontier.frontier(join), Some([].as_slice()));
}

#[test]
fn computes_the_frontier_of_a_loop_backedge() {
    let (header, body, exit) = (1, 2, 3);
    let shape = region(vec![jump(10, header), branch(11, body, exit), jump(12, header), None]);
    let graph = RegionControlFlowGraph::compute(&shape);
    let dominance = RegionDominatorTree::compute(&graph);
    let frontier = RegionDominanceFrontier::compute(&graph, &dominance);

    assert_eq!(frontier.frontier(header), Some([header].as_slice()));
    assert_eq!(frontier.frontier(body), Some([header].as_slice()));
    assert_eq!(frontier.frontier(exit), Some([].as_slice()));
}

#[test]
fn computes_an_iterated_frontier_across_two_merges() {
    let (first_split, bypass, left, right, first_join, second_join) = (1, 2, 3, 4, 5, 6);
    let shape = region(vec![
        branch(10, first_split, bypass),
        branch(11, left, right),
        jump(12, second_join),
        jump(13, first_join),
        jump(14, first_join),
        jump(15, second_join),
        None,
    ]);
    let graph = RegionControlFlowGraph::compute(&shape);
    let dominance = RegionDominatorTree::compute(&graph);
    let frontier = RegionDominanceFrontier::compute(&graph, &dominance);

    assert_eq!(frontier.iterated_frontier(&[left, right]), vec![first_join, second_join]);
}

#[test]
fn lists_edges_and_reverse_postorder_of_a_diamond() {
    let shape = region(vec![branch(10, 1, 2), jump(11, 3), jump(12, 3), None, None]);
    let graph = RegionControlFlowGraph::compute(&shape);

    assert_eq!(graph.entry(), 0);
    assert_eq!(graph.blocks().len(), 5);
    assert_eq!(graph.edges().len(), 4);
    let first = graph.edges()[0];
    assert_eq!((first.source(), first.target(), first.terminator(), first.successor_index()), (0, 1, 10, 0));
    assert_eq!(graph.reverse_postorder()[0], 0);
    assert_eq!(graph.reverse_postorder().len(), 4);
    assert!(graph.is_reachable(3));
    assert!(!graph.is_reachable(4));
    assert_eq!(graph.unreachable_blocks(), vec![4]);
    assert_eq!(graph.predecessor_edges(3).map(|ids| ids.len()), Some(2));
    assert_eq!(graph.successor_edges(0).map(|ids| ids.len()), Some(2));
    assert_eq!(graph.predecessor_edges(9), None);
}

#[test]
fn lists_dominator_tree_children() {
    let shape = region(vec![branch(10, 1, 2), jump(11, 3), jump(12, 3), None]);
    let graph = RegionControlFlowGraph::compute(&shape);
    let dominance = RegionDominatorTree::compute(&graph);

    let mut children = dominance.children(0).unwrap().to_vec();
    children.sort();
    assert_eq!(children, vec![1, 2, 3]);
    assert_eq!(dominance.children(3), Some([].as_slice()));
    assert_eq!(dominance.entry(), 0);
}
