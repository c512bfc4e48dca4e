use lib::control_flow::{RegionControlFlowGraph, RegionShape, TerminatorShape};
use lib::forwarding::{
    plan_forwarding_block, plan_linear_block, BlockFacts, BlockParameter, FunctionFacts, OperationFacts,
    SuccessorArguments, ThreadForwardingBlock,
};

// Blocks: entry 0 branches to left 1 and right 2, both jump to the
// forwarding block 3, which jumps to target 4.
// Values: condition 0, left value 1, right value 2, forwarding parameter 3,
// target parameter 4.
// Operations: branch 0, left constant 1, left jump 2, right constant 3,
// right jump 4, forwarding jump 5, return 6.
const FORWARDING: usize = 3;
const TARGET: usize = 4;

fn successor(target: usize, arguments: Vec<usize>) -> SuccessorArguments {
    SuccessorArguments { target, produced_argument_count: 0, arguments }
}

fn jump(target: usize, arguments: Vec<usize>) -> Option<OperationFacts> {
    Some(OperationFacts { jump: true, successors: vec![successor(target, arguments)] })
}

fn plain() -> Option<OperationFacts> {
    Some(OperationFacts { jump: false, successors: vec![] })
}

fn block(operation_count: usize, parameters: Vec<usize>, terminator: u32) -> Option<BlockFacts> {
    Some(BlockFacts {
        boundary: false,
        operation_count,
        parameters: parameters
            .into_iter()
            .map(|value| BlockParameter { value, forwarded: true })
            .collect(),
        terminator: Some(terminator),
    })
}

/// The function with the forwarding jump passing `forwarded` on, and the
/// target's return using `returned`.
fn function(forwarded: Vec<usize>, returned: usize) -> FunctionFacts {
    let mut value_uses = vec![Some(vec![0]), Some(vec![2]), Some(vec![4]), Some(vec![]), Some(vec![])];
    for value in &forwarded {
        value_uses[*value].as_mut().unwrap().push(5);
    }
    value_uses[returned].as_mut().unwrap().push(6);
    FunctionFacts {
        blocks: vec![
            Some(BlockFacts {
                boundary: true,
                operation_count: 1,
                parameters: vec![],
                terminator: Some(0),
            }),
            block(1, vec![], 2),
            block(1, vec![], 4),
            block(0, vec![3], 5),
            block(0, vec![4], 6),
        ],
        operations: vec![
            Some(OperationFacts {
                jump: false,
                successors: vec![successor(1, vec![]), successor(2, vec![])],
            }),
            plain(),
            jump(FORWARDING, vec![1]),
            plain(),
            jump(FORWARDING, vec![2]),
            jump(TARGET, forwarded),
            plain(),
        ],
        value_uses,
    }
}

fn graph() -> RegionControlFlowGraph {
    let terminator = |operation: u32, successors: Vec<usize>| Some(TerminatorShape { operation, successors });
    RegionControlFlowGraph::compute(&RegionShape {
        region: 0,
        entry: 0,
        terminators: vec![
            terminator(0, vec![1, 2]),
            terminator(2, vec![FORWARDING]),
            terminator(4, vec![FORWARDING]),
            terminator(5, vec![TARGET]),
            terminator(6, vec![]),
        ],
    })
}

fn edges(plan: &ThreadForwardingBlock) -> Vec<(u32, usize, Vec<usize>)> {
    plan.incoming
        .iter()
        .map(|edge| (edge.terminator, edge.successor_index, edge.arguments.clone()))
        .collect()
}

#[test]
fn plans_threading_with_composed_arguments() {
    let plan = plan_forwarding_block(&function(vec![3], 4), &graph(), FORWARDING).unwrap();

    assert_eq!(plan.block, FORWARDING);
    assert_eq!(plan.target, TARGET);
    assert_eq!(edges(&plan), vec![(2, 0, vec![1]), (4, 0, vec![2])]);
}

#[test]
fn plans_threading_that_discards_the_argument() {
    let plan = plan_forwarding_block(&function(vec![], 4), &graph(), FORWARDING).unwrap();

    assert_eq!(plan.target, TARGET);
    assert_eq!(edges(&plan), vec![(2, 0, vec![]), (4, 0, vec![])]);
}

#[test]
fn plans_threading_that_repeats_a_parameter() {
    let plan = plan_forwarding_block(&function(vec![3, 3], 4), &graph(), FORWARDING).unwrap();

    assert_eq!(edges(&plan), vec![(2, 0, vec![1, 1]), (4, 0, vec![2, 2])]);
}

#[test]
fn keeps_a_forwarding_parameter_used_past_the_jump() {
    assert!(plan_forwarding_block(&function(vec![], 3), &graph(), FORWARDING).is_none());
}

#[test]
fn keeps_a_block_with_operations() {
    let mut facts = function(vec![3], 4);
    facts.blocks[FORWARDING].as_mut().unwrap().operation_count = 1;

    assert!(plan_forwarding_block(&facts, &graph(), FORWARDING).is_none());
}

#[test]
fn keeps_a_block_with_a_structural_role() {
    let mut facts = function(vec![3], 4);
    facts.blocks[FORWARDING].as_mut().unwrap().boundary = true;

    assert!(plan_forwarding_block(&facts, &graph(), FORWARDING).is_none());
}

#[test]
fn keeps_a_block_whose_incoming_edge_produces_an_argument() {
    let mut facts = function(vec![3], 4);
    facts.operations[2].as_mut().unwrap().successors[0].produced_argument_count = 1;

    assert!(plan_forwarding_block(&facts, &graph(), FORWARDING).is_none());
}

#[test]
fn keeps_a_block_without_incoming_edges_or_a_jump() {
    let facts = function(vec![3], 4);

    // The entry block has no incoming edge; the target ends in a return.
    assert!(plan_forwarding_block(&facts, &graph(), 0).is_none());
    assert!(plan_forwarding_block(&facts, &graph(), TARGET).is_none());
    assert!(plan_forwarding_block(&facts, &graph(), 9).is_none());
}

#[test]
fn keeps_a_block_that_jumps_to_itself() {
    let mut facts = function(vec![3], 4);
    facts.operations[5].as_mut().unwrap().successors[0].target = FORWARDING;

    assert!(plan_forwarding_block(&facts, &graph(), FORWARDING).is_none());
}

#[test]
fn plans_merging_a_linear_block_into_its_predecessor() {
    let facts = function(vec![3], 4);
    let plan = plan_linear_block(&facts, &graph(), TARGET).unwrap();

    assert_eq!(plan.predecessor, FORWARDING);
    assert_eq!(plan.block, TARGET);
    assert_eq!(plan.substitutions, vec![(4, 3)]);
}

#[test]
fn keeps_blocks_with_several_predecessors_or_a_branching_predecessor() {
    let facts = function(vec![3], 4);

    assert!(plan_linear_block(&facts, &graph(), FORWARDING).is_none());
    assert!(plan_linear_block(&facts, &graph(), 1).is_none());
    assert!(plan_linear_block(&facts, &graph(), 0).is_none());
}

#[test]
fn keeps_a_linear_block_whose_parameter_is_passed_itself() {
    let mut facts = function(vec![3], 4);
    facts.operations[5].as_mut().unwrap().successors[0].arguments = vec![4];

    assert!(plan_linear_block(&facts, &graph(), TARGET).is_none());
}

#[test]
fn keeps_a_linear_block_with_a_mismatched_argument_count() {
    let mut facts = function(vec![3], 4);
    facts.operations[5].as_mut().unwrap().successors[0].arguments = vec![];

    assert!(plan_linear_block(&facts, &graph(), TARGET).is_none());
}
