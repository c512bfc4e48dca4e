use lib::dependence::{DependenceOperation, DependenceSuccessor, FunctionValueDependenceAnalysis};
use lib::function_reachability::{ModuleFunctionReachability, ModuleFunctionShape};
use lib::ir::{FunctionIr, Operation, OperationKind, Region, RegionOwner};
use lib::transfer::BinaryOperator;

fn ir_operation(kind: OperationKind, operands: Vec<usize>, results: Vec<usize>, regions: Vec<usize>) -> Operation {
    Operation {
        kind,
        invoked: false,
        operands,
        results,
        regions,
        referenced_functions: vec![],
        referenced_bindings: vec![],
        successors: vec![],
    }
}

fn operation(operands: Vec<usize>, results: Vec<usize>, yielded: Vec<usize>) -> DependenceOperation {
    DependenceOperation { operands, results, yielded, successors: vec![] }
}

fn jump(operands: Vec<usize>, forwarded: Vec<(usize, usize)>) -> DependenceOperation {
    DependenceOperation {
        operands,
        results: vec![],
        yielded: vec![],
        successors: vec![DependenceSuccessor { produced: vec![], forwarded }],
    }
}

#[test]
fn follows_operands_and_structured_region_results() {
    // let outside = this; let local = this; [outside === local] built in a region.
    let (outside, local, comparison, array) = (0, 1, 2, 3);
    let function = FunctionIr {
        parent: None,
        value_count: 4,
        parameters: vec![],
        self_binding: None,
        operations: vec![
            ir_operation(OperationKind::LoadThis, vec![], vec![outside], vec![]),
            ir_operation(OperationKind::LoadThis, vec![], vec![local], vec![]),
            ir_operation(OperationKind::Binary(BinaryOperator::StrictEqual), vec![outside, local], vec![comparison], vec![]),
            ir_operation(OperationKind::RegionYield, vec![comparison], vec![], vec![]),
            ir_operation(OperationKind::ArrayLiteral(vec![]), vec![], vec![array], vec![0]),
        ],
        regions: vec![Region { owner: RegionOwner::Operation, yielded: vec![comparison], produced_parameters: vec![] }],
    };
    let analysis = FunctionValueDependenceAnalysis::analyze(&function);

    assert_eq!(analysis.direct_dependencies(comparison), Some([outside, local].as_slice()));
    assert_eq!(analysis.direct_dependencies(array), Some([comparison].as_slice()));
    assert_eq!(analysis.transitive_dependencies(array), Some(vec![outside, local, comparison]));
    assert!(analysis.depends_on(array, outside));
    assert!(!analysis.depends_on(outside, array));
}

#[test]
fn follows_operands_and_region_results_of_operation_lists() {
    let (outside, local, comparison, array) = (0, 1, 2, 3);
    let operations = vec![
        operation(vec![], vec![outside], vec![]),
        operation(vec![], vec![local], vec![]),
        operation(vec![outside, local], vec![comparison], vec![]),
        // The region's yield terminator reads the comparison.
        operation(vec![comparison], vec![], vec![]),
        operation(vec![], vec![array], vec![comparison]),
    ];
    let analysis = FunctionValueDependenceAnalysis::analyze_operations(4, &operations);

    assert_eq!(analysis.direct_dependencies(comparison), Some([outside, local].as_slice()));
    assert_eq!(analysis.direct_dependencies(array), Some([comparison].as_slice()));
}

#[test]
fn follows_forwarded_block_parameters_through_a_cycle() {
    let (parameter, input, result) = (0, 1, 2);
    let operations = vec![
        operation(vec![], vec![input], vec![]),
        jump(vec![input], vec![(parameter, input)]),
        operation(vec![parameter], vec![result], vec![]),
        jump(vec![result], vec![(parameter, result)]),
    ];
    let analysis = FunctionValueDependenceAnalysis::analyze_operations(3, &operations);

    assert_eq!(analysis.direct_dependencies(parameter), Some([input, result].as_slice()));
    assert_eq!(analysis.transitive_dependencies(result), Some(vec![parameter, input]));
    assert!(analysis.depends_on(result, input));
    assert!(!analysis.depends_on(result, result));
}

#[test]
fn produced_parameters_depend_on_every_terminator_operand() {
    let operations = vec![DependenceOperation {
        operands: vec![0, 1],
        results: vec![],
        yielded: vec![],
        successors: vec![DependenceSuccessor { produced: vec![2], forwarded: vec![] }],
    }];
    let analysis = FunctionValueDependenceAnalysis::analyze_operations(3, &operations);
    assert_eq!(analysis.direct_dependencies(2), Some([0, 1].as_slice()));
    assert_eq!(analysis.direct_dependencies(0), Some([].as_slice()));
}

#[test]
fn unknown_values_have_no_dependencies() {
    let analysis = FunctionValueDependenceAnalysis::analyze_operations(2, &vec![operation(vec![0], vec![1], vec![])]);
    assert_eq!(analysis.direct_dependencies(7), None);
    assert_eq!(analysis.transitive_dependencies(7), None);
    assert!(!analysis.depends_on(7, 0));
    assert!(!analysis.depends_on(1, 7));
    assert!(analysis.depends_on(1, 0));
}

#[test]
fn follows_transitive_function_references() {
    let (entry, outer, inner, orphan) = (0, 1, 2, 3);
    let module = ModuleFunctionShape {
        entry,
        parents: vec![None, Some(entry), Some(outer), Some(entry)],
        references: vec![vec![outer], vec![inner], vec![], vec![]],
    };
    let reachability = ModuleFunctionReachability::compute(&module);

    assert!(reachability.is_reachable(entry));
    assert!(reachability.is_reachable(outer));
    assert!(reachability.is_reachable(inner));
    assert!(!reachability.is_reachable(orphan));
}

#[test]
fn retains_lexical_parents_of_referenced_functions() {
    let (entry, outer, inner) = (0, 1, 2);
    let module = ModuleFunctionShape {
        entry,
        parents: vec![None, Some(entry), Some(outer)],
        references: vec![vec![inner], vec![], vec![]],
    };
    let reachability = ModuleFunctionReachability::compute(&module);

    assert!(reachability.is_reachable(outer));
    assert!(reachability.is_reachable(inner));
}

#[test]
fn functions_outside_the_module_are_not_reachable() {
    let module = ModuleFunctionShape { entry: 0, parents: vec![None], references: vec![vec![]] };
    let reachability = ModuleFunctionReachability::compute(&module);
    assert!(reachability.is_reachable(0));
    assert!(!reachability.is_reachable(1));
}
