use lib::function_reachability::{ModuleFunctionReachability, ModuleFunctionShape};
use lib::ir::{FunctionIr, ModuleIr, Operation, OperationKind};

fn create_function(target: usize, result: usize) -> Operation {
    Operation {
        kind: OperationKind::CreateFunction,
        invoked: false,
        operands: vec![],
        results: vec![result],
        regions: vec![],
        referenced_functions: vec![target],
        referenced_bindings: vec![],
        successors: vec![],
    }
}

fn function(parent: Option<usize>, operations: Vec<Operation>) -> FunctionIr {
    let value_count = operations.len();
    FunctionIr { parent, value_count, parameters: vec![], self_binding: None, operations, regions: vec![] }
}

#[test]
fn derives_references_from_the_operations_of_a_module() {
    let (entry, outer, inner, orphan) = (0, 1, 2, 3);
    let module = ModuleIr {
        functions: vec![
            function(None, vec![create_function(outer, 0)]),
            function(Some(entry), vec![create_function(inner, 0)]),
            function(Some(outer), vec![]),
            function(Some(entry), vec![]),
        ],
        bindings: vec![],
        imports: vec![],
        exports: vec![],
    };

    let shape = ModuleFunctionShape::of_module(&module);
    assert_eq!(shape.entry, entry);
    assert_eq!(shape.parents, vec![None, Some(entry), Some(outer), Some(entry)]);
    assert_eq!(shape.references, vec![vec![outer], vec![inner], vec![], vec![]]);

    let reachability = ModuleFunctionReachability::compute(&shape);
    assert!(reachability.is_reachable(entry));
    assert!(reachability.is_reachable(outer));
    assert!(reachability.is_reachable(inner));
    assert!(!reachability.is_reachable(orphan));
}

#[test]
fn lists_the_unreachable_functions_to_remove() {
    // The entry creates function 1; functions 2 and 3 are never created.
    let (entry, reachable) = (0, 1);
    let module = ModuleIr {
        functions: vec![
            function(None, vec![create_function(reachable, 0)]),
            function(Some(entry), vec![]),
            function(Some(entry), vec![]),
            function(Some(entry), vec![]),
        ],
        bindings: vec![],
        imports: vec![],
        exports: vec![],
    };

    let reachability = ModuleFunctionReachability::compute(&ModuleFunctionShape::of_module(&module));
    assert_eq!(reachability.unreachable_functions(module.functions.len()), vec![2, 3]);
    assert_eq!(reachability.unreachable_functions(2), Vec::<usize>::new());
}
