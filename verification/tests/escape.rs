use lib::dependence::DependenceSuccessor;
use lib::function_escape::{FunctionEscapeAnalysis, ValueEscape};
use lib::ir::{
    BindingData, BindingKind, FunctionIr, ModuleExport, ModuleIr, ObjectLiteralEntry, Operation, OperationKind, Region,
    RegionOwner,
};
use lib::transfer::BinaryOperator;

fn op(kind: OperationKind, operands: Vec<usize>, results: Vec<usize>) -> Operation {
    Operation {
        kind,
        invoked: false,
        operands,
        results,
        regions: vec![],
        referenced_functions: vec![],
        referenced_bindings: vec![],
        successors: vec![],
    }
}

fn init(binding: usize, value: usize) -> Operation {
    let mut operation = op(OperationKind::InitializeBinding { binding }, vec![value], vec![]);
    operation.referenced_bindings = vec![binding];
    operation
}

fn load(binding: usize, result: usize) -> Operation {
    let mut operation = op(OperationKind::LoadBinding { binding }, vec![], vec![result]);
    operation.referenced_bindings = vec![binding];
    operation
}

fn object(result: usize) -> Operation {
    op(OperationKind::ObjectLiteral(vec![]), vec![], vec![result])
}

fn binding(declaring_function: usize, kind: BindingKind, name: &str) -> BindingData {
    BindingData { declaring_function, kind, name: name.to_string() }
}

fn function(parent: Option<usize>, value_count: usize, parameters: Vec<usize>, operations: Vec<Operation>) -> FunctionIr {
    FunctionIr { parent, value_count, parameters, self_binding: None, operations, regions: vec![] }
}

/// A module whose entry function declares the test function `test`.
fn module_with(test: FunctionIr, mut bindings: Vec<BindingData>, extra: Vec<FunctionIr>) -> ModuleIr {
    let entry = function(None, 0, vec![], vec![]);
    let mut functions = vec![entry, test];
    functions.extend(extra);
    bindings.insert(0, binding(0, BindingKind::Function, "test"));
    ModuleIr { functions, bindings, imports: vec![], exports: vec![] }
}

#[test]
fn classifies_return_call_and_unused_values() {
    // function test(consume) { const unused = {}; const passed = {}; consume(passed); return {}; }
    let (consume, unused, passed) = (1, 2, 3);
    let test = function(
        Some(0),
        7,
        vec![0],
        vec![
            init(consume, 0),
            object(1),
            init(unused, 1),
            object(2),
            init(passed, 2),
            load(consume, 3),
            load(passed, 4),
            op(OperationKind::Call { callee: Some(0) }, vec![3, 4], vec![5]),
            object(6),
            op(OperationKind::Return, vec![6], vec![]),
        ],
    );
    let module = module_with(
        test,
        vec![
            binding(1, BindingKind::Parameter, "consume"),
            binding(1, BindingKind::Const, "unused"),
            binding(1, BindingKind::Const, "passed"),
        ],
        vec![],
    );
    let analysis = FunctionEscapeAnalysis::analyze(&module, 1).unwrap();

    assert_eq!(analysis.escape_result(1), Some(ValueEscape::DoesNotEscape));
    assert_eq!(analysis.escape_result(2), Some(ValueEscape::MayEscape));
    assert_eq!(analysis.escape_result(6), Some(ValueEscape::MayEscape));
}

#[test]
fn tests_treats_unknown_origins_conservatively() {
    // function test(create) { const value = create(); return value === null; }
    let (create, value) = (1, 2);
    let test = function(
        Some(0),
        7,
        vec![0],
        vec![
            init(create, 0),
            load(create, 1),
            op(OperationKind::Call { callee: Some(0) }, vec![1], vec![2]),
            init(value, 2),
            load(value, 3),
            op(OperationKind::Constant { string: None }, vec![], vec![4]),
            op(OperationKind::Binary(BinaryOperator::StrictEqual), vec![3, 4], vec![5]),
            op(OperationKind::Return, vec![5], vec![]),
        ],
    );
    let module = module_with(
        test,
        vec![binding(1, BindingKind::Parameter, "create"), binding(1, BindingKind::Const, "value")],
        vec![],
    );
    let analysis = FunctionEscapeAnalysis::analyze(&module, 1).unwrap();

    assert_eq!(analysis.escape_result(2), None);
    assert!(analysis.may_escape(2));
}

#[test]
fn tests_follows_local_bindings_and_forwarded_block_values() {
    // After promotion to SSA: the join block's parameter 2 receives `value` from both branches.
    let condition = 1;
    let jump = |parameter: usize, argument: usize| {
        let mut operation = op(OperationKind::Jump, vec![], vec![]);
        operation.successors = vec![DependenceSuccessor { produced: vec![], forwarded: vec![(parameter, argument)] }];
        operation
    };
    let test = function(
        Some(0),
        4,
        vec![0],
        vec![
            init(condition, 0),
            object(1),
            load(condition, 3),
            op(OperationKind::If, vec![3], vec![]),
            jump(2, 1),
            jump(2, 1),
            op(OperationKind::Return, vec![2], vec![]),
        ],
    );
    let module = module_with(test, vec![binding(1, BindingKind::Parameter, "condition")], vec![]);

    assert!(FunctionEscapeAnalysis::analyze(&module, 1).unwrap().may_escape(1));
}

#[test]
fn tests_escaping_containers_escape_their_contents() {
    // function test() { const child = {}; return { child }; }
    let child = 1;
    let mut literal = op(
        OperationKind::ObjectLiteral(vec![ObjectLiteralEntry::Property { computed_key: None, value: 0 }]),
        vec![],
        vec![3],
    );
    literal.regions = vec![0];
    let mut test = function(
        Some(0),
        4,
        vec![],
        vec![
            object(1),
            init(child, 1),
            load(child, 2),
            op(OperationKind::RegionYield, vec![2], vec![]),
            literal,
            op(OperationKind::Return, vec![3], vec![]),
        ],
    );
    test.regions = vec![Region { owner: RegionOwner::Operation, yielded: vec![2], produced_parameters: vec![] }];
    let module = module_with(test, vec![binding(1, BindingKind::Const, "child")], vec![]);
    let analysis = FunctionEscapeAnalysis::analyze(&module, 1).unwrap();

    assert!(analysis.may_escape(1));
    assert!(analysis.may_escape(3));
}

#[test]
fn tests_follows_values_captured_by_an_escaping_closure() {
    // function test() { const captured = {}; return () => captured; }
    let captured = 1;
    let mut create = op(OperationKind::CreateFunction, vec![], vec![2]);
    create.referenced_functions = vec![2];
    let test = function(
        Some(0),
        3,
        vec![],
        vec![object(1), init(captured, 1), create, op(OperationKind::Return, vec![2], vec![])],
    );
    let arrow = function(Some(1), 1, vec![], vec![load(captured, 0), op(OperationKind::Return, vec![0], vec![])]);
    let module = module_with(test, vec![binding(1, BindingKind::Const, "captured")], vec![arrow]);

    assert!(FunctionEscapeAnalysis::analyze(&module, 1).unwrap().may_escape(1));
}

#[test]
fn tests_strict_comparison_observes_without_escaping() {
    // function test() { const value = {}; return value === null; }
    let value = 1;
    let test = function(
        Some(0),
        5,
        vec![],
        vec![
            object(1),
            init(value, 1),
            load(value, 2),
            op(OperationKind::Constant { string: None }, vec![], vec![3]),
            op(OperationKind::Binary(BinaryOperator::StrictEqual), vec![2, 3], vec![4]),
            op(OperationKind::Return, vec![4], vec![]),
        ],
    );
    let module = module_with(test, vec![binding(1, BindingKind::Const, "value")], vec![]);

    assert_eq!(FunctionEscapeAnalysis::analyze(&module, 1).unwrap().escape_result(1), Some(ValueEscape::DoesNotEscape));
}

#[test]
fn tests_exported_bindings_escape_their_values() {
    // export const value = {};
    let entry = function(None, 1, vec![], vec![object(0), init(0, 0)]);
    let module = ModuleIr {
        functions: vec![entry],
        bindings: vec![binding(0, BindingKind::Const, "value")],
        imports: vec![], exports: vec![ModuleExport::Local { name: "value".to_string(), binding: 0 }],
    };

    assert_eq!(FunctionEscapeAnalysis::analyze(&module, 0).unwrap().escape_result(0), Some(ValueEscape::MayEscape));
}

#[test]
fn tests_dynamic_import_promises_escape_to_the_host() {
    // function test() { import('./dependency.js'); }
    let test = function(
        Some(0),
        2,
        vec![],
        vec![op(OperationKind::Constant { string: None }, vec![], vec![0]), op(OperationKind::DynamicImport { has_options: false }, vec![0], vec![1])],
    );
    let module = module_with(test, vec![], vec![]);

    assert_eq!(FunctionEscapeAnalysis::analyze(&module, 1).unwrap().escape_result(1), Some(ValueEscape::MayEscape));
}

#[test]
fn unexported_local_bindings_keep_their_values_local() {
    let entry = function(None, 1, vec![], vec![object(0), init(0, 0)]);
    let module = ModuleIr {
        functions: vec![entry],
        bindings: vec![binding(0, BindingKind::Const, "value")],
        imports: vec![], exports: vec![],
    };
    let analysis = FunctionEscapeAnalysis::analyze(&module, 0).unwrap();
    assert_eq!(analysis.escape_result(0), Some(ValueEscape::DoesNotEscape));
    assert_eq!(analysis.function(), 0);
}

#[test]
fn direct_eval_exposes_every_local_binding() {
    // function test() { const value = {}; eval("value"); }
    let value = 1;
    let test = function(
        Some(0),
        4,
        vec![],
        vec![
            object(0),
            init(value, 0),
            op(OperationKind::LoadGlobal { name: "eval".to_string() }, vec![], vec![1]),
            op(OperationKind::Constant { string: None }, vec![], vec![2]),
            op(OperationKind::Call { callee: Some(0) }, vec![1, 2], vec![3]),
        ],
    );
    let module = module_with(test, vec![binding(1, BindingKind::Const, "value")], vec![]);
    assert_eq!(FunctionEscapeAnalysis::analyze(&module, 1).unwrap().escape_result(0), Some(ValueEscape::MayEscape));

    let indirect = function(
        Some(0),
        4,
        vec![],
        vec![
            object(0),
            init(value, 0),
            op(OperationKind::LoadGlobal { name: "evaluate".to_string() }, vec![], vec![1]),
            op(OperationKind::Constant { string: None }, vec![], vec![2]),
            op(OperationKind::Call { callee: Some(0) }, vec![1, 2], vec![3]),
        ],
    );
    let module = module_with(indirect, vec![binding(1, BindingKind::Const, "value")], vec![]);
    assert_eq!(FunctionEscapeAnalysis::analyze(&module, 1).unwrap().escape_result(0), Some(ValueEscape::DoesNotEscape));
}

#[test]
fn missing_functions_have_no_analysis() {
    let module = ModuleIr { functions: vec![function(None, 0, vec![], vec![])], bindings: vec![], imports: vec![], exports: vec![] };
    assert!(FunctionEscapeAnalysis::analyze(&module, 3).is_none());
}
