use lib::dependence::DependenceSuccessor;
use lib::function_pointer::{AliasResult, EscapeResult, FunctionPointerAnalysis};
use lib::ir::{
    BindingData, BindingKind, FunctionIr, ModuleExport, ModuleIr, ObjectLiteralEntry, Operation, OperationKind, Region,
    RegionOwner,
};
use lib::points_to::{AbstractObjectKind, OwnerGenerations};
use lib::transfer::BinaryOperator;

fn op(kind: OperationKind, operands: Vec<usize>, results: Vec<usize>) -> Operation {
    Operation {
        kind,
        invoked: false,
        operands,
        results,
        regions: vec![],
        referenced_functions: vec![],
        referenced_bindings: vec![],
        successors: vec![],
    }
}

fn init(binding: usize, value: usize) -> Operation {
    let mut operation = op(OperationKind::InitializeBinding { binding }, vec![value], vec![]);
    operation.referenced_bindings = vec![binding];
    operation
}

fn load(binding: usize, result: usize) -> Operation {
    let mut operation = op(OperationKind::LoadBinding { binding }, vec![], vec![result]);
    operation.referenced_bindings = vec![binding];
    operation
}

fn object(result: usize) -> Operation {
    op(OperationKind::ObjectLiteral(vec![]), vec![], vec![result])
}

fn strict_equal(left: usize, right: usize, result: usize) -> Operation {
    op(OperationKind::Binary(BinaryOperator::StrictEqual), vec![left, right], vec![result])
}

fn ret(value: usize) -> Operation {
    op(OperationKind::Return, vec![value], vec![])
}

fn jump(parameter: usize, argument: usize) -> Operation {
    let mut operation = op(OperationKind::Jump, vec![], vec![]);
    operation.successors = vec![DependenceSuccessor { produced: vec![], forwarded: vec![(parameter, argument)] }];
    operation
}

fn binding(declaring_function: usize, kind: BindingKind, name: &str) -> BindingData {
    BindingData { declaring_function, kind, name: name.to_string() }
}

fn function(parent: Option<usize>, value_count: usize, parameters: Vec<usize>, operations: Vec<Operation>) -> FunctionIr {
    FunctionIr { parent, value_count, parameters, self_binding: None, operations, regions: vec![] }
}

/// A module whose entry function declares the test function, function 1.
fn module_with(test: FunctionIr, mut bindings: Vec<BindingData>, extra: Vec<FunctionIr>) -> ModuleIr {
    let entry = function(None, 0, vec![], vec![]);
    let mut functions = vec![entry, test];
    functions.extend(extra);
    bindings.insert(0, binding(0, BindingKind::Function, "test"));
    ModuleIr { functions, bindings, imports: vec![], exports: vec![] }
}

fn analyze(module: &ModuleIr, function: usize) -> FunctionPointerAnalysis {
    FunctionPointerAnalysis::analyze(module, function, 1).unwrap()
}

#[test]
fn distinguishes_fresh_allocations() {
    // function test() { const first = {}; const second = {}; return first === second; }
    let (first, second) = (1, 2);
    let test = function(
        Some(0),
        5,
        vec![],
        vec![object(0), init(first, 0), object(1), init(second, 1), load(first, 2), load(second, 3), strict_equal(2, 3, 4), ret(4)],
    );
    let module = module_with(test, vec![binding(1, BindingKind::Const, "first"), binding(1, BindingKind::Const, "second")], vec![]);
    let analysis = analyze(&module, 1);

    assert_eq!(analysis.alias(0, 1), AliasResult::NoAlias);
    assert_eq!(analysis.alias(0, 0), AliasResult::MustAlias);
}

#[test]
fn treats_unknown_values_as_possible_aliases() {
    // function test(left, right) { return left === right; }
    let test = function(Some(0), 3, vec![0, 1], vec![strict_equal(0, 1, 2), ret(2)]);
    let module = module_with(test, vec![], vec![]);

    assert_eq!(analyze(&module, 1).alias(0, 1), AliasResult::MayAlias);
}

#[test]
fn recognizes_stable_arguments_object_identity() {
    // function test() { return arguments === arguments; }
    let test = function(
        Some(0),
        3,
        vec![],
        vec![op(OperationKind::LoadArguments, vec![], vec![0]), op(OperationKind::LoadArguments, vec![], vec![1]), strict_equal(0, 1, 2), ret(2)],
    );
    let module = module_with(test, vec![], vec![]);
    let analysis = analyze(&module, 1);

    assert_eq!(analysis.alias(0, 1), AliasResult::MustAlias);
    assert_eq!(analysis.object(analysis.points_to(0).unwrap().objects()[0]).unwrap().kind(), AbstractObjectKind::ArgumentsObject);
}

#[test]
fn named_function_self_binding_is_an_object_boundary() {
    // const value = function named() { return named; };
    let named = 1;
    let mut test = function(Some(0), 1, vec![], vec![load(named, 0), ret(0)]);
    test.self_binding = Some(named);
    let module = module_with(test, vec![binding(1, BindingKind::Function, "named")], vec![]);
    let analysis = analyze(&module, 1);

    assert_eq!(analysis.alias(0, 0), AliasResult::MustAlias);
    assert!(analysis.may_escape(0));
}

#[test]
fn primitive_values_do_not_alias_objects() {
    // function test() { const value = {}; return value === 1; }
    let value = 1;
    let test = function(
        Some(0),
        4,
        vec![],
        vec![object(0), init(value, 0), load(value, 1), op(OperationKind::Constant { string: None }, vec![], vec![2]), strict_equal(1, 2, 3), ret(3)],
    );
    let module = module_with(test, vec![binding(1, BindingKind::Const, "value")], vec![]);
    let analysis = analyze(&module, 1);

    assert_eq!(analysis.alias(0, 2), AliasResult::NoAlias);
    assert_eq!(analysis.alias(2, 2), AliasResult::NoAlias);
}

#[test]
fn construction_results_are_definitely_objects() {
    // function test(Constructor) { return new Constructor(); }
    let constructor = 1;
    let test = function(
        Some(0),
        3,
        vec![0],
        vec![init(constructor, 0), load(constructor, 1), op(OperationKind::Construct, vec![1], vec![2]), ret(2)],
    );
    let module = module_with(test, vec![binding(1, BindingKind::Parameter, "Constructor")], vec![]);
    let analysis = analyze(&module, 1);

    assert_eq!(analysis.alias(2, 2), AliasResult::MustAlias);
    assert!(analysis.may_escape(2));
}

#[test]
fn propagates_allocations_through_local_binding_copies() {
    // function test() { const original = {}; const copy = original; return copy; }
    let (original, copy) = (1, 2);
    let test = function(
        Some(0),
        3,
        vec![],
        vec![object(0), init(original, 0), load(original, 1), init(copy, 1), load(copy, 2), ret(2)],
    );
    let module = module_with(test, vec![binding(1, BindingKind::Const, "original"), binding(1, BindingKind::Const, "copy")], vec![]);
    let analysis = analyze(&module, 1);

    assert_eq!(analysis.alias(0, 2), AliasResult::MayAlias);
    assert_eq!(analysis.escape_result(0), Some(EscapeResult::MayEscape));
}

#[test]
fn destructured_values_remain_conservatively_unknown() {
    // function test(source) { const { value } = source; return value; }
    let (source, value) = (1, 2);
    let mut destructure = op(OperationKind::DestructureBinding, vec![1], vec![]);
    destructure.referenced_bindings = vec![value];
    let test = function(Some(0), 3, vec![0], vec![init(source, 0), load(source, 1), destructure, load(value, 2), ret(2)]);
    let module = module_with(test, vec![binding(1, BindingKind::Parameter, "source"), binding(1, BindingKind::Const, "value")], vec![]);
    let analysis = analyze(&module, 1);

    assert!(analysis.points_to(2).unwrap().may_point_to_unknown_object());
    assert!(analysis.may_escape(2));
}

#[test]
fn classifies_return_call_and_unused_allocations() {
    // function test(consume) { const unused = {}; const passed = {}; consume(passed); return {}; }
    let (consume, unused, passed) = (1, 2, 3);
    let test = function(
        Some(0),
        7,
        vec![0],
        vec![
            init(consume, 0),
            object(1),
            init(unused, 1),
            object(2),
            init(passed, 2),
            load(consume, 3),
            load(passed, 4),
            op(OperationKind::Call { callee: Some(0) }, vec![3, 4], vec![5]),
            object(6),
            ret(6),
        ],
    );
    let module = module_with(
        test,
        vec![binding(1, BindingKind::Parameter, "consume"), binding(1, BindingKind::Const, "unused"), binding(1, BindingKind::Const, "passed")],
        vec![],
    );
    let analysis = analyze(&module, 1);

    assert_eq!(analysis.escape_result(1), Some(EscapeResult::DoesNotEscape));
    assert_eq!(analysis.escape_result(2), Some(EscapeResult::MayEscape));
    assert_eq!(analysis.escape_result(6), Some(EscapeResult::MayEscape));
}

#[test]
fn pointer_treats_unknown_origins_conservatively() {
    // function test(create) { const value = create(); return value === null; }
    let (create, value) = (1, 2);
    let test = function(
        Some(0),
        6,
        vec![0],
        vec![
            init(create, 0),
            load(create, 1),
            op(OperationKind::Call { callee: Some(0) }, vec![1], vec![2]),
            init(value, 2),
            load(value, 3),
            op(OperationKind::Constant { string: None }, vec![], vec![4]),
            strict_equal(3, 4, 5),
            ret(5),
        ],
    );
    let module = module_with(test, vec![binding(1, BindingKind::Parameter, "create"), binding(1, BindingKind::Const, "value")], vec![]);
    let analysis = analyze(&module, 1);

    assert_eq!(analysis.escape_result(2), None);
    assert_eq!(analysis.alias(2, 2), AliasResult::MayAlias);
    assert!(analysis.may_escape(2));
}

#[test]
fn pointer_follows_local_bindings_and_forwarded_block_values() {
    let condition = 1;
    let test = function(
        Some(0),
        4,
        vec![0],
        vec![init(condition, 0), object(1), load(condition, 3), op(OperationKind::If, vec![3], vec![]), jump(2, 1), jump(2, 1), ret(2)],
    );
    let module = module_with(test, vec![binding(1, BindingKind::Parameter, "condition")], vec![]);

    assert!(analyze(&module, 1).may_escape(1));
}

#[test]
fn preserves_local_objects_when_merged_with_unknown_values() {
    // The join block's parameter 3 receives `local` or `external`.
    let (condition, external) = (1, 2);
    let test = function(
        Some(0),
        6,
        vec![0, 1],
        vec![
            init(condition, 0),
            init(external, 1),
            object(2),
            load(condition, 4),
            op(OperationKind::If, vec![4], vec![]),
            jump(3, 2),
            load(external, 5),
            jump(3, 5),
            ret(3),
        ],
    );
    let module = module_with(
        test,
        vec![binding(1, BindingKind::Parameter, "condition"), binding(1, BindingKind::Parameter, "external")],
        vec![],
    );
    let analysis = analyze(&module, 1);

    assert_eq!(analysis.escape_result(2), Some(EscapeResult::MayEscape));
    assert!(analysis.points_to(3).unwrap().may_point_to_unknown_object());
    assert!(analysis.points_to(3).unwrap().contains(analysis.points_to(2).unwrap().objects()[0]));
}

#[test]
fn pointer_escaping_containers_escape_their_contents() {
    // function test() { const child = {}; return { child }; }
    let child = 1;
    let mut literal = op(
        OperationKind::ObjectLiteral(vec![ObjectLiteralEntry::Property { computed_key: None, value: 0 }]),
        vec![],
        vec![3],
    );
    literal.regions = vec![0];
    let mut test = function(
        Some(0),
        4,
        vec![],
        vec![object(1), init(child, 1), load(child, 2), op(OperationKind::RegionYield, vec![2], vec![]), literal, ret(3)],
    );
    test.regions = vec![Region { owner: RegionOwner::Operation, yielded: vec![2], produced_parameters: vec![] }];
    let module = module_with(test, vec![binding(1, BindingKind::Const, "child")], vec![]);
    let analysis = analyze(&module, 1);

    assert!(analysis.may_escape(1));
    assert!(analysis.may_escape(3));
}

#[test]
fn pointer_follows_values_captured_by_an_escaping_closure() {
    // function test() { const captured = {}; return () => captured; }
    let captured = 1;
    let mut create = op(OperationKind::CreateFunction, vec![], vec![2]);
    create.referenced_functions = vec![2];
    let test = function(Some(0), 3, vec![], vec![object(1), init(captured, 1), create, ret(2)]);
    let arrow = function(Some(1), 1, vec![], vec![load(captured, 0), ret(0)]);
    let module = module_with(test, vec![binding(1, BindingKind::Const, "captured")], vec![arrow]);

    assert!(analyze(&module, 1).may_escape(1));
}

#[test]
fn pointer_strict_comparison_observes_without_escaping() {
    // function test() { const value = {}; return value === null; }
    let value = 1;
    let test = function(
        Some(0),
        5,
        vec![],
        vec![object(1), init(value, 1), load(value, 2), op(OperationKind::Constant { string: None }, vec![], vec![3]), strict_equal(2, 3, 4), ret(4)],
    );
    let module = module_with(test, vec![binding(1, BindingKind::Const, "value")], vec![]);

    assert_eq!(analyze(&module, 1).escape_result(1), Some(EscapeResult::DoesNotEscape));
}

#[test]
fn pointer_exported_bindings_escape_their_values() {
    // export const value = {};
    let entry = function(None, 1, vec![], vec![object(0), init(0, 0)]);
    let module = ModuleIr { functions: vec![entry], bindings: vec![binding(0, BindingKind::Const, "value")], imports: vec![], exports: vec![ModuleExport::Local { name: "value".to_string(), binding: 0 }] };

    assert_eq!(analyze(&module, 0).escape_result(0), Some(EscapeResult::MayEscape));
}

#[test]
fn pointer_dynamic_import_promises_escape_to_the_host() {
    // function test() { import('./dependency.js'); }
    let test = function(
        Some(0),
        2,
        vec![],
        vec![op(OperationKind::Constant { string: None }, vec![], vec![0]), op(OperationKind::DynamicImport { has_options: false }, vec![0], vec![1])],
    );
    let module = module_with(test, vec![], vec![]);

    assert_eq!(analyze(&module, 1).escape_result(1), Some(EscapeResult::MayEscape));
}

fn suspended(kind: OperationKind) -> ModuleIr {
    // const value = {}; <suspend> 0; return value === value;
    let value = 1;
    let test = function(
        Some(0),
        6,
        vec![],
        vec![
            object(0),
            init(value, 0),
            op(OperationKind::Constant { string: None }, vec![], vec![1]),
            op(kind, vec![1], vec![2]),
            load(value, 3),
            load(value, 4),
            strict_equal(3, 4, 5),
            ret(5),
        ],
    );
    module_with(test, vec![binding(1, BindingKind::Const, "value")], vec![])
}

#[test]
fn values_retained_by_async_continuations_escape() {
    assert_eq!(analyze(&suspended(OperationKind::Await), 1).escape_result(0), Some(EscapeResult::MayEscape));
}

#[test]
fn values_retained_by_generator_continuations_escape() {
    assert_eq!(analyze(&suspended(OperationKind::Yield), 1).escape_result(0), Some(EscapeResult::MayEscape));
}

#[test]
fn rejects_objects_from_another_function_analysis() {
    // function first() { return arguments; } function second() { return arguments; }
    let body = || function(Some(0), 1, vec![], vec![op(OperationKind::LoadArguments, vec![], vec![0]), ret(0)]);
    let module = ModuleIr {
        functions: vec![function(None, 0, vec![], vec![]), body(), body()],
        bindings: vec![binding(0, BindingKind::Function, "first"), binding(0, BindingKind::Function, "second")],
        imports: vec![], exports: vec![],
    };
    let first_analysis = FunctionPointerAnalysis::analyze(&module, 1, 1).unwrap();
    let second_analysis = FunctionPointerAnalysis::analyze(&module, 2, 2).unwrap();
    let object = first_analysis.points_to(0).unwrap().objects()[0];

    assert_eq!(object.function(), 1);
    assert_eq!(second_analysis.object_escape_result(object), None);
    assert!(second_analysis.object_may_escape(object));
}

#[test]
fn rejects_objects_from_another_snapshot_of_the_same_function() {
    // function test() { return arguments; }
    let test = function(Some(0), 1, vec![], vec![op(OperationKind::LoadArguments, vec![], vec![0]), ret(0)]);
    let module = module_with(test, vec![], vec![]);
    let first_analysis = FunctionPointerAnalysis::analyze(&module, 1, 1).unwrap();
    let second_analysis = FunctionPointerAnalysis::analyze(&module, 1, 2).unwrap();
    let object = first_analysis.points_to(0).unwrap().objects()[0];

    assert!(first_analysis.object(object).is_some());
    assert_eq!(second_analysis.object_escape_result(object), None);
    assert!(second_analysis.object_may_escape(object));
}

#[test]
fn allocations_are_numbered_in_operation_order() {
    let test = function(
        Some(0),
        4,
        vec![],
        vec![
            op(OperationKind::MetaProperty { import_meta: true }, vec![], vec![0]),
            object(1),
            op(OperationKind::LoadArguments, vec![], vec![2]),
            op(OperationKind::MetaProperty { import_meta: true }, vec![], vec![3]),
        ],
    );
    let module = module_with(test, vec![], vec![]);
    let analysis = analyze(&module, 1);
    let kinds: Vec<AbstractObjectKind> =
        (0..3).map(|value| analysis.object(analysis.points_to(value).unwrap().objects()[0]).unwrap().kind()).collect();

    assert_eq!(kinds, vec![AbstractObjectKind::ImportMeta, AbstractObjectKind::Allocation(1), AbstractObjectKind::ArgumentsObject]);
    assert_eq!(analysis.alias(0, 3), AliasResult::MustAlias);
    assert!(analysis.may_escape(0));
    assert_eq!(analysis.escape_result(2), Some(EscapeResult::DoesNotEscape));
    assert!(FunctionPointerAnalysis::analyze(&module, 5, 1).is_none());
}

#[test]
fn rejects_objects_of_an_analysis_drawn_from_the_same_source() {
    // function test() { return {}; }
    let test = function(Some(0), 1, vec![], vec![object(0), ret(0)]);
    let module = module_with(test, vec![], vec![]);
    let mut generations = OwnerGenerations::new();
    let first_generation = generations.fresh();
    let second_generation = generations.fresh();
    assert_eq!((first_generation, second_generation), (1, 2));

    let first = FunctionPointerAnalysis::analyze(&module, 1, first_generation).unwrap();
    let second = FunctionPointerAnalysis::analyze(&module, 1, second_generation).unwrap();
    let object = first.points_to(0).unwrap().objects()[0];

    assert!(first.object(object).is_some());
    assert!(second.object(object).is_none());
    assert_ne!(object, second.points_to(0).unwrap().objects()[0]);
}
