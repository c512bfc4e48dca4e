use lib::binding_promotion::{
    BlockPosition, FunctionBindingPromotionBuilder, FunctionLayout, ModuleBindingPromotion,
};
use lib::control_flow::{RegionShape, TerminatorShape};
use lib::ir::{BindingData, BindingKind, FunctionIr, ModuleExport, ModuleIr, Operation, OperationKind};

fn op(kind: OperationKind, operands: Vec<usize>, results: Vec<usize>) -> Operation {
    Operation {
        kind,
        invoked: false,
        operands,
        results,
        regions: vec![],
        referenced_functions: vec![],
        referenced_bindings: vec![],
        successors: vec![],
    }
}

fn constant(result: usize) -> Operation {
    op(OperationKind::Constant { string: None }, vec![], vec![result])
}

fn init(binding: usize, value: usize) -> Operation {
    let mut operation = op(OperationKind::InitializeBinding { binding }, vec![value], vec![]);
    operation.referenced_bindings = vec![binding];
    operation
}

fn store(binding: usize, value: usize) -> Operation {
    let mut operation = op(OperationKind::StoreBinding { binding }, vec![value], vec![]);
    operation.referenced_bindings = vec![binding];
    operation
}

fn load(binding: usize, result: usize) -> Operation {
    let mut operation = op(OperationKind::LoadBinding { binding }, vec![], vec![result]);
    operation.referenced_bindings = vec![binding];
    operation
}

fn load_global(name: &str, result: usize) -> Operation {
    op(OperationKind::LoadGlobal { name: name.to_string() }, vec![], vec![result])
}

fn binding(declaring_function: usize, kind: BindingKind, name: &str) -> BindingData {
    BindingData { declaring_function, kind, name: name.to_string() }
}

fn function(parent: Option<usize>, value_count: usize, operations: Vec<Operation>) -> FunctionIr {
    FunctionIr { parent, value_count, parameters: vec![], self_binding: None, operations, regions: vec![] }
}

/// A layout whose body region is one block holding every operation in order.
fn straight_line(function: &FunctionIr) -> FunctionLayout {
    FunctionLayout {
        normal: true,
        body: Some(RegionShape { region: 0, entry: 0, terminators: vec![None] }),
        positions: (0..function.operations.len()).map(|index| Some(BlockPosition { block: 0, index })).collect(),
    }
}

fn layouts(module: &ModuleIr) -> Vec<FunctionLayout> {
    module.functions.iter().map(straight_line).collect()
}

/// The entry function and a function inside it that declares `bindings`.
fn module_with(functions: Vec<FunctionIr>, bindings: Vec<BindingData>) -> ModuleIr {
    ModuleIr { functions, bindings, imports: vec![], exports: vec![] }
}

#[test]
fn accepts_a_dominated_initialization_store_and_load() {
    let value = 0;
    let entry = function(None, 3, vec![constant(0), init(value, 0), constant(1), store(value, 1), load(value, 2)]);
    let layout = straight_line(&entry);

    let mut builder = FunctionBindingPromotionBuilder::default();
    builder.add_candidate(value);
    builder.record_reference(&entry, &layout, 1, value);
    builder.record_reference(&entry, &layout, 3, value);
    builder.record_reference(&entry, &layout, 4, value);

    let promotion = builder.finish(&entry, &layout);
    let binding_promotion = promotion.promotable_binding(value).unwrap();

    assert_eq!(binding_promotion.initialization(), 1);
    assert_eq!(binding_promotion.stores(), [3]);
    assert_eq!(binding_promotion.loads(), [4]);
}

#[test]
fn rejects_an_initialization_that_does_not_dominate_a_load() {
    // Blocks: entry branches to left and right, which both jump to join.
    let value = 0;
    let (left, right, join) = (1, 2, 3);
    let entry = function(
        None,
        3,
        vec![
            constant(0),
            op(OperationKind::If, vec![0], vec![]),
            constant(1),
            init(value, 1),
            op(OperationKind::Jump, vec![], vec![]),
            op(OperationKind::Jump, vec![], vec![]),
            load(value, 2),
        ],
    );
    let at = |block: usize, index: usize| Some(BlockPosition { block, index });
    let layout = FunctionLayout {
        normal: true,
        body: Some(RegionShape {
            region: 0,
            entry: 0,
            terminators: vec![
                Some(TerminatorShape { operation: 1, successors: vec![left, right] }),
                Some(TerminatorShape { operation: 4, successors: vec![join] }),
                Some(TerminatorShape { operation: 5, successors: vec![join] }),
                None,
            ],
        }),
        positions: vec![at(0, 0), at(0, 1), at(left, 0), at(left, 1), at(left, 2), at(right, 0), at(join, 0)],
    };

    let mut builder = FunctionBindingPromotionBuilder::default();
    builder.add_candidate(value);
    builder.record_reference(&entry, &layout, 3, value);
    builder.record_reference(&entry, &layout, 6, value);

    let promotion = builder.finish(&entry, &layout);

    assert!(!promotion.is_promotable(value));
}

#[test]
fn rejects_a_write_that_requires_named_evaluation() {
    let value = 0;
    let mut create = op(OperationKind::CreateFunction, vec![], vec![1]);
    create.referenced_functions = vec![1];
    let entry = function(None, 2, vec![constant(0), init(value, 0), create, store(value, 1)]);
    let layout = straight_line(&entry);

    let mut builder = FunctionBindingPromotionBuilder::default();
    builder.add_candidate(value);
    builder.record_reference(&entry, &layout, 1, value);
    builder.record_reference(&entry, &layout, 3, value);

    let promotion = builder.finish(&entry, &layout);

    assert!(!promotion.is_promotable(value));
}

#[test]
fn accepts_a_local_var_and_ignores_other_binding_kinds() {
    let (var_binding, let_binding) = (0, 1);
    let inner = function(Some(0), 2, vec![constant(0), init(var_binding, 0), constant(1), init(let_binding, 1)]);
    let module = module_with(
        vec![function(None, 0, vec![]), inner],
        vec![binding(1, BindingKind::Var, "promoted"), binding(1, BindingKind::Let, "retained")],
    );

    let promotion = ModuleBindingPromotion::compute(&module, &layouts(&module));
    let function_promotion = promotion.function(1).unwrap();

    assert!(function_promotion.is_promotable(var_binding));
    assert!(!function_promotion.is_promotable(let_binding));
}

#[test]
fn excludes_a_binding_declared_by_the_entry_function() {
    let global = 0;
    let module = module_with(
        vec![function(None, 1, vec![constant(0), init(global, 0)])],
        vec![binding(0, BindingKind::Var, "global")],
    );

    let promotion = ModuleBindingPromotion::compute(&module, &layouts(&module));

    assert!(!promotion.function(0).unwrap().is_promotable(global));
}

#[test]
fn excludes_an_exported_binding() {
    let value = 0;
    let mut module = module_with(
        vec![function(None, 1, vec![constant(0), init(value, 0)])],
        vec![binding(0, BindingKind::Var, "value")],
    );
    module.exports.push(ModuleExport::Local { name: "value".to_string(), binding: value });

    let promotion = ModuleBindingPromotion::compute(&module, &layouts(&module));

    assert!(!promotion.function(0).unwrap().is_promotable(value));
}

#[test]
fn rejects_a_binding_captured_by_a_nested_function() {
    let value = 0;
    let module = module_with(
        vec![
            function(None, 0, vec![]),
            function(Some(0), 1, vec![constant(0), init(value, 0)]),
            function(Some(1), 1, vec![load(value, 0)]),
        ],
        vec![binding(1, BindingKind::Var, "value")],
    );

    let promotion = ModuleBindingPromotion::compute(&module, &layouts(&module));

    assert!(!promotion.function(1).unwrap().is_promotable(value));
}

#[test]
fn rejects_bindings_visible_to_possible_direct_eval() {
    let value = 0;
    let module = module_with(
        vec![function(None, 0, vec![]), function(Some(0), 2, vec![constant(0), init(value, 0), load_global("eval", 1)])],
        vec![binding(1, BindingKind::Var, "value")],
    );

    let promotion = ModuleBindingPromotion::compute(&module, &layouts(&module));

    assert!(!promotion.function(1).unwrap().is_promotable(value));
}

#[test]
fn promotes_a_var_with_its_stores_and_loads_in_operation_order() {
    let value = 0;
    let module = module_with(
        vec![
            function(None, 0, vec![]),
            function(Some(0), 4, vec![constant(0), init(value, 0), load(value, 1), constant(2), store(value, 2), load(value, 3)]),
        ],
        vec![binding(1, BindingKind::Var, "value")],
    );

    let promotion = ModuleBindingPromotion::compute(&module, &layouts(&module));
    let function_promotion = promotion.function(1).unwrap();
    let promoted = function_promotion.promotable_binding(value).unwrap();

    assert_eq!(promoted.initialization(), 1);
    assert_eq!(promoted.stores(), [4]);
    assert_eq!(promoted.loads(), [2, 5]);
    assert_eq!(promoted.operations(), vec![1, 4, 2, 5]);
    assert_eq!(function_promotion.promotable_bindings(), vec![value]);
    assert!(!function_promotion.is_empty());
    assert!(promotion.function(0).unwrap().is_empty());
    assert!(promotion.function(2).is_none());
    assert_eq!(promotion.functions().len(), 2);
}

#[test]
fn rejects_a_load_before_the_initialization_in_one_block() {
    let value = 0;
    let module = module_with(
        vec![function(None, 0, vec![]), function(Some(0), 2, vec![load(value, 0), constant(1), init(value, 1)])],
        vec![binding(1, BindingKind::Var, "value")],
    );

    let promotion = ModuleBindingPromotion::compute(&module, &layouts(&module));

    assert!(!promotion.function(1).unwrap().is_promotable(value));
}

#[test]
fn rejects_every_binding_of_a_suspending_function_or_one_without_explicit_flow() {
    let value = 0;
    let module = module_with(
        vec![function(None, 0, vec![]), function(Some(0), 1, vec![constant(0), init(value, 0)])],
        vec![binding(1, BindingKind::Var, "value")],
    );

    let mut suspending = layouts(&module);
    suspending[1].normal = false;
    let promotion = ModuleBindingPromotion::compute(&module, &suspending);
    assert!(!promotion.function(1).unwrap().is_promotable(value));

    let mut implicit = layouts(&module);
    implicit[1].body = None;
    let promotion = ModuleBindingPromotion::compute(&module, &implicit);
    assert!(!promotion.function(1).unwrap().is_promotable(value));

    let promotion = ModuleBindingPromotion::compute(&module, &layouts(&module));
    assert!(promotion.function(1).unwrap().is_promotable(value));
}

#[test]
fn rejects_a_binding_named_outside_the_body_region_or_by_another_operation() {
    let value = 0;
    let module = module_with(
        vec![function(None, 0, vec![]), function(Some(0), 1, vec![constant(0), init(value, 0)])],
        vec![binding(1, BindingKind::Var, "value")],
    );
    let mut outside = layouts(&module);
    outside[1].positions[1] = None;
    let promotion = ModuleBindingPromotion::compute(&module, &outside);
    assert!(!promotion.function(1).unwrap().is_promotable(value));

    let mut destructure = op(OperationKind::DestructureBinding, vec![0], vec![]);
    destructure.referenced_bindings = vec![value];
    let module = module_with(
        vec![function(None, 0, vec![]), function(Some(0), 1, vec![constant(0), init(value, 0), destructure])],
        vec![binding(1, BindingKind::Var, "value")],
    );
    let promotion = ModuleBindingPromotion::compute(&module, &layouts(&module));
    assert!(!promotion.function(1).unwrap().is_promotable(value));
}
