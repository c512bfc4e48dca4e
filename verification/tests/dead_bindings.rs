use lib::dead_bindings::{plan_binding_removal, plan_dead_binding_removals, BindingRemoval};
use lib::ir::{BindingData, BindingKind, FunctionIr, ModuleExport, ModuleIr, Operation, OperationKind};

fn operation(kind: OperationKind, operands: Vec<usize>, results: Vec<usize>, referenced_bindings: Vec<usize>) -> Operation {
    Operation {
        kind,
        invoked: false,
        operands,
        results,
        regions: vec![],
        referenced_functions: vec![],
        referenced_bindings,
        successors: vec![],
    }
}

fn constant(result: usize) -> Operation {
    operation(OperationKind::Constant { string: None }, vec![], vec![result], vec![])
}

fn initialize(binding: usize, value: usize) -> Operation {
    operation(OperationKind::InitializeBinding { binding }, vec![value], vec![], vec![binding])
}

fn function(parent: Option<usize>, value_count: usize, operations: Vec<Operation>) -> FunctionIr {
    FunctionIr { parent, value_count, parameters: vec![], self_binding: None, operations, regions: vec![] }
}

/// `const value = 1;` in the entry function: the constant is operation 0,
/// the initialization operation 1.
fn module_with_initialized_binding(extra: Vec<Operation>) -> ModuleIr {
    let mut operations = vec![constant(0), initialize(0, 0)];
    operations.extend(extra);
    ModuleIr {
        functions: vec![function(None, 1, operations)],
        bindings: vec![BindingData { declaring_function: 0, kind: BindingKind::Const, name: "value".to_string() }],
        imports: vec![],
        exports: vec![],
    }
}

fn plan(removal: &BindingRemoval) -> (usize, Vec<(usize, Vec<usize>)>) {
    (removal.binding, removal.initializations.clone())
}

#[test]
fn plans_removing_an_unexported_binding_but_not_its_initializer_value() {
    let module = module_with_initialized_binding(vec![]);
    let plans = plan_dead_binding_removals(&module);

    assert_eq!(plans.len(), 1);
    assert_eq!(plan(&plans[0]), (0, vec![(0, vec![1])]));
}

#[test]
fn keeps_a_binding_exposed_by_the_module_interface() {
    let mut module = module_with_initialized_binding(vec![]);
    module.exports.push(ModuleExport::Local { name: "value".to_string(), binding: 0 });

    assert!(plan_dead_binding_removals(&module).is_empty());
}

#[test]
fn keeps_module_bindings_visible_to_possible_direct_eval() {
    let module = module_with_initialized_binding(vec![operation(
        OperationKind::LoadGlobal { name: "eval".to_string() },
        vec![],
        vec![],
        vec![],
    )]);

    assert!(plan_dead_binding_removals(&module).is_empty());
}

#[test]
fn keeps_a_binding_that_is_read() {
    let module = module_with_initialized_binding(vec![operation(
        OperationKind::LoadBinding { binding: 0 },
        vec![],
        vec![],
        vec![0],
    )]);

    assert!(plan_binding_removal(&module, 0).is_none());
    assert!(plan_dead_binding_removals(&module).is_empty());
}

#[test]
fn collects_initializations_from_every_function() {
    // let value = 1; function later() { value = ... initialized again in a nested scope }
    let mut module = module_with_initialized_binding(vec![]);
    module.bindings[0].kind = BindingKind::Let;
    module.functions.push(function(Some(0), 1, vec![constant(0), initialize(0, 0), initialize(0, 0)]));

    let removal = plan_binding_removal(&module, 0).unwrap();
    assert_eq!(plan(&removal), (0, vec![(0, vec![1]), (1, vec![1, 2])]));
}

#[test]
fn keeps_imported_bindings_and_bindings_of_nested_functions() {
    let mut module = module_with_initialized_binding(vec![]);
    module.bindings[0].kind = BindingKind::Import;
    assert!(plan_dead_binding_removals(&module).is_empty());

    let mut module = module_with_initialized_binding(vec![]);
    module.functions.push(function(Some(0), 0, vec![]));
    module.bindings[0].declaring_function = 1;
    assert!(plan_dead_binding_removals(&module).is_empty());
}

#[test]
fn keeps_a_binding_nothing_references() {
    let mut module = module_with_initialized_binding(vec![]);
    module.functions[0].operations.truncate(1);

    assert!(plan_binding_removal(&module, 0).is_none());
    assert!(plan_dead_binding_removals(&module).is_empty());
}
