use lib::call_graph::{CallSiteKind, CallTargetCompleteness, ProgramFunctionId};
use lib::dependence::DependenceSuccessor;
use lib::ir::{BindingData, BindingKind, FunctionIr, ModuleExport, ModuleImport, ModuleIr, Operation, OperationKind};
use lib::program::{
    ImportedBindingTarget, ModuleDependency, ModuleRequest, ModuleRequestKind, ModuleTarget, ProgramIr, ProgramLinkage,
};
use lib::program_call_graph::{FunctionReferenceSite, ProgramCallGraph};

fn op(kind: OperationKind, operands: Vec<usize>, results: Vec<usize>) -> Operation {
    Operation {
        kind,
        invoked: false,
        operands,
        results,
        regions: vec![],
        referenced_functions: vec![],
        referenced_bindings: vec![],
        successors: vec![],
    }
}

fn create(function: usize, result: usize) -> Operation {
    let mut operation = op(OperationKind::CreateFunction, vec![], vec![result]);
    operation.referenced_functions = vec![function];
    operation
}

fn init(binding: usize, value: usize) -> Operation {
    let mut operation = op(OperationKind::InitializeBinding { binding }, vec![value], vec![]);
    operation.referenced_bindings = vec![binding];
    operation
}

fn store(binding: usize, value: usize) -> Operation {
    let mut operation = op(OperationKind::StoreBinding { binding }, vec![value], vec![]);
    operation.referenced_bindings = vec![binding];
    operation
}

fn load(binding: usize, result: usize) -> Operation {
    let mut operation = op(OperationKind::LoadBinding { binding }, vec![], vec![result]);
    operation.referenced_bindings = vec![binding];
    operation
}

fn global(name: &str, result: usize) -> Operation {
    op(OperationKind::LoadGlobal { name: name.to_string() }, vec![], vec![result])
}

fn call(callee: usize, mut arguments: Vec<usize>, result: usize) -> Operation {
    let mut operands = vec![callee];
    operands.append(&mut arguments);
    op(OperationKind::Call { callee: Some(0) }, operands, vec![result])
}

fn jump(parameter: usize, argument: usize) -> Operation {
    let mut operation = op(OperationKind::Jump, vec![], vec![]);
    operation.successors = vec![DependenceSuccessor { produced: vec![], forwarded: vec![(parameter, argument)] }];
    operation
}

fn binding(declaring_function: usize, kind: BindingKind, name: &str) -> BindingData {
    BindingData { declaring_function, kind, name: name.to_string() }
}

fn function(parent: Option<usize>, value_count: usize, operations: Vec<Operation>) -> FunctionIr {
    FunctionIr { parent, value_count, parameters: vec![], self_binding: None, operations, regions: vec![] }
}

fn single_module(functions: Vec<FunctionIr>, bindings: Vec<BindingData>) -> ProgramIr {
    let module = ModuleIr { functions, bindings, imports: vec![], exports: vec![] };
    ProgramIr { modules: vec![module], entry_modules: vec![0], dependencies: vec![] }
}

fn analyze(program: &ProgramIr) -> ProgramCallGraph {
    let linkage = ProgramLinkage::analyze(program);
    ProgramCallGraph::analyze(program, &linkage)
}

fn created_functions(program: &ProgramIr, module: usize) -> Vec<ProgramFunctionId> {
    program.modules[module].functions[0]
        .operations
        .iter()
        .filter(|operation| matches!(operation.kind, OperationKind::CreateFunction))
        .map(|operation| ProgramFunctionId { module: module as u32, function: operation.referenced_functions[0] as u32 })
        .collect()
}

fn entry_of(module: usize) -> ProgramFunctionId {
    ProgramFunctionId { module: module as u32, function: 0 }
}

#[test]
fn resolves_an_unmodified_local_function_binding() {
    // function target() {}
    // target();
    let program = single_module(
        vec![
            function(None, 3, vec![create(1, 0), init(0, 0), load(0, 1), call(1, vec![], 2)]),
            function(Some(0), 0, vec![]),
        ],
        vec![binding(0, BindingKind::Function, "target")],
    );
    let target = created_functions(&program, 0)[0];
    let graph = analyze(&program);
    let callers = graph.callers_of(target);
    let call = callers.first().expect("local call must be represented");

    assert_eq!(call.kind(), CallSiteKind::Call);
    assert_eq!(call.targets().exact_function(), Some(target));
    assert!(graph.has_complete_incoming_calls(target));
    assert!(matches!(
        graph.references_to(target).first().map(|reference| reference.site()),
        Some(FunctionReferenceSite::Allocation { .. })
    ));
}

#[test]
fn merges_complete_targets_forwarded_through_control_flow() {
    // function first() {}
    // function second() {}
    // const selected = condition ? first : second;
    // selected();
    let program = single_module(
        vec![
            function(
                None,
                8,
                vec![
                    create(1, 0),
                    init(0, 0),
                    create(2, 1),
                    init(1, 1),
                    global("condition", 2),
                    op(OperationKind::If, vec![2], vec![]),
                    load(0, 3),
                    jump(5, 3),
                    load(1, 4),
                    jump(5, 4),
                    init(2, 5),
                    load(2, 6),
                    call(6, vec![], 7),
                ],
            ),
            function(Some(0), 0, vec![]),
            function(Some(0), 0, vec![]),
        ],
        vec![
            binding(0, BindingKind::Function, "first"),
            binding(0, BindingKind::Function, "second"),
            binding(0, BindingKind::Const, "selected"),
        ],
    );
    let targets = created_functions(&program, 0);
    let graph = analyze(&program);
    let site = graph
        .sites()
        .iter()
        .find(|site| site.targets().functions().len() == 2)
        .expect("merged call must be represented");

    assert_eq!(site.targets().completeness(), CallTargetCompleteness::Complete);
    assert_eq!(site.targets().functions(), targets.as_slice());
    assert!(targets.iter().all(|target| graph.has_complete_incoming_calls(*target)));
}

#[test]
fn retains_unknown_invocations_as_incomplete_sites() {
    // unknown(); object.method();
    let program = single_module(
        vec![function(
            None,
            4,
            vec![
                global("unknown", 0),
                call(0, vec![], 1),
                global("object", 2),
                op(OperationKind::Call { callee: None }, vec![2], vec![3]),
            ],
        )],
        vec![],
    );
    let graph = analyze(&program);
    let sites = graph.sites_in(entry_of(0));

    assert_eq!(sites.len(), 2);
    assert!(sites.iter().all(|site| {
        site.targets().functions().is_empty() && site.targets().completeness() == CallTargetCompleteness::Incomplete
    }));
}

#[test]
fn records_program_entry_as_an_external_incoming_path() {
    // const value = 1;
    let program = single_module(
        vec![function(None, 1, vec![op(OperationKind::Constant { string: None }, vec![], vec![0]), init(0, 0)])],
        vec![binding(0, BindingKind::Const, "value")],
    );
    let entry = entry_of(0);
    let graph = analyze(&program);

    assert!(graph.references_to(entry).iter().any(|reference| reference.site() == FunctionReferenceSite::ProgramEntry));
    assert!(!graph.has_complete_incoming_calls(entry));
}

#[test]
fn retains_known_targets_when_a_call_may_also_be_unknown() {
    // function target() {}
    // let callee = target;
    // if (condition) callee = unknown;
    // callee();
    let program = single_module(
        vec![
            function(
                None,
                6,
                vec![
                    create(1, 0),
                    init(0, 0),
                    load(0, 1),
                    init(1, 1),
                    global("condition", 2),
                    op(OperationKind::If, vec![2], vec![]),
                    global("unknown", 3),
                    store(1, 3),
                    load(1, 4),
                    call(4, vec![], 5),
                ],
            ),
            function(Some(0), 0, vec![]),
        ],
        vec![binding(0, BindingKind::Function, "target"), binding(0, BindingKind::Let, "callee")],
    );
    let target = created_functions(&program, 0)[0];
    let graph = analyze(&program);
    let callers = graph.callers_of(target);
    let site = callers.first().expect("the known portion of an incomplete target set must be retained");

    assert_eq!(site.targets().functions(), [target]);
    assert_eq!(site.targets().completeness(), CallTargetCompleteness::Incomplete);
}

#[test]
fn resolves_constructor_invocations() {
    // function Constructor() {}
    // new Constructor();
    let program = single_module(
        vec![
            function(
                None,
                3,
                vec![create(1, 0), init(0, 0), load(0, 1), op(OperationKind::Construct, vec![1], vec![2])],
            ),
            function(Some(0), 0, vec![]),
        ],
        vec![binding(0, BindingKind::Function, "Constructor")],
    );
    let target = created_functions(&program, 0)[0];
    let graph = analyze(&program);
    let callers = graph.callers_of(target);
    let site = callers.first().expect("constructor invocation must resolve");

    assert_eq!(site.kind(), CallSiteKind::Construct);
    assert_eq!(site.targets().exact_function(), Some(target));
}

#[test]
fn retains_super_calls_as_incomplete_invocation_sites() {
    // class Base {}
    // class Derived extends Base { constructor() { super(); } }
    // new Derived();
    let mut derived = op(OperationKind::CreateClass { self_binding: None, elements: vec![] }, vec![1], vec![2]);
    derived.referenced_functions = vec![1];
    let program = single_module(
        vec![
            function(
                None,
                5,
                vec![
                    op(OperationKind::CreateClass { self_binding: None, elements: vec![] }, vec![], vec![0]),
                    init(0, 0),
                    load(0, 1),
                    derived,
                    init(1, 2),
                    load(1, 3),
                    op(OperationKind::Construct, vec![3], vec![4]),
                ],
            ),
            function(Some(0), 1, vec![op(OperationKind::SuperCall, vec![], vec![0])]),
        ],
        vec![binding(0, BindingKind::Class, "Base"), binding(0, BindingKind::Class, "Derived")],
    );
    let graph = analyze(&program);
    let site = graph
        .sites()
        .iter()
        .find(|site| site.kind() == CallSiteKind::SuperCall)
        .expect("super call must remain explicit");

    assert!(site.targets().functions().is_empty());
    assert_eq!(site.targets().completeness(), CallTargetCompleteness::Incomplete);
}

#[test]
fn resolves_calls_through_internal_module_imports() {
    // source.js: export function target() {}
    // consumer.js: import { target } from './source.js'; target();
    let source = ModuleIr {
        functions: vec![function(None, 1, vec![create(1, 0), init(0, 0)]), function(Some(0), 0, vec![])],
        bindings: vec![binding(0, BindingKind::Function, "target")],
        imports: vec![],
        exports: vec![ModuleExport::Local { name: "target".to_string(), binding: 0 }],
    };
    let consumer = ModuleIr {
        functions: vec![function(None, 2, vec![load(0, 0), call(0, vec![], 1)])],
        bindings: vec![binding(0, BindingKind::Import, "target")],
        imports: vec![ModuleImport::Named {
            source: "./source.js".to_string(),
            attributes: vec![],
            imported: "target".to_string(),
            binding: 0,
        }],
        exports: vec![],
    };
    let dependency = ModuleDependency {
        importer: 1,
        request: ModuleRequest { kind: ModuleRequestKind::StaticImport, specifier: "./source.js".to_string(), attributes: vec![] },
        target: ModuleTarget::Internal(0),
    };
    let program = ProgramIr { modules: vec![source, consumer], entry_modules: vec![], dependencies: vec![dependency] };
    let linkage = ProgramLinkage::analyze(&program);
    let (source_id, consumer_id) = (0u32, 1u32);
    let target = created_functions(&program, source_id as usize)[0];
    let graph = ProgramCallGraph::analyze(&program, &linkage);
    let callers = graph.callers_of(target);
    let call = callers.first().expect("imported call must resolve to its source function");

    assert_eq!(call.caller().module, consumer_id);
    assert_eq!(call.targets().exact_function(), Some(target));
    assert!(!graph.has_complete_incoming_calls(target));
    assert!(graph
        .references_to(target)
        .iter()
        .any(|reference| matches!(reference.site(), FunctionReferenceSite::Export { .. })));
}

#[test]
fn records_jsx_component_uses_as_non_call_references() {
    // function View() { return <main />; }
    // const node = <View />;
    let program = single_module(
        vec![
            function(
                None,
                3,
                vec![create(1, 0), init(0, 0), load(0, 1), op(OperationKind::JsxElement, vec![1], vec![2]), init(1, 2)],
            ),
            function(
                Some(0),
                1,
                vec![op(OperationKind::JsxElement, vec![], vec![0]), op(OperationKind::Return, vec![0], vec![])],
            ),
        ],
        vec![binding(0, BindingKind::Function, "View"), binding(0, BindingKind::Const, "node")],
    );
    let target = created_functions(&program, 0)[0];
    let graph = analyze(&program);
    let references = graph.references_to(target);
    let reference = references
        .iter()
        .find(|reference| matches!(reference.site(), FunctionReferenceSite::ValueUse { .. }))
        .expect("JSX component operand must remain inspectable");
    let FunctionReferenceSite::ValueUse { operation, .. } = reference.site() else {
        unreachable!()
    };
    let operation = &program.modules[operation.function.module as usize].functions
        [operation.function.function as usize]
        .operations[operation.operation as usize];

    assert!(matches!(operation.kind, OperationKind::JsxElement));
    assert!(!graph.has_complete_incoming_calls(target));
}

#[test]
fn records_returned_function_values_as_incomplete_incoming_paths() {
    // function target() {}
    // function expose() { return target; }
    // expose();
    let program = single_module(
        vec![
            function(None, 4, vec![create(1, 0), init(0, 0), create(2, 1), init(1, 1), load(1, 2), call(2, vec![], 3)]),
            function(Some(0), 0, vec![]),
            function(Some(0), 1, vec![load(0, 0), op(OperationKind::Return, vec![0], vec![])]),
        ],
        vec![binding(0, BindingKind::Function, "target"), binding(0, BindingKind::Function, "expose")],
    );
    let target = created_functions(&program, 0)[0];
    let graph = analyze(&program);

    assert!(graph
        .references_to(target)
        .iter()
        .any(|reference| matches!(reference.site(), FunctionReferenceSite::ValueUse { .. })));
    assert!(!graph.has_complete_incoming_calls(target));
}

#[test]
fn resolves_named_function_self_recursion() {
    // const function_value = function recurse(value) {
    //     if (value) recurse(false);
    // };
    // function_value(true);
    let mut recurse = function(
        Some(0),
        5,
        vec![
            init(2, 0),
            load(2, 1),
            op(OperationKind::If, vec![1], vec![]),
            load(1, 2),
            op(OperationKind::Constant { string: None }, vec![], vec![3]),
            call(2, vec![3], 4),
        ],
    );
    recurse.parameters = vec![0];
    recurse.self_binding = Some(1);
    let program = single_module(
        vec![
            function(
                None,
                4,
                vec![create(1, 0), init(0, 0), load(0, 1), op(OperationKind::Constant { string: None }, vec![], vec![2]), call(1, vec![2], 3)],
            ),
            recurse,
        ],
        vec![
            binding(0, BindingKind::Const, "function_value"),
            binding(1, BindingKind::Function, "recurse"),
            binding(1, BindingKind::Parameter, "value"),
        ],
    );
    let target = created_functions(&program, 0)[0];
    let graph = analyze(&program);

    assert_eq!(graph.callers_of(target).len(), 2);
    assert!(graph.has_complete_incoming_calls(target));
}

#[test]
fn models_tagged_templates_as_invocation_sites() {
    // function tag() {}
    // tag`value`;
    let program = single_module(
        vec![
            function(
                None,
                3,
                vec![
                    create(1, 0),
                    init(0, 0),
                    load(0, 1),
                    op(OperationKind::TaggedTemplate { value_target: true }, vec![1], vec![2]),
                ],
            ),
            function(Some(0), 0, vec![]),
        ],
        vec![binding(0, BindingKind::Function, "tag")],
    );
    let target = created_functions(&program, 0)[0];
    let graph = analyze(&program);
    let callers = graph.callers_of(target);
    let site = callers.first().expect("tag invocation must be represented");

    assert_eq!(site.kind(), CallSiteKind::TaggedTemplate);
    assert_eq!(site.targets().exact_function(), Some(target));
}

#[test]
fn direct_eval_exposes_visible_function_bindings() {
    // function target() {}
    // eval("target()");
    let program = single_module(
        vec![
            function(
                None,
                4,
                vec![
                    create(1, 0),
                    init(0, 0),
                    global("eval", 1),
                    op(OperationKind::Constant { string: None }, vec![], vec![2]),
                    call(1, vec![2], 3),
                ],
            ),
            function(Some(0), 0, vec![]),
        ],
        vec![binding(0, BindingKind::Function, "target")],
    );
    let target = created_functions(&program, 0)[0];
    let graph = analyze(&program);

    assert!(graph
        .references_to(target)
        .iter()
        .any(|reference| matches!(reference.site(), FunctionReferenceSite::DirectEval { .. })));
    assert!(!graph.has_complete_incoming_calls(target));
}

#[test]
fn numbers_sites_in_program_order() {
    // unknown(); new Thing(); unknown();
    let program = single_module(
        vec![function(
            None,
            6,
            vec![
                global("unknown", 0),
                call(0, vec![], 1),
                global("Thing", 2),
                op(OperationKind::Construct, vec![2], vec![3]),
                call(0, vec![], 4),
            ],
        )],
        vec![],
    );
    let graph = analyze(&program);
    let sites = graph.sites();

    assert_eq!(sites.len(), 3);
    for (index, site) in sites.iter().enumerate() {
        assert_eq!(site.id().index(), index);
        assert_eq!(graph.site(site.id()).map(|found| found.operation()), Some(site.operation()));
    }
    assert_eq!(sites[0].operation().operation, 1);
    assert_eq!(sites[1].kind(), CallSiteKind::Construct);
    assert_eq!(sites[2].operation().operation, 4);
}

#[test]
fn invoked_calls_and_property_tags_have_no_resolved_target() {
    // try { target(); } with the call invoked, and object.tag`value`.
    let mut invoked = call(1, vec![], 2);
    invoked.invoked = true;
    let program = single_module(
        vec![
            function(
                None,
                5,
                vec![
                    create(1, 0),
                    init(0, 0),
                    load(0, 1),
                    invoked,
                    global("object", 3),
                    op(OperationKind::TaggedTemplate { value_target: false }, vec![3], vec![4]),
                ],
            ),
            function(Some(0), 0, vec![]),
        ],
        vec![binding(0, BindingKind::Function, "target")],
    );
    let target = created_functions(&program, 0)[0];
    let graph = analyze(&program);

    assert_eq!(graph.sites().len(), 1);
    assert_eq!(graph.sites()[0].kind(), CallSiteKind::TaggedTemplate);
    assert!(graph.sites()[0].targets().functions().is_empty());
    assert!(graph.callers_of(target).is_empty());
}

#[test]
fn an_unresolved_import_may_hold_any_function() {
    // import { helper } from 'host'; helper();
    let module = ModuleIr {
        functions: vec![function(None, 2, vec![load(0, 0), call(0, vec![], 1)])],
        bindings: vec![binding(0, BindingKind::Import, "helper")],
        imports: vec![], exports: vec![],
    };
    let program = ProgramIr { modules: vec![module], entry_modules: vec![0], dependencies: vec![] };
    let linkage = ProgramLinkage { imported: vec![vec![Some(ImportedBindingTarget::OpaqueExport { module: 0, name: "helper".to_string() })]] };
    let graph = ProgramCallGraph::analyze(&program, &linkage);
    let sites = graph.sites();

    assert_eq!(sites.len(), 1);
    assert!(sites[0].targets().functions().is_empty());
    assert_eq!(sites[0].targets().completeness(), CallTargetCompleteness::Incomplete);
    assert_eq!(graph.references().len(), 1);
    assert!(!graph.has_complete_incoming_calls(ProgramFunctionId { module: 3, function: 0 }));
}

#[test]
fn lists_references_by_target_then_site() {
    // Function 0 creates function 2, then function 1.
    let program = single_module(
        vec![
            function(None, 2, vec![create(2, 0), create(1, 1)]),
            function(Some(0), 0, vec![]),
            function(Some(0), 0, vec![]),
        ],
        vec![],
    );
    let graph = analyze(&program);
    let targets: Vec<u32> = graph.references().iter().map(|reference| reference.target().function).collect();

    assert_eq!(targets, vec![0, 1, 2]);
    assert_eq!(graph.references()[0].site(), FunctionReferenceSite::ProgramEntry);
    assert!(matches!(graph.references()[1].site(), FunctionReferenceSite::Allocation { operation } if operation.operation == 1));
    assert!(matches!(graph.references()[2].site(), FunctionReferenceSite::Allocation { operation } if operation.operation == 0));
}
