use lib::ir::{
    BindingData, BindingKind, FunctionIr, ModuleAttribute, ModuleExport, ModuleImport, ModuleIr, Operation, OperationKind,
};
use lib::program::{
    ImportedBindingTarget, ModuleDependency, ModuleRequest, ModuleRequestKind, ModuleTarget, ProgramBindingId, ProgramIr,
    ProgramLinkage,
};
use lib::program_reachability::ProgramReachability;

fn op(kind: OperationKind, operands: Vec<usize>, results: Vec<usize>) -> Operation {
    Operation {
        kind,
        invoked: false,
        operands,
        results,
        regions: vec![],
        referenced_functions: vec![],
        referenced_bindings: vec![],
        successors: vec![],
    }
}

fn entry_function(value_count: usize, operations: Vec<Operation>) -> FunctionIr {
    FunctionIr { parent: None, value_count, parameters: vec![], self_binding: None, operations, regions: vec![] }
}

fn empty_module() -> ModuleIr {
    ModuleIr { functions: vec![entry_function(0, vec![])], bindings: vec![], imports: vec![], exports: vec![] }
}

fn binding(kind: BindingKind, name: &str) -> BindingData {
    BindingData { declaring_function: 0, kind, name: name.to_string() }
}

fn dependency(importer: usize, kind: ModuleRequestKind, specifier: &str, target: ModuleTarget) -> ModuleDependency {
    ModuleDependency {
        importer,
        request: ModuleRequest { kind, specifier: specifier.to_string(), attributes: vec![] },
        target,
    }
}

fn named_import(source: &str, imported: &str, binding: usize) -> ModuleImport {
    ModuleImport::Named { source: source.to_string(), attributes: vec![], imported: imported.to_string(), binding }
}

fn local_export(name: &str, binding: usize) -> ModuleExport {
    ModuleExport::Local { name: name.to_string(), binding }
}

fn compute(program: &ProgramIr) -> ProgramReachability {
    let linkage = ProgramLinkage::analyze(program);
    ProgramReachability::compute(program, &linkage)
}

#[test]
fn follows_internal_dependencies_from_entry_modules() {
    let (entry, dependency_module, disconnected) = (0, 1, 2);
    let program = ProgramIr {
        modules: vec![empty_module(), empty_module(), empty_module()],
        entry_modules: vec![entry],
        dependencies: vec![dependency(
            entry,
            ModuleRequestKind::DynamicImport,
            "./dependency.js",
            ModuleTarget::Internal(dependency_module),
        )],
    };
    let reachability = compute(&program);

    assert!(reachability.is_module_evaluated(entry));
    assert!(reachability.is_module_evaluated(dependency_module));
    assert!(!reachability.is_module_evaluated(disconnected));
}

#[test]
fn retains_every_module_when_static_linkage_is_incomplete() {
    let mut entry_ir = empty_module();
    entry_ir.imports.push(ModuleImport::Bare { source: "./missing.js".to_string(), attributes: vec![] });
    let (entry, possible_target) = (0, 1);
    let program = ProgramIr { modules: vec![entry_ir, empty_module()], entry_modules: vec![entry], dependencies: vec![] };
    let reachability = compute(&program);

    assert!(reachability.is_module_evaluated(entry));
    assert!(reachability.is_module_evaluated(possible_target));
}

#[test]
fn retains_every_module_when_a_dynamic_import_is_unresolved() {
    let entry_ir = ModuleIr {
        functions: vec![entry_function(
            2,
            vec![
                op(OperationKind::Constant { string: Some("./missing.js".to_string()) }, vec![], vec![0]),
                op(OperationKind::DynamicImport { has_options: false }, vec![0], vec![1]),
            ],
        )],
        bindings: vec![],
        imports: vec![],
        exports: vec![],
    };
    let (entry, possible_target) = (0, 1);
    let program = ProgramIr { modules: vec![entry_ir, empty_module()], entry_modules: vec![entry], dependencies: vec![] };
    let reachability = compute(&program);

    assert!(reachability.is_module_evaluated(entry));
    assert!(reachability.is_module_evaluated(possible_target));
}

#[test]
fn follows_a_used_import_to_its_exported_binding() {
    let (entry, dependency_module) = (0, 1);
    let (imported_binding, dependency_binding) = (0, 0);
    let dependency_ir = ModuleIr {
        functions: vec![entry_function(0, vec![])],
        bindings: vec![binding(BindingKind::Const, "value")],
        imports: vec![],
        exports: vec![local_export("value", dependency_binding)],
    };
    let entry_ir = ModuleIr {
        functions: vec![entry_function(1, vec![op(OperationKind::LoadBinding { binding: imported_binding }, vec![], vec![0])])],
        bindings: vec![binding(BindingKind::Import, "value")],
        imports: vec![named_import("./dependency.js", "value", imported_binding)],
        exports: vec![],
    };
    let program = ProgramIr {
        modules: vec![entry_ir, dependency_ir],
        entry_modules: vec![entry],
        dependencies: vec![dependency(
            entry,
            ModuleRequestKind::StaticImport,
            "./dependency.js",
            ModuleTarget::Internal(dependency_module),
        )],
    };
    let reachability = compute(&program);

    assert_eq!(reachability.evaluated_module_count(), 2);
    assert_eq!(reachability.live_binding_count(), 2);
    assert!(reachability.is_binding_live(ProgramBindingId { module: entry as u32, binding: imported_binding as u32 }));
    assert!(reachability.is_binding_live(ProgramBindingId { module: dependency_module as u32, binding: dependency_binding as u32 }));
    assert!(reachability.is_export_live(dependency_module, 0));
}

#[test]
fn evaluates_an_imported_module_without_marking_unused_bindings_live() {
    let (entry, dependency_module) = (0, 1);
    let (imported_binding, dependency_binding) = (0, 0);
    let dependency_ir = ModuleIr {
        functions: vec![entry_function(0, vec![])],
        bindings: vec![binding(BindingKind::Const, "unused")],
        imports: vec![],
        exports: vec![],
    };
    let entry_ir = ModuleIr {
        functions: vec![entry_function(0, vec![])],
        bindings: vec![binding(BindingKind::Import, "unused")],
        imports: vec![named_import("./dependency.js", "unused", imported_binding)],
        exports: vec![],
    };
    let program = ProgramIr {
        modules: vec![entry_ir, dependency_ir],
        entry_modules: vec![entry],
        dependencies: vec![dependency(
            entry,
            ModuleRequestKind::StaticImport,
            "./dependency.js",
            ModuleTarget::Internal(dependency_module),
        )],
    };
    let reachability = compute(&program);

    assert_eq!(reachability.evaluated_module_count(), 2);
    assert_eq!(reachability.live_binding_count(), 0);
    assert!(reachability.is_module_evaluated(dependency_module));
    assert!(!reachability.is_binding_live(ProgramBindingId { module: entry as u32, binding: imported_binding as u32 }));
    assert!(!reachability.is_binding_live(ProgramBindingId { module: dependency_module as u32, binding: dependency_binding as u32 }));
}

#[test]
fn retains_everything_when_a_used_import_is_unresolved() {
    let entry_ir = ModuleIr {
        functions: vec![entry_function(1, vec![op(OperationKind::LoadBinding { binding: 0 }, vec![], vec![0])])],
        bindings: vec![binding(BindingKind::Import, "missing")],
        imports: vec![named_import("./dependency.js", "missing", 0)],
        exports: vec![],
    };
    let program = ProgramIr {
        modules: vec![entry_ir, empty_module(), empty_module()],
        entry_modules: vec![0],
        dependencies: vec![dependency(0, ModuleRequestKind::StaticImport, "./dependency.js", ModuleTarget::Internal(1))],
    };
    let reachability = compute(&program);

    assert_eq!(reachability.evaluated_module_count(), 3);
    assert_eq!(reachability.live_binding_count(), 1);
}

#[test]
fn follows_a_named_demand_through_a_star_reexport() {
    // entry: import { value } from "./barrel.js"; value;
    // barrel: export * from "./source.js";
    // source: export const value = 1; const hidden = 2;
    let barrel = ModuleIr {
        functions: vec![entry_function(0, vec![])],
        bindings: vec![],
        imports: vec![],
        exports: vec![ModuleExport::Star { source: "./source.js".to_string(), attributes: vec![] }],
    };
    let source = ModuleIr {
        functions: vec![entry_function(0, vec![])],
        bindings: vec![binding(BindingKind::Const, "value"), binding(BindingKind::Const, "hidden")],
        imports: vec![],
        exports: vec![local_export("value", 0)],
    };
    let entry_ir = ModuleIr {
        functions: vec![entry_function(1, vec![op(OperationKind::LoadBinding { binding: 0 }, vec![], vec![0])])],
        bindings: vec![binding(BindingKind::Import, "value")],
        imports: vec![named_import("./barrel.js", "value", 0)],
        exports: vec![],
    };
    let program = ProgramIr {
        modules: vec![entry_ir, barrel, source],
        entry_modules: vec![0],
        dependencies: vec![
            dependency(0, ModuleRequestKind::StaticImport, "./barrel.js", ModuleTarget::Internal(1)),
            dependency(1, ModuleRequestKind::ReExport, "./source.js", ModuleTarget::Internal(2)),
        ],
    };
    let reachability = compute(&program);

    assert!(reachability.is_export_live(1, 0));
    assert!(reachability.is_export_live(2, 0));
    assert!(reachability.is_binding_live(ProgramBindingId { module: 2, binding: 0 }));
    assert!(!reachability.is_binding_live(ProgramBindingId { module: 2, binding: 1 }));
    assert!(reachability.is_module_evaluated(2));
}

#[test]
fn a_namespace_import_uses_every_binding_of_its_module() {
    // entry: import * as ns from "./dependency.js"; ns;
    let entry_ir = ModuleIr {
        functions: vec![entry_function(1, vec![op(OperationKind::LoadBinding { binding: 0 }, vec![], vec![0])])],
        bindings: vec![binding(BindingKind::Import, "ns")],
        imports: vec![ModuleImport::Namespace { source: "./dependency.js".to_string(), attributes: vec![], binding: 0 }],
        exports: vec![],
    };
    let dependency_ir = ModuleIr {
        functions: vec![entry_function(0, vec![])],
        bindings: vec![binding(BindingKind::Const, "first"), binding(BindingKind::Const, "second")],
        imports: vec![],
        exports: vec![local_export("first", 0)],
    };
    let program = ProgramIr {
        modules: vec![entry_ir, dependency_ir],
        entry_modules: vec![0],
        dependencies: vec![dependency(0, ModuleRequestKind::StaticImport, "./dependency.js", ModuleTarget::Internal(1))],
    };
    let reachability = compute(&program);

    assert_eq!(reachability.live_binding_count(), 3);
    assert!(reachability.is_export_live(1, 0));
}

#[test]
fn loading_the_global_eval_uses_every_binding_of_the_module() {
    let entry_ir = ModuleIr {
        functions: vec![entry_function(1, vec![op(OperationKind::LoadGlobal { name: "eval".to_string() }, vec![], vec![0])])],
        bindings: vec![binding(BindingKind::Const, "first"), binding(BindingKind::Let, "second")],
        imports: vec![],
        exports: vec![],
    };
    let program = ProgramIr { modules: vec![entry_ir], entry_modules: vec![0], dependencies: vec![] };
    let reachability = compute(&program);

    assert_eq!(reachability.live_binding_count(), 2);
    assert!(!reachability.is_binding_live(ProgramBindingId { module: 0, binding: 2 }));
}

#[test]
fn requests_are_told_apart_by_their_attributes() {
    // The dynamic import asks without attributes: only the first answer is
    // for it, so it resolves and the unreferenced module stays unevaluated.
    let entry_ir = ModuleIr {
        functions: vec![entry_function(
            2,
            vec![
                op(OperationKind::Constant { string: Some("./dependency.js".to_string()) }, vec![], vec![0]),
                op(OperationKind::DynamicImport { has_options: false }, vec![0], vec![1]),
            ],
        )],
        bindings: vec![],
        imports: vec![],
        exports: vec![],
    };
    let mut typed = dependency(0, ModuleRequestKind::DynamicImport, "./dependency.js", ModuleTarget::Internal(2));
    typed.request.attributes = vec![ModuleAttribute { key: "type".to_string(), value: "json".to_string() }];
    let program = ProgramIr {
        modules: vec![entry_ir, empty_module(), empty_module(), empty_module()],
        entry_modules: vec![0],
        dependencies: vec![dependency(0, ModuleRequestKind::DynamicImport, "./dependency.js", ModuleTarget::Internal(1)), typed],
    };
    let reachability = compute(&program);

    assert!(reachability.is_module_evaluated(1));
    assert!(reachability.is_module_evaluated(2));
    assert!(!reachability.is_module_evaluated(3));
    assert_eq!(reachability.evaluated_module_count(), 3);
}
