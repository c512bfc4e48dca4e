use lib::ir::{BindingData, BindingKind, FunctionIr, ModuleExport, ModuleImport, ModuleIr};
use lib::program::{
    ImportedBindingTarget, ModuleDependency, ModuleRequest, ModuleRequestKind, ModuleTarget, ProgramBindingId, ProgramIr,
    ProgramLinkage,
};

const OPAQUE_KEY: u64 = 1;
const EXTERNAL_KEY: u64 = 2;

fn new_module() -> ModuleIr {
    let entry = FunctionIr { parent: None, value_count: 0, parameters: vec![], self_binding: None, operations: vec![], regions: vec![] };
    ModuleIr { functions: vec![entry], bindings: vec![], imports: vec![], exports: vec![] }
}

fn create_binding(module: &mut ModuleIr, name: &str, kind: BindingKind) -> usize {
    module.bindings.push(BindingData { declaring_function: 0, kind, name: name.to_string() });
    module.bindings.len() - 1
}

fn module_with_local_export(exported: &str) -> (ModuleIr, usize) {
    let mut module = new_module();
    let binding = create_binding(&mut module, exported, BindingKind::Const);
    module.exports.push(ModuleExport::Local { name: exported.to_string(), binding });
    (module, binding)
}

fn add_named_import(module: &mut ModuleIr, source: &str, imported: &str) -> usize {
    let binding = create_binding(module, imported, BindingKind::Import);
    module.imports.push(ModuleImport::Named {
        source: source.to_string(),
        attributes: vec![],
        imported: imported.to_string(),
        binding,
    });
    binding
}

fn add_default_import(module: &mut ModuleIr, source: &str) -> usize {
    let binding = create_binding(module, "default", BindingKind::Import);
    module.imports.push(ModuleImport::Default { source: source.to_string(), attributes: vec![], binding });
    binding
}

fn star(source: &str) -> ModuleExport {
    ModuleExport::Star { source: source.to_string(), attributes: vec![] }
}

fn add_module(program: &mut ProgramIr, module: ModuleIr) -> usize {
    program.modules.push(module);
    program.modules.len() - 1
}

fn add_dependency(program: &mut ProgramIr, importer: usize, kind: ModuleRequestKind, specifier: &str, target: ModuleTarget) {
    program.dependencies.push(ModuleDependency {
        importer,
        request: ModuleRequest { kind, specifier: specifier.to_string(), attributes: vec![] },
        target,
    });
}

fn add_internal_dependency(program: &mut ProgramIr, importer: usize, kind: ModuleRequestKind, specifier: &str, target: usize) {
    add_dependency(program, importer, kind, specifier, ModuleTarget::Internal(target));
}

fn new_program() -> ProgramIr {
    ProgramIr { modules: vec![], entry_modules: vec![], dependencies: vec![] }
}

fn id(module: usize, binding: usize) -> ProgramBindingId {
    ProgramBindingId { module: module as u32, binding: binding as u32 }
}

#[test]
fn resolves_transitive_indirect_and_star_exports() {
    let (source, source_binding) = module_with_local_export("value");
    let mut relay = new_module();
    relay.exports.push(ModuleExport::Indirect {
        name: "renamed".to_string(),
        source: "./source.js".to_string(),
        attributes: vec![],
        imported: "value".to_string(),
    });
    let mut barrel = new_module();
    barrel.exports.push(star("./relay.js"));
    let mut consumer = new_module();
    let imported = add_named_import(&mut consumer, "./barrel.js", "renamed");

    let mut program = new_program();
    let source_id = add_module(&mut program, source);
    let relay_id = add_module(&mut program, relay);
    let barrel_id = add_module(&mut program, barrel);
    let consumer_id = add_module(&mut program, consumer);
    add_internal_dependency(&mut program, relay_id, ModuleRequestKind::ReExport, "./source.js", source_id);
    add_internal_dependency(&mut program, barrel_id, ModuleRequestKind::ReExport, "./relay.js", relay_id);
    add_internal_dependency(&mut program, consumer_id, ModuleRequestKind::StaticImport, "./barrel.js", barrel_id);

    let linkage = ProgramLinkage::analyze(&program);

    assert_eq!(
        linkage.imported_binding(id(consumer_id, imported)),
        Some(&ImportedBindingTarget::Binding(id(source_id, source_binding)))
    );
}

#[test]
fn resolves_exports_through_a_star_cycle() {
    let mut first = new_module();
    first.exports.push(star("./second.js"));
    let (mut second, second_binding) = module_with_local_export("value");
    second.exports.push(star("./first.js"));
    let mut consumer = new_module();
    let imported = add_named_import(&mut consumer, "./first.js", "value");

    let mut program = new_program();
    let first_id = add_module(&mut program, first);
    let second_id = add_module(&mut program, second);
    let consumer_id = add_module(&mut program, consumer);
    add_internal_dependency(&mut program, first_id, ModuleRequestKind::ReExport, "./second.js", second_id);
    add_internal_dependency(&mut program, second_id, ModuleRequestKind::ReExport, "./first.js", first_id);
    add_internal_dependency(&mut program, consumer_id, ModuleRequestKind::StaticImport, "./first.js", first_id);

    let linkage = ProgramLinkage::analyze(&program);

    assert_eq!(
        linkage.imported_binding(id(consumer_id, imported)),
        Some(&ImportedBindingTarget::Binding(id(second_id, second_binding)))
    );
}

#[test]
fn resolves_namespace_reexports() {
    let source = new_module();
    let mut relay = new_module();
    relay.exports.push(ModuleExport::Namespace {
        name: "namespace".to_string(),
        source: "./source.js".to_string(),
        attributes: vec![],
    });
    let mut consumer = new_module();
    let imported = add_named_import(&mut consumer, "./relay.js", "namespace");

    let mut program = new_program();
    let source_id = add_module(&mut program, source);
    let relay_id = add_module(&mut program, relay);
    let consumer_id = add_module(&mut program, consumer);
    add_internal_dependency(&mut program, relay_id, ModuleRequestKind::ReExport, "./source.js", source_id);
    add_internal_dependency(&mut program, consumer_id, ModuleRequestKind::StaticImport, "./relay.js", relay_id);

    let linkage = ProgramLinkage::analyze(&program);

    assert_eq!(
        linkage.imported_binding(id(consumer_id, imported)),
        Some(&ImportedBindingTarget::Namespace(ModuleTarget::Internal(source_id)))
    );
}

#[test]
fn rejects_ambiguous_star_exports() {
    let (left, _) = module_with_local_export("value");
    let (right, _) = module_with_local_export("value");
    let mut barrel = new_module();
    barrel.exports.push(star("./left.js"));
    barrel.exports.push(star("./right.js"));
    let mut consumer = new_module();
    let imported = add_named_import(&mut consumer, "./barrel.js", "value");

    let mut program = new_program();
    let left_id = add_module(&mut program, left);
    let right_id = add_module(&mut program, right);
    let barrel_id = add_module(&mut program, barrel);
    let consumer_id = add_module(&mut program, consumer);
    add_internal_dependency(&mut program, barrel_id, ModuleRequestKind::ReExport, "./left.js", left_id);
    add_internal_dependency(&mut program, barrel_id, ModuleRequestKind::ReExport, "./right.js", right_id);
    add_internal_dependency(&mut program, consumer_id, ModuleRequestKind::StaticImport, "./barrel.js", barrel_id);

    let linkage = ProgramLinkage::analyze(&program);

    assert_eq!(linkage.imported_binding(id(consumer_id, imported)), Some(&ImportedBindingTarget::Unresolved));
}

#[test]
fn does_not_resolve_default_through_star_exports() {
    let (source, _) = module_with_local_export("default");
    let mut barrel = new_module();
    barrel.exports.push(star("./source.js"));
    let mut consumer = new_module();
    let imported = add_default_import(&mut consumer, "./barrel.js");

    let mut program = new_program();
    let source_id = add_module(&mut program, source);
    let barrel_id = add_module(&mut program, barrel);
    let consumer_id = add_module(&mut program, consumer);
    add_internal_dependency(&mut program, barrel_id, ModuleRequestKind::ReExport, "./source.js", source_id);
    add_internal_dependency(&mut program, consumer_id, ModuleRequestKind::StaticImport, "./barrel.js", barrel_id);

    let linkage = ProgramLinkage::analyze(&program);

    assert_eq!(linkage.imported_binding(id(consumer_id, imported)), Some(&ImportedBindingTarget::Unresolved));
}

#[test]
fn preserves_uninspectable_exports_and_missing_linkage() {
    let mut consumer = new_module();
    let opaque = add_named_import(&mut consumer, "opaque", "value");
    let external = add_default_import(&mut consumer, "external");
    let missing = add_named_import(&mut consumer, "missing", "value");

    let mut program = new_program();
    let consumer_id = add_module(&mut program, consumer);
    add_dependency(&mut program, consumer_id, ModuleRequestKind::StaticImport, "opaque", ModuleTarget::Opaque(OPAQUE_KEY));
    add_dependency(&mut program, consumer_id, ModuleRequestKind::StaticImport, "external", ModuleTarget::External(EXTERNAL_KEY));

    let linkage = ProgramLinkage::analyze(&program);

    assert_eq!(
        linkage.imported_binding(id(consumer_id, opaque)),
        Some(&ImportedBindingTarget::OpaqueExport { module: OPAQUE_KEY, name: "value".to_string() })
    );
    assert_eq!(
        linkage.imported_binding(id(consumer_id, external)),
        Some(&ImportedBindingTarget::ExternalExport { module: EXTERNAL_KEY, name: "default".to_string() })
    );
    assert_eq!(linkage.imported_binding(id(consumer_id, missing)), Some(&ImportedBindingTarget::Unresolved));
}

#[test]
fn leaves_bindings_that_no_import_declares_unlinked() {
    let (mut module, local) = module_with_local_export("value");
    let imported = add_named_import(&mut module, "./self.js", "value");
    let mut program = new_program();
    let module_id = add_module(&mut program, module);
    add_internal_dependency(&mut program, module_id, ModuleRequestKind::StaticImport, "./self.js", module_id);

    let linkage = ProgramLinkage::analyze(&program);

    assert_eq!(linkage.imported_binding(id(module_id, local)), None);
    assert_eq!(linkage.imported_binding(id(module_id, imported)), Some(&ImportedBindingTarget::Binding(id(module_id, local))));
    assert_eq!(linkage.imported_binding(id(module_id, 7)), None);
}

#[test]
fn a_request_answered_differently_is_unresolved() {
    let (source, _) = module_with_local_export("value");
    let mut consumer = new_module();
    let imported = add_named_import(&mut consumer, "./source.js", "value");
    let mut program = new_program();
    let source_id = add_module(&mut program, source);
    let consumer_id = add_module(&mut program, consumer);
    add_internal_dependency(&mut program, consumer_id, ModuleRequestKind::StaticImport, "./source.js", source_id);
    add_dependency(&mut program, consumer_id, ModuleRequestKind::StaticImport, "./source.js", ModuleTarget::Opaque(OPAQUE_KEY));

    let linkage = ProgramLinkage::analyze(&program);

    assert_eq!(linkage.imported_binding(id(consumer_id, imported)), Some(&ImportedBindingTarget::Unresolved));
}
