//! Joint module-evaluation and binding reachability for a resolved program.
//!
//! Module evaluation, binding liveness and export liveness are separate facts
//! of one fixed point: a bare import can require evaluating a module without
//! using any of its bindings, while a used import can make bindings and
//! exports live across modules. Every rule derives one fact from one other,
//! so the fixed point is what the seed facts reach in a graph of facts.

use vstd::prelude::*;

use crate::flow::defines;
use crate::flow::find_definer;
use crate::flow::first_definer;
use crate::flow::names_eval;
use crate::ir::FunctionIr;
use crate::ir::ModuleAttribute;
use crate::ir::ModuleExport;
use crate::ir::ModuleImport;
use crate::ir::ModuleIr;
use crate::ir::OperationKind;
use crate::program::ModuleDependency;
use crate::program::ModuleRequestKind;
use crate::program::ModuleTarget;
use crate::program::ImportedBindingTarget;
use crate::program::ProgramIr;
use crate::dependence::reach_from;
use crate::dependence::reached_from;
use crate::program::ProgramBindingId;
use crate::dependence::lists_in_range;
use crate::pointer_solver::list_step;
use crate::program::ProgramLinkage;
use crate::program_linkage::target_view;
use crate::program_linkage::resolved_import;
use crate::program_linkage::target_in_closure;
use crate::program_linkage::lemma_resolved_import_in_closure;
use crate::program_targets::program_binding;
use crate::paths::lemma_reaches_self;
use crate::paths::lemma_reaches_step;
use crate::paths::reaches;
use crate::paths::is_path;
use crate::ir::export_binding;
use crate::ir::import_binding;
use crate::program_targets::bindings_before;
use crate::program_targets::lemma_bindings_before_mono;

verus! {

/// The attributes of a request as pairs of key and value.
pub open spec fn attributes_view(attributes: Seq<ModuleAttribute>) -> Seq<(Seq<char>, Seq<char>)> {
    attributes.map_values(|a: ModuleAttribute| (a.key@, a.value@))
}

/// Whether two attribute lists are equal.
fn attributes_equal(a: &Vec<ModuleAttribute>, b: &Vec<ModuleAttribute>) -> (r: bool)
    ensures
        r == (attributes_view(a@) == attributes_view(b@)),
{
    if a.len() != b.len() {
        proof {
            assert(attributes_view(a@).len() != attributes_view(b@).len());
        }
        return false;
    }
    let mut k: usize = 0;
    while k < a.len()
        invariant
            a@.len() == b@.len(),
            k <= a@.len(),
            forall|i: int| 0 <= i < k ==> attributes_view(a@)[i] == attributes_view(b@)[i],
        decreases a@.len() - k,
    {
        if !(a[k].key == b[k].key) || !(a[k].value == b[k].value) {
            proof {
                assert(attributes_view(a@)[k as int] != attributes_view(b@)[k as int]);
            }
            return false;
        }
        k = k + 1;
    }
    proof {
        assert(attributes_view(a@) =~= attributes_view(b@));
    }
    true
}

/// Whether dependency `d` answers the request of module `importer` of form
/// `kind` for `specifier` with `attributes`.
pub open spec fn answers(
    d: ModuleDependency,
    importer: int,
    kind: ModuleRequestKind,
    specifier: Seq<char>,
    attributes: Seq<(Seq<char>, Seq<char>)>,
) -> bool {
    &&& d.importer as int == importer
    &&& d.request.kind == kind
    &&& d.request.specifier@ == specifier
    &&& attributes_view(d.request.attributes@) == attributes
}

/// Where a request leads: the target of the dependencies that answer it,
/// when there is at least one and they all agree.
pub open spec fn unique_target(
    program: ProgramIr,
    importer: int,
    kind: ModuleRequestKind,
    specifier: Seq<char>,
    attributes: Seq<(Seq<char>, Seq<char>)>,
) -> Option<ModuleTarget> {
    let deps = program.dependencies@;
    if exists|i: int| #![trigger deps[i]] 0 <= i < deps.len() && answers(deps[i], importer, kind, specifier, attributes) {
        let i = choose|i: int| #![trigger deps[i]] 0 <= i < deps.len() && answers(deps[i], importer, kind, specifier, attributes);
        if forall|j: int| #![trigger deps[j]] 0 <= j < deps.len() && answers(deps[j], importer, kind, specifier, attributes) ==> deps[j].target == deps[i].target {
            Some(deps[i].target)
        } else {
            None
        }
    } else {
        None
    }
}

/// Where the request of module `importer` of form `kind` for `specifier`
/// with `attributes` leads, when the dependencies agree.
pub fn resolve_request(
    program: &ProgramIr,
    importer: usize,
    kind: ModuleRequestKind,
    specifier: &String,
    attributes: &Vec<ModuleAttribute>,
) -> (target: Option<ModuleTarget>)
    ensures
        target == unique_target(*program, importer as int, kind, specifier@, attributes_view(attributes@)),
{
    let ghost deps = program.dependencies@;
    let ghost a = attributes_view(attributes@);
    let mut found: Option<ModuleTarget> = None;
    let mut found_at: usize = 0;
    let mut k: usize = 0;
    while k < program.dependencies.len()
        invariant
            deps == program.dependencies@,
            a == attributes_view(attributes@),
            k <= deps.len(),
            match found {
                None => forall|j: int| #![trigger deps[j]] 0 <= j < k ==> !answers(deps[j], importer as int, kind, specifier@, a),
                Some(t) => {
                    &&& found_at < k
                    &&& answers(deps[found_at as int], importer as int, kind, specifier@, a)
                    &&& deps[found_at as int].target == t
                    &&& forall|j: int| #![trigger deps[j]] 0 <= j < k && answers(deps[j], importer as int, kind, specifier@, a) ==> deps[j].target == t
                },
            },
        decreases deps.len() - k,
    {
        let d = &program.dependencies[k];
        if d.importer == importer && d.request.kind == kind && d.request.specifier == *specifier && attributes_equal(&d.request.attributes, attributes) {
            proof {
                assert(answers(deps[k as int], importer as int, kind, specifier@, a));
            }
            match found {
                None => {
                    found = Some(d.target);
                    found_at = k;
                },
                Some(t) => {
                    if !(d.target == t) {
                        proof {
                            let i = choose|i: int| #![trigger deps[i]] 0 <= i < deps.len() && answers(deps[i], importer as int, kind, specifier@, a);
                            assert(deps[k as int].target != deps[found_at as int].target);
                            if deps[i].target == deps[k as int].target {
                                assert(!(deps[found_at as int].target == deps[i].target));
                            }
                        }
                        return None;
                    }
                },
            }
        }
        k = k + 1;
    }
    proof {
        if let Some(t) = found {
            let i = choose|i: int| #![trigger deps[i]] 0 <= i < deps.len() && answers(deps[i], importer as int, kind, specifier@, a);
            assert(deps[i].target == t);
        }
    }
    found
}


/// The specifier and attributes an import requests.
pub open spec fn import_request(import: ModuleImport) -> (Seq<char>, Seq<(Seq<char>, Seq<char>)>) {
    match import {
        ModuleImport::Bare { source, attributes } => (source@, attributes_view(attributes@)),
        ModuleImport::Namespace { source, attributes, .. } => (source@, attributes_view(attributes@)),
        ModuleImport::Default { source, attributes, .. } => (source@, attributes_view(attributes@)),
        ModuleImport::Named { source, attributes, .. } => (source@, attributes_view(attributes@)),
    }
}

/// The specifier and attributes an export re-exports from, if any.
pub open spec fn export_request(export: ModuleExport) -> Option<(Seq<char>, Seq<(Seq<char>, Seq<char>)>)> {
    match export {
        ModuleExport::Indirect { source, attributes, .. } => Some((source@, attributes_view(attributes@))),
        ModuleExport::Namespace { source, attributes, .. } => Some((source@, attributes_view(attributes@))),
        ModuleExport::Star { source, attributes } => Some((source@, attributes_view(attributes@))),
        _ => None,
    }
}

pub fn import_parts(import: &ModuleImport) -> (parts: (&String, &Vec<ModuleAttribute>))
    ensures
        (parts.0@, attributes_view(parts.1@)) == import_request(*import),
{
    match import {
        ModuleImport::Bare { source, attributes } => (source, attributes),
        ModuleImport::Namespace { source, attributes, .. } => (source, attributes),
        ModuleImport::Default { source, attributes, .. } => (source, attributes),
        ModuleImport::Named { source, attributes, .. } => (source, attributes),
    }
}

pub fn export_parts(export: &ModuleExport) -> (parts: Option<(&String, &Vec<ModuleAttribute>)>)
    ensures
        match parts {
            Some((s, a)) => export_request(*export) == Some((s@, attributes_view(a@))),
            None => export_request(*export) is None,
        },
{
    match export {
        ModuleExport::Indirect { source, attributes, .. } => Some((source, attributes)),
        ModuleExport::Namespace { source, attributes, .. } => Some((source, attributes)),
        ModuleExport::Star { source, attributes } => Some((source, attributes)),
        _ => None,
    }
}

/// Whether an `import()` of `function` in module `m` leads to one known
/// module: it passes no options and its specifier is a string constant
/// whose request the dependencies answer alike. An invoked operation is
/// wrapped by its invoke and is not inspected.
pub open spec fn dynamic_import_resolved(program: ProgramIr, m: int, function: FunctionIr, j: int) -> bool {
    let op = function.operations@[j];
    (op.kind matches OperationKind::DynamicImport { has_options } && !op.invoked) ==> {
        &&& !(op.kind->has_options)
        &&& op.operands@.len() > 0
        &&& exists|d: int|
            #![trigger function.operations@[d]]
            first_definer(function.operations@, op.operands@[0], d) && (function.operations@[d].kind matches OperationKind::Constant {
                string: Some(s),
            } && unique_target(program, m, ModuleRequestKind::DynamicImport, s@, Seq::empty()) is Some)
    }
}

/// Whether every static request of module `m`, and every `import()` in it,
/// leads to one known target.
pub open spec fn has_complete_linkage(program: ProgramIr, m: int) -> bool {
    let module = program.modules@[m];
    &&& forall|i: int|
        #![trigger module.imports@[i]]
        0 <= i < module.imports@.len() ==> unique_target(
            program,
            m,
            ModuleRequestKind::StaticImport,
            import_request(module.imports@[i]).0,
            import_request(module.imports@[i]).1,
        ) is Some
    &&& forall|k: int|
        #![trigger module.exports@[k]]
        0 <= k < module.exports@.len() ==> (export_request(module.exports@[k]) matches Some((s, a)) ==> unique_target(
            program,
            m,
            ModuleRequestKind::ReExport,
            s,
            a,
        ) is Some)
    &&& forall|f: int, j: int|
        #![trigger module.functions@[f].operations@[j]]
        0 <= f < module.functions@.len() && 0 <= j < module.functions@[f].operations@.len() ==> dynamic_import_resolved(
            program,
            m,
            module.functions@[f],
            j,
        )
}

/// Whether every `import()` of function `f` of module `m` is resolved.
fn dynamic_imports_resolved(program: &ProgramIr, m: usize, f: usize) -> (r: bool)
    requires
        m < program.modules@.len(),
        f < program.modules@[m as int].functions@.len(),
    ensures
        r == forall|j: int|
            #![trigger program.modules@[m as int].functions@[f as int].operations@[j]]
            0 <= j < program.modules@[m as int].functions@[f as int].operations@.len() ==> dynamic_import_resolved(
                *program,
                m as int,
                program.modules@[m as int].functions@[f as int],
                j,
            ),
{
    let function = &program.modules[m].functions[f];
    let ghost p = *program;
    let mut j: usize = 0;
    while j < function.operations.len()
        invariant
            *function == p.modules@[m as int].functions@[f as int],
            p == *program,
            j <= function.operations@.len(),
            forall|i: int| #![trigger function.operations@[i]] 0 <= i < j ==> dynamic_import_resolved(p, m as int, *function, i),
        decreases function.operations@.len() - j,
    {
        let op = &function.operations[j];
        proof {
            assert(function.operations@[j as int] == *op);
        }
        if !op.invoked {
            if let OperationKind::DynamicImport { has_options } = &op.kind {
                if *has_options || op.operands.len() == 0 {
                    return false;
                }
                let resolved = match find_definer(function, op.operands[0]) {
                    Some(d) => {
                        proof {
                            assert(first_definer(function.operations@, op.operands@[0], d as int));
                        }
                        match &function.operations[d].kind {
                            OperationKind::Constant { string: Some(s) } => {
                                let empty: Vec<ModuleAttribute> = Vec::new();
                                proof {
                                    assert(attributes_view(empty@) =~= Seq::<(Seq<char>, Seq<char>)>::empty());
                                }
                                resolve_request(program, m, ModuleRequestKind::DynamicImport, s, &empty).is_some()
                            },
                            _ => false,
                        }
                    },
                    None => false,
                };
                if !resolved {
                    proof {
                        if exists|d: int|
                            #![trigger function.operations@[d]]
                            first_definer(function.operations@, op.operands@[0], d) && (function.operations@[d].kind matches OperationKind::Constant {
                                string: Some(s),
                            } && unique_target(p, m as int, ModuleRequestKind::DynamicImport, s@, Seq::empty()) is Some) {
                            let d = choose|d: int|
                                #![trigger function.operations@[d]]
                                first_definer(function.operations@, op.operands@[0], d) && (function.operations@[d].kind matches OperationKind::Constant {
                                    string: Some(s),
                                } && unique_target(p, m as int, ModuleRequestKind::DynamicImport, s@, Seq::empty()) is Some);
                            assert(first_definer(function.operations@, op.operands@[0], d));
                        }
                    }
                    return false;
                }
            }
        }
        j = j + 1;
    }
    true
}

/// Whether module `m` has complete linkage.
fn module_has_complete_linkage(program: &ProgramIr, m: usize) -> (r: bool)
    requires
        m < program.modules@.len(),
    ensures
        r == has_complete_linkage(*program, m as int),
{
    let module = &program.modules[m];
    let ghost p = *program;
    proof {
        assert(p.modules@[m as int] == *module);
    }
    let mut i: usize = 0;
    while i < module.imports.len()
        invariant
            *module == p.modules@[m as int],
            p == *program,
            i <= module.imports@.len(),
            forall|x: int|
                #![trigger module.imports@[x]]
                0 <= x < i ==> unique_target(p, m as int, ModuleRequestKind::StaticImport, import_request(module.imports@[x]).0, import_request(module.imports@[x]).1) is Some,
        decreases module.imports@.len() - i,
    {
        let (source, attributes) = import_parts(&module.imports[i]);
        if resolve_request(program, m, ModuleRequestKind::StaticImport, source, attributes).is_none() {
            return false;
        }
        i = i + 1;
    }
    let mut k: usize = 0;
    while k < module.exports.len()
        invariant
            *module == p.modules@[m as int],
            p == *program,
            k <= module.exports@.len(),
            forall|x: int|
                #![trigger module.exports@[x]]
                0 <= x < k ==> (export_request(module.exports@[x]) matches Some((s, a)) ==> unique_target(p, m as int, ModuleRequestKind::ReExport, s, a) is Some),
        decreases module.exports@.len() - k,
    {
        if let Some((source, attributes)) = export_parts(&module.exports[k]) {
            if resolve_request(program, m, ModuleRequestKind::ReExport, source, attributes).is_none() {
                return false;
            }
        }
        k = k + 1;
    }
    let mut f: usize = 0;
    while f < module.functions.len()
        invariant
            *module == p.modules@[m as int],
            p == *program,
            m < p.modules@.len(),
            f <= module.functions@.len(),
            forall|g: int, j: int|
                #![trigger module.functions@[g].operations@[j]]
                0 <= g < f && 0 <= j < module.functions@[g].operations@.len() ==> dynamic_import_resolved(p, m as int, module.functions@[g], j),
        decreases module.functions@.len() - f,
    {
        if !dynamic_imports_resolved(program, m, f) {
            return false;
        }
        f = f + 1;
    }
    true
}


/// The number of imports of the first `m` modules.
pub open spec fn imports_before(modules: Seq<ModuleIr>, m: int) -> int
    decreases m,
{
    if m <= 0 {
        0
    } else {
        imports_before(modules, m - 1) + modules[m - 1].imports@.len()
    }
}

/// The number of exports of the first `m` modules.
pub open spec fn exports_before(modules: Seq<ModuleIr>, m: int) -> int
    decreases m,
{
    if m <= 0 {
        0
    } else {
        exports_before(modules, m - 1) + modules[m - 1].exports@.len()
    }
}

proof fn lemma_imports_before_mono(modules: Seq<ModuleIr>, m: int, k: int)
    requires
        0 <= m <= k <= modules.len(),
    ensures
        0 <= imports_before(modules, m) <= imports_before(modules, k),
    decreases k,
{
    if k > 0 {
        if m == k {
            lemma_imports_before_mono(modules, k - 1, k - 1);
        } else {
            lemma_imports_before_mono(modules, m, k - 1);
        }
    }
}

proof fn lemma_exports_before_mono(modules: Seq<ModuleIr>, m: int, k: int)
    requires
        0 <= m <= k <= modules.len(),
    ensures
        0 <= exports_before(modules, m) <= exports_before(modules, k),
    decreases k,
{
    if k > 0 {
        if m == k {
            lemma_exports_before_mono(modules, k - 1, k - 1);
        } else {
            lemma_exports_before_mono(modules, m, k - 1);
        }
    }
}

/// The number of modules.
pub open spec fn module_count(program: ProgramIr) -> int {
    program.modules@.len() as int
}

/// The number of bindings of all modules.
pub open spec fn binding_total(program: ProgramIr) -> int {
    bindings_before(program.modules@, module_count(program))
}

/// The number of exports of all modules.
pub open spec fn export_total(program: ProgramIr) -> int {
    exports_before(program.modules@, module_count(program))
}

/// The number of imports of all modules.
pub open spec fn import_total(program: ProgramIr) -> int {
    imports_before(program.modules@, module_count(program))
}

/// The number of declarations a name demand can come from: every import,
/// then every export.
pub open spec fn origin_total(program: ProgramIr) -> int {
    import_total(program) + export_total(program)
}

/// The origin of import `i` of module `m`.
pub open spec fn import_origin(program: ProgramIr, m: int, i: int) -> int {
    imports_before(program.modules@, m) + i
}

/// The origin of export `k` of module `m`.
pub open spec fn export_origin(program: ProgramIr, m: int, k: int) -> int {
    import_total(program) + exports_before(program.modules@, m) + k
}

/// The fact that module `m` is evaluated.
pub open spec fn eval_node(program: ProgramIr, m: int) -> int {
    m
}

/// The fact that the namespace of module `m` is used.
pub open spec fn ns_node(program: ProgramIr, m: int) -> int {
    module_count(program) + m
}

/// The fact that every export of module `m` is demanded.
pub open spec fn ns_demand_node(program: ProgramIr, m: int) -> int {
    2 * module_count(program) + m
}

/// The fact that binding `b` of module `m` is live.
pub open spec fn use_node(program: ProgramIr, m: int, b: int) -> int {
    3 * module_count(program) + bindings_before(program.modules@, m) + b
}

/// The fact that export `k` of module `m` is live.
pub open spec fn export_node(program: ProgramIr, m: int, k: int) -> int {
    3 * module_count(program) + binding_total(program) + exports_before(program.modules@, m) + k
}

/// The fact that module `m` is asked for the export named by origin `o`.
pub open spec fn demand_node(program: ProgramIr, m: int, o: int) -> int {
    3 * module_count(program) + binding_total(program) + export_total(program) + m * origin_total(program) + o
}

/// The number of facts.
pub open spec fn fact_count(program: ProgramIr) -> int {
    3 * module_count(program) + binding_total(program) + export_total(program) + module_count(program) * origin_total(program)
}


/// Where each module's bindings, exports and imports start among the facts.
pub struct ReachLayout {
    modules: usize,
    bindings: usize,
    exports: usize,
    origins: usize,
    binding_base: Vec<usize>,
    export_base: Vec<usize>,
    import_base: Vec<usize>,
    count: usize,
}

impl ReachLayout {
    /// The layout numbers the facts of `program` as the node functions do.
    pub closed spec fn describes(&self, program: ProgramIr) -> bool {
        let modules = program.modules@;
        &&& self.modules == module_count(program)
        &&& self.bindings == binding_total(program)
        &&& self.exports == export_total(program)
        &&& self.origins == origin_total(program)
        &&& self.count == fact_count(program)
        &&& self.binding_base@.len() == modules.len()
        &&& self.export_base@.len() == modules.len()
        &&& self.import_base@.len() == modules.len()
        &&& forall|m: int|
            #![trigger self.binding_base@[m]]
            0 <= m < modules.len() ==> self.binding_base@[m] == bindings_before(modules, m)
        &&& forall|m: int|
            #![trigger self.export_base@[m]]
            0 <= m < modules.len() ==> self.export_base@[m] == exports_before(modules, m)
        &&& forall|m: int|
            #![trigger self.import_base@[m]]
            0 <= m < modules.len() ==> self.import_base@[m] == imports_before(modules, m)
    }

    /// Numbers the facts of `program`.
    pub fn new(program: &ProgramIr) -> (layout: Self)
        requires
            fact_count(*program) <= usize::MAX,
        ensures
            layout.describes(*program),
    {
        let ghost modules = program.modules@;
        let ghost n = modules.len() as int;
        proof {
            lemma_bindings_before_mono(modules, 0, n);
            lemma_exports_before_mono(modules, 0, n);
            lemma_imports_before_mono(modules, 0, n);
            assert(n * origin_total(*program) >= 0) by (nonlinear_arith)
                requires
                    n >= 0,
                    origin_total(*program) >= 0,
            ;
            if n > 0 {
                assert(n * origin_total(*program) >= origin_total(*program)) by (nonlinear_arith)
                    requires
                        n >= 1,
                        origin_total(*program) >= 0,
                ;
            }
        }
        let mut binding_base: Vec<usize> = Vec::new();
        let mut export_base: Vec<usize> = Vec::new();
        let mut import_base: Vec<usize> = Vec::new();
        let mut bindings: usize = 0;
        let mut exports: usize = 0;
        let mut imports: usize = 0;
        let mut m: usize = 0;
        while m < program.modules.len()
            invariant
                modules == program.modules@,
                n == modules.len(),
                m <= n,
                fact_count(*program) <= usize::MAX,
                bindings_before(modules, n) + exports_before(modules, n) + imports_before(modules, n) <= usize::MAX,
                bindings == bindings_before(modules, m as int),
                exports == exports_before(modules, m as int),
                imports == imports_before(modules, m as int),
                binding_base@.len() == m,
                export_base@.len() == m,
                import_base@.len() == m,
                forall|k: int| #![trigger binding_base@[k]] 0 <= k < m ==> binding_base@[k] == bindings_before(modules, k),
                forall|k: int| #![trigger export_base@[k]] 0 <= k < m ==> export_base@[k] == exports_before(modules, k),
                forall|k: int| #![trigger import_base@[k]] 0 <= k < m ==> import_base@[k] == imports_before(modules, k),
            decreases n - m,
        {
            proof {
                lemma_bindings_before_mono(modules, m as int + 1, n);
                lemma_exports_before_mono(modules, m as int + 1, n);
                lemma_imports_before_mono(modules, m as int + 1, n);
            }
            binding_base.push(bindings);
            export_base.push(exports);
            import_base.push(imports);
            bindings = bindings + program.modules[m].bindings.len();
            exports = exports + program.modules[m].exports.len();
            imports = imports + program.modules[m].imports.len();
            m = m + 1;
        }
        let origins = imports + exports;
        let count = 3 * m + bindings + exports + m * origins;
        ReachLayout { modules: m, bindings, exports, origins, binding_base, export_base, import_base, count }
    }

    /// The number of facts.
    pub fn count(&self, Ghost(program): Ghost<ProgramIr>) -> (count: usize)
        requires
            self.describes(program),
        ensures
            count == fact_count(program),
    {
        self.count
    }

    /// The fact that module `m` is evaluated.
    pub fn eval_node(&self, m: usize, Ghost(program): Ghost<ProgramIr>) -> (node: usize)
        requires
            self.describes(program),
            m < module_count(program),
        ensures
            node == eval_node(program, m as int),
            node < fact_count(program),
    {
        proof {
            lemma_counts_nonnegative(program);
        }
        m
    }

    /// The fact that the namespace of module `m` is used.
    pub fn ns_node(&self, m: usize, Ghost(program): Ghost<ProgramIr>) -> (node: usize)
        requires
            self.describes(program),
            m < module_count(program),
        ensures
            node == ns_node(program, m as int),
            node < fact_count(program),
    {
        proof {
            lemma_counts_nonnegative(program);
        }
        self.modules + m
    }

    /// The fact that every export of module `m` is demanded.
    pub fn ns_demand_node(&self, m: usize, Ghost(program): Ghost<ProgramIr>) -> (node: usize)
        requires
            self.describes(program),
            m < module_count(program),
        ensures
            node == ns_demand_node(program, m as int),
            node < fact_count(program),
    {
        proof {
            lemma_counts_nonnegative(program);
        }
        2 * self.modules + m
    }

    /// The fact that binding `b` of module `m` is live.
    pub fn use_node(&self, m: usize, b: usize, Ghost(program): Ghost<ProgramIr>) -> (node: usize)
        requires
            self.describes(program),
            m < module_count(program),
            b < program.modules@[m as int].bindings@.len(),
        ensures
            node == use_node(program, m as int, b as int),
            node < fact_count(program),
    {
        proof {
            lemma_counts_nonnegative(program);
            lemma_bindings_before_mono(program.modules@, m as int + 1, module_count(program));
        }
        3 * self.modules + self.binding_base[m] + b
    }

    /// The fact that export `k` of module `m` is live.
    pub fn export_node(&self, m: usize, k: usize, Ghost(program): Ghost<ProgramIr>) -> (node: usize)
        requires
            self.describes(program),
            m < module_count(program),
            k < program.modules@[m as int].exports@.len(),
        ensures
            node == export_node(program, m as int, k as int),
            node < fact_count(program),
    {
        proof {
            lemma_counts_nonnegative(program);
            lemma_exports_before_mono(program.modules@, m as int + 1, module_count(program));
        }
        3 * self.modules + self.bindings + self.export_base[m] + k
    }

    /// The fact that module `m` is asked for the export named by origin `o`.
    pub fn demand_node(&self, m: usize, o: usize, Ghost(program): Ghost<ProgramIr>) -> (node: usize)
        requires
            self.describes(program),
            m < module_count(program),
            o < origin_total(program),
        ensures
            node == demand_node(program, m as int, o as int),
            node < fact_count(program),
    {
        proof {
            lemma_counts_nonnegative(program);
            let n = module_count(program);
            let t = origin_total(program);
            assert(m * t + o < n * t) by (nonlinear_arith)
                requires
                    0 <= m < n,
                    0 <= o < t,
            ;
            assert(m * t <= n * t) by (nonlinear_arith)
                requires
                    0 <= m < n,
                    0 <= t,
            ;
        }
        3 * self.modules + self.bindings + self.exports + m * self.origins + o
    }

    /// The origin of import `i` of module `m`.
    pub fn import_origin(&self, m: usize, i: usize, Ghost(program): Ghost<ProgramIr>) -> (o: usize)
        requires
            self.describes(program),
            m < module_count(program),
            i < program.modules@[m as int].imports@.len(),
        ensures
            o == import_origin(program, m as int, i as int),
            o < origin_total(program),
    {
        proof {
            lemma_counts_nonnegative(program);
            lemma_imports_before_mono(program.modules@, m as int + 1, module_count(program));
        }
        self.import_base[m] + i
    }

    /// The origin of export `k` of module `m`.
    pub fn export_origin(&self, m: usize, k: usize, Ghost(program): Ghost<ProgramIr>) -> (o: usize)
        requires
            self.describes(program),
            m < module_count(program),
            k < program.modules@[m as int].exports@.len(),
        ensures
            o == export_origin(program, m as int, k as int),
            o < origin_total(program),
    {
        proof {
            lemma_counts_nonnegative(program);
            lemma_exports_before_mono(program.modules@, m as int + 1, module_count(program));
        }
        (self.origins - self.exports) + self.export_base[m] + k
    }
}

proof fn lemma_counts_nonnegative(program: ProgramIr)
    ensures
        binding_total(program) >= 0,
        export_total(program) >= 0,
        import_total(program) >= 0,
        module_count(program) * origin_total(program) >= 0,
{
    let n = module_count(program);
    lemma_bindings_before_mono(program.modules@, 0, n);
    lemma_exports_before_mono(program.modules@, 0, n);
    lemma_imports_before_mono(program.modules@, 0, n);
    assert(n * origin_total(program) >= 0) by (nonlinear_arith)
        requires
            n >= 0,
            origin_total(program) >= 0,
    ;
}


/// The name `default`.
pub open spec fn default_name() -> Seq<char> {
    seq!['d', 'e', 'f', 'a', 'u', 'l', 't']
}

/// The export name an import asks for, if it asks for one.
pub open spec fn import_name(import: ModuleImport) -> Option<Seq<char>> {
    match import {
        ModuleImport::Default { .. } => Some(default_name()),
        ModuleImport::Named { imported, .. } => Some(imported@),
        _ => None,
    }
}

/// The name an export is known by, if it has one.
pub open spec fn exported_name(export: ModuleExport) -> Option<Seq<char>> {
    match export {
        ModuleExport::Local { name, .. } => Some(name@),
        ModuleExport::Indirect { name, .. } => Some(name@),
        ModuleExport::Namespace { name, .. } => Some(name@),
        _ => None,
    }
}

/// Whether origin `o` asks for the export named `name`: a default or named
/// import, or an export that forwards a name from another module.
pub open spec fn origin_name(program: ProgramIr, o: int, name: Seq<char>) -> bool {
    let modules = program.modules@;
    ||| exists|m: int, i: int|
        #![trigger import_origin(program, m, i)]
        0 <= m < modules.len() && 0 <= i < modules[m].imports@.len() && o == import_origin(program, m, i) && import_name(
            modules[m].imports@[i],
        ) == Some(name)
    ||| exists|m: int, k: int|
        #![trigger export_origin(program, m, k)]
        0 <= m < modules.len() && 0 <= k < modules[m].exports@.len() && o == export_origin(program, m, k) && (
        modules[m].exports@[k] matches ModuleExport::Indirect { imported, .. } && imported@ == name)
}

/// Whether export `k` is the first export of `module` named `name`.
pub open spec fn first_named_export(module: ModuleIr, name: Seq<char>, k: int) -> bool {
    &&& 0 <= k < module.exports@.len()
    &&& exported_name(module.exports@[k]) == Some(name)
    &&& forall|k2: int| #![trigger module.exports@[k2]] 0 <= k2 < k ==> exported_name(module.exports@[k2]) != Some(name)
}

/// Whether `module` has an export named `name`.
pub open spec fn has_named_export(module: ModuleIr, name: Seq<char>) -> bool {
    exists|k: int| #![trigger module.exports@[k]] 0 <= k < module.exports@.len() && exported_name(module.exports@[k]) == Some(name)
}

/// The module of the program that a request leads to, if it leads to one.
pub open spec fn internal_target(
    program: ProgramIr,
    importer: int,
    kind: ModuleRequestKind,
    request: (Seq<char>, Seq<(Seq<char>, Seq<char>)>),
) -> Option<int> {
    match unique_target(program, importer, kind, request.0, request.1) {
        Some(ModuleTarget::Internal(t)) => Some(t as int),
        _ => None,
    }
}

/// Whether demanding export `k` of module `m` demands fact `t` of the
/// module it forwards from: a name for an indirect export, every export for
/// a namespace or star export.
pub open spec fn forwarded(program: ProgramIr, m: int, k: int, t: int) -> bool {
    match reexport_target(program, m, k) {
        Some(x) => if program.modules@[m].exports@[k] is Indirect {
            t == demand_node(program, x, export_origin(program, m, k))
        } else {
            t == ns_demand_node(program, x)
        },
        None => false,
    }
}

/// The module of the program that export `k` of module `m` re-exports from, if any.
pub open spec fn reexport_target(program: ProgramIr, m: int, k: int) -> Option<int> {
    match export_request(program.modules@[m].exports@[k]) {
        Some(request) => internal_target(program, m, ModuleRequestKind::ReExport, request),
        None => None,
    }
}

/// Whether demanding export `k` of module `m` makes fact `t` hold: the
/// export is live, its local binding is live, and it forwards its demand.
pub open spec fn export_consequence(program: ProgramIr, m: int, k: int, t: int) -> bool {
    ||| t == export_node(program, m, k)
    ||| (export_binding(program.modules@[m].exports@[k]) matches Some(b) && t == use_node(program, m, b as int))
    ||| forwarded(program, m, k, t)
}

/// Whether asking module `m` for the export `name`, on behalf of origin `o`,
/// makes fact `t` hold: the first export of that name, or else, but for
/// `default`, every star export and the same demand on its source.
pub open spec fn name_consequence(program: ProgramIr, m: int, name: Seq<char>, o: int, t: int) -> bool {
    let module = program.modules@[m];
    if has_named_export(module, name) {
        exists|k: int| #![trigger module.exports@[k]] first_named_export(module, name, k) && export_consequence(program, m, k, t)
    } else {
        name != default_name() && exists|k: int|
            #![trigger module.exports@[k]]
            0 <= k < module.exports@.len() && module.exports@[k] is Star && (t == export_node(program, m, k) || (reexport_target(
                program,
                m,
                k,
            ) matches Some(x) && t == demand_node(program, x, o)))
    }
}

/// Evaluating a module evaluates each module of the program it depends on,
/// and uses the namespace of each it imports dynamically or requires.
pub open spec fn dependency_edge(program: ProgramIr, s: int, t: int) -> bool {
    let deps = program.dependencies@;
    exists|d: int|
        #![trigger deps[d]]
        0 <= d < deps.len() && (deps[d].target matches ModuleTarget::Internal(x) && s == eval_node(program, deps[d].importer as int) && (t
            == eval_node(program, x as int) || ((deps[d].request.kind == ModuleRequestKind::DynamicImport || deps[d].request.kind
            == ModuleRequestKind::CommonJsRequire) && t == ns_node(program, x as int))))
}

/// Whether some operation of `module` loads the global `eval`.
pub open spec fn loads_global_eval(module: ModuleIr) -> bool {
    exists|f: int, j: int|
        #![trigger module.functions@[f].operations@[j]]
        0 <= f < module.functions@.len() && 0 <= j < module.functions@[f].operations@.len() && !module.functions@[f].operations@[j].invoked
            && (module.functions@[f].operations@[j].kind matches OperationKind::LoadGlobal { name } && names_eval(name@))
}

/// Evaluating module `m` uses each binding it loads, and every binding of
/// it when it loads the global `eval`.
pub open spec fn module_load_edge(program: ProgramIr, m: int, s: int, t: int) -> bool {
    let module = program.modules@[m];
    ||| exists|f: int, j: int|
        #![trigger module.functions@[f].operations@[j]]
        0 <= f < module.functions@.len() && 0 <= j < module.functions@[f].operations@.len() && !module.functions@[f].operations@[j].invoked
            && (module.functions@[f].operations@[j].kind matches OperationKind::LoadBinding { binding } && s == eval_node(program, m)
            && t == use_node(program, m, binding as int))
    ||| exists|b: int|
        #![trigger use_node(program, m, b)]
        0 <= b < module.bindings@.len() && loads_global_eval(module) && s == eval_node(program, m) && t == use_node(program, m, b)
}

/// Using an imported binding of module `m` uses the binding it resolves to,
/// or the namespace of the module it imports as a whole.
pub open spec fn module_link_edge(program: ProgramIr, linkage: ProgramLinkage, m: int, s: int, t: int) -> bool {
    exists|b: int|
        #![trigger use_node(program, m, b)]
        0 <= b < program.modules@[m].bindings@.len() && s == use_node(program, m, b) && match linkage.spec_imported(program_binding(m, b)) {
            Some(ImportedBindingTarget::Binding(x)) => t == use_node(program, x.module as int, x.binding as int),
            Some(ImportedBindingTarget::Namespace(ModuleTarget::Internal(x))) => t == ns_node(program, x as int),
            _ => false,
        }
}

/// Using the namespace of module `m` evaluates it, uses every binding of it
/// and demands every export of it.
pub open spec fn module_namespace_edge(program: ProgramIr, m: int, s: int, t: int) -> bool {
    s == ns_node(program, m) && (t == eval_node(program, m) || t == ns_demand_node(program, m) || exists|b: int|
        #![trigger use_node(program, m, b)]
        0 <= b < program.modules@[m].bindings@.len() && t == use_node(program, m, b))
}

/// Using the binding of an import of module `m` demands the export it
/// imports from the module of the program its request leads to.
pub open spec fn module_import_demand_edge(program: ProgramIr, m: int, s: int, t: int) -> bool {
    let module = program.modules@[m];
    exists|i: int|
        #![trigger module.imports@[i]]
        0 <= i < module.imports@.len() && (import_binding(module.imports@[i]) matches Some(b) && s == use_node(program, m, b as int)
            && import_demand(program, m, i, t))
}

/// Whether import `i` of module `m` demands fact `t` of the module of the
/// program its request leads to: every export for a namespace import, the
/// imported name otherwise.
pub open spec fn import_demand(program: ProgramIr, m: int, i: int, t: int) -> bool {
    let import = program.modules@[m].imports@[i];
    match internal_target(program, m, ModuleRequestKind::StaticImport, import_request(import)) {
        Some(x) => if import is Namespace {
            t == ns_demand_node(program, x)
        } else {
            t == demand_node(program, x, import_origin(program, m, i))
        },
        None => false,
    }
}

/// Demanding every export of module `m` demands each of them.
pub open spec fn module_ns_demand_edge(program: ProgramIr, m: int, s: int, t: int) -> bool {
    let module = program.modules@[m];
    exists|k: int|
        #![trigger module.exports@[k]]
        0 <= k < module.exports@.len() && s == ns_demand_node(program, m) && export_consequence(program, m, k, t)
}

/// The rules that start from a fact about module `m`.
pub open spec fn module_edge(program: ProgramIr, linkage: ProgramLinkage, m: int, s: int, t: int) -> bool {
    ||| module_load_edge(program, m, s, t)
    ||| module_link_edge(program, linkage, m, s, t)
    ||| module_namespace_edge(program, m, s, t)
    ||| module_import_demand_edge(program, m, s, t)
    ||| module_ns_demand_edge(program, m, s, t)
}

/// Asking any module for the export that origin `o` names demands the
/// export it resolves to.
pub open spec fn origin_edge(program: ProgramIr, o: int, s: int, t: int) -> bool {
    exists|m: int, name: Seq<char>|
        #![trigger origin_name(program, o, name), demand_node(program, m, o)]
        0 <= m < program.modules@.len() && origin_name(program, o, name) && s == demand_node(program, m, o) && name_consequence(
            program,
            m,
            name,
            o,
            t,
        )
}

/// Every rule: the facts that fact `s` makes hold.
pub open spec fn reach_edges(program: ProgramIr, linkage: ProgramLinkage) -> spec_fn(int, int) -> bool {
    |s: int, t: int|
        dependency_edge(program, s, t) || (exists|m: int|
            #![trigger module_edge(program, linkage, m, s, t)]
            0 <= m < program.modules@.len() && module_edge(program, linkage, m, s, t)) || (exists|o: int|
            #![trigger origin_edge(program, o, s, t)]
            0 <= o < origin_total(program) && origin_edge(program, o, s, t))
}

/// The facts that hold from the start: each entry module is evaluated and
/// has every export demanded; each binding an entry module exports is used,
/// and each namespace it re-exports from.
pub open spec fn reach_seed(program: ProgramIr, x: int) -> bool {
    let modules = program.modules@;
    exists|i: int|
        #![trigger program.entry_modules@[i]]
        0 <= i < program.entry_modules@.len() && {
            let e = program.entry_modules@[i] as int;
            ||| x == eval_node(program, e)
            ||| x == ns_demand_node(program, e)
            ||| exists|k: int|
                #![trigger modules[e].exports@[k]]
                0 <= k < modules[e].exports@.len() && ((export_binding(modules[e].exports@[k]) matches Some(b) && x == use_node(
                    program,
                    e,
                    b as int,
                )) || (reexport_target(program, e, k) matches Some(y) && x == ns_node(program, y)))
        }
}

/// Whether fact `x` holds: some seed reaches it.
pub open spec fn fact_holds(program: ProgramIr, linkage: ProgramLinkage, x: int) -> bool {
    exists|s: int| #![trigger reach_seed(program, s)] reach_seed(program, s) && reaches(reach_edges(program, linkage), s, x)
}

/// Whether an entry module re-exports from a request that does not lead to one target.
pub open spec fn entry_export_unresolved(program: ProgramIr) -> bool {
    let modules = program.modules@;
    exists|i: int, k: int|
        #![trigger modules[program.entry_modules@[i] as int].exports@[k]]
        0 <= i < program.entry_modules@.len() && 0 <= k < modules[program.entry_modules@[i] as int].exports@.len() && (export_request(
            modules[program.entry_modules@[i] as int].exports@[k],
        ) matches Some(request) && unique_target(program, program.entry_modules@[i] as int, ModuleRequestKind::ReExport, request.0, request.1) is None)
}

/// Whether the analysis must keep every module, binding and export: an entry
/// re-export, an evaluated module's request or a used import does not
/// resolve, so the missing target could be any part of the program.
pub open spec fn retains_all(program: ProgramIr, linkage: ProgramLinkage) -> bool {
    let modules = program.modules@;
    ||| entry_export_unresolved(program)
    ||| exists|m: int|
        #![trigger eval_node(program, m)]
        0 <= m < modules.len() && fact_holds(program, linkage, eval_node(program, m)) && !has_complete_linkage(program, m)
    ||| exists|m: int, b: int|
        #![trigger use_node(program, m, b)]
        0 <= m < modules.len() && 0 <= b < modules[m].bindings@.len() && fact_holds(program, linkage, use_node(program, m, b))
            && linkage.spec_imported(program_binding(m, b)) == Some(ImportedBindingTarget::Unresolved)
}


/// `new` holds the edges of `old` and those `e` gives, all in range.
pub open spec fn egrows(old: Seq<Vec<usize>>, new: Seq<Vec<usize>>, e: spec_fn(int, int) -> bool) -> bool {
    &&& new.len() == old.len()
    &&& lists_in_range(new)
    &&& forall|s: int, t: int| #[trigger] list_step(new)(s, t) <==> (list_step(old)(s, t) || e(s, t))
}

/// No edge.
pub open spec fn no_edge() -> spec_fn(int, int) -> bool {
    |s: int, t: int| false
}

proof fn lemma_egrows_refl(a: Seq<Vec<usize>>)
    requires
        lists_in_range(a),
    ensures
        egrows(a, a, no_edge()),
{
}

proof fn lemma_echain(
    a: Seq<Vec<usize>>,
    b: Seq<Vec<usize>>,
    c: Seq<Vec<usize>>,
    e1: spec_fn(int, int) -> bool,
    e2: spec_fn(int, int) -> bool,
    e3: spec_fn(int, int) -> bool,
)
    requires
        egrows(a, b, e1),
        egrows(b, c, e2),
        forall|s: int, t: int| #[trigger] e3(s, t) <==> (e1(s, t) || e2(s, t)),
    ensures
        egrows(a, c, e3),
{
}

/// Adds the edge from `s` to `t`.
fn add_edge(lists: &mut Vec<Vec<usize>>, s: usize, t: usize)
    requires
        lists_in_range(old(lists)@),
        s < old(lists)@.len(),
        t < old(lists)@.len(),
    ensures
        egrows(old(lists)@, final(lists)@, |a: int, b: int| a == s && b == t),
{
    let ghost d0 = lists@;
    lists[s].push(t);
    proof {
        let d = lists@;
        assert forall|x: int, k: int|
            #![trigger d[x]@[k]]
            0 <= x < d.len() && 0 <= k < d[x]@.len() implies d[x]@[k] < d.len() by {
            if x != s as int {
                assert(d[x] == d0[x]);
            } else if k < d0[x]@.len() {
                assert(d[x]@[k] == d0[x]@[k]);
            }
        }
        assert forall|x: int, y: int| #[trigger] list_step(d)(x, y) <==> (list_step(d0)(x, y) || (x == s as int && y == t as int)) by {
            if 0 <= x < d0.len() && x != s as int {
                assert(d[x] == d0[x]);
            }
            if x == s as int {
                if list_step(d)(x, y) {
                    let k = choose|k: int| #![trigger d[x]@[k]] 0 <= k < d[x]@.len() && d[x]@[k] as int == y;
                    if k < d0[x]@.len() {
                        assert(d0[x]@[k] == d[x]@[k]);
                    }
                }
                if list_step(d0)(x, y) {
                    let k = choose|k: int| #![trigger d0[x]@[k]] 0 <= k < d0[x]@.len() && d0[x]@[k] as int == y;
                    assert(d[x]@[k] == d0[x]@[k]);
                }
                if y == t as int {
                    assert(d[x]@[d0[x]@.len() as int] == t);
                }
            }
        }
    }
}

/// The lists of a graph of `n` nodes without edges.
fn empty_lists(n: usize) -> (lists: Vec<Vec<usize>>)
    ensures
        lists@.len() == n,
        lists_in_range(lists@),
        forall|s: int, t: int| !(#[trigger] list_step(lists@)(s, t)),
{
    let mut lists: Vec<Vec<usize>> = Vec::new();
    let mut k: usize = 0;
    while k < n
        invariant
            k <= n,
            lists@.len() == k,
            forall|x: int| #![trigger lists@[x]] 0 <= x < k ==> lists@[x]@.len() == 0,
        decreases n - k,
    {
        lists.push(Vec::new());
        k = k + 1;
    }
    proof {
        assert forall|s: int, t: int| !(#[trigger] list_step(lists@)(s, t)) by {
            if 0 <= s < lists@.len() {
                assert(lists@[s]@.len() == 0);
            }
        }
    }
    lists
}

/// Whether `p` and `layout` agree and the graph has a node for every fact.
pub open spec fn building(lists: Seq<Vec<usize>>, layout: ReachLayout, program: ProgramIr) -> bool {
    &&& lists_in_range(lists)
    &&& layout.describes(program)
    &&& lists.len() == fact_count(program)
}

/// Adds the edges of rule `dependency_edge`.
fn add_dependency_edges(lists: &mut Vec<Vec<usize>>, layout: &ReachLayout, program: &ProgramIr)
    requires
        building(old(lists)@, *layout, *program),
        reachability_ready(*program),
    ensures
        building(final(lists)@, *layout, *program),
        egrows(old(lists)@, final(lists)@, |s: int, t: int| dependency_edge(*program, s, t)),
{
    let ghost l0 = lists@;
    let ghost p = *program;
    let ghost deps = p.dependencies@;
    proof {
        lemma_egrows_refl(l0);
    }
    let mut d: usize = 0;
    while d < program.dependencies.len()
        invariant
            building(lists@, *layout, p),
            reachability_ready(p),
            p == *program,
            deps == p.dependencies@,
            l0.len() == lists@.len(),
            d <= deps.len(),
            egrows(l0, lists@, |s: int, t: int| exists|d2: int|
                #![trigger deps[d2]]
                0 <= d2 < d && (deps[d2].target matches ModuleTarget::Internal(x) && s == eval_node(p, deps[d2].importer as int) && (t
                    == eval_node(p, x as int) || ((deps[d2].request.kind == ModuleRequestKind::DynamicImport || deps[d2].request.kind
                    == ModuleRequestKind::CommonJsRequire) && t == ns_node(p, x as int))))),
        decreases deps.len() - d,
    {
        let ghost l1 = lists@;
        let dependency = &program.dependencies[d];
        proof {
            assert(deps[d as int] == *dependency);
        }
        let ghost before = |s: int, t: int| exists|d2: int|
            #![trigger deps[d2]]
            0 <= d2 < d && (deps[d2].target matches ModuleTarget::Internal(x) && s == eval_node(p, deps[d2].importer as int) && (t
                == eval_node(p, x as int) || ((deps[d2].request.kind == ModuleRequestKind::DynamicImport || deps[d2].request.kind
                == ModuleRequestKind::CommonJsRequire) && t == ns_node(p, x as int))));
        let ghost after = |s: int, t: int| exists|d2: int|
            #![trigger deps[d2]]
            0 <= d2 < d + 1 && (deps[d2].target matches ModuleTarget::Internal(x) && s == eval_node(p, deps[d2].importer as int) && (t
                == eval_node(p, x as int) || ((deps[d2].request.kind == ModuleRequestKind::DynamicImport || deps[d2].request.kind
                == ModuleRequestKind::CommonJsRequire) && t == ns_node(p, x as int))));
        if let ModuleTarget::Internal(x) = dependency.target {
            let source = layout.eval_node(dependency.importer, Ghost(p));
            let evaluated = layout.eval_node(x, Ghost(p));
            add_edge(lists, source, evaluated);
            let ghost l2 = lists@;
            let namespace = dependency.request.kind == ModuleRequestKind::DynamicImport || dependency.request.kind == ModuleRequestKind::CommonJsRequire;
            if namespace {
                let used = layout.ns_node(x, Ghost(p));
                add_edge(lists, source, used);
                proof {
                    lemma_echain(l1, l2, lists@, |a: int, b: int| a == source && b == evaluated, |a: int, b: int| a == source && b == used,
                        |a: int, b: int| a == source && (b == evaluated || b == used));
                    assert forall|s: int, t: int| #[trigger] after(s, t) <==> (before(s, t) || (s == source && (t == evaluated || t == used))) by {}
                    lemma_echain(l0, l1, lists@, before, |a: int, b: int| a == source && (b == evaluated || b == used), after);
                }
            } else {
                proof {
                    assert forall|s: int, t: int| #[trigger] after(s, t) <==> (before(s, t) || (s == source && t == evaluated)) by {}
                    lemma_echain(l0, l1, lists@, before, |a: int, b: int| a == source && b == evaluated, after);
                }
            }
        } else {
            proof {
                assert forall|s: int, t: int| #[trigger] after(s, t) <==> before(s, t) by {}
            }
        }
        d = d + 1;
    }
}

/// Every request leads within the program, every linked binding exists,
/// and every fact can be numbered.
pub open spec fn reachability_ready(program: ProgramIr) -> bool {
    &&& program.wf()
    &&& fact_count(program) <= usize::MAX
    &&& forall|d: int|
        #![trigger program.dependencies@[d]]
        0 <= d < program.dependencies@.len() ==> program.dependencies@[d].importer < program.modules@.len() && (
        program.dependencies@[d].target matches ModuleTarget::Internal(x) ==> x < program.modules@.len())
}


proof fn lemma_internal_in_range(
    program: ProgramIr,
    importer: int,
    kind: ModuleRequestKind,
    request: (Seq<char>, Seq<(Seq<char>, Seq<char>)>),
)
    requires
        reachability_ready(program),
    ensures
        internal_target(program, importer, kind, request) matches Some(x) ==> 0 <= x < program.modules@.len(),
{
    let deps = program.dependencies@;
    if exists|i: int| #![trigger deps[i]] 0 <= i < deps.len() && answers(deps[i], importer, kind, request.0, request.1) {
        let i = choose|i: int| #![trigger deps[i]] 0 <= i < deps.len() && answers(deps[i], importer, kind, request.0, request.1);
        assert(deps[i] == program.dependencies@[i]);
    }
}

/// The module of the program that export `k` of module `m` re-exports from, if any.
fn reexport_target_of(program: &ProgramIr, m: usize, k: usize) -> (target: Option<usize>)
    requires
        reachability_ready(*program),
        m < program.modules@.len(),
        k < program.modules@[m as int].exports@.len(),
    ensures
        match target {
            Some(x) => reexport_target(*program, m as int, k as int) == Some(x as int) && x < program.modules@.len(),
            None => reexport_target(*program, m as int, k as int) is None,
        },
{
    match export_parts(&program.modules[m].exports[k]) {
        Some((source, attributes)) => {
            proof {
                lemma_internal_in_range(*program, m as int, ModuleRequestKind::ReExport, (source@, attributes_view(attributes@)));
            }
            match resolve_request(program, m, ModuleRequestKind::ReExport, source, attributes) {
                Some(ModuleTarget::Internal(x)) => Some(x),
                _ => None,
            }
        },
        None => None,
    }
}

/// Adds the edges from `source` to what demanding export `k` of module `m` makes hold.
fn add_export_consequence(lists: &mut Vec<Vec<usize>>, layout: &ReachLayout, program: &ProgramIr, source: usize, m: usize, k: usize)
    requires
        building(old(lists)@, *layout, *program),
        reachability_ready(*program),
        source < fact_count(*program),
        m < program.modules@.len(),
        k < program.modules@[m as int].exports@.len(),
    ensures
        building(final(lists)@, *layout, *program),
        egrows(old(lists)@, final(lists)@, |s: int, t: int| s == source && export_consequence(*program, m as int, k as int, t)),
{
    let ghost p = *program;
    let ghost l0 = lists@;
    let export = &program.modules[m].exports[k];
    proof {
        assert(p.modules@[m as int].wf());
        assert(p.modules@[m as int].exports@[k as int] == *export);
    }
    let live = layout.export_node(m, k, Ghost(p));
    add_edge(lists, source, live);
    let ghost l1 = lists@;
    let ghost e_live = |a: int, b: int| a == source && b == live;
    let mut binding_edge = false;
    let mut binding_node: usize = 0;
    if let ModuleExport::Local { binding, .. } = export {
        proof {
            assert(export_binding(*export) == Some(*binding));
        }
        binding_node = layout.use_node(m, *binding, Ghost(p));
        add_edge(lists, source, binding_node);
        binding_edge = true;
    } else {
        proof {
            lemma_egrows_refl(l1);
        }
    }
    let ghost l2 = lists@;
    let ghost e_binding = if binding_edge { |a: int, b: int| a == source && b == binding_node } else { no_edge() };
    let mut forward_edge = false;
    let mut forward_node: usize = 0;
    match reexport_target_of(program, m, k) {
        Some(x) => {
            let indirect = match export {
                ModuleExport::Indirect { .. } => true,
                _ => false,
            };
            if indirect {
                let o = layout.export_origin(m, k, Ghost(p));
                forward_node = layout.demand_node(x, o, Ghost(p));
            } else {
                forward_node = layout.ns_demand_node(x, Ghost(p));
            }
            add_edge(lists, source, forward_node);
            forward_edge = true;
        },
        None => {
            proof {
                lemma_egrows_refl(l2);
            }
        },
    }
    proof {
        let e_forward = if forward_edge { |a: int, b: int| a == source && b == forward_node } else { no_edge() };
        lemma_echain(l0, l1, l2, e_live, e_binding, |a: int, b: int| e_live(a, b) || e_binding(a, b));
        lemma_echain(l0, l2, lists@, |a: int, b: int| e_live(a, b) || e_binding(a, b), e_forward, |a: int, b: int| e_live(a, b) || e_binding(a, b) || e_forward(a, b));
        let goal = |a: int, b: int| a == source && export_consequence(p, m as int, k as int, b);
        assert forall|a: int, b: int| #[trigger] goal(a, b) <==> (e_live(a, b) || e_binding(a, b) || e_forward(a, b)) by {}
        lemma_egrows_refl(lists@);
        lemma_echain(l0, lists@, lists@, |a: int, b: int| e_live(a, b) || e_binding(a, b) || e_forward(a, b), no_edge(), goal);
    }
}


/// Whether operation `j2` of function `f2` comes before operation `j` of function `f`.
pub open spec fn op_position_before(f2: int, j2: int, f: int, j: int) -> bool {
    f2 < f || (f2 == f && j2 < j)
}

/// The binding loads of module `m` before operation `j` of function `f`.
pub open spec fn loads_upto(program: ProgramIr, m: int, f: int, j: int) -> spec_fn(int, int) -> bool {
    let module = program.modules@[m];
    |s: int, t: int|
        exists|f2: int, j2: int|
            #![trigger module.functions@[f2].operations@[j2]]
            0 <= f2 < module.functions@.len() && 0 <= j2 < module.functions@[f2].operations@.len() && op_position_before(f2, j2, f, j)
                && !module.functions@[f2].operations@[j2].invoked && (module.functions@[f2].operations@[j2].kind matches OperationKind::LoadBinding {
                binding,
            } && s == eval_node(program, m) && t == use_node(program, m, binding as int))
}

/// Whether module `m` loads the global `eval` before operation `j` of function `f`.
pub open spec fn eval_load_upto(module: ModuleIr, f: int, j: int) -> bool {
    exists|f2: int, j2: int|
        #![trigger module.functions@[f2].operations@[j2]]
        0 <= f2 < module.functions@.len() && 0 <= j2 < module.functions@[f2].operations@.len() && op_position_before(f2, j2, f, j)
            && !module.functions@[f2].operations@[j2].invoked && (module.functions@[f2].operations@[j2].kind matches OperationKind::LoadGlobal {
            name,
        } && names_eval(name@))
}

/// Adds the edges of rule `module_load_edge` for module `m`.
fn add_load_edges(lists: &mut Vec<Vec<usize>>, layout: &ReachLayout, program: &ProgramIr, m: usize)
    requires
        building(old(lists)@, *layout, *program),
        reachability_ready(*program),
        m < program.modules@.len(),
    ensures
        building(final(lists)@, *layout, *program),
        egrows(old(lists)@, final(lists)@, |s: int, t: int| module_load_edge(*program, m as int, s, t)),
{
    let ghost p = *program;
    let ghost l0 = lists@;
    let module = &program.modules[m];
    proof {
        assert(p.modules@[m as int] == *module);
        assert(module.wf());
        lemma_egrows_refl(l0);
    }
    let source = layout.eval_node(m, Ghost(p));
    let mut eval_load = false;
    let mut f: usize = 0;
    while f < module.functions.len()
        invariant
            building(lists@, *layout, p),
            reachability_ready(p),
            p == *program,
            m < p.modules@.len(),
            *module == p.modules@[m as int],
            module.wf(),
            source == eval_node(p, m as int),
            l0.len() == lists@.len(),
            f <= module.functions@.len(),
            egrows(l0, lists@, loads_upto(p, m as int, f as int, 0)),
            eval_load == eval_load_upto(*module, f as int, 0),
        decreases module.functions@.len() - f,
    {
        let function = &module.functions[f];
        proof {
            assert(module.functions@[f as int] == *function);
            assert(function.wf(module.functions@.len() as int, module.bindings@.len() as int));
            assert forall|s: int, t: int| #[trigger] loads_upto(p, m as int, f as int, 0)(s, t) <==> loads_upto(p, m as int, f as int, 0)(s, t) by {}
        }
        let mut j: usize = 0;
        while j < function.operations.len()
            invariant
                building(lists@, *layout, p),
                reachability_ready(p),
                p == *program,
                m < p.modules@.len(),
                *module == p.modules@[m as int],
                module.wf(),
                f < module.functions@.len(),
                *function == module.functions@[f as int],
                function.wf(module.functions@.len() as int, module.bindings@.len() as int),
                source == eval_node(p, m as int),
                l0.len() == lists@.len(),
                j <= function.operations@.len(),
                egrows(l0, lists@, loads_upto(p, m as int, f as int, j as int)),
                eval_load == eval_load_upto(*module, f as int, j as int),
            decreases function.operations@.len() - j,
        {
            let ghost l1 = lists@;
            let op = &function.operations[j];
            proof {
                assert(function.operations@[j as int] == *op);
                assert(op.wf(function.value_count as int, function.regions@.len() as int, module.functions@.len() as int, module.bindings@.len() as int));
            }
            let ghost before = loads_upto(p, m as int, f as int, j as int);
            let ghost after = loads_upto(p, m as int, f as int, j as int + 1);
            if !op.invoked {
                match &op.kind {
                    OperationKind::LoadBinding { binding } => {
                        let target = layout.use_node(m, *binding, Ghost(p));
                        add_edge(lists, source, target);
                        proof {
                            assert forall|s: int, t: int| #[trigger] after(s, t) <==> (before(s, t) || (s == source && t == target)) by {
                                if after(s, t) && !before(s, t) {
                                    let (f2, j2) = choose|f2: int, j2: int|
                                        #![trigger module.functions@[f2].operations@[j2]]
                                        0 <= f2 < module.functions@.len() && 0 <= j2 < module.functions@[f2].operations@.len() && op_position_before(f2, j2, f as int, j as int + 1)
                                            && !module.functions@[f2].operations@[j2].invoked && (module.functions@[f2].operations@[j2].kind matches OperationKind::LoadBinding {
                                            binding,
                                        } && s == eval_node(p, m as int) && t == use_node(p, m as int, binding as int));
                                    assert(f2 == f && j2 == j);
                                }
                                if s == source && t == target {
                                    assert(module.functions@[f as int].operations@[j as int] == *op);
                                }
                            }
                            lemma_echain(l0, l1, lists@, before, |a: int, b: int| a == source && b == target, after);
                            assert(eval_load_upto(*module, f as int, j as int + 1) == eval_load_upto(*module, f as int, j as int)) by {
                                if eval_load_upto(*module, f as int, j as int + 1) {
                                    let (f2, j2) = choose|f2: int, j2: int|
                                        #![trigger module.functions@[f2].operations@[j2]]
                                        0 <= f2 < module.functions@.len() && 0 <= j2 < module.functions@[f2].operations@.len() && op_position_before(f2, j2, f as int, j as int + 1)
                                            && !module.functions@[f2].operations@[j2].invoked && (module.functions@[f2].operations@[j2].kind matches OperationKind::LoadGlobal {
                                            name,
                                        } && names_eval(name@));
                                    assert(!(f2 == f && j2 == j));
                                }
                            }
                        }
                    },
                    OperationKind::LoadGlobal { name } => {
                        if crate::flow::is_eval_name(name) {
                            eval_load = true;
                        }
                        proof {
                            assert forall|s: int, t: int| #[trigger] after(s, t) <==> before(s, t) by {
                                if after(s, t) && !before(s, t) {
                                    let (f2, j2) = choose|f2: int, j2: int|
                                        #![trigger module.functions@[f2].operations@[j2]]
                                        0 <= f2 < module.functions@.len() && 0 <= j2 < module.functions@[f2].operations@.len() && op_position_before(f2, j2, f as int, j as int + 1)
                                            && !module.functions@[f2].operations@[j2].invoked && (module.functions@[f2].operations@[j2].kind matches OperationKind::LoadBinding {
                                            binding,
                                        } && s == eval_node(p, m as int) && t == use_node(p, m as int, binding as int));
                                    assert(f2 == f && j2 == j);
                                }
                            }
                            if eval_load_upto(*module, f as int, j as int + 1) && !eval_load_upto(*module, f as int, j as int) {
                                let (f2, j2) = choose|f2: int, j2: int|
                                    #![trigger module.functions@[f2].operations@[j2]]
                                    0 <= f2 < module.functions@.len() && 0 <= j2 < module.functions@[f2].operations@.len() && op_position_before(f2, j2, f as int, j as int + 1)
                                        && !module.functions@[f2].operations@[j2].invoked && (module.functions@[f2].operations@[j2].kind matches OperationKind::LoadGlobal {
                                        name,
                                    } && names_eval(name@));
                                assert(f2 == f && j2 == j);
                            }
                            if names_eval(name@) {
                                assert(module.functions@[f as int].operations@[j as int] == *op);
                            }
                        }
                    },
                    _ => {
                        proof {
                            assert forall|s: int, t: int| #[trigger] after(s, t) <==> before(s, t) by {
                                if after(s, t) && !before(s, t) {
                                    let (f2, j2) = choose|f2: int, j2: int|
                                        #![trigger module.functions@[f2].operations@[j2]]
                                        0 <= f2 < module.functions@.len() && 0 <= j2 < module.functions@[f2].operations@.len() && op_position_before(f2, j2, f as int, j as int + 1)
                                            && !module.functions@[f2].operations@[j2].invoked && (module.functions@[f2].operations@[j2].kind matches OperationKind::LoadBinding {
                                            binding,
                                        } && s == eval_node(p, m as int) && t == use_node(p, m as int, binding as int));
                                    assert(f2 == f && j2 == j);
                                }
                            }
                            if eval_load_upto(*module, f as int, j as int + 1) {
                                let (f2, j2) = choose|f2: int, j2: int|
                                    #![trigger module.functions@[f2].operations@[j2]]
                                    0 <= f2 < module.functions@.len() && 0 <= j2 < module.functions@[f2].operations@.len() && op_position_before(f2, j2, f as int, j as int + 1)
                                        && !module.functions@[f2].operations@[j2].invoked && (module.functions@[f2].operations@[j2].kind matches OperationKind::LoadGlobal {
                                        name,
                                    } && names_eval(name@));
                                assert(!(f2 == f && j2 == j));
                            }
                        }
                    },
                }
            } else {
                proof {
                    assert forall|s: int, t: int| #[trigger] after(s, t) <==> before(s, t) by {}
                    assert(eval_load_upto(*module, f as int, j as int + 1) == eval_load_upto(*module, f as int, j as int));
                }
            }
            j = j + 1;
        }
        proof {
            assert forall|s: int, t: int| #[trigger] loads_upto(p, m as int, f as int + 1, 0)(s, t) <==> loads_upto(p, m as int, f as int, j as int)(s, t) by {}
            assert(eval_load_upto(*module, f as int + 1, 0) == eval_load_upto(*module, f as int, j as int));
            lemma_egrows_refl(lists@);
            lemma_echain(l0, lists@, lists@, loads_upto(p, m as int, f as int, j as int), no_edge(), loads_upto(p, m as int, f as int + 1, 0));
        }
        f = f + 1;
    }
    let ghost l2 = lists@;
    proof {
        assert(eval_load == loads_global_eval(*module));
    }
    let ghost all_loads = loads_upto(p, m as int, f as int, 0);
    if eval_load {
        let mut b: usize = 0;
        proof {
            lemma_egrows_refl(l2);
        }
        while b < module.bindings.len()
            invariant
                building(lists@, *layout, p),
                p == *program,
                m < p.modules@.len(),
                *module == p.modules@[m as int],
                source == eval_node(p, m as int),
                l2.len() == lists@.len(),
                b <= module.bindings@.len(),
                egrows(l2, lists@, |s: int, t: int| exists|c: int| #![trigger use_node(p, m as int, c)] 0 <= c < b && s == source && t == use_node(p, m as int, c)),
            decreases module.bindings@.len() - b,
        {
            let ghost l3 = lists@;
            let target = layout.use_node(m, b, Ghost(p));
            add_edge(lists, source, target);
            proof {
                let before = |s: int, t: int| exists|c: int| #![trigger use_node(p, m as int, c)] 0 <= c < b && s == source && t == use_node(p, m as int, c);
                let after = |s: int, t: int| exists|c: int| #![trigger use_node(p, m as int, c)] 0 <= c < b + 1 && s == source && t == use_node(p, m as int, c);
                assert forall|s: int, t: int| #[trigger] after(s, t) <==> (before(s, t) || (s == source && t == target)) by {
                    if after(s, t) && !before(s, t) {
                        let c = choose|c: int| #![trigger use_node(p, m as int, c)] 0 <= c < b + 1 && s == source && t == use_node(p, m as int, c);
                        assert(c == b);
                    }
                }
                lemma_echain(l2, l3, lists@, before, |a: int, c: int| a == source && c == target, after);
            }
            b = b + 1;
        }
        proof {
            let evals = |s: int, t: int| exists|c: int| #![trigger use_node(p, m as int, c)] 0 <= c < b && s == source && t == use_node(p, m as int, c);
            lemma_echain(l0, l2, lists@, all_loads, evals, |s: int, t: int| module_load_edge(p, m as int, s, t));
        }
    } else {
        proof {
            lemma_egrows_refl(l2);
            lemma_echain(l0, l2, l2, all_loads, no_edge(), |s: int, t: int| module_load_edge(p, m as int, s, t));
        }
    }
}


/// Every binding an import resolves to exists, and every module whose
/// namespace it imports.
pub open spec fn linkage_ready(program: ProgramIr, linkage: ProgramLinkage) -> bool {
    forall|m: int, b: int|
        #![trigger linkage.spec_imported(program_binding(m, b))]
        0 <= m < program.modules@.len() && 0 <= b < program.modules@[m].bindings@.len() ==> match linkage.spec_imported(program_binding(m, b)) {
            Some(ImportedBindingTarget::Binding(x)) => x.module < program.modules@.len() && x.binding < program.modules@[x.module as int].bindings@.len(),
            Some(ImportedBindingTarget::Namespace(ModuleTarget::Internal(x))) => x < program.modules@.len(),
            _ => true,
        }
}

/// Adds the edges of rule `module_link_edge` for module `m`.
fn add_link_edges(lists: &mut Vec<Vec<usize>>, layout: &ReachLayout, program: &ProgramIr, linkage: &ProgramLinkage, m: usize)
    requires
        building(old(lists)@, *layout, *program),
        reachability_ready(*program),
        linkage_ready(*program, *linkage),
        m < program.modules@.len(),
    ensures
        building(final(lists)@, *layout, *program),
        egrows(old(lists)@, final(lists)@, |s: int, t: int| module_link_edge(*program, *linkage, m as int, s, t)),
{
    let ghost p = *program;
    let ghost l = *linkage;
    let ghost l0 = lists@;
    let count = program.modules[m].bindings.len();
    proof {
        lemma_egrows_refl(l0);
        assert(p.modules@.len() <= u32::MAX + 1);
        assert(p.modules@[m as int].bindings@.len() <= u32::MAX + 1);
    }
    let mut b: usize = 0;
    while b < count
        invariant
            building(lists@, *layout, p),
            linkage_ready(p, l),
            p == *program,
            l == *linkage,
            m < p.modules@.len(),
            p.modules@.len() <= u32::MAX + 1,
            count == p.modules@[m as int].bindings@.len(),
            count <= u32::MAX + 1,
            l0.len() == lists@.len(),
            b <= count,
            egrows(l0, lists@, |s: int, t: int| exists|c: int|
                #![trigger use_node(p, m as int, c)]
                0 <= c < b && s == use_node(p, m as int, c) && match l.spec_imported(program_binding(m as int, c)) {
                    Some(ImportedBindingTarget::Binding(x)) => t == use_node(p, x.module as int, x.binding as int),
                    Some(ImportedBindingTarget::Namespace(ModuleTarget::Internal(x))) => t == ns_node(p, x as int),
                    _ => false,
                }),
        decreases count - b,
    {
        let ghost l1 = lists@;
        let ghost before = |s: int, t: int| exists|c: int|
            #![trigger use_node(p, m as int, c)]
            0 <= c < b && s == use_node(p, m as int, c) && match l.spec_imported(program_binding(m as int, c)) {
                Some(ImportedBindingTarget::Binding(x)) => t == use_node(p, x.module as int, x.binding as int),
                Some(ImportedBindingTarget::Namespace(ModuleTarget::Internal(x))) => t == ns_node(p, x as int),
                _ => false,
            };
        let ghost after = |s: int, t: int| exists|c: int|
            #![trigger use_node(p, m as int, c)]
            0 <= c < b + 1 && s == use_node(p, m as int, c) && match l.spec_imported(program_binding(m as int, c)) {
                Some(ImportedBindingTarget::Binding(x)) => t == use_node(p, x.module as int, x.binding as int),
                Some(ImportedBindingTarget::Namespace(ModuleTarget::Internal(x))) => t == ns_node(p, x as int),
                _ => false,
            };
        let source = layout.use_node(m, b, Ghost(p));
        let id = ProgramBindingId { module: m as u32, binding: b as u32 };
        proof {
            assert(id == program_binding(m as int, b as int));
            assert(linkage_ready(p, l));
            let _ = l.spec_imported(program_binding(m as int, b as int));
        }
        let target = match linkage.imported_binding(id) {
            Some(ImportedBindingTarget::Binding(x)) => Some(layout.use_node(x.module as usize, x.binding as usize, Ghost(p))),
            Some(ImportedBindingTarget::Namespace(ModuleTarget::Internal(x))) => Some(layout.ns_node(*x, Ghost(p))),
            _ => None,
        };
        match target {
            Some(t0) => {
                add_edge(lists, source, t0);
                proof {
                    assert forall|s: int, t: int| #[trigger] after(s, t) <==> (before(s, t) || (s == source && t == t0)) by {
                        if after(s, t) && !before(s, t) {
                            let c = choose|c: int|
                                #![trigger use_node(p, m as int, c)]
                                0 <= c < b + 1 && s == use_node(p, m as int, c) && match l.spec_imported(program_binding(m as int, c)) {
                                    Some(ImportedBindingTarget::Binding(x)) => t == use_node(p, x.module as int, x.binding as int),
                                    Some(ImportedBindingTarget::Namespace(ModuleTarget::Internal(x))) => t == ns_node(p, x as int),
                                    _ => false,
                                };
                            assert(c == b);
                        }
                    }
                    lemma_echain(l0, l1, lists@, before, |a: int, c: int| a == source && c == t0, after);
                }
            },
            None => {
                proof {
                    assert forall|s: int, t: int| #[trigger] after(s, t) <==> before(s, t) by {
                        if after(s, t) && !before(s, t) {
                            let c = choose|c: int|
                                #![trigger use_node(p, m as int, c)]
                                0 <= c < b + 1 && s == use_node(p, m as int, c) && match l.spec_imported(program_binding(m as int, c)) {
                                    Some(ImportedBindingTarget::Binding(x)) => t == use_node(p, x.module as int, x.binding as int),
                                    Some(ImportedBindingTarget::Namespace(ModuleTarget::Internal(x))) => t == ns_node(p, x as int),
                                    _ => false,
                                };
                            assert(c == b);
                        }
                    }
                }
            },
        }
        b = b + 1;
    }
}

/// Adds the edges of rule `module_namespace_edge` for module `m`.
fn add_namespace_edges(lists: &mut Vec<Vec<usize>>, layout: &ReachLayout, program: &ProgramIr, m: usize)
    requires
        building(old(lists)@, *layout, *program),
        m < program.modules@.len(),
    ensures
        building(final(lists)@, *layout, *program),
        egrows(old(lists)@, final(lists)@, |s: int, t: int| module_namespace_edge(*program, m as int, s, t)),
{
    let ghost p = *program;
    let ghost l0 = lists@;
    let source = layout.ns_node(m, Ghost(p));
    let evaluated = layout.eval_node(m, Ghost(p));
    add_edge(lists, source, evaluated);
    let ghost l1 = lists@;
    let demanded = layout.ns_demand_node(m, Ghost(p));
    add_edge(lists, source, demanded);
    let ghost l2 = lists@;
    proof {
        lemma_echain(l0, l1, l2, |a: int, c: int| a == source && c == evaluated, |a: int, c: int| a == source && c == demanded,
            |a: int, c: int| a == source && (c == evaluated || c == demanded));
        lemma_egrows_refl(l2);
    }
    let count = program.modules[m].bindings.len();
    let mut b: usize = 0;
    while b < count
        invariant
            building(lists@, *layout, p),
            p == *program,
            m < p.modules@.len(),
            count == p.modules@[m as int].bindings@.len(),
            source == ns_node(p, m as int),
            l2.len() == lists@.len(),
            b <= count,
            egrows(l2, lists@, |s: int, t: int| exists|c: int| #![trigger use_node(p, m as int, c)] 0 <= c < b && s == source && t == use_node(p, m as int, c)),
        decreases count - b,
    {
        let ghost l3 = lists@;
        let target = layout.use_node(m, b, Ghost(p));
        add_edge(lists, source, target);
        proof {
            let before = |s: int, t: int| exists|c: int| #![trigger use_node(p, m as int, c)] 0 <= c < b && s == source && t == use_node(p, m as int, c);
            let after = |s: int, t: int| exists|c: int| #![trigger use_node(p, m as int, c)] 0 <= c < b + 1 && s == source && t == use_node(p, m as int, c);
            assert forall|s: int, t: int| #[trigger] after(s, t) <==> (before(s, t) || (s == source && t == target)) by {
                if after(s, t) && !before(s, t) {
                    let c = choose|c: int| #![trigger use_node(p, m as int, c)] 0 <= c < b + 1 && s == source && t == use_node(p, m as int, c);
                    assert(c == b);
                }
            }
            lemma_echain(l2, l3, lists@, before, |a: int, c: int| a == source && c == target, after);
        }
        b = b + 1;
    }
    proof {
        let uses = |s: int, t: int| exists|c: int| #![trigger use_node(p, m as int, c)] 0 <= c < b && s == source && t == use_node(p, m as int, c);
        lemma_echain(l0, l2, lists@, |a: int, c: int| a == source && (c == evaluated || c == demanded), uses,
            |s: int, t: int| module_namespace_edge(p, m as int, s, t));
    }
}


pub fn import_binding_of(import: &ModuleImport) -> (binding: Option<usize>)
    ensures
        binding == import_binding(*import),
{
    match import {
        ModuleImport::Bare { .. } => None,
        ModuleImport::Namespace { binding, .. } => Some(*binding),
        ModuleImport::Default { binding, .. } => Some(*binding),
        ModuleImport::Named { binding, .. } => Some(*binding),
    }
}

/// Adds the edges of rule `module_import_demand_edge` for module `m`.
fn add_import_demand_edges(lists: &mut Vec<Vec<usize>>, layout: &ReachLayout, program: &ProgramIr, m: usize)
    requires
        building(old(lists)@, *layout, *program),
        reachability_ready(*program),
        m < program.modules@.len(),
    ensures
        building(final(lists)@, *layout, *program),
        egrows(old(lists)@, final(lists)@, |s: int, t: int| module_import_demand_edge(*program, m as int, s, t)),
{
    let ghost p = *program;
    let ghost l0 = lists@;
    let module = &program.modules[m];
    proof {
        assert(p.modules@[m as int] == *module);
        assert(module.wf());
        lemma_egrows_refl(l0);
    }
    let mut i: usize = 0;
    while i < module.imports.len()
        invariant
            building(lists@, *layout, p),
            reachability_ready(p),
            p == *program,
            m < p.modules@.len(),
            *module == p.modules@[m as int],
            module.wf(),
            l0.len() == lists@.len(),
            i <= module.imports@.len(),
            egrows(l0, lists@, |s: int, t: int| exists|i2: int|
                #![trigger module.imports@[i2]]
                0 <= i2 < i && (import_binding(module.imports@[i2]) matches Some(b) && s == use_node(p, m as int, b as int)
                    && import_demand(p, m as int, i2, t))),
        decreases module.imports@.len() - i,
    {
        let ghost l1 = lists@;
        let ghost before = |s: int, t: int| exists|i2: int|
            #![trigger module.imports@[i2]]
            0 <= i2 < i && (import_binding(module.imports@[i2]) matches Some(b) && s == use_node(p, m as int, b as int)
                && import_demand(p, m as int, i2, t));
        let ghost after = |s: int, t: int| exists|i2: int|
            #![trigger module.imports@[i2]]
            0 <= i2 < i + 1 && (import_binding(module.imports@[i2]) matches Some(b) && s == use_node(p, m as int, b as int)
                && import_demand(p, m as int, i2, t));
        let import = &module.imports[i];
        proof {
            assert(module.imports@[i as int] == *import);
        }
        let mut added = false;
        let mut source: usize = 0;
        let mut target: usize = 0;
        if let Some(b) = import_binding_of(import) {
            let (specifier, attributes) = import_parts(import);
            proof {
                lemma_internal_in_range(p, m as int, ModuleRequestKind::StaticImport, import_request(*import));
            }
            if let Some(ModuleTarget::Internal(x)) = resolve_request(program, m, ModuleRequestKind::StaticImport, specifier, attributes) {
                source = layout.use_node(m, b, Ghost(p));
                let namespace = match import {
                    ModuleImport::Namespace { .. } => true,
                    _ => false,
                };
                if namespace {
                    target = layout.ns_demand_node(x, Ghost(p));
                } else {
                    let o = layout.import_origin(m, i, Ghost(p));
                    target = layout.demand_node(x, o, Ghost(p));
                }
                add_edge(lists, source, target);
                added = true;
            }
        }
        proof {
            let here = if added { |a: int, c: int| a == source && c == target } else { no_edge() };
            if !added {
                lemma_egrows_refl(l1);
            }
            assert forall|s: int, t: int| #[trigger] after(s, t) <==> (before(s, t) || here(s, t)) by {
                if after(s, t) && !before(s, t) {
                    let i2 = choose|i2: int|
                        #![trigger module.imports@[i2]]
                        0 <= i2 < i + 1 && (import_binding(module.imports@[i2]) matches Some(b) && s == use_node(p, m as int, b as int)
                            && import_demand(p, m as int, i2, t));
                    assert(i2 == i);
                }
            }
            lemma_echain(l0, l1, lists@, before, here, after);
        }
        i = i + 1;
    }
}

/// Adds the edges of rule `module_ns_demand_edge` for module `m`.
fn add_ns_demand_edges(lists: &mut Vec<Vec<usize>>, layout: &ReachLayout, program: &ProgramIr, m: usize)
    requires
        building(old(lists)@, *layout, *program),
        reachability_ready(*program),
        m < program.modules@.len(),
    ensures
        building(final(lists)@, *layout, *program),
        egrows(old(lists)@, final(lists)@, |s: int, t: int| module_ns_demand_edge(*program, m as int, s, t)),
{
    let ghost p = *program;
    let ghost l0 = lists@;
    let source = layout.ns_demand_node(m, Ghost(p));
    let count = program.modules[m].exports.len();
    proof {
        lemma_egrows_refl(l0);
    }
    let mut k: usize = 0;
    while k < count
        invariant
            building(lists@, *layout, p),
            reachability_ready(p),
            p == *program,
            m < p.modules@.len(),
            count == p.modules@[m as int].exports@.len(),
            source == ns_demand_node(p, m as int),
            source < fact_count(p),
            l0.len() == lists@.len(),
            k <= count,
            egrows(l0, lists@, |s: int, t: int| exists|k2: int|
                #![trigger p.modules@[m as int].exports@[k2]]
                0 <= k2 < k && s == source && export_consequence(p, m as int, k2, t)),
        decreases count - k,
    {
        let ghost l1 = lists@;
        add_export_consequence(lists, layout, program, source, m, k);
        proof {
            let before = |s: int, t: int| exists|k2: int|
                #![trigger p.modules@[m as int].exports@[k2]]
                0 <= k2 < k && s == source && export_consequence(p, m as int, k2, t);
            let after = |s: int, t: int| exists|k2: int|
                #![trigger p.modules@[m as int].exports@[k2]]
                0 <= k2 < k + 1 && s == source && export_consequence(p, m as int, k2, t);
            let here = |s: int, t: int| s == source && export_consequence(p, m as int, k as int, t);
            assert forall|s: int, t: int| #[trigger] after(s, t) <==> (before(s, t) || here(s, t)) by {
                if after(s, t) && !before(s, t) {
                    let k2 = choose|k2: int|
                        #![trigger p.modules@[m as int].exports@[k2]]
                        0 <= k2 < k + 1 && s == source && export_consequence(p, m as int, k2, t);
                    assert(k2 == k);
                }
                if here(s, t) {
                    let _ = p.modules@[m as int].exports@[k as int];
                }
            }
            lemma_echain(l0, l1, lists@, before, here, after);
        }
        k = k + 1;
    }
}

/// Adds the edges of rule `module_edge` for module `m`.
fn add_module_edges(lists: &mut Vec<Vec<usize>>, layout: &ReachLayout, program: &ProgramIr, linkage: &ProgramLinkage, m: usize)
    requires
        building(old(lists)@, *layout, *program),
        reachability_ready(*program),
        linkage_ready(*program, *linkage),
        m < program.modules@.len(),
    ensures
        building(final(lists)@, *layout, *program),
        egrows(old(lists)@, final(lists)@, |s: int, t: int| module_edge(*program, *linkage, m as int, s, t)),
{
    let ghost p = *program;
    let ghost l = *linkage;
    let ghost mi = m as int;
    let ghost l0 = lists@;
    add_load_edges(lists, layout, program, m);
    let ghost l1 = lists@;
    add_link_edges(lists, layout, program, linkage, m);
    let ghost l2 = lists@;
    add_namespace_edges(lists, layout, program, m);
    let ghost l3 = lists@;
    add_import_demand_edges(lists, layout, program, m);
    let ghost l4 = lists@;
    add_ns_demand_edges(lists, layout, program, m);
    proof {
        let e1 = |s: int, t: int| module_load_edge(p, mi, s, t);
        let e2 = |s: int, t: int| module_link_edge(p, l, mi, s, t);
        let e3 = |s: int, t: int| module_namespace_edge(p, mi, s, t);
        let e4 = |s: int, t: int| module_import_demand_edge(p, mi, s, t);
        let e5 = |s: int, t: int| module_ns_demand_edge(p, mi, s, t);
        lemma_echain(l0, l1, l2, e1, e2, |s: int, t: int| e1(s, t) || e2(s, t));
        lemma_echain(l0, l2, l3, |s: int, t: int| e1(s, t) || e2(s, t), e3, |s: int, t: int| e1(s, t) || e2(s, t) || e3(s, t));
        lemma_echain(l0, l3, l4, |s: int, t: int| e1(s, t) || e2(s, t) || e3(s, t), e4, |s: int, t: int| e1(s, t) || e2(s, t) || e3(s, t) || e4(s, t));
        lemma_echain(l0, l4, lists@, |s: int, t: int| e1(s, t) || e2(s, t) || e3(s, t) || e4(s, t), e5,
            |s: int, t: int| module_edge(p, l, mi, s, t));
    }
}


/// Whether `name` is `default`.
pub fn is_default_name(name: &String) -> (r: bool)
    ensures
        r == (name@ == default_name()),
{
    let s = name.as_str();
    let len = s.unicode_len();
    if len != 7 {
        return false;
    }
    let r = s.get_char(0) == 'd' && s.get_char(1) == 'e' && s.get_char(2) == 'f' && s.get_char(3) == 'a' && s.get_char(4) == 'u'
        && s.get_char(5) == 'l' && s.get_char(6) == 't';
    proof {
        if r {
            assert(s@ =~= default_name());
        }
    }
    r
}

/// The name a demand asks for: `default` for `None`.
pub open spec fn demanded_name(name: Option<&String>) -> Seq<char> {
    match name {
        Some(s) => s@,
        None => default_name(),
    }
}

/// Whether export `export` is named `name`.
pub fn export_named(export: &ModuleExport, name: Option<&String>) -> (r: bool)
    ensures
        r == (exported_name(*export) == Some(demanded_name(name))),
{
    let exported = match export {
        ModuleExport::Local { name, .. } => name,
        ModuleExport::Indirect { name, .. } => name,
        ModuleExport::Namespace { name, .. } => name,
        _ => return false,
    };
    match name {
        Some(s) => *exported == *s,
        None => is_default_name(exported),
    }
}

/// Adds the edges from `source` to what asking module `m` for the export
/// `name`, on behalf of origin `o`, makes hold.
fn add_name_consequence(
    lists: &mut Vec<Vec<usize>>,
    layout: &ReachLayout,
    program: &ProgramIr,
    source: usize,
    m: usize,
    name: Option<&String>,
    o: usize,
)
    requires
        building(old(lists)@, *layout, *program),
        reachability_ready(*program),
        source < fact_count(*program),
        m < program.modules@.len(),
        o < origin_total(*program),
    ensures
        building(final(lists)@, *layout, *program),
        egrows(old(lists)@, final(lists)@, |s: int, t: int| s == source && name_consequence(*program, m as int, demanded_name(name), o as int, t)),
{
    let ghost p = *program;
    let ghost l0 = lists@;
    let ghost wanted = demanded_name(name);
    let module = &program.modules[m];
    proof {
        assert(p.modules@[m as int] == *module);
    }
    let mut k: usize = 0;
    while k < module.exports.len()
        invariant
            *module == p.modules@[m as int],
            p == *program,
            lists@ == l0,
            l0 == old(lists)@,
            building(l0, *layout, p),
            reachability_ready(p),
            m < p.modules@.len(),
            source < fact_count(p),
            o < origin_total(p),
            k <= module.exports@.len(),
            forall|k2: int| #![trigger module.exports@[k2]] 0 <= k2 < k ==> exported_name(module.exports@[k2]) != Some(wanted),
            wanted == demanded_name(name),
        decreases module.exports@.len() - k,
    {
        if export_named(&module.exports[k], name) {
            proof {
                assert(first_named_export(*module, wanted, k as int));
                assert(has_named_export(*module, wanted));
            }
            add_export_consequence(lists, layout, program, source, m, k);
            proof {
                let goal = |s: int, t: int| s == source && name_consequence(p, m as int, wanted, o as int, t);
                let here = |s: int, t: int| s == source && export_consequence(p, m as int, k as int, t);
                assert forall|s: int, t: int| #[trigger] goal(s, t) <==> here(s, t) by {
                    if goal(s, t) {
                        let k2 = choose|k2: int| #![trigger module.exports@[k2]] first_named_export(*module, wanted, k2) && export_consequence(p, m as int, k2, t);
                        assert(k2 == k);
                    }
                    if here(s, t) {
                        assert(first_named_export(*module, wanted, k as int) && export_consequence(p, m as int, k as int, t));
                        let _ = module.exports@[k as int];
                    }
                }
                lemma_egrows_refl(lists@);
                lemma_echain(l0, lists@, lists@, here, no_edge(), goal);
            }
            return;
        }
        k = k + 1;
    }
    proof {
        assert(!has_named_export(*module, wanted));
        lemma_egrows_refl(l0);
    }
    let is_default = match name {
        Some(s) => is_default_name(s),
        None => true,
    };
    if is_default {
        proof {
            let goal = |s: int, t: int| s == source && name_consequence(p, m as int, wanted, o as int, t);
            assert forall|s: int, t: int| #[trigger] goal(s, t) <==> no_edge()(s, t) by {}
            lemma_echain(l0, l0, lists@, no_edge(), no_edge(), goal);
        }
        return;
    }
    let mut k: usize = 0;
    while k < module.exports.len()
        invariant
            building(lists@, *layout, p),
            reachability_ready(p),
            p == *program,
            *module == p.modules@[m as int],
            m < p.modules@.len(),
            o < origin_total(p),
            source < fact_count(p),
            wanted == demanded_name(name),
            wanted != default_name(),
            !has_named_export(*module, wanted),
            l0.len() == lists@.len(),
            k <= module.exports@.len(),
            egrows(l0, lists@, |s: int, t: int| s == source && exists|k2: int|
                #![trigger module.exports@[k2]]
                0 <= k2 < k && module.exports@[k2] is Star && (t == export_node(p, m as int, k2) || (reexport_target(p, m as int, k2) matches Some(x)
                    && t == demand_node(p, x, o as int)))),
        decreases module.exports@.len() - k,
    {
        let ghost l1 = lists@;
        let ghost before = |s: int, t: int| s == source && exists|k2: int|
            #![trigger module.exports@[k2]]
            0 <= k2 < k && module.exports@[k2] is Star && (t == export_node(p, m as int, k2) || (reexport_target(p, m as int, k2) matches Some(x)
                && t == demand_node(p, x, o as int)));
        let ghost after = |s: int, t: int| s == source && exists|k2: int|
            #![trigger module.exports@[k2]]
            0 <= k2 < k + 1 && module.exports@[k2] is Star && (t == export_node(p, m as int, k2) || (reexport_target(p, m as int, k2) matches Some(x)
                && t == demand_node(p, x, o as int)));
        let star = match &module.exports[k] {
            ModuleExport::Star { .. } => true,
            _ => false,
        };
        if star {
            let live = layout.export_node(m, k, Ghost(p));
            add_edge(lists, source, live);
            let ghost l2 = lists@;
            match reexport_target_of(program, m, k) {
                Some(x) => {
                    let forward = layout.demand_node(x, o, Ghost(p));
                    add_edge(lists, source, forward);
                    proof {
                        lemma_echain(l1, l2, lists@, |a: int, c: int| a == source && c == live, |a: int, c: int| a == source && c == forward,
                            |a: int, c: int| a == source && (c == live || c == forward));
                        assert forall|s: int, t: int| #[trigger] after(s, t) <==> (before(s, t) || (s == source && (t == live || t == forward))) by {
                            if after(s, t) && !before(s, t) {
                                let k2 = choose|k2: int|
                                    #![trigger module.exports@[k2]]
                                    0 <= k2 < k + 1 && module.exports@[k2] is Star && (t == export_node(p, m as int, k2) || (reexport_target(p, m as int, k2) matches Some(x)
                                        && t == demand_node(p, x, o as int)));
                                assert(k2 == k);
                            }
                        }
                        lemma_echain(l0, l1, lists@, before, |a: int, c: int| a == source && (c == live || c == forward), after);
                    }
                },
                None => {
                    proof {
                        assert forall|s: int, t: int| #[trigger] after(s, t) <==> (before(s, t) || (s == source && t == live)) by {
                            if after(s, t) && !before(s, t) {
                                let k2 = choose|k2: int|
                                    #![trigger module.exports@[k2]]
                                    0 <= k2 < k + 1 && module.exports@[k2] is Star && (t == export_node(p, m as int, k2) || (reexport_target(p, m as int, k2) matches Some(x)
                                        && t == demand_node(p, x, o as int)));
                                assert(k2 == k);
                            }
                        }
                        lemma_echain(l0, l1, lists@, before, |a: int, c: int| a == source && c == live, after);
                    }
                },
            }
        } else {
            proof {
                assert forall|s: int, t: int| #[trigger] after(s, t) <==> before(s, t) by {
                    if after(s, t) && !before(s, t) {
                        let k2 = choose|k2: int|
                            #![trigger module.exports@[k2]]
                            0 <= k2 < k + 1 && module.exports@[k2] is Star && (t == export_node(p, m as int, k2) || (reexport_target(p, m as int, k2) matches Some(x)
                                && t == demand_node(p, x, o as int)));
                        assert(k2 == k);
                    }
                }
            }
        }
        k = k + 1;
    }
    proof {
        let stars = |s: int, t: int| s == source && exists|k2: int|
            #![trigger module.exports@[k2]]
            0 <= k2 < k && module.exports@[k2] is Star && (t == export_node(p, m as int, k2) || (reexport_target(p, m as int, k2) matches Some(x)
                && t == demand_node(p, x, o as int)));
        let goal = |s: int, t: int| s == source && name_consequence(p, m as int, wanted, o as int, t);
        assert forall|s: int, t: int| #[trigger] goal(s, t) <==> stars(s, t) by {}
        lemma_egrows_refl(lists@);
        lemma_echain(l0, lists@, lists@, stars, no_edge(), goal);
    }
}


proof fn lemma_import_origin_injective(program: ProgramIr, m1: int, i1: int, m2: int, i2: int)
    requires
        0 <= m1 < program.modules@.len(),
        0 <= i1 < program.modules@[m1].imports@.len(),
        0 <= m2 < program.modules@.len(),
        0 <= i2 < program.modules@[m2].imports@.len(),
        import_origin(program, m1, i1) == import_origin(program, m2, i2),
    ensures
        m1 == m2 && i1 == i2,
{
    let modules = program.modules@;
    if m1 < m2 {
        lemma_imports_before_mono(modules, m1 + 1, m2);
        lemma_imports_before_mono(modules, 0, m1);
    } else if m2 < m1 {
        lemma_imports_before_mono(modules, m2 + 1, m1);
        lemma_imports_before_mono(modules, 0, m2);
    }
}

proof fn lemma_export_origin_injective(program: ProgramIr, m1: int, k1: int, m2: int, k2: int)
    requires
        0 <= m1 < program.modules@.len(),
        0 <= k1 < program.modules@[m1].exports@.len(),
        0 <= m2 < program.modules@.len(),
        0 <= k2 < program.modules@[m2].exports@.len(),
        export_origin(program, m1, k1) == export_origin(program, m2, k2),
    ensures
        m1 == m2 && k1 == k2,
{
    let modules = program.modules@;
    if m1 < m2 {
        lemma_exports_before_mono(modules, m1 + 1, m2);
        lemma_exports_before_mono(modules, 0, m1);
    } else if m2 < m1 {
        lemma_exports_before_mono(modules, m2 + 1, m1);
        lemma_exports_before_mono(modules, 0, m2);
    }
}

proof fn lemma_origins_disjoint(program: ProgramIr, m1: int, i1: int, m2: int, k2: int)
    requires
        0 <= m1 < program.modules@.len(),
        0 <= i1 < program.modules@[m1].imports@.len(),
        0 <= m2 < program.modules@.len(),
        0 <= k2 < program.modules@[m2].exports@.len(),
    ensures
        import_origin(program, m1, i1) < export_origin(program, m2, k2),
{
    let modules = program.modules@;
    lemma_imports_before_mono(modules, m1 + 1, modules.len() as int);
    lemma_exports_before_mono(modules, 0, m2);
}

/// The names origin `o` of import `i` of module `m` asks for.
proof fn lemma_import_origin_name(program: ProgramIr, m: int, i: int)
    requires
        0 <= m < program.modules@.len(),
        0 <= i < program.modules@[m].imports@.len(),
    ensures
        forall|name: Seq<char>|
            #[trigger] origin_name(program, import_origin(program, m, i), name) <==> import_name(program.modules@[m].imports@[i]) == Some(name),
{
    let o = import_origin(program, m, i);
    assert forall|name: Seq<char>|
        #[trigger] origin_name(program, o, name) <==> import_name(program.modules@[m].imports@[i]) == Some(name) by {
        let modules = program.modules@;
        if exists|m2: int, i2: int|
            #![trigger import_origin(program, m2, i2)]
            0 <= m2 < modules.len() && 0 <= i2 < modules[m2].imports@.len() && o == import_origin(program, m2, i2) && import_name(
                modules[m2].imports@[i2],
            ) == Some(name) {
            let (m2, i2) = choose|m2: int, i2: int|
                #![trigger import_origin(program, m2, i2)]
                0 <= m2 < modules.len() && 0 <= i2 < modules[m2].imports@.len() && o == import_origin(program, m2, i2) && import_name(
                    modules[m2].imports@[i2],
                ) == Some(name);
            lemma_import_origin_injective(program, m, i, m2, i2);
        }
        if exists|m2: int, k2: int|
            #![trigger export_origin(program, m2, k2)]
            0 <= m2 < modules.len() && 0 <= k2 < modules[m2].exports@.len() && o == export_origin(program, m2, k2) && (
            modules[m2].exports@[k2] matches ModuleExport::Indirect { imported, .. } && imported@ == name) {
            let (m2, k2) = choose|m2: int, k2: int|
                #![trigger export_origin(program, m2, k2)]
                0 <= m2 < modules.len() && 0 <= k2 < modules[m2].exports@.len() && o == export_origin(program, m2, k2) && (
                modules[m2].exports@[k2] matches ModuleExport::Indirect { imported, .. } && imported@ == name);
            lemma_origins_disjoint(program, m, i, m2, k2);
        }
    }
}

/// The names origin `o` of export `k` of module `m` asks for.
proof fn lemma_export_origin_name(program: ProgramIr, m: int, k: int)
    requires
        0 <= m < program.modules@.len(),
        0 <= k < program.modules@[m].exports@.len(),
    ensures
        forall|name: Seq<char>|
            #[trigger] origin_name(program, export_origin(program, m, k), name) <==> (program.modules@[m].exports@[k] matches ModuleExport::Indirect {
                imported,
                ..
            } && imported@ == name),
{
    let o = export_origin(program, m, k);
    assert forall|name: Seq<char>|
        #[trigger] origin_name(program, o, name) <==> (program.modules@[m].exports@[k] matches ModuleExport::Indirect { imported, .. } && imported@
            == name) by {
        let modules = program.modules@;
        if exists|m2: int, i2: int|
            #![trigger import_origin(program, m2, i2)]
            0 <= m2 < modules.len() && 0 <= i2 < modules[m2].imports@.len() && o == import_origin(program, m2, i2) && import_name(
                modules[m2].imports@[i2],
            ) == Some(name) {
            let (m2, i2) = choose|m2: int, i2: int|
                #![trigger import_origin(program, m2, i2)]
                0 <= m2 < modules.len() && 0 <= i2 < modules[m2].imports@.len() && o == import_origin(program, m2, i2) && import_name(
                    modules[m2].imports@[i2],
                ) == Some(name);
            lemma_origins_disjoint(program, m2, i2, m, k);
        }
        if exists|m2: int, k2: int|
            #![trigger export_origin(program, m2, k2)]
            0 <= m2 < modules.len() && 0 <= k2 < modules[m2].exports@.len() && o == export_origin(program, m2, k2) && (
            modules[m2].exports@[k2] matches ModuleExport::Indirect { imported, .. } && imported@ == name) {
            let (m2, k2) = choose|m2: int, k2: int|
                #![trigger export_origin(program, m2, k2)]
                0 <= m2 < modules.len() && 0 <= k2 < modules[m2].exports@.len() && o == export_origin(program, m2, k2) && (
                modules[m2].exports@[k2] matches ModuleExport::Indirect { imported, .. } && imported@ == name);
            lemma_export_origin_injective(program, m, k, m2, k2);
        }
    }
}

/// Adds, for every module, the edges from asking it for `name` on behalf of origin `o`.
fn add_demands_for(lists: &mut Vec<Vec<usize>>, layout: &ReachLayout, program: &ProgramIr, o: usize, name: Option<&String>)
    requires
        building(old(lists)@, *layout, *program),
        reachability_ready(*program),
        o < origin_total(*program),
    ensures
        building(final(lists)@, *layout, *program),
        egrows(old(lists)@, final(lists)@, |s: int, t: int| exists|m: int|
            #![trigger demand_node(*program, m, o as int)]
            0 <= m < program.modules@.len() && s == demand_node(*program, m, o as int) && name_consequence(*program, m, demanded_name(name), o as int, t)),
{
    let ghost p = *program;
    let ghost l0 = lists@;
    proof {
        lemma_egrows_refl(l0);
    }
    let mut m: usize = 0;
    while m < program.modules.len()
        invariant
            building(lists@, *layout, p),
            reachability_ready(p),
            p == *program,
            o < origin_total(p),
            l0.len() == lists@.len(),
            m <= p.modules@.len(),
            egrows(l0, lists@, |s: int, t: int| exists|m2: int|
                #![trigger demand_node(p, m2, o as int)]
                0 <= m2 < m && s == demand_node(p, m2, o as int) && name_consequence(p, m2, demanded_name(name), o as int, t)),
        decreases p.modules@.len() - m,
    {
        let ghost l1 = lists@;
        let source = layout.demand_node(m, o, Ghost(p));
        add_name_consequence(lists, layout, program, source, m, name, o);
        proof {
            let before = |s: int, t: int| exists|m2: int|
                #![trigger demand_node(p, m2, o as int)]
                0 <= m2 < m && s == demand_node(p, m2, o as int) && name_consequence(p, m2, demanded_name(name), o as int, t);
            let after = |s: int, t: int| exists|m2: int|
                #![trigger demand_node(p, m2, o as int)]
                0 <= m2 < m + 1 && s == demand_node(p, m2, o as int) && name_consequence(p, m2, demanded_name(name), o as int, t);
            let here = |s: int, t: int| s == source && name_consequence(p, m as int, demanded_name(name), o as int, t);
            assert forall|s: int, t: int| #[trigger] after(s, t) <==> (before(s, t) || here(s, t)) by {
                if after(s, t) && !before(s, t) {
                    let m2 = choose|m2: int|
                        #![trigger demand_node(p, m2, o as int)]
                        0 <= m2 < m + 1 && s == demand_node(p, m2, o as int) && name_consequence(p, m2, demanded_name(name), o as int, t);
                    assert(m2 == m);
                }
                if here(s, t) {
                    assert(s == demand_node(p, m as int, o as int));
                }
            }
            lemma_echain(l0, l1, lists@, before, here, after);
        }
        m = m + 1;
    }
}


/// The edges of the origins below `bound`.
pub open spec fn origins_upto(program: ProgramIr, bound: int) -> spec_fn(int, int) -> bool {
    |s: int, t: int| exists|o: int| #![trigger origin_edge(program, o, s, t)] 0 <= o < bound && origin_edge(program, o, s, t)
}

/// Extends the origins below `o` by origin `o`, which asks for `name` or for nothing.
proof fn lemma_origin_step(
    program: ProgramIr,
    o: int,
    name: Option<Seq<char>>,
    a: Seq<Vec<usize>>,
    b: Seq<Vec<usize>>,
    c: Seq<Vec<usize>>,
)
    requires
        0 <= o,
        forall|n: Seq<char>| #[trigger] origin_name(program, o, n) <==> name == Some(n),
        egrows(a, b, origins_upto(program, o)),
        match name {
            Some(n) => egrows(b, c, |s: int, t: int| exists|m: int|
                #![trigger demand_node(program, m, o)]
                0 <= m < program.modules@.len() && s == demand_node(program, m, o) && name_consequence(program, m, n, o, t)),
            None => b == c && lists_in_range(b),
        },
    ensures
        egrows(a, c, origins_upto(program, o + 1)),
{
    match name {
        Some(n) => {
            let here = |s: int, t: int| exists|m: int|
                #![trigger demand_node(program, m, o)]
                0 <= m < program.modules@.len() && s == demand_node(program, m, o) && name_consequence(program, m, n, o, t);
            assert forall|s: int, t: int| #[trigger] origin_edge(program, o, s, t) <==> here(s, t) by {
                if origin_edge(program, o, s, t) {
                    let (m, n2) = choose|m: int, n2: Seq<char>|
                        #![trigger origin_name(program, o, n2), demand_node(program, m, o)]
                        0 <= m < program.modules@.len() && origin_name(program, o, n2) && s == demand_node(program, m, o) && name_consequence(program, m, n2, o, t);
                    assert(n2 == n);
                }
                if here(s, t) {
                    let m = choose|m: int|
                        #![trigger demand_node(program, m, o)]
                        0 <= m < program.modules@.len() && s == demand_node(program, m, o) && name_consequence(program, m, n, o, t);
                    assert(origin_name(program, o, n));
                }
            }
            assert forall|s: int, t: int| #[trigger] origins_upto(program, o + 1)(s, t) <==> (origins_upto(program, o)(s, t) || here(s, t)) by {
                if origins_upto(program, o + 1)(s, t) && !origins_upto(program, o)(s, t) {
                    let o2 = choose|o2: int| #![trigger origin_edge(program, o2, s, t)] 0 <= o2 < o + 1 && origin_edge(program, o2, s, t);
                    assert(o2 == o);
                }
                if here(s, t) {
                    assert(origin_edge(program, o, s, t));
                }
                if origins_upto(program, o)(s, t) {
                    let o2 = choose|o2: int| #![trigger origin_edge(program, o2, s, t)] 0 <= o2 < o && origin_edge(program, o2, s, t);
                    assert(0 <= o2 < o + 1);
                }
            }
            lemma_echain(a, b, c, origins_upto(program, o), here, origins_upto(program, o + 1));
        },
        None => {
            assert forall|s: int, t: int| #[trigger] origins_upto(program, o + 1)(s, t) <==> origins_upto(program, o)(s, t) by {
                if origins_upto(program, o + 1)(s, t) && !origins_upto(program, o)(s, t) {
                    let o2 = choose|o2: int| #![trigger origin_edge(program, o2, s, t)] 0 <= o2 < o + 1 && origin_edge(program, o2, s, t);
                    assert(o2 == o);
                    let (m, n2) = choose|m: int, n2: Seq<char>|
                        #![trigger origin_name(program, o, n2), demand_node(program, m, o)]
                        0 <= m < program.modules@.len() && origin_name(program, o, n2) && s == demand_node(program, m, o) && name_consequence(program, m, n2, o, t);
                }
            }
            lemma_egrows_refl(b);
            lemma_echain(a, b, c, origins_upto(program, o), no_edge(), origins_upto(program, o + 1));
        },
    }
}

/// Adds the edges of every origin.
fn add_origin_edges(lists: &mut Vec<Vec<usize>>, layout: &ReachLayout, program: &ProgramIr)
    requires
        building(old(lists)@, *layout, *program),
        reachability_ready(*program),
    ensures
        building(final(lists)@, *layout, *program),
        egrows(old(lists)@, final(lists)@, origins_upto(*program, origin_total(*program))),
{
    let ghost p = *program;
    let ghost l0 = lists@;
    let ghost n = p.modules@.len() as int;
    proof {
        lemma_egrows_refl(l0);
        assert forall|s: int, t: int| #[trigger] origins_upto(p, 0)(s, t) <==> no_edge()(s, t) by {}
        lemma_echain(l0, l0, l0, no_edge(), no_edge(), origins_upto(p, 0));
    }
    let mut m: usize = 0;
    while m < program.modules.len()
        invariant
            building(lists@, *layout, p),
            reachability_ready(p),
            p == *program,
            n == p.modules@.len(),
            l0.len() == lists@.len(),
            m <= n,
            egrows(l0, lists@, origins_upto(p, imports_before(p.modules@, m as int))),
        decreases n - m,
    {
        let module = &program.modules[m];
        proof {
            assert(p.modules@[m as int] == *module);
            lemma_imports_before_mono(p.modules@, m as int + 1, n);
        }
        let mut i: usize = 0;
        while i < module.imports.len()
            invariant
                building(lists@, *layout, p),
                reachability_ready(p),
                p == *program,
                n == p.modules@.len(),
                m < n,
                *module == p.modules@[m as int],
                l0.len() == lists@.len(),
                i <= module.imports@.len(),
                imports_before(p.modules@, m as int + 1) <= import_total(p),
                egrows(l0, lists@, origins_upto(p, imports_before(p.modules@, m as int) + i)),
            decreases module.imports@.len() - i,
        {
            let ghost l1 = lists@;
            let o = layout.import_origin(m, i, Ghost(p));
            let import = &module.imports[i];
            proof {
                assert(module.imports@[i as int] == *import);
                lemma_import_origin_name(p, m as int, i as int);
            }
            let name: Option<Option<&String>> = match import {
                ModuleImport::Default { .. } => Some(None),
                ModuleImport::Named { imported, .. } => Some(Some(imported)),
                _ => None,
            };
            match name {
                Some(wanted) => {
                    add_demands_for(lists, layout, program, o, wanted);
                    proof {
                        lemma_origin_step(p, o as int, Some(demanded_name(wanted)), l0, l1, lists@);
                    }
                },
                None => {
                    proof {
                        lemma_origin_step(p, o as int, None, l0, l1, lists@);
                    }
                },
            }
            i = i + 1;
        }
        m = m + 1;
    }
    let mut m: usize = 0;
    proof {
        lemma_exports_before_mono(p.modules@, 0, n);
    }
    while m < program.modules.len()
        invariant
            building(lists@, *layout, p),
            reachability_ready(p),
            p == *program,
            n == p.modules@.len(),
            l0.len() == lists@.len(),
            m <= n,
            egrows(l0, lists@, origins_upto(p, import_total(p) + exports_before(p.modules@, m as int))),
        decreases n - m,
    {
        let module = &program.modules[m];
        proof {
            assert(p.modules@[m as int] == *module);
            lemma_exports_before_mono(p.modules@, m as int + 1, n);
        }
        let mut k: usize = 0;
        while k < module.exports.len()
            invariant
                building(lists@, *layout, p),
                reachability_ready(p),
                p == *program,
                n == p.modules@.len(),
                m < n,
                *module == p.modules@[m as int],
                l0.len() == lists@.len(),
                k <= module.exports@.len(),
                egrows(l0, lists@, origins_upto(p, import_total(p) + exports_before(p.modules@, m as int) + k)),
            decreases module.exports@.len() - k,
        {
            let ghost l1 = lists@;
            let o = layout.export_origin(m, k, Ghost(p));
            let export = &module.exports[k];
            proof {
                assert(module.exports@[k as int] == *export);
                lemma_export_origin_name(p, m as int, k as int);
                lemma_exports_before_mono(p.modules@, 0, m as int);
            }
            match export {
                ModuleExport::Indirect { imported, .. } => {
                    add_demands_for(lists, layout, program, o, Some(imported));
                    proof {
                        lemma_origin_step(p, o as int, Some(imported@), l0, l1, lists@);
                    }
                },
                _ => {
                    proof {
                        lemma_origin_step(p, o as int, None, l0, l1, lists@);
                    }
                },
            }
            k = k + 1;
        }
        m = m + 1;
    }
}


/// The graph of facts of `program` under `linkage`.
fn fact_graph(program: &ProgramIr, linkage: &ProgramLinkage, layout: &ReachLayout) -> (lists: Vec<Vec<usize>>)
    requires
        reachability_ready(*program),
        linkage_ready(*program, *linkage),
        layout.describes(*program),
    ensures
        building(lists@, *layout, *program),
        forall|s: int, t: int| #[trigger] list_step(lists@)(s, t) <==> reach_edges(*program, *linkage)(s, t),
{
    let ghost p = *program;
    let ghost l = *linkage;
    let mut lists = empty_lists(layout.count(Ghost(p)));
    let ghost l0 = lists@;
    add_dependency_edges(&mut lists, layout, program);
    let ghost l1 = lists@;
    proof {
        lemma_egrows_refl(l1);
    }
    let mut m: usize = 0;
    while m < program.modules.len()
        invariant
            building(lists@, *layout, p),
            reachability_ready(p),
            linkage_ready(p, l),
            p == *program,
            l == *linkage,
            l1.len() == lists@.len(),
            m <= p.modules@.len(),
            egrows(l1, lists@, |s: int, t: int| exists|m2: int| #![trigger module_edge(p, l, m2, s, t)] 0 <= m2 < m && module_edge(p, l, m2, s, t)),
        decreases p.modules@.len() - m,
    {
        let ghost l2 = lists@;
        add_module_edges(&mut lists, layout, program, linkage, m);
        proof {
            let before = |s: int, t: int| exists|m2: int| #![trigger module_edge(p, l, m2, s, t)] 0 <= m2 < m && module_edge(p, l, m2, s, t);
            let after = |s: int, t: int| exists|m2: int| #![trigger module_edge(p, l, m2, s, t)] 0 <= m2 < m + 1 && module_edge(p, l, m2, s, t);
            let here = |s: int, t: int| module_edge(p, l, m as int, s, t);
            assert forall|s: int, t: int| #[trigger] after(s, t) <==> (before(s, t) || here(s, t)) by {
                if after(s, t) && !before(s, t) {
                    let m2 = choose|m2: int| #![trigger module_edge(p, l, m2, s, t)] 0 <= m2 < m + 1 && module_edge(p, l, m2, s, t);
                    assert(m2 == m);
                }
            }
            lemma_echain(l1, l2, lists@, before, here, after);
        }
        m = m + 1;
    }
    let ghost l3 = lists@;
    add_origin_edges(&mut lists, layout, program);
    proof {
        let modules = |s: int, t: int| exists|m2: int| #![trigger module_edge(p, l, m2, s, t)] 0 <= m2 < m && module_edge(p, l, m2, s, t);
        lemma_echain(l0, l1, l3, |s: int, t: int| dependency_edge(p, s, t), modules, |s: int, t: int| dependency_edge(p, s, t) || modules(s, t));
        lemma_echain(l0, l3, lists@, |s: int, t: int| dependency_edge(p, s, t) || modules(s, t), origins_upto(p, origin_total(p)), reach_edges(p, l));
    }
    lists
}

/// The facts that hold from the start.
#[verifier::spinoff_prover]
fn fact_seeds(program: &ProgramIr, layout: &ReachLayout) -> (seeds: Vec<usize>)
    requires
        reachability_ready(*program),
        layout.describes(*program),
    ensures
        forall|j: int| #![trigger seeds@[j]] 0 <= j < seeds@.len() ==> seeds@[j] < fact_count(*program),
        forall|x: int| #[trigger] reach_seed(*program, x) <==> (0 <= x <= usize::MAX && seeds@.contains(x as usize)),
{
    let ghost p = *program;
    let ghost modules = p.modules@;
    let mut seeds: Vec<usize> = Vec::new();
    let mut i: usize = 0;
    while i < program.entry_modules.len()
        invariant
            reachability_ready(p),
            layout.describes(p),
            p == *program,
            modules == p.modules@,
            i <= p.entry_modules@.len(),
            forall|j: int| #![trigger seeds@[j]] 0 <= j < seeds@.len() ==> seeds@[j] < fact_count(p),
            forall|x: int|
                #![trigger seeds@.contains(x as usize)]
                0 <= x <= usize::MAX ==> (seeds@.contains(x as usize) <==> exists|i2: int|
                    #![trigger p.entry_modules@[i2]]
                    0 <= i2 < i && {
                        let e = p.entry_modules@[i2] as int;
                        ||| x == eval_node(p, e)
                        ||| x == ns_demand_node(p, e)
                        ||| exists|k: int|
                            #![trigger modules[e].exports@[k]]
                            0 <= k < modules[e].exports@.len() && ((export_binding(modules[e].exports@[k]) matches Some(b) && x == use_node(
                                p,
                                e,
                                b as int,
                            )) || (reexport_target(p, e, k) matches Some(y) && x == ns_node(p, y)))
                    }),
        decreases p.entry_modules@.len() - i,
    {
        let e = program.entry_modules[i];
        let ghost s0 = seeds@;
        proof {
            assert(p.entry_modules@[i as int] == e);
            assert(e < modules.len());
            assert(modules[e as int].wf());
        }
        seeds.push(layout.eval_node(e, Ghost(p)));
        seeds.push(layout.ns_demand_node(e, Ghost(p)));
        let ghost s1 = seeds@;
        let exports = &program.modules[e].exports;
        let mut k: usize = 0;
        while k < exports.len()
            invariant
                reachability_ready(p),
                layout.describes(p),
                p == *program,
                modules == p.modules@,
                e < modules.len(),
                *exports == modules[e as int].exports,
                modules[e as int].wf(),
                s1 == s0.push(eval_node(p, e as int) as usize).push(ns_demand_node(p, e as int) as usize),
                seeds@.len() >= s1.len(),
                seeds@.subrange(0, s1.len() as int) == s1,
                k <= exports@.len(),
                forall|j: int| #![trigger seeds@[j]] 0 <= j < seeds@.len() ==> seeds@[j] < fact_count(p),
                forall|j: int|
                    #![trigger seeds@[j]]
                    s1.len() <= j < seeds@.len() ==> exists|k2: int|
                        #![trigger exports@[k2]]
                        0 <= k2 < k && ((export_binding(exports@[k2]) matches Some(b) && seeds@[j] as int == use_node(p, e as int, b as int))
                            || (reexport_target(p, e as int, k2) matches Some(y) && seeds@[j] as int == ns_node(p, y))),
                forall|k2: int|
                    #![trigger exports@[k2]]
                    0 <= k2 < k ==> (export_binding(exports@[k2]) matches Some(b) ==> seeds@.contains(use_node(p, e as int, b as int) as usize)) && (
                    reexport_target(p, e as int, k2) matches Some(y) ==> seeds@.contains(ns_node(p, y) as usize)),
            decreases exports@.len() - k,
        {
            let ghost s2 = seeds@;
            let export = &exports[k];
            if let ModuleExport::Local { binding, .. } = export {
                proof {
                    assert(export_binding(exports@[k as int]) == Some(*binding));
                }
                seeds.push(layout.use_node(e, *binding, Ghost(p)));
                proof {
                    assert(seeds@[s2.len() as int] as int == use_node(p, e as int, *binding as int));
                }
            } else {
                match reexport_target_of(program, e, k) {
                    Some(y) => {
                        seeds.push(layout.ns_node(y, Ghost(p)));
                        proof {
                            assert(seeds@[s2.len() as int] as int == ns_node(p, y as int));
                        }
                    },
                    None => {},
                }
            }
            proof {
                assert forall|j: int| 0 <= j < s2.len() implies seeds@[j] == s2[j] by {}
                assert(seeds@.subrange(0, s1.len() as int) =~= s1);
                assert forall|k2: int|
                    #![trigger exports@[k2]]
                    0 <= k2 < k + 1 implies (export_binding(exports@[k2]) matches Some(b) ==> seeds@.contains(use_node(p, e as int, b as int) as usize)) && (
                    reexport_target(p, e as int, k2) matches Some(y) ==> seeds@.contains(ns_node(p, y) as usize)) by {
                    if k2 < k {
                        if let Some(b) = export_binding(exports@[k2]) {
                            let j = choose|j: int| 0 <= j < s2.len() && s2[j] == use_node(p, e as int, b as int) as usize;
                            assert(seeds@[j] == s2[j]);
                        }
                        if let Some(y) = reexport_target(p, e as int, k2) {
                            let j = choose|j: int| 0 <= j < s2.len() && s2[j] == ns_node(p, y) as usize;
                            assert(seeds@[j] == s2[j]);
                        }
                    } else {
                        if export_binding(exports@[k2]) is Some {
                            assert(seeds@[s2.len() as int] == use_node(p, e as int, export_binding(exports@[k2])->0 as int) as usize);
                        }
                        if reexport_target(p, e as int, k2) is Some && export_binding(exports@[k2]) is None {
                            assert(seeds@[s2.len() as int] == ns_node(p, reexport_target(p, e as int, k2)->0) as usize);
                        }
                    }
                }
            }
            k = k + 1;
            proof {
                assert forall|j: int|
                    #![trigger seeds@[j]]
                    s1.len() <= j < seeds@.len() implies exists|k2: int|
                        #![trigger exports@[k2]]
                        0 <= k2 < k && ((export_binding(exports@[k2]) matches Some(b) && seeds@[j] as int == use_node(p, e as int, b as int))
                            || (reexport_target(p, e as int, k2) matches Some(y) && seeds@[j] as int == ns_node(p, y))) by {
                    if j < s2.len() {
                        assert(seeds@[j] == s2[j]);
                        let k2 = choose|k2: int|
                            #![trigger exports@[k2]]
                            0 <= k2 < k - 1 && ((export_binding(exports@[k2]) matches Some(b) && s2[j] as int == use_node(p, e as int, b as int))
                                || (reexport_target(p, e as int, k2) matches Some(y) && s2[j] as int == ns_node(p, y)));
                        let _ = exports@[k2];
                    } else {
                        let _ = exports@[k - 1];
                    }
                }
            }
        }
        proof {
            assert forall|x: int|
                #![trigger seeds@.contains(x as usize)]
                0 <= x <= usize::MAX implies (seeds@.contains(x as usize) <==> exists|i2: int|
                    #![trigger p.entry_modules@[i2]]
                    0 <= i2 < i + 1 && {
                        let e2 = p.entry_modules@[i2] as int;
                        ||| x == eval_node(p, e2)
                        ||| x == ns_demand_node(p, e2)
                        ||| exists|k: int|
                            #![trigger modules[e2].exports@[k]]
                            0 <= k < modules[e2].exports@.len() && ((export_binding(modules[e2].exports@[k]) matches Some(b) && x == use_node(
                                p,
                                e2,
                                b as int,
                            )) || (reexport_target(p, e2, k) matches Some(y) && x == ns_node(p, y)))
                    }) by {
                if seeds@.contains(x as usize) {
                    let j = choose|j: int| 0 <= j < seeds@.len() && seeds@[j] == x as usize;
                    if j < s0.len() {
                        assert(seeds@[j] == s1[j]);
                        assert(s0.contains(x as usize));
                    } else if j == s0.len() {
                        assert(seeds@[j] == s1[j]);
                        assert(x == eval_node(p, e as int));
                    } else if j == s0.len() + 1 {
                        assert(seeds@[j] == s1[j]);
                        assert(x == ns_demand_node(p, e as int));
                    } else {
                        let k2 = choose|k2: int|
                            #![trigger exports@[k2]]
                            0 <= k2 < k && ((export_binding(exports@[k2]) matches Some(b) && seeds@[j] as int == use_node(p, e as int, b as int))
                                || (reexport_target(p, e as int, k2) matches Some(y) && seeds@[j] as int == ns_node(p, y)));
                        let _ = modules[e as int].exports@[k2];
                    }
                }
                if exists|i2: int|
                    #![trigger p.entry_modules@[i2]]
                    0 <= i2 < i && {
                        let e2 = p.entry_modules@[i2] as int;
                        ||| x == eval_node(p, e2)
                        ||| x == ns_demand_node(p, e2)
                        ||| exists|k: int|
                            #![trigger modules[e2].exports@[k]]
                            0 <= k < modules[e2].exports@.len() && ((export_binding(modules[e2].exports@[k]) matches Some(b) && x == use_node(
                                p,
                                e2,
                                b as int,
                            )) || (reexport_target(p, e2, k) matches Some(y) && x == ns_node(p, y)))
                    } {
                    assert(s0.contains(x as usize));
                    let j = choose|j: int| 0 <= j < s0.len() && s0[j] == x as usize;
                    assert(seeds@[j] == s1[j]);
                }
                if x == eval_node(p, e as int) {
                    assert(seeds@[s0.len() as int] == s1[s0.len() as int]);
                }
                if x == ns_demand_node(p, e as int) {
                    assert(seeds@[s0.len() as int + 1] == s1[s0.len() as int + 1]);
                }
            }
        }
        i = i + 1;
    }
    proof {
        lemma_facts_in_range(p);
        assert forall|x: int| #[trigger] reach_seed(p, x) implies 0 <= x <= usize::MAX by {
            let i2 = choose|i2: int|
                #![trigger p.entry_modules@[i2]]
                0 <= i2 < p.entry_modules@.len() && {
                    let e = p.entry_modules@[i2] as int;
                    ||| x == eval_node(p, e)
                    ||| x == ns_demand_node(p, e)
                    ||| exists|k: int|
                        #![trigger modules[e].exports@[k]]
                        0 <= k < modules[e].exports@.len() && ((export_binding(modules[e].exports@[k]) matches Some(b) && x == use_node(
                            p,
                            e,
                            b as int,
                        )) || (reexport_target(p, e, k) matches Some(y) && x == ns_node(p, y)))
                };
            let e = p.entry_modules@[i2] as int;
            assert(modules[e].wf());
            if x != eval_node(p, e) && x != ns_demand_node(p, e) {
                let k = choose|k: int|
                    #![trigger modules[e].exports@[k]]
                    0 <= k < modules[e].exports@.len() && ((export_binding(modules[e].exports@[k]) matches Some(b) && x == use_node(
                        p,
                        e,
                        b as int,
                    )) || (reexport_target(p, e, k) matches Some(y) && x == ns_node(p, y)));
                if let Some(y) = reexport_target(p, e, k) {
                    lemma_internal_in_range(p, e, ModuleRequestKind::ReExport, export_request(modules[e].exports@[k])->0);
                }
            }
        }
    }
    seeds
}


/// Every fact of the program has a node among the `fact_count` nodes.
pub proof fn lemma_facts_in_range(program: ProgramIr)
    ensures
        forall|m: int| #![trigger eval_node(program, m)] 0 <= m < module_count(program) ==> 0 <= eval_node(program, m) < fact_count(program),
        forall|m: int| #![trigger ns_node(program, m)] 0 <= m < module_count(program) ==> 0 <= ns_node(program, m) < fact_count(program),
        forall|m: int|
            #![trigger ns_demand_node(program, m)]
            0 <= m < module_count(program) ==> 0 <= ns_demand_node(program, m) < fact_count(program),
        forall|m: int, b: int|
            #![trigger use_node(program, m, b)]
            0 <= m < module_count(program) && 0 <= b < program.modules@[m].bindings@.len() ==> 0 <= use_node(program, m, b) < fact_count(
                program,
            ),
        forall|m: int, k: int|
            #![trigger export_node(program, m, k)]
            0 <= m < module_count(program) && 0 <= k < program.modules@[m].exports@.len() ==> 0 <= export_node(program, m, k)
                < fact_count(program),
        forall|m: int, o: int|
            #![trigger demand_node(program, m, o)]
            0 <= m < module_count(program) && 0 <= o < origin_total(program) ==> 0 <= demand_node(program, m, o) < fact_count(program),
{
    let n = module_count(program);
    lemma_counts_nonnegative(program);
    assert forall|m: int, b: int|
        #![trigger use_node(program, m, b)]
        0 <= m < n && 0 <= b < program.modules@[m].bindings@.len() implies 0 <= use_node(program, m, b) < fact_count(program) by {
        lemma_bindings_before_mono(program.modules@, m + 1, n);
        lemma_bindings_before_mono(program.modules@, 0, m);
    }
    assert forall|m: int, k: int|
        #![trigger export_node(program, m, k)]
        0 <= m < n && 0 <= k < program.modules@[m].exports@.len() implies 0 <= export_node(program, m, k) < fact_count(program) by {
        lemma_exports_before_mono(program.modules@, m + 1, n);
        lemma_exports_before_mono(program.modules@, 0, m);
    }
    assert forall|m: int, o: int|
        #![trigger demand_node(program, m, o)]
        0 <= m < n && 0 <= o < origin_total(program) implies 0 <= demand_node(program, m, o) < fact_count(program) by {
        let t = origin_total(program);
        assert(m * t + o < n * t) by (nonlinear_arith)
            requires
                0 <= m < n,
                0 <= o < t,
        ;
        assert(0 <= m * t) by (nonlinear_arith)
            requires
                0 <= m,
                0 <= t,
        ;
    }
}


/// Whether some entry module re-exports from a request that does not lead to one target.
fn has_unresolved_entry_export(program: &ProgramIr) -> (r: bool)
    requires
        reachability_ready(*program),
    ensures
        r == entry_export_unresolved(*program),
{
    let ghost p = *program;
    let ghost modules = p.modules@;
    let mut i: usize = 0;
    while i < program.entry_modules.len()
        invariant
            reachability_ready(p),
            p == *program,
            modules == p.modules@,
            i <= p.entry_modules@.len(),
            forall|i2: int, k: int|
                #![trigger modules[p.entry_modules@[i2] as int].exports@[k]]
                0 <= i2 < i && 0 <= k < modules[p.entry_modules@[i2] as int].exports@.len() ==> !(export_request(
                    modules[p.entry_modules@[i2] as int].exports@[k],
                ) matches Some(request) && unique_target(p, p.entry_modules@[i2] as int, ModuleRequestKind::ReExport, request.0, request.1) is None),
        decreases p.entry_modules@.len() - i,
    {
        let e = program.entry_modules[i];
        proof {
            assert(p.entry_modules@[i as int] == e);
        }
        let exports = &program.modules[e].exports;
        let mut k: usize = 0;
        while k < exports.len()
            invariant
                reachability_ready(p),
                p == *program,
                modules == p.modules@,
                i < p.entry_modules@.len(),
                e == p.entry_modules@[i as int],
                e < modules.len(),
                *exports == modules[e as int].exports,
                k <= exports@.len(),
                forall|i2: int, k2: int|
                    #![trigger modules[p.entry_modules@[i2] as int].exports@[k2]]
                    0 <= i2 < i && 0 <= k2 < modules[p.entry_modules@[i2] as int].exports@.len() ==> !(export_request(
                        modules[p.entry_modules@[i2] as int].exports@[k2],
                    ) matches Some(request) && unique_target(p, p.entry_modules@[i2] as int, ModuleRequestKind::ReExport, request.0, request.1) is None),
                forall|k2: int|
                    #![trigger exports@[k2]]
                    0 <= k2 < k ==> !(export_request(exports@[k2]) matches Some(request) && unique_target(p, e as int, ModuleRequestKind::ReExport, request.0, request.1) is None),
            decreases exports@.len() - k,
        {
            if let Some((source, attributes)) = export_parts(&exports[k]) {
                if resolve_request(program, e, ModuleRequestKind::ReExport, source, attributes).is_none() {
                    proof {
                        assert(modules[p.entry_modules@[i as int] as int].exports@[k as int] == exports@[k as int]);
                    }
                    return true;
                }
            }
            k = k + 1;
        }
        proof {
            assert forall|i2: int, k2: int|
                #![trigger modules[p.entry_modules@[i2] as int].exports@[k2]]
                0 <= i2 < i + 1 && 0 <= k2 < modules[p.entry_modules@[i2] as int].exports@.len() implies !(export_request(
                    modules[p.entry_modules@[i2] as int].exports@[k2],
                ) matches Some(request) && unique_target(p, p.entry_modules@[i2] as int, ModuleRequestKind::ReExport, request.0, request.1) is None) by {
                if i2 == i {
                    let _ = exports@[k2];
                }
            }
        }
        i = i + 1;
    }
    false
}

/// Whether executing the program can require evaluating module `m`.
pub open spec fn module_evaluated(program: ProgramIr, linkage: ProgramLinkage, m: int) -> bool {
    retains_all(program, linkage) || fact_holds(program, linkage, eval_node(program, m))
}

/// Whether binding `b` of module `m` can be observed.
pub open spec fn binding_live(program: ProgramIr, linkage: ProgramLinkage, m: int, b: int) -> bool {
    retains_all(program, linkage) || fact_holds(program, linkage, use_node(program, m, b))
}

/// Whether export `k` of module `m` is observable.
pub open spec fn export_live(program: ProgramIr, linkage: ProgramLinkage, m: int, k: int) -> bool {
    retains_all(program, linkage) || fact_holds(program, linkage, export_node(program, m, k))
}

/// How many of the first `k` modules are evaluated.
pub open spec fn evaluated_upto(program: ProgramIr, linkage: ProgramLinkage, k: int) -> nat
    decreases k,
{
    if k <= 0 {
        0
    } else {
        evaluated_upto(program, linkage, k - 1) + if module_evaluated(program, linkage, k - 1) {
            1nat
        } else {
            0nat
        }
    }
}

/// How many of the first `k` bindings of module `m` are live.
pub open spec fn live_in_module_upto(program: ProgramIr, linkage: ProgramLinkage, m: int, k: int) -> nat
    decreases k,
{
    if k <= 0 {
        0
    } else {
        live_in_module_upto(program, linkage, m, k - 1) + if binding_live(program, linkage, m, k - 1) {
            1nat
        } else {
            0nat
        }
    }
}

/// How many bindings of the first `k` modules are live.
pub open spec fn live_upto(program: ProgramIr, linkage: ProgramLinkage, k: int) -> nat
    decreases k,
{
    if k <= 0 {
        0
    } else {
        live_upto(program, linkage, k - 1) + live_in_module_upto(
            program,
            linkage,
            k - 1,
            program.modules@[k - 1].bindings@.len() as int,
        )
    }
}

/// Every entry module of the program is evaluated.
pub proof fn lemma_entry_modules_evaluated(program: ProgramIr, linkage: ProgramLinkage, i: int)
    requires
        0 <= i < program.entry_modules@.len(),
    ensures
        module_evaluated(program, linkage, program.entry_modules@[i] as int),
{
    let e = program.entry_modules@[i] as int;
    assert(reach_seed(program, eval_node(program, e)));
    lemma_reaches_self(reach_edges(program, linkage), eval_node(program, e));
}

/// A module that an evaluated module depends on, by any kind of request that
/// resolves inside the program, is evaluated too: evaluation keeps the whole
/// dependency closure of the entry modules.
pub proof fn lemma_dependency_evaluated(program: ProgramIr, linkage: ProgramLinkage, d: int)
    requires
        0 <= d < program.dependencies@.len(),
        module_evaluated(program, linkage, program.dependencies@[d].importer as int),
        program.dependencies@[d].target is Internal,
    ensures
        module_evaluated(program, linkage, program.dependencies@[d].target->Internal_0 as int),
{
    let dep = program.dependencies@[d];
    let m = dep.importer as int;
    let x = dep.target->Internal_0 as int;
    if !retains_all(program, linkage) {
        let step = reach_edges(program, linkage);
        let s = choose|s: int| #![trigger reach_seed(program, s)] reach_seed(program, s) && reaches(step, s, eval_node(program, m));
        assert(dependency_edge(program, eval_node(program, m), eval_node(program, x)));
        assert(step(eval_node(program, m), eval_node(program, x)));
        lemma_reaches_step(step, s, eval_node(program, m), eval_node(program, x));
    }
}

/// Module `t` is the target, inside the program, of a dependency of module `s`.
pub open spec fn depends_on(program: ProgramIr) -> spec_fn(int, int) -> bool {
    |s: int, t: int|
        exists|d: int|
            #![trigger program.dependencies@[d]]
            0 <= d < program.dependencies@.len() && program.dependencies@[d].importer as int == s
                && (program.dependencies@[d].target matches ModuleTarget::Internal(x) && x as int == t)
}

/// Module `m` lies in the dependency closure of the entry modules.
pub open spec fn in_dependency_closure(program: ProgramIr, m: int) -> bool {
    exists|i: int|
        #![trigger program.entry_modules@[i]]
        0 <= i < program.entry_modules@.len() && reaches(depends_on(program), program.entry_modules@[i] as int, m)
}

/// A module that a module of the dependency closure depends on is in it.
pub proof fn lemma_closure_step(program: ProgramIr, s: int, t: int)
    requires
        in_dependency_closure(program, s),
        depends_on(program)(s, t),
    ensures
        in_dependency_closure(program, t),
{
    let i = choose|i: int|
        #![trigger program.entry_modules@[i]]
        0 <= i < program.entry_modules@.len() && reaches(depends_on(program), program.entry_modules@[i] as int, s);
    lemma_reaches_step(depends_on(program), program.entry_modules@[i] as int, s, t);
}

/// Where a request of a module of the closure leads inside the program, it
/// leads to a module of the closure.
pub proof fn lemma_unique_target_depends(
    program: ProgramIr,
    importer: int,
    kind: ModuleRequestKind,
    specifier: Seq<char>,
    attributes: Seq<(Seq<char>, Seq<char>)>,
)
    requires
        in_dependency_closure(program, importer),
    ensures
        unique_target(program, importer, kind, specifier, attributes) matches Some(ModuleTarget::Internal(x)) ==> in_dependency_closure(
            program,
            x as int,
        ),
{
    let deps = program.dependencies@;
    if let Some(ModuleTarget::Internal(x)) = unique_target(program, importer, kind, specifier, attributes) {
        let i = choose|i: int| #![trigger deps[i]] 0 <= i < deps.len() && answers(deps[i], importer, kind, specifier, attributes);
        assert(deps[i].target == ModuleTarget::Internal(x));
        assert(depends_on(program)(importer, x as int));
        lemma_closure_step(program, importer, x as int);
    }
}

/// Every module along a walk of dependencies from an evaluated module is evaluated.
proof fn lemma_walk_evaluated(program: ProgramIr, linkage: ProgramLinkage, q: Seq<int>)
    requires
        is_path(depends_on(program), q),
        module_evaluated(program, linkage, q[0]),
    ensures
        module_evaluated(program, linkage, q.last()),
    decreases q.len(),
{
    if q.len() > 1 {
        let r = q.drop_last();
        assert forall|i: int| #![trigger r[i]] 0 <= i < r.len() - 1 implies depends_on(program)(r[i], r[i + 1]) by {
            assert(r[i] == q[i] && r[i + 1] == q[i + 1]);
        }
        lemma_walk_evaluated(program, linkage, r);
        let k = q.len() - 2;
        assert(depends_on(program)(q[k], q[k + 1]));
        let d = choose|d: int|
            #![trigger program.dependencies@[d]]
            0 <= d < program.dependencies@.len() && program.dependencies@[d].importer as int == q[k]
                && (program.dependencies@[d].target matches ModuleTarget::Internal(x) && x as int == q[k + 1]);
        assert(r.last() == q[k]);
        lemma_dependency_evaluated(program, linkage, d);
    }
}

/// Every module in the dependency closure of the entry modules is evaluated.
pub proof fn lemma_dependency_closure_evaluated(program: ProgramIr, linkage: ProgramLinkage, m: int)
    requires
        in_dependency_closure(program, m),
    ensures
        module_evaluated(program, linkage, m),
{
    let i = choose|i: int|
        #![trigger program.entry_modules@[i]]
        0 <= i < program.entry_modules@.len() && reaches(depends_on(program), program.entry_modules@[i] as int, m);
    lemma_entry_modules_evaluated(program, linkage, i);
    let q = choose|q: Seq<int>| crate::paths::is_path_between(depends_on(program), q, program.entry_modules@[i] as int, m);
    lemma_walk_evaluated(program, linkage, q);
}

/// Fact `x` is a fact about module `m`.
pub open spec fn fact_of_module(program: ProgramIr, m: int, x: int) -> bool {
    &&& 0 <= m < module_count(program)
    &&& {
        ||| x == eval_node(program, m)
        ||| x == ns_node(program, m)
        ||| x == ns_demand_node(program, m)
        ||| exists|b: int| #![trigger use_node(program, m, b)] 0 <= b < program.modules@[m].bindings@.len() && x == use_node(program, m, b)
        ||| exists|k: int| #![trigger export_node(program, m, k)] 0 <= k < program.modules@[m].exports@.len() && x == export_node(program, m, k)
        ||| exists|o: int| #![trigger demand_node(program, m, o)] 0 <= o < origin_total(program) && x == demand_node(program, m, o)
    }
}

/// Every module that fact `x` is about lies in the dependency closure.
pub open spec fn fact_in_closure(program: ProgramIr, x: int) -> bool {
    forall|m: int| #[trigger] fact_of_module(program, m, x) ==> in_dependency_closure(program, m)
}

/// Where fact `x` falls in the numbering of facts: 0 for evaluation, 1 for
/// namespace use, 2 for namespace demand, 3 for bindings, 4 for exports and
/// 5 for demands; and the module it is about.
proof fn lemma_fact_placement(program: ProgramIr, m: int, x: int) -> (kind: int)
    requires
        fact_of_module(program, m, x),
    ensures
        kind == 0 ==> x == m,
        kind == 1 ==> x == module_count(program) + m,
        kind == 2 ==> x == 2 * module_count(program) + m,
        kind == 3 ==> 3 * module_count(program) + bindings_before(program.modules@, m) <= x < 3 * module_count(program)
            + bindings_before(program.modules@, m + 1),
        kind == 4 ==> 3 * module_count(program) + binding_total(program) + exports_before(program.modules@, m) <= x < 3
            * module_count(program) + binding_total(program) + exports_before(program.modules@, m + 1),
        kind == 5 ==> 3 * module_count(program) + binding_total(program) + export_total(program) + m * origin_total(program) <= x
            < 3 * module_count(program) + binding_total(program) + export_total(program) + (m + 1) * origin_total(program),
        0 <= kind <= 5,
        0 <= m < module_count(program),
{
    let n = module_count(program);
    lemma_counts_nonnegative(program);
    lemma_bindings_before_mono(program.modules@, m + 1, n);
    lemma_exports_before_mono(program.modules@, m + 1, n);
    if x == eval_node(program, m) {
        0
    } else if x == ns_node(program, m) {
        1
    } else if x == ns_demand_node(program, m) {
        2
    } else if exists|b: int| #![trigger use_node(program, m, b)] 0 <= b < program.modules@[m].bindings@.len() && x == use_node(program, m, b) {
        3
    } else if exists|k: int| #![trigger export_node(program, m, k)] 0 <= k < program.modules@[m].exports@.len() && x == export_node(program, m, k) {
        4
    } else {
        let o = choose|o: int| #![trigger demand_node(program, m, o)] 0 <= o < origin_total(program) && x == demand_node(program, m, o);
        let t = origin_total(program);
        assert(m * t + o < (m + 1) * t) by (nonlinear_arith)
            requires
                0 <= o < t,
        ;
        5
    }
}

/// A fact is about one module only.
proof fn lemma_fact_module_unique(program: ProgramIr, m1: int, m2: int, x: int)
    requires
        fact_of_module(program, m1, x),
        fact_of_module(program, m2, x),
    ensures
        m1 == m2,
{
    let n = module_count(program);
    let k1 = lemma_fact_placement(program, m1, x);
    let k2 = lemma_fact_placement(program, m2, x);
    lemma_counts_nonnegative(program);
    lemma_bindings_before_mono(program.modules@, 0, m1);
    lemma_bindings_before_mono(program.modules@, 0, m2);
    lemma_bindings_before_mono(program.modules@, m1 + 1, n);
    lemma_bindings_before_mono(program.modules@, m2 + 1, n);
    lemma_exports_before_mono(program.modules@, 0, m1);
    lemma_exports_before_mono(program.modules@, 0, m2);
    lemma_exports_before_mono(program.modules@, m1 + 1, n);
    lemma_exports_before_mono(program.modules@, m2 + 1, n);
    let t = origin_total(program);
    assert(0 <= m1 * t && 0 <= m2 * t) by (nonlinear_arith)
        requires
            0 <= m1,
            0 <= m2,
            0 <= t,
    ;
    if m1 < m2 {
        lemma_bindings_before_mono(program.modules@, m1 + 1, m2);
        lemma_exports_before_mono(program.modules@, m1 + 1, m2);
        assert((m1 + 1) * t <= m2 * t) by (nonlinear_arith)
            requires
                m1 + 1 <= m2,
                0 <= t,
        ;
    } else if m2 < m1 {
        lemma_bindings_before_mono(program.modules@, m2 + 1, m1);
        lemma_exports_before_mono(program.modules@, m2 + 1, m1);
        assert((m2 + 1) * t <= m1 * t) by (nonlinear_arith)
            requires
                m2 + 1 <= m1,
                0 <= t,
        ;
    }
}

/// A fact about a module of the closure is about modules of the closure only.
proof fn lemma_fact_in_closure(program: ProgramIr, z: int, x: int)
    requires
        fact_of_module(program, z, x),
        in_dependency_closure(program, z),
    ensures
        fact_in_closure(program, x),
{
    assert forall|m: int| #[trigger] fact_of_module(program, m, x) implies in_dependency_closure(program, m) by {
        lemma_fact_module_unique(program, m, z, x);
    }
}

/// Each imported binding refers to what its import resolves to, as
/// `ProgramLinkage::analyze` makes it.
pub open spec fn linkage_resolves(program: ProgramIr, linkage: ProgramLinkage) -> bool {
    forall|m: int, b: int|
        #![trigger linkage.spec_imported(program_binding(m, b))]
        0 <= m < program.modules@.len() && 0 <= b < program.modules@[m].bindings@.len() ==> match linkage.spec_imported(program_binding(m, b)) {
            Some(t) => exists|i: int|
                #![trigger program.modules@[m].imports@[i]]
                0 <= i < program.modules@[m].imports@.len() && import_binding(program.modules@[m].imports@[i]) == Some(b as usize)
                    && target_view(t) == resolved_import(program, m, i),
            None => true,
        }
}

/// The module that an export of a module of the closure re-exports from, if
/// any, is a module of the closure.
proof fn lemma_reexport_target_closure(program: ProgramIr, m: int, k: int)
    requires
        reachability_ready(program),
        0 <= m < program.modules@.len(),
        0 <= k < program.modules@[m].exports@.len(),
        in_dependency_closure(program, m),
    ensures
        reexport_target(program, m, k) matches Some(x) ==> 0 <= x < program.modules@.len() && in_dependency_closure(program, x),
{
    if let Some(request) = export_request(program.modules@[m].exports@[k]) {
        lemma_internal_in_range(program, m, ModuleRequestKind::ReExport, request);
        lemma_unique_target_depends(program, m, ModuleRequestKind::ReExport, request.0, request.1);
    }
}

/// What demanding an export of a module of the closure makes hold is about
/// modules of the closure.
proof fn lemma_export_consequence_closure(program: ProgramIr, m: int, k: int, t: int)
    requires
        reachability_ready(program),
        0 <= m < program.modules@.len(),
        0 <= k < program.modules@[m].exports@.len(),
        in_dependency_closure(program, m),
        export_consequence(program, m, k, t),
    ensures
        fact_in_closure(program, t),
{
    assert(program.modules@[m].wf());
    lemma_reexport_target_closure(program, m, k);
    lemma_counts_nonnegative(program);
    if t == export_node(program, m, k) {
        lemma_fact_in_closure(program, m, t);
    } else if export_binding(program.modules@[m].exports@[k]) matches Some(b) && t == use_node(program, m, b as int) {
        lemma_fact_in_closure(program, m, t);
    } else {
        let x = reexport_target(program, m, k)->Some_0;
        if program.modules@[m].exports@[k] is Indirect {
            lemma_exports_before_mono(program.modules@, m + 1, module_count(program));
            assert(0 <= export_origin(program, m, k) < origin_total(program)) by {
                lemma_exports_before_mono(program.modules@, 0, m);
            }
            lemma_fact_in_closure(program, x, t);
        } else {
            lemma_fact_in_closure(program, x, t);
        }
    }
}

/// Every rule leads from facts about modules of the closure to facts about
/// modules of the closure.
#[verifier::spinoff_prover]
#[verifier::rlimit(80)]
proof fn lemma_edge_in_closure(program: ProgramIr, linkage: ProgramLinkage, s: int, t: int)
    requires
        reachability_ready(program),
        linkage_ready(program, linkage),
        linkage_resolves(program, linkage),
        fact_in_closure(program, s),
        reach_edges(program, linkage)(s, t),
    ensures
        fact_in_closure(program, t),
{
    let n = module_count(program);
    lemma_counts_nonnegative(program);
    if dependency_edge(program, s, t) {
        let deps = program.dependencies@;
        let d = choose|d: int|
            #![trigger deps[d]]
            0 <= d < deps.len() && (deps[d].target matches ModuleTarget::Internal(x) && s == eval_node(program, deps[d].importer as int) && (t
                == eval_node(program, x as int) || ((deps[d].request.kind == ModuleRequestKind::DynamicImport || deps[d].request.kind
                == ModuleRequestKind::CommonJsRequire) && t == ns_node(program, x as int))));
        let importer = deps[d].importer as int;
        let x = deps[d].target->Internal_0 as int;
        assert(fact_of_module(program, importer, s));
        assert(depends_on(program)(importer, x));
        lemma_closure_step(program, importer, x);
        assert(fact_of_module(program, x, t));
        lemma_fact_in_closure(program, x, t);
    } else if exists|m: int| #![trigger module_edge(program, linkage, m, s, t)] 0 <= m < program.modules@.len() && module_edge(program, linkage, m, s, t) {
        let m = choose|m: int| #![trigger module_edge(program, linkage, m, s, t)] 0 <= m < program.modules@.len() && module_edge(program, linkage, m, s, t);
        let module = program.modules@[m];
        assert(module.wf());
        if module_load_edge(program, m, s, t) {
            assert(fact_of_module(program, m, s));
            if exists|f: int, j: int|
                #![trigger module.functions@[f].operations@[j]]
                0 <= f < module.functions@.len() && 0 <= j < module.functions@[f].operations@.len() && !module.functions@[f].operations@[j].invoked
                    && (module.functions@[f].operations@[j].kind matches OperationKind::LoadBinding { binding } && s == eval_node(program, m)
                    && t == use_node(program, m, binding as int)) {
                let (f, j) = choose|f: int, j: int|
                    #![trigger module.functions@[f].operations@[j]]
                    0 <= f < module.functions@.len() && 0 <= j < module.functions@[f].operations@.len() && !module.functions@[f].operations@[j].invoked
                        && (module.functions@[f].operations@[j].kind matches OperationKind::LoadBinding { binding } && s == eval_node(program, m)
                        && t == use_node(program, m, binding as int));
                assert(module.functions@[f].wf(module.functions@.len() as int, module.bindings@.len() as int));
                let op = module.functions@[f].operations@[j];
                assert(op.wf(
                    module.functions@[f].value_count as int,
                    module.functions@[f].regions@.len() as int,
                    module.functions@.len() as int,
                    module.bindings@.len() as int,
                ));
            }
            lemma_fact_in_closure(program, m, t);
        } else if module_link_edge(program, linkage, m, s, t) {
            let b = choose|b: int|
                #![trigger use_node(program, m, b)]
                0 <= b < program.modules@[m].bindings@.len() && s == use_node(program, m, b) && match linkage.spec_imported(program_binding(m, b)) {
                    Some(ImportedBindingTarget::Binding(x)) => t == use_node(program, x.module as int, x.binding as int),
                    Some(ImportedBindingTarget::Namespace(ModuleTarget::Internal(x))) => t == ns_node(program, x as int),
                    _ => false,
                };
            assert(fact_of_module(program, m, s));
            let target = linkage.spec_imported(program_binding(m, b))->Some_0;
            let i = choose|i: int|
                #![trigger program.modules@[m].imports@[i]]
                0 <= i < program.modules@[m].imports@.len() && import_binding(program.modules@[m].imports@[i]) == Some(b as usize)
                    && target_view(target) == resolved_import(program, m, i);
            lemma_resolved_import_in_closure(program, m, i);
            match target {
                ImportedBindingTarget::Binding(x) => {
                    lemma_fact_in_closure(program, x.module as int, t);
                },
                _ => {
                    let x = target->Namespace_0->Internal_0;
                    lemma_fact_in_closure(program, x as int, t);
                },
            }
        } else if module_namespace_edge(program, m, s, t) {
            assert(fact_of_module(program, m, s));
            lemma_fact_in_closure(program, m, t);
        } else if module_import_demand_edge(program, m, s, t) {
            let i = choose|i: int|
                #![trigger module.imports@[i]]
                0 <= i < module.imports@.len() && (import_binding(module.imports@[i]) matches Some(b) && s == use_node(program, m, b as int)
                    && import_demand(program, m, i, t));
            let b = import_binding(module.imports@[i])->Some_0;
            assert(fact_of_module(program, m, s));
            let request = import_request(module.imports@[i]);
            lemma_internal_in_range(program, m, ModuleRequestKind::StaticImport, request);
            lemma_unique_target_depends(program, m, ModuleRequestKind::StaticImport, request.0, request.1);
            let x = internal_target(program, m, ModuleRequestKind::StaticImport, request)->Some_0;
            lemma_imports_before_mono(program.modules@, m + 1, n);
            lemma_imports_before_mono(program.modules@, 0, m);
            lemma_exports_before_mono(program.modules@, 0, n);
            assert(0 <= import_origin(program, m, i) < origin_total(program));
            lemma_fact_in_closure(program, x, t);
        } else {
            assert(module_ns_demand_edge(program, m, s, t));
            let k = choose|k: int|
                #![trigger module.exports@[k]]
                0 <= k < module.exports@.len() && s == ns_demand_node(program, m) && export_consequence(program, m, k, t);
            assert(fact_of_module(program, m, s));
            lemma_export_consequence_closure(program, m, k, t);
        }
    } else {
        let o = choose|o: int| #![trigger origin_edge(program, o, s, t)] 0 <= o < origin_total(program) && origin_edge(program, o, s, t);
        let (m, name) = choose|m: int, name: Seq<char>|
            #![trigger origin_name(program, o, name), demand_node(program, m, o)]
            0 <= m < program.modules@.len() && origin_name(program, o, name) && s == demand_node(program, m, o) && name_consequence(
                program,
                m,
                name,
                o,
                t,
            );
        assert(fact_of_module(program, m, s));
        let module = program.modules@[m];
        if has_named_export(module, name) {
            let k = choose|k: int| #![trigger module.exports@[k]] first_named_export(module, name, k) && export_consequence(program, m, k, t);
            lemma_export_consequence_closure(program, m, k, t);
        } else {
            let k = choose|k: int|
                #![trigger module.exports@[k]]
                0 <= k < module.exports@.len() && module.exports@[k] is Star && (t == export_node(program, m, k) || (reexport_target(
                    program,
                    m,
                    k,
                ) matches Some(x) && t == demand_node(program, x, o)));
            lemma_reexport_target_closure(program, m, k);
            if t == export_node(program, m, k) {
                lemma_fact_in_closure(program, m, t);
            } else {
                let x = reexport_target(program, m, k)->Some_0;
                lemma_fact_in_closure(program, x, t);
            }
        }
    }
}

/// Every fact along a walk of rules from a fact about modules of the closure
/// is about modules of the closure.
proof fn lemma_fact_walk_in_closure(program: ProgramIr, linkage: ProgramLinkage, q: Seq<int>)
    requires
        reachability_ready(program),
        linkage_ready(program, linkage),
        linkage_resolves(program, linkage),
        is_path(reach_edges(program, linkage), q),
        fact_in_closure(program, q[0]),
    ensures
        fact_in_closure(program, q.last()),
    decreases q.len(),
{
    if q.len() > 1 {
        let r = q.drop_last();
        assert forall|i: int| #![trigger r[i]] 0 <= i < r.len() - 1 implies reach_edges(program, linkage)(r[i], r[i + 1]) by {
            assert(r[i] == q[i] && r[i + 1] == q[i + 1]);
        }
        lemma_fact_walk_in_closure(program, linkage, r);
        let k = q.len() - 2;
        assert(reach_edges(program, linkage)(q[k], q[k + 1]));
        assert(r.last() == q[k]);
        lemma_edge_in_closure(program, linkage, q[k], q[k + 1]);
    }
}

/// Every fact that holds from the start is about modules of the closure.
proof fn lemma_seed_in_closure(program: ProgramIr, x: int)
    requires
        reachability_ready(program),
        reach_seed(program, x),
    ensures
        fact_in_closure(program, x),
{
    let modules = program.modules@;
    let i = choose|i: int|
        #![trigger program.entry_modules@[i]]
        0 <= i < program.entry_modules@.len() && {
            let e = program.entry_modules@[i] as int;
            ||| x == eval_node(program, e)
            ||| x == ns_demand_node(program, e)
            ||| exists|k: int|
                #![trigger modules[e].exports@[k]]
                0 <= k < modules[e].exports@.len() && ((export_binding(modules[e].exports@[k]) matches Some(b) && x == use_node(
                    program,
                    e,
                    b as int,
                )) || (reexport_target(program, e, k) matches Some(y) && x == ns_node(program, y)))
        };
    let e = program.entry_modules@[i] as int;
    lemma_reaches_self(depends_on(program), e);
    assert(in_dependency_closure(program, e));
    assert(modules[e].wf());
    if x == eval_node(program, e) || x == ns_demand_node(program, e) {
        lemma_fact_in_closure(program, e, x);
    } else {
        let k = choose|k: int|
            #![trigger modules[e].exports@[k]]
            0 <= k < modules[e].exports@.len() && ((export_binding(modules[e].exports@[k]) matches Some(b) && x == use_node(
                program,
                e,
                b as int,
            )) || (reexport_target(program, e, k) matches Some(y) && x == ns_node(program, y)));
        lemma_reexport_target_closure(program, e, k);
        if export_binding(modules[e].exports@[k]) matches Some(b) && x == use_node(program, e, b as int) {
            lemma_fact_in_closure(program, e, x);
        } else {
            let y = reexport_target(program, e, k)->Some_0;
            lemma_fact_in_closure(program, y, x);
        }
    }
}

/// When the linkage is the one analysis gives and every request resolves,
/// the evaluated modules are exactly the dependency closure of the entry
/// modules.
pub proof fn lemma_evaluated_is_dependency_closure(program: ProgramIr, linkage: ProgramLinkage, m: int)
    requires
        reachability_ready(program),
        linkage_ready(program, linkage),
        linkage_resolves(program, linkage),
        !retains_all(program, linkage),
        0 <= m < program.modules@.len(),
    ensures
        module_evaluated(program, linkage, m) <==> in_dependency_closure(program, m),
{
    if in_dependency_closure(program, m) {
        lemma_dependency_closure_evaluated(program, linkage, m);
    }
    if module_evaluated(program, linkage, m) {
        let step = reach_edges(program, linkage);
        let s = choose|s: int| #![trigger reach_seed(program, s)] reach_seed(program, s) && reaches(step, s, eval_node(program, m));
        let q = choose|q: Seq<int>| crate::paths::is_path_between(step, q, s, eval_node(program, m));
        lemma_seed_in_closure(program, s);
        lemma_fact_walk_in_closure(program, linkage, q);
        assert(fact_of_module(program, m, eval_node(program, m)));
    }
}

/// Whether every request of the program resolves: each static import and
/// re-export of each module, and each `import()` in it, leads to one known
/// target, and no imported binding is linked to an unresolved target.
pub open spec fn program_resolves(program: ProgramIr, linkage: ProgramLinkage) -> bool {
    &&& forall|m: int| 0 <= m < program.modules@.len() ==> #[trigger] has_complete_linkage(program, m)
    &&& forall|m: int, b: int|
        #![trigger linkage.spec_imported(program_binding(m, b))]
        0 <= m < program.modules@.len() && 0 <= b < program.modules@[m].bindings@.len()
            ==> linkage.spec_imported(program_binding(m, b)) != Some(ImportedBindingTarget::Unresolved)
}

/// A program whose requests all resolve keeps nothing for want of a target.
pub proof fn lemma_resolved_program_retains_nothing(program: ProgramIr, linkage: ProgramLinkage)
    requires
        reachability_ready(program),
        program_resolves(program, linkage),
    ensures
        !retains_all(program, linkage),
{
    let modules = program.modules@;
    if entry_export_unresolved(program) {
        let (i, k) = choose|i: int, k: int|
            #![trigger modules[program.entry_modules@[i] as int].exports@[k]]
            0 <= i < program.entry_modules@.len() && 0 <= k < modules[program.entry_modules@[i] as int].exports@.len() && (export_request(
                modules[program.entry_modules@[i] as int].exports@[k],
            ) matches Some(request) && unique_target(program, program.entry_modules@[i] as int, ModuleRequestKind::ReExport, request.0, request.1) is None);
        let e = program.entry_modules@[i] as int;
        assert(0 <= e < modules.len());
        assert(has_complete_linkage(program, e));
        assert(modules[e].exports@[k] == modules[program.entry_modules@[i] as int].exports@[k]);
    }
}

/// When the linkage is the one analysis gives and every request of the
/// program resolves, the evaluated modules are exactly the entry modules and
/// the modules they reach through their dependencies.
pub proof fn lemma_resolved_program_evaluates_dependency_closure(program: ProgramIr, linkage: ProgramLinkage, m: int)
    requires
        reachability_ready(program),
        linkage_ready(program, linkage),
        linkage_resolves(program, linkage),
        program_resolves(program, linkage),
        0 <= m < program.modules@.len(),
    ensures
        module_evaluated(program, linkage, m) <==> in_dependency_closure(program, m),
{
    lemma_resolved_program_retains_nothing(program, linkage);
    lemma_evaluated_is_dependency_closure(program, linkage, m);
}

/// Program entities required by module evaluation or an observable interface.
pub struct ProgramReachability {
    evaluated: Vec<bool>,
    live: Vec<Vec<bool>>,
    live_exports: Vec<Vec<bool>>,
    program: Ghost<ProgramIr>,
    linkage: Ghost<ProgramLinkage>,
}

impl ProgramReachability {
    /// The program the facts are about.
    pub closed spec fn spec_program(&self) -> ProgramIr {
        self.program@
    }

    /// The linkage the facts are about.
    pub closed spec fn spec_linkage(&self) -> ProgramLinkage {
        self.linkage@
    }

    /// Each module, binding and export is marked as the fixed point says.
    pub closed spec fn wf(&self) -> bool {
        let p = self.program@;
        let l = self.linkage@;
        let modules = p.modules@;
        &&& self.evaluated@.len() == modules.len()
        &&& self.live@.len() == modules.len()
        &&& self.live_exports@.len() == modules.len()
        &&& forall|m: int|
            #![trigger self.evaluated@[m]]
            0 <= m < modules.len() ==> self.evaluated@[m] == module_evaluated(p, l, m)
        &&& forall|m: int|
            #![trigger self.live@[m]]
            0 <= m < modules.len() ==> self.live@[m]@.len() == modules[m].bindings@.len() && forall|b: int|
                #![trigger self.live@[m]@[b]]
                0 <= b < modules[m].bindings@.len() ==> self.live@[m]@[b] == binding_live(p, l, m, b)
        &&& forall|m: int|
            #![trigger self.live_exports@[m]]
            0 <= m < modules.len() ==> self.live_exports@[m]@.len() == modules[m].exports@.len() && forall|k: int|
                #![trigger self.live_exports@[m]@[k]]
                0 <= k < modules[m].exports@.len() ==> self.live_exports@[m]@[k] == export_live(p, l, m, k)
    }

    /// Computes conservative reachability from the program's entry modules.
    ///
    /// If a reachable static import, re-export or dynamic import has no
    /// unique resolved target, or a used import does not resolve, every
    /// module, binding and export is retained, because the missing target
    /// could refer to any program entity.
    pub fn compute(program: &ProgramIr, linkage: &ProgramLinkage) -> (reachability: Self)
        requires
            reachability_ready(*program),
            linkage_ready(*program, *linkage),
        ensures
            reachability.wf(),
            reachability.spec_program() == *program,
            reachability.spec_linkage() == *linkage,
    {
        let ghost p = *program;
        let ghost l = *linkage;
        let ghost modules = p.modules@;
        let layout = ReachLayout::new(program);
        let lists = fact_graph(program, linkage, &layout);
        let seeds = fact_seeds(program, &layout);
        let reached = reach_from(&lists, seeds.as_slice());
        proof {
            lemma_facts_in_range(p);
            assert(list_step(lists@) =~= reach_edges(p, l));
            assert forall|x: int| 0 <= x < fact_count(p) implies #[trigger] reached@[x] == fact_holds(p, l, x) by {
                if reached@[x] {
                    let j = choose|j: int| #![trigger seeds@[j]] 0 <= j < seeds@.len() && reaches(list_step(lists@), seeds@[j] as int, x);
                    assert(seeds@.contains(seeds@[j]));
                    assert(reach_seed(p, seeds@[j] as int));
                }
                if fact_holds(p, l, x) {
                    let s = choose|s: int| #![trigger reach_seed(p, s)] reach_seed(p, s) && reaches(reach_edges(p, l), s, x);
                    let j = choose|j: int| 0 <= j < seeds@.len() && seeds@[j] == s as usize;
                    assert(reached_from(lists@, seeds@, x));
                }
            }
        }
        let mut all = has_unresolved_entry_export(program);
        let mut m: usize = 0;
        while m < program.modules.len()
            invariant
                reachability_ready(p),
                layout.describes(p),
                p == *program,
                modules == p.modules@,
                m <= modules.len(),
                reached@.len() == fact_count(p),
                forall|x: int| 0 <= x < fact_count(p) ==> #[trigger] reached@[x] == fact_holds(p, l, x),
                forall|m2: int| #![trigger eval_node(p, m2)] 0 <= m2 < module_count(p) ==> 0 <= eval_node(p, m2) < fact_count(p),
                all == (entry_export_unresolved(p) || exists|m2: int|
                    #![trigger eval_node(p, m2)]
                    0 <= m2 < m && fact_holds(p, l, eval_node(p, m2)) && !has_complete_linkage(p, m2)),
            decreases modules.len() - m,
        {
            let node = layout.eval_node(m, Ghost(p));
            if reached[node] && !module_has_complete_linkage(program, m) {
                all = true;
            }
            proof {
                assert(reached@[node as int] == fact_holds(p, l, eval_node(p, m as int)));
                if exists|m2: int|
                    #![trigger eval_node(p, m2)]
                    0 <= m2 < m + 1 && fact_holds(p, l, eval_node(p, m2)) && !has_complete_linkage(p, m2) {
                    let m2 = choose|m2: int|
                        #![trigger eval_node(p, m2)]
                        0 <= m2 < m + 1 && fact_holds(p, l, eval_node(p, m2)) && !has_complete_linkage(p, m2);
                    if m2 < m {
                        assert(0 <= m2 < m && fact_holds(p, l, eval_node(p, m2)) && !has_complete_linkage(p, m2));
                    }
                }
            }
            m = m + 1;
        }
        let mut m: usize = 0;
        while m < program.modules.len()
            invariant
                reachability_ready(p),
                linkage_ready(p, l),
                layout.describes(p),
                p == *program,
                l == *linkage,
                modules == p.modules@,
                m <= modules.len(),
                reached@.len() == fact_count(p),
                forall|x: int| 0 <= x < fact_count(p) ==> #[trigger] reached@[x] == fact_holds(p, l, x),
                all == (entry_export_unresolved(p) || (exists|m2: int|
                    #![trigger eval_node(p, m2)]
                    0 <= m2 < modules.len() && fact_holds(p, l, eval_node(p, m2)) && !has_complete_linkage(p, m2)) || exists|m2: int, b2: int|
                    #![trigger use_node(p, m2, b2)]
                    0 <= m2 < m && 0 <= b2 < modules[m2].bindings@.len() && fact_holds(p, l, use_node(p, m2, b2)) && l.spec_imported(
                        program_binding(m2, b2),
                    ) == Some(ImportedBindingTarget::Unresolved)),
            decreases modules.len() - m,
        {
            let count = program.modules[m].bindings.len();
            proof {
                assert(p.modules@.len() <= u32::MAX + 1);
                assert(modules[m as int].bindings@.len() <= u32::MAX + 1);
                lemma_facts_in_range(p);
            }
            let mut b: usize = 0;
            while b < count
                invariant
                    reachability_ready(p),
                    layout.describes(p),
                    p == *program,
                    l == *linkage,
                    modules == p.modules@,
                    m < modules.len(),
                    modules.len() <= u32::MAX + 1,
                    count == modules[m as int].bindings@.len(),
                    count <= u32::MAX + 1,
                    b <= count,
                    reached@.len() == fact_count(p),
                    forall|x: int| 0 <= x < fact_count(p) ==> #[trigger] reached@[x] == fact_holds(p, l, x),
                    all == (entry_export_unresolved(p) || (exists|m2: int|
                        #![trigger eval_node(p, m2)]
                        0 <= m2 < modules.len() && fact_holds(p, l, eval_node(p, m2)) && !has_complete_linkage(p, m2)) || exists|m2: int, b2: int|
                        #![trigger use_node(p, m2, b2)]
                        0 <= m2 < modules.len() && 0 <= b2 < modules[m2].bindings@.len() && (m2 < m || (m2 == m && b2 < b)) && fact_holds(p, l, use_node(p, m2, b2))
                            && l.spec_imported(program_binding(m2, b2)) == Some(ImportedBindingTarget::Unresolved)),
                decreases count - b,
            {
                let node = layout.use_node(m, b, Ghost(p));
                let id = ProgramBindingId { module: m as u32, binding: b as u32 };
                let unresolved = match linkage.imported_binding(id) {
                    Some(ImportedBindingTarget::Unresolved) => true,
                    _ => false,
                };
                if reached[node] && unresolved {
                    all = true;
                }
                proof {
                    assert(id == program_binding(m as int, b as int));
                    assert(reached@[node as int] == fact_holds(p, l, use_node(p, m as int, b as int)));
                    assert(unresolved == (l.spec_imported(program_binding(m as int, b as int)) == Some(ImportedBindingTarget::Unresolved)));
                }
                b = b + 1;
            }
            m = m + 1;
        }
        proof {
            assert(all == retains_all(p, l));
        }
        let mut evaluated: Vec<bool> = Vec::new();
        let mut live: Vec<Vec<bool>> = Vec::new();
        let mut live_exports: Vec<Vec<bool>> = Vec::new();
        let mut m: usize = 0;
        while m < program.modules.len()
            invariant
                reachability_ready(p),
                layout.describes(p),
                p == *program,
                modules == p.modules@,
                m <= modules.len(),
                reached@.len() == fact_count(p),
                forall|x: int| 0 <= x < fact_count(p) ==> #[trigger] reached@[x] == fact_holds(p, l, x),
                all == retains_all(p, l),
                evaluated@.len() == m,
                live@.len() == m,
                live_exports@.len() == m,
                forall|m2: int| #![trigger evaluated@[m2]] 0 <= m2 < m ==> evaluated@[m2] == module_evaluated(p, l, m2),
                forall|m2: int|
                    #![trigger live@[m2]]
                    0 <= m2 < m ==> live@[m2]@.len() == modules[m2].bindings@.len() && forall|b: int|
                        #![trigger live@[m2]@[b]]
                        0 <= b < modules[m2].bindings@.len() ==> live@[m2]@[b] == binding_live(p, l, m2, b),
                forall|m2: int|
                    #![trigger live_exports@[m2]]
                    0 <= m2 < m ==> live_exports@[m2]@.len() == modules[m2].exports@.len() && forall|k: int|
                        #![trigger live_exports@[m2]@[k]]
                        0 <= k < modules[m2].exports@.len() ==> live_exports@[m2]@[k] == export_live(p, l, m2, k),
            decreases modules.len() - m,
        {
            proof {
                lemma_facts_in_range(p);
            }
            let node = layout.eval_node(m, Ghost(p));
            evaluated.push(all || reached[node]);
            let mut bindings: Vec<bool> = Vec::new();
            let count = program.modules[m].bindings.len();
            let mut b: usize = 0;
            while b < count
                invariant
                    layout.describes(p),
                    m < modules.len(),
                    modules == p.modules@,
                    count == modules[m as int].bindings@.len(),
                    b <= count,
                    reached@.len() == fact_count(p),
                    forall|x: int| 0 <= x < fact_count(p) ==> #[trigger] reached@[x] == fact_holds(p, l, x),
                    all == retains_all(p, l),
                    bindings@.len() == b,
                    forall|c: int| #![trigger bindings@[c]] 0 <= c < b ==> bindings@[c] == binding_live(p, l, m as int, c),
                decreases count - b,
            {
                let node = layout.use_node(m, b, Ghost(p));
                bindings.push(all || reached[node]);
                b = b + 1;
            }
            live.push(bindings);
            let mut exports: Vec<bool> = Vec::new();
            let count = program.modules[m].exports.len();
            let mut k: usize = 0;
            while k < count
                invariant
                    layout.describes(p),
                    m < modules.len(),
                    modules == p.modules@,
                    count == modules[m as int].exports@.len(),
                    k <= count,
                    reached@.len() == fact_count(p),
                    forall|x: int| 0 <= x < fact_count(p) ==> #[trigger] reached@[x] == fact_holds(p, l, x),
                    all == retains_all(p, l),
                    exports@.len() == k,
                    forall|c: int| #![trigger exports@[c]] 0 <= c < k ==> exports@[c] == export_live(p, l, m as int, c),
                decreases count - k,
            {
                let node = layout.export_node(m, k, Ghost(p));
                exports.push(all || reached[node]);
                k = k + 1;
            }
            live_exports.push(exports);
            m = m + 1;
        }
        ProgramReachability { evaluated, live, live_exports, program: Ghost(p), linkage: Ghost(l) }
    }

    /// Returns whether executing the program can require evaluating `module`.
    pub fn is_module_evaluated(&self, module: usize) -> (evaluated: bool)
        requires
            self.wf(),
        ensures
            evaluated == (module < self.spec_program().modules@.len() && module_evaluated(
                self.spec_program(),
                self.spec_linkage(),
                module as int,
            )),
    {
        module < self.evaluated.len() && self.evaluated[module]
    }

    /// Returns whether `binding` can be observed by the linked program.
    pub fn is_binding_live(&self, binding: ProgramBindingId) -> (live: bool)
        requires
            self.wf(),
        ensures
            live == (binding.module < self.spec_program().modules@.len() && binding.binding
                < self.spec_program().modules@[binding.module as int].bindings@.len() && binding_live(
                self.spec_program(),
                self.spec_linkage(),
                binding.module as int,
                binding.binding as int,
            )),
    {
        let m = binding.module as usize;
        let b = binding.binding as usize;
        m < self.live.len() && b < self.live[m].len() && self.live[m][b]
    }

    /// Returns whether export `export` of `module`, in source order, is observable.
    pub fn is_export_live(&self, module: usize, export: usize) -> (live: bool)
        requires
            self.wf(),
        ensures
            live == (module < self.spec_program().modules@.len() && export < self.spec_program().modules@[module as int].exports@.len()
                && export_live(self.spec_program(), self.spec_linkage(), module as int, export as int)),
    {
        module < self.live_exports.len() && export < self.live_exports[module].len() && self.live_exports[module][export]
    }

    /// Returns the number of evaluated modules.
    pub fn evaluated_module_count(&self) -> (count: usize)
        requires
            self.wf(),
        ensures
            count == evaluated_upto(self.spec_program(), self.spec_linkage(), self.spec_program().modules@.len() as int),
    {
        let ghost p = self.program@;
        let ghost l = self.linkage@;
        let mut count: usize = 0;
        let mut m: usize = 0;
        while m < self.evaluated.len()
            invariant
                self.wf(),
                p == self.program@,
                l == self.linkage@,
                m <= self.evaluated@.len(),
                count == evaluated_upto(p, l, m as int),
                count <= m,
            decreases self.evaluated@.len() - m,
        {
            if self.evaluated[m] {
                count = count + 1;
            }
            m = m + 1;
        }
        count
    }

    /// Returns the number of live program bindings.
    pub fn live_binding_count(&self) -> (count: usize)
        requires
            self.wf(),
            binding_total(self.spec_program()) <= usize::MAX,
        ensures
            count == live_upto(self.spec_program(), self.spec_linkage(), self.spec_program().modules@.len() as int),
    {
        let ghost p = self.program@;
        let ghost l = self.linkage@;
        let ghost modules = p.modules@;
        let mut count: usize = 0;
        let mut m: usize = 0;
        proof {
            lemma_bindings_before_mono(modules, 0, modules.len() as int);
        }
        while m < self.live.len()
            invariant
                self.wf(),
                p == self.program@,
                l == self.linkage@,
                modules == p.modules@,
                m <= modules.len(),
                count == live_upto(p, l, m as int),
                count <= bindings_before(modules, m as int),
                binding_total(p) <= usize::MAX,
            decreases modules.len() - m,
        {
            proof {
                lemma_bindings_before_mono(modules, m as int + 1, modules.len() as int);
            }
            let mut in_module: usize = 0;
            let mut b: usize = 0;
            while b < self.live[m].len()
                invariant
                    self.wf(),
                    p == self.program@,
                    l == self.linkage@,
                    modules == p.modules@,
                    m < modules.len(),
                    b <= modules[m as int].bindings@.len(),
                    in_module == live_in_module_upto(p, l, m as int, b as int),
                    in_module <= b,
                decreases modules[m as int].bindings@.len() - b,
            {
                if self.live[m][b] {
                    in_module = in_module + 1;
                }
                b = b + 1;
            }
            count = count + in_module;
            m = m + 1;
        }
        count
    }
}

} // verus!
