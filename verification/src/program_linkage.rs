//! Resolution of imported bindings across a program, by the recursive
//! export resolution of ECMAScript modules.
//!
//! Resolving a name of a module follows indirect and star re-exports through
//! other modules; a set of visited (module, name) pairs cuts cycles, and two
//! star re-exports that resolve a name to different targets make it
//! ambiguous.

use vstd::prelude::*;

use crate::ir::ModuleExport;
use crate::ir::ModuleImport;
use crate::ir::ModuleIr;
use crate::program::ImportedBindingTarget;
use crate::program::ModuleRequestKind;
use crate::program::ModuleTarget;
use crate::program::ProgramBindingId;
use crate::program::ProgramIr;
use crate::program::ProgramLinkage;
use crate::ir::import_binding;
use crate::program_reachability::import_binding_of;
use crate::program_reachability::import_parts;
use crate::program_reachability::import_request;
use crate::program_reachability::default_name;
use crate::ir::export_binding;
use crate::program_reachability::export_named;
use crate::program_reachability::export_parts;
use crate::program_reachability::exported_name;
use crate::program_reachability::is_default_name;
use crate::program_reachability::resolve_request;
use crate::program_reachability::export_request;
use crate::program_reachability::first_named_export;
use crate::program_reachability::has_named_export;
use crate::program_reachability::unique_target;
use crate::program_reachability::reachability_ready;
use crate::program_reachability::linkage_ready;
use crate::program_reachability::linkage_resolves;
use crate::program_reachability::in_dependency_closure;
use crate::program_reachability::lemma_unique_target_depends;
use crate::program_targets::program_binding;
use crate::program_reachability::import_name;

verus! {

/// The name an import asks for, `default` for one that asks for none.
pub open spec fn import_candidate(import: ModuleImport) -> Seq<char> {
    match import_name(import) {
        Some(n) => n,
        None => default_name(),
    }
}

/// The name an export forwards, `default` for one that forwards none.
pub open spec fn export_candidate(export: ModuleExport) -> Seq<char> {
    match export {
        ModuleExport::Indirect { imported, .. } => imported@,
        _ => default_name(),
    }
}

/// The names the imports of a module ask for.
pub open spec fn import_names(imports: Seq<ModuleImport>) -> Seq<Seq<char>>
    decreases imports.len(),
{
    if imports.len() == 0 {
        Seq::empty()
    } else {
        import_names(imports.drop_last()).push(import_candidate(imports.last()))
    }
}

/// The names the exports of a module forward.
pub open spec fn export_names(exports: Seq<ModuleExport>) -> Seq<Seq<char>>
    decreases exports.len(),
{
    if exports.len() == 0 {
        Seq::empty()
    } else {
        export_names(exports.drop_last()).push(export_candidate(exports.last()))
    }
}

/// `default` and the names the imports and exports of the first `m` modules name.
pub open spec fn names_upto(modules: Seq<ModuleIr>, m: int) -> Seq<Seq<char>>
    decreases m,
{
    if m <= 0 {
        seq![default_name()]
    } else {
        names_upto(modules, m - 1) + import_names(modules[m - 1].imports@) + export_names(modules[m - 1].exports@)
    }
}

/// Every name a resolution can ask a module for.
pub open spec fn candidate_names(program: ProgramIr) -> Seq<Seq<char>> {
    names_upto(program.modules@, program.modules@.len() as int)
}

proof fn lemma_import_names(imports: Seq<ModuleImport>, i: int)
    requires
        0 <= i < imports.len(),
    ensures
        import_names(imports).contains(import_candidate(imports[i])),
    decreases imports.len(),
{
    if i == imports.len() - 1 {
        assert(import_names(imports).last() == import_candidate(imports[i]));
    } else {
        lemma_import_names(imports.drop_last(), i);
        let n = import_candidate(imports[i]);
        let k = choose|k: int| 0 <= k < import_names(imports.drop_last()).len() && import_names(imports.drop_last())[k] == n;
        assert(import_names(imports)[k] == n);
    }
}

proof fn lemma_export_names(exports: Seq<ModuleExport>, k: int)
    requires
        0 <= k < exports.len(),
    ensures
        export_names(exports).contains(export_candidate(exports[k])),
    decreases exports.len(),
{
    if k == exports.len() - 1 {
        assert(export_names(exports).last() == export_candidate(exports[k]));
    } else {
        lemma_export_names(exports.drop_last(), k);
        let n = export_candidate(exports[k]);
        let j = choose|j: int| 0 <= j < export_names(exports.drop_last()).len() && export_names(exports.drop_last())[j] == n;
        assert(export_names(exports)[j] == n);
    }
}

/// `names_upto` only grows.
proof fn lemma_names_upto_grows(modules: Seq<ModuleIr>, m: int, k: int, name: Seq<char>)
    requires
        0 <= m <= k <= modules.len(),
        names_upto(modules, m).contains(name),
    ensures
        names_upto(modules, k).contains(name),
    decreases k,
{
    if k > m {
        lemma_names_upto_grows(modules, m, k - 1, name);
        let prefix = names_upto(modules, k - 1);
        let j = choose|j: int| 0 <= j < prefix.len() && prefix[j] == name;
        assert((prefix + import_names(modules[k - 1].imports@) + export_names(modules[k - 1].exports@))[j] == name);
    }
}

/// Every name a resolution asks for is a candidate.
pub proof fn lemma_candidates(program: ProgramIr)
    ensures
        candidate_names(program).contains(default_name()),
        forall|m: int, i: int|
            #![trigger program.modules@[m].imports@[i]]
            0 <= m < program.modules@.len() && 0 <= i < program.modules@[m].imports@.len() ==> candidate_names(program).contains(
                import_candidate(program.modules@[m].imports@[i]),
            ),
        forall|m: int, k: int|
            #![trigger program.modules@[m].exports@[k]]
            0 <= m < program.modules@.len() && 0 <= k < program.modules@[m].exports@.len() ==> candidate_names(program).contains(
                export_candidate(program.modules@[m].exports@[k]),
            ),
{
    let modules = program.modules@;
    let n = modules.len() as int;
    assert(names_upto(modules, 0)[0] == default_name());
    lemma_names_upto_grows(modules, 0, n, default_name());
    assert forall|m: int, i: int|
        #![trigger program.modules@[m].imports@[i]]
        0 <= m < n && 0 <= i < modules[m].imports@.len() implies candidate_names(program).contains(import_candidate(modules[m].imports@[i])) by {
        let name = import_candidate(modules[m].imports@[i]);
        lemma_import_names(modules[m].imports@, i);
        let part = import_names(modules[m].imports@);
        let j = choose|j: int| 0 <= j < part.len() && part[j] == name;
        let whole = names_upto(modules, m) + part + export_names(modules[m].exports@);
        assert(whole[names_upto(modules, m).len() + j] == name);
        assert(names_upto(modules, m + 1).contains(name));
        lemma_names_upto_grows(modules, m + 1, n, name);
    }
    assert forall|m: int, k: int|
        #![trigger program.modules@[m].exports@[k]]
        0 <= m < n && 0 <= k < modules[m].exports@.len() implies candidate_names(program).contains(export_candidate(modules[m].exports@[k])) by {
        let name = export_candidate(modules[m].exports@[k]);
        lemma_export_names(modules[m].exports@, k);
        let part = export_names(modules[m].exports@);
        let j = choose|j: int| 0 <= j < part.len() && part[j] == name;
        let head = names_upto(modules, m) + import_names(modules[m].imports@);
        let whole = head + part;
        assert(whole[head.len() + j] == name);
        assert(names_upto(modules, m + 1).contains(name));
        lemma_names_upto_grows(modules, m + 1, n, name);
    }
}

/// How many of the first `i` candidate names module `m` has not been asked for in `visited`.
pub open spec fn unvisited_in(names: Seq<Seq<char>>, visited: Set<(int, Seq<char>)>, m: int, i: int) -> nat
    decreases i,
{
    if i <= 0 {
        0
    } else {
        unvisited_in(names, visited, m, i - 1) + if visited.contains((m, names[i - 1])) {
            0nat
        } else {
            1nat
        }
    }
}

/// How many pairs of one of the first `m` modules and a candidate name are not in `visited`.
pub open spec fn unvisited_upto(names: Seq<Seq<char>>, visited: Set<(int, Seq<char>)>, m: int) -> nat
    decreases m,
{
    if m <= 0 {
        0
    } else {
        unvisited_upto(names, visited, m - 1) + unvisited_in(names, visited, m - 1, names.len() as int)
    }
}

/// How many pairs of a module and a candidate name are still to visit.
pub open spec fn unvisited(program: ProgramIr, visited: Set<(int, Seq<char>)>) -> nat {
    unvisited_upto(candidate_names(program), visited, program.modules@.len() as int)
}

proof fn lemma_unvisited_in_mono(names: Seq<Seq<char>>, a: Set<(int, Seq<char>)>, b: Set<(int, Seq<char>)>, m: int, i: int)
    requires
        a.subset_of(b),
    ensures
        unvisited_in(names, b, m, i) <= unvisited_in(names, a, m, i),
    decreases i,
{
    if i > 0 {
        lemma_unvisited_in_mono(names, a, b, m, i - 1);
    }
}

proof fn lemma_unvisited_upto_mono(names: Seq<Seq<char>>, a: Set<(int, Seq<char>)>, b: Set<(int, Seq<char>)>, m: int)
    requires
        a.subset_of(b),
    ensures
        unvisited_upto(names, b, m) <= unvisited_upto(names, a, m),
    decreases m,
{
    if m > 0 {
        lemma_unvisited_upto_mono(names, a, b, m - 1);
        lemma_unvisited_in_mono(names, a, b, m - 1, names.len() as int);
    }
}

proof fn lemma_unvisited_in_insert(names: Seq<Seq<char>>, a: Set<(int, Seq<char>)>, m: int, i: int, j: int)
    requires
        0 <= j < i <= names.len(),
        !a.contains((m, names[j])),
    ensures
        unvisited_in(names, a.insert((m, names[j])), m, i) < unvisited_in(names, a, m, i),
    decreases i,
{
    let b = a.insert((m, names[j]));
    lemma_unvisited_in_mono(names, a, b, m, i - 1);
    if j < i - 1 {
        lemma_unvisited_in_insert(names, a, m, i - 1, j);
    }
}

proof fn lemma_unvisited_upto_insert(names: Seq<Seq<char>>, a: Set<(int, Seq<char>)>, m: int, k: int, j: int)
    requires
        0 <= k < m,
        0 <= j < names.len(),
        !a.contains((k, names[j])),
    ensures
        unvisited_upto(names, a.insert((k, names[j])), m) < unvisited_upto(names, a, m),
    decreases m,
{
    let b = a.insert((k, names[j]));
    lemma_unvisited_upto_mono(names, a, b, m - 1);
    lemma_unvisited_in_mono(names, a, b, m - 1, names.len() as int);
    if k < m - 1 {
        lemma_unvisited_upto_insert(names, a, m - 1, k, j);
    } else {
        lemma_unvisited_in_insert(names, a, k, names.len() as int, j);
    }
}

/// Visiting more pairs leaves no more to visit, and visiting a new pair of a
/// module and a candidate name leaves fewer.
pub proof fn lemma_unvisited(program: ProgramIr, a: Set<(int, Seq<char>)>, b: Set<(int, Seq<char>)>)
    ensures
        a.subset_of(b) ==> unvisited(program, b) <= unvisited(program, a),
        forall|m: int, name: Seq<char>|
            0 <= m < program.modules@.len() && candidate_names(program).contains(name) && !a.contains((m, name)) ==> #[trigger] unvisited(
                program,
                a.insert((m, name)),
            ) < unvisited(program, a),
{
    let names = candidate_names(program);
    let n = program.modules@.len() as int;
    if a.subset_of(b) {
        lemma_unvisited_upto_mono(names, a, b, n);
    }
    assert forall|m: int, name: Seq<char>|
        0 <= m < n && names.contains(name) && !a.contains((m, name)) implies #[trigger] unvisited(program, a.insert((m, name)))
            < unvisited(program, a) by {
        let j = choose|j: int| 0 <= j < names.len() && names[j] == name;
        lemma_unvisited_upto_insert(names, a, n, m, j);
    }
}


/// What an imported binding refers to, as plain values.
pub enum TargetView {
    Binding(ProgramBindingId),
    Namespace(ModuleTarget),
    OpaqueExport(u64, Seq<char>),
    ExternalExport(u64, Seq<char>),
    Unresolved,
}

/// The plain values of a target.
pub open spec fn target_view(target: ImportedBindingTarget) -> TargetView {
    match target {
        ImportedBindingTarget::Binding(b) => TargetView::Binding(b),
        ImportedBindingTarget::Namespace(t) => TargetView::Namespace(t),
        ImportedBindingTarget::OpaqueExport { module, name } => TargetView::OpaqueExport(module, name@),
        ImportedBindingTarget::ExternalExport { module, name } => TargetView::ExternalExport(module, name@),
        ImportedBindingTarget::Unresolved => TargetView::Unresolved,
    }
}

/// The outcome of resolving an export name of a module.
pub enum Resolution {
    /// The name resolves to one target.
    Found(TargetView),
    /// The module does not export the name.
    NotFound,
    /// The name cannot be resolved to one target.
    Unresolved,
}

/// Resolves the export `name` of module `m`, having visited the pairs in
/// `visited`; gives the outcome and the pairs visited afterwards.
pub open spec fn resolve_export(program: ProgramIr, m: int, name: Seq<char>, visited: Set<(int, Seq<char>)>) -> (Resolution, Set<
    (int, Seq<char>),
>)
    decreases unvisited(program, visited), 0int, 0int,
    when candidate_names(program).contains(name)
{
    if visited.contains((m, name)) {
        (Resolution::NotFound, visited)
    } else if !(0 <= m < program.modules@.len()) {
        (Resolution::Unresolved, visited.insert((m, name)))
    } else {
        let v1 = visited.insert((m, name));
        let module = program.modules@[m];
        proof {
            lemma_unvisited(program, visited, visited);
        }
        if has_named_export(module, name) {
            let k = choose|k: int| first_named_export(module, name, k);
            resolve_explicit(program, m, k, v1)
        } else if name == default_name() {
            (Resolution::NotFound, v1)
        } else {
            resolve_stars(program, m, name, 0, v1, None)
        }
    }
}

/// Where the request an export of module `m` re-exports from leads, if anywhere.
pub open spec fn reexport_request_target(program: ProgramIr, m: int, export: ModuleExport) -> Option<ModuleTarget> {
    match export_request(export) {
        Some((specifier, attributes)) => unique_target(program, m, ModuleRequestKind::ReExport, specifier, attributes),
        None => None,
    }
}

/// Resolves export `k` of module `m`, which carries the name asked for.
pub open spec fn resolve_explicit(program: ProgramIr, m: int, k: int, visited: Set<(int, Seq<char>)>) -> (Resolution, Set<
    (int, Seq<char>),
>)
    decreases unvisited(program, visited), 2int, 0int,
{
    let export = program.modules@[m].exports@[k];
    match export {
        ModuleExport::Local { binding, .. } => (
            Resolution::Found(TargetView::Binding(ProgramBindingId { module: m as u32, binding: binding as u32 })),
            visited,
        ),
        ModuleExport::Indirect { imported, .. } => match reexport_request_target(program, m, export) {
            Some(t) => resolve_target(program, t, imported@, visited),
            None => (Resolution::Unresolved, visited),
        },
        ModuleExport::Namespace { .. } => match reexport_request_target(program, m, export) {
            Some(t) => (Resolution::Found(TargetView::Namespace(t)), visited),
            None => (Resolution::Unresolved, visited),
        },
        _ => (Resolution::NotFound, visited),
    }
}

/// Resolves the export `name` of the module a request leads to.
pub open spec fn resolve_target(program: ProgramIr, target: ModuleTarget, name: Seq<char>, visited: Set<(int, Seq<char>)>) -> (
    Resolution,
    Set<(int, Seq<char>)>,
)
    decreases unvisited(program, visited), 1int, 0int,
{
    match target {
        ModuleTarget::Internal(x) => resolve_export(program, x as int, name, visited),
        ModuleTarget::Opaque(key) => (Resolution::Found(TargetView::OpaqueExport(key, name)), visited),
        ModuleTarget::External(key) => (Resolution::Found(TargetView::ExternalExport(key, name)), visited),
    }
}

/// Resolves `name` through the star exports of module `m` from export `k`
/// on, `found` being what the earlier ones resolved it to.
pub open spec fn resolve_stars(
    program: ProgramIr,
    m: int,
    name: Seq<char>,
    k: int,
    visited: Set<(int, Seq<char>)>,
    found: Option<TargetView>,
) -> (Resolution, Set<(int, Seq<char>)>)
    decreases unvisited(program, visited), 2int, program.modules@[m].exports@.len() - k,
{
    let exports = program.modules@[m].exports@;
    if k < 0 || k >= exports.len() {
        (
            match found {
                Some(x) => Resolution::Found(x),
                None => Resolution::NotFound,
            },
            visited,
        )
    } else if !(exports[k] is Star) {
        resolve_stars(program, m, name, k + 1, visited, found)
    } else {
        match reexport_request_target(program, m, exports[k]) {
            None => (Resolution::Unresolved, visited),
            Some(t) => {
                let (r, v2) = resolve_target(program, t, name, visited);
                let v3 = visited.union(v2);
                proof {
                    lemma_unvisited(program, visited, v3);
                }
                match r {
                    Resolution::NotFound => resolve_stars(program, m, name, k + 1, v3, found),
                    Resolution::Unresolved => (Resolution::Unresolved, v3),
                    Resolution::Found(c) => match found {
                        Some(e) => if e != c {
                            (Resolution::Unresolved, v3)
                        } else {
                            resolve_stars(program, m, name, k + 1, v3, found)
                        },
                        None => resolve_stars(program, m, name, k + 1, v3, Some(c)),
                    },
                }
            },
        }
    }
}


/// The pairs of a list of visited modules and names.
pub open spec fn visited_set(visited: Seq<(usize, String)>) -> Set<(int, Seq<char>)> {
    Set::new(|x: (int, Seq<char>)| exists|i: int| 0 <= i < visited.len() && visited[i].0 as int == x.0 && visited[i].1@ == x.1)
}

/// The outcome of resolving an export name.
enum ExportResolution {
    Found(ImportedBindingTarget),
    NotFound,
    Unresolved,
}

spec fn resolution_view(r: ExportResolution) -> Resolution {
    match r {
        ExportResolution::Found(t) => Resolution::Found(target_view(t)),
        ExportResolution::NotFound => Resolution::NotFound,
        ExportResolution::Unresolved => Resolution::Unresolved,
    }
}

/// Whether two targets are the same.
fn same_target(a: &ImportedBindingTarget, b: &ImportedBindingTarget) -> (r: bool)
    ensures
        r == (target_view(*a) == target_view(*b)),
{
    match (a, b) {
        (ImportedBindingTarget::Binding(x), ImportedBindingTarget::Binding(y)) => *x == *y,
        (ImportedBindingTarget::Namespace(x), ImportedBindingTarget::Namespace(y)) => *x == *y,
        (ImportedBindingTarget::OpaqueExport { module: x, name: n }, ImportedBindingTarget::OpaqueExport { module: y, name: o }) => *x
            == *y && *n == *o,
        (ImportedBindingTarget::ExternalExport { module: x, name: n }, ImportedBindingTarget::ExternalExport { module: y, name: o }) => *x
            == *y && *n == *o,
        (ImportedBindingTarget::Unresolved, ImportedBindingTarget::Unresolved) => true,
        _ => false,
    }
}

/// Whether `visited` holds module `m` and `name`.
fn was_visited(visited: &Vec<(usize, String)>, m: usize, name: &String) -> (r: bool)
    ensures
        r == visited_set(visited@).contains((m as int, name@)),
{
    let mut i: usize = 0;
    while i < visited.len()
        invariant
            i <= visited@.len(),
            forall|j: int| 0 <= j < i ==> !(visited@[j].0 == m && visited@[j].1@ == name@),
        decreases visited@.len() - i,
    {
        if visited[i].0 == m && visited[i].1 == *name {
            return true;
        }
        i = i + 1;
    }
    false
}

/// Marks module `m` and `name` visited.
fn visit(visited: Vec<(usize, String)>, m: usize, name: &String) -> (out: Vec<(usize, String)>)
    ensures
        visited_set(out@) == visited_set(visited@).insert((m as int, name@)),
{
    let mut out = visited;
    let ghost before = out@;
    out.push((m, name.clone()));
    proof {
        assert forall|x: (int, Seq<char>)| #[trigger] visited_set(out@).contains(x) <==> visited_set(before).insert((m as int, name@)).contains(x) by {
            if visited_set(out@).contains(x) {
                let i = choose|i: int| 0 <= i < out@.len() && out@[i].0 as int == x.0 && out@[i].1@ == x.1;
                if i < before.len() {
                    assert(before[i] == out@[i]);
                }
            }
            if visited_set(before).contains(x) {
                let i = choose|i: int| 0 <= i < before.len() && before[i].0 as int == x.0 && before[i].1@ == x.1;
                assert(out@[i] == before[i]);
            }
            if x == (m as int, name@) {
                assert(out@[before.len() as int].0 as int == x.0);
            }
        }
        assert(visited_set(out@) =~= visited_set(before).insert((m as int, name@)));
    }
    out
}

/// Resolves the export `name` of module `m`.
fn resolve_export_of(program: &ProgramIr, m: usize, name: &String, visited: Vec<(usize, String)>) -> (out: (ExportResolution, Vec<(usize, String)>))
    requires
        program.wf(),
        candidate_names(*program).contains(name@),
    ensures
        (resolution_view(out.0), visited_set(out.1@)) == resolve_export(*program, m as int, name@, visited_set(visited@)),
        visited_set(visited@).subset_of(visited_set(out.1@)),
    decreases unvisited(*program, visited_set(visited@)), 0int, 0int,
{
    let ghost p = *program;
    let ghost v0 = visited_set(visited@);
    if was_visited(&visited, m, name) {
        return (ExportResolution::NotFound, visited);
    }
    let marked = visit(visited, m, name);
    if m >= program.modules.len() {
        return (ExportResolution::Unresolved, marked);
    }
    let ghost v1 = visited_set(marked@);
    proof {
        lemma_unvisited(p, v0, v1);
        assert(v0.subset_of(v1));
    }
    let module = &program.modules[m];
    proof {
        assert(p.modules@[m as int] == *module);
    }
    let mut k: usize = 0;
    while k < module.exports.len()
        invariant
            *module == p.modules@[m as int],
            p == *program,
            program.wf(),
            m < p.modules@.len(),
            v0 == visited_set(visited@),
            v1 == visited_set(marked@),
            v1 == v0.insert((m as int, name@)),
            !v0.contains((m as int, name@)),
            candidate_names(p).contains(name@),
            unvisited(p, v1) < unvisited(p, v0),
            k <= module.exports@.len(),
            forall|k2: int| #![trigger module.exports@[k2]] 0 <= k2 < k ==> exported_name(module.exports@[k2]) != Some(name@),
        decreases module.exports@.len() - k,
    {
        if export_named(&module.exports[k], Some(name)) {
            proof {
                assert(first_named_export(*module, name@, k as int));
                assert(has_named_export(*module, name@));
                let k2 = choose|k2: int| first_named_export(*module, name@, k2);
                if k2 != k {
                    if k2 < k {
                        assert(exported_name(module.exports@[k2]) != Some(name@));
                    } else {
                        assert(exported_name(module.exports@[k as int]) != Some(name@));
                    }
                }
            }
            return resolve_explicit_of(program, m, k, marked);
        }
        k = k + 1;
    }
    proof {
        assert(!has_named_export(*module, name@));
    }
    if is_default_name(name) {
        return (ExportResolution::NotFound, marked);
    }
    let mut current = marked;
    let mut found: Option<ImportedBindingTarget> = None;
    let ghost goal = resolve_stars(p, m as int, name@, 0, v1, None);
    proof {
        assert(name@ != default_name());
        assert(resolve_export(p, m as int, name@, v0) == goal);
    }
    let mut k: usize = 0;
    while k < module.exports.len()
        invariant
            program.wf(),
            p == *program,
            *module == p.modules@[m as int],
            m < p.modules@.len(),
            candidate_names(p).contains(name@),
            k <= module.exports@.len(),
            v0 == visited_set(visited@),
            resolve_export(p, m as int, name@, v0) == goal,
            v1.subset_of(visited_set(current@)),
            unvisited(p, v1) < unvisited(p, v0),
            !v0.contains((m as int, name@)),
            v1 == v0.insert((m as int, name@)),
            resolve_stars(p, m as int, name@, k as int, visited_set(current@), match found {
                Some(t) => Some(target_view(t)),
                None => None,
            }) == goal,
        decreases module.exports@.len() - k,
    {
        let star = match &module.exports[k] {
            ModuleExport::Star { .. } => true,
            _ => false,
        };
        if star {
            let (specifier, attributes) = match export_parts(&module.exports[k]) {
                Some(parts) => parts,
                None => {
                    proof {
                        assert(false);
                    }
                    return (ExportResolution::Unresolved, current);
                },
            };
            match resolve_request(program, m, ModuleRequestKind::ReExport, specifier, attributes) {
                None => {
                    return (ExportResolution::Unresolved, current);
                },
                Some(t) => {
                    let ghost before = visited_set(current@);
                    proof {
                        lemma_unvisited(p, v1, before);
                        lemma_unvisited(p, v0, v0);
                    }
                    let (r, after) = resolve_target_of(program, t, name, current);
                    proof {
                        assert(before.union(visited_set(after@)) =~= visited_set(after@));
                    }
                    current = after;
                    match r {
                        ExportResolution::NotFound => {},
                        ExportResolution::Unresolved => {
                            return (ExportResolution::Unresolved, current);
                        },
                        ExportResolution::Found(candidate) => {
                            match found {
                                Some(existing) => {
                                    if !same_target(&existing, &candidate) {
                                        return (ExportResolution::Unresolved, current);
                                    }
                                    found = Some(existing);
                                },
                                None => {
                                    found = Some(candidate);
                                },
                            }
                        },
                    }
                },
            }
        }
        k = k + 1;
    }
    match found {
        Some(t) => (ExportResolution::Found(t), current),
        None => (ExportResolution::NotFound, current),
    }
}


/// Resolves export `k` of module `m`, which carries the name asked for.
fn resolve_explicit_of(program: &ProgramIr, m: usize, k: usize, visited: Vec<(usize, String)>) -> (out: (ExportResolution, Vec<(usize, String)>))
    requires
        program.wf(),
        m < program.modules@.len(),
        k < program.modules@[m as int].exports@.len(),
    ensures
        (resolution_view(out.0), visited_set(out.1@)) == resolve_explicit(*program, m as int, k as int, visited_set(visited@)),
        visited_set(visited@).subset_of(visited_set(out.1@)),
    decreases unvisited(*program, visited_set(visited@)), 2int, 0int,
{
    let ghost p = *program;
    let export = &program.modules[m].exports[k];
    proof {
        assert(p.modules@[m as int].wf());
        assert(p.modules@[m as int].exports@[k as int] == *export);
        lemma_candidates(p);
        let _ = p.modules@[m as int].exports@[k as int];
    }
    match export {
        ModuleExport::Local { binding, .. } => {
            proof {
                assert(export_binding(*export) == Some(*binding));
            }
            let target = ImportedBindingTarget::Binding(ProgramBindingId { module: m as u32, binding: *binding as u32 });
            (ExportResolution::Found(target), visited)
        },
        ModuleExport::Indirect { source, attributes, imported, .. } => {
            match resolve_request(program, m, ModuleRequestKind::ReExport, source, attributes) {
                Some(t) => resolve_target_of(program, t, imported, visited),
                None => (ExportResolution::Unresolved, visited),
            }
        },
        ModuleExport::Namespace { source, attributes, .. } => {
            match resolve_request(program, m, ModuleRequestKind::ReExport, source, attributes) {
                Some(t) => (ExportResolution::Found(ImportedBindingTarget::Namespace(t)), visited),
                None => (ExportResolution::Unresolved, visited),
            }
        },
        _ => (ExportResolution::NotFound, visited),
    }
}

/// Resolves the export `name` of the module a request leads to.
fn resolve_target_of(program: &ProgramIr, target: ModuleTarget, name: &String, visited: Vec<(usize, String)>) -> (out: (
    ExportResolution,
    Vec<(usize, String)>,
))
    requires
        program.wf(),
        candidate_names(*program).contains(name@),
    ensures
        (resolution_view(out.0), visited_set(out.1@)) == resolve_target(*program, target, name@, visited_set(visited@)),
        visited_set(visited@).subset_of(visited_set(out.1@)),
    decreases unvisited(*program, visited_set(visited@)), 1int, 0int,
{
    match target {
        ModuleTarget::Internal(x) => resolve_export_of(program, x, name, visited),
        ModuleTarget::Opaque(key) => (ExportResolution::Found(ImportedBindingTarget::OpaqueExport { module: key, name: name.clone() }), visited),
        ModuleTarget::External(key) => (ExportResolution::Found(ImportedBindingTarget::ExternalExport { module: key, name: name.clone() }), visited),
    }
}


/// What the name `name` of the module a request leads to resolves to, on its own.
pub open spec fn resolved_name(program: ProgramIr, target: ModuleTarget, name: Seq<char>) -> TargetView {
    match resolve_target(program, target, name, Set::empty()).0 {
        Resolution::Found(x) => x,
        _ => TargetView::Unresolved,
    }
}

/// What import `i` of module `m` resolves to: the namespace of the module its
/// request leads to, or the name it asks for there; unresolved for a bare
/// import or a request that does not lead to one target.
pub open spec fn resolved_import(program: ProgramIr, m: int, i: int) -> TargetView {
    let import = program.modules@[m].imports@[i];
    let request = import_request(import);
    match unique_target(program, m, ModuleRequestKind::StaticImport, request.0, request.1) {
        None => TargetView::Unresolved,
        Some(t) => match import {
            ModuleImport::Bare { .. } => TargetView::Unresolved,
            ModuleImport::Namespace { .. } => TargetView::Namespace(t),
            _ => resolved_name(program, t, import_candidate(import)),
        },
    }
}

/// No two imports of a module declare the same binding.
pub open spec fn imports_distinct(program: ProgramIr) -> bool {
    forall|m: int, i1: int, i2: int|
        #![trigger program.modules@[m].imports@[i1], program.modules@[m].imports@[i2]]
        0 <= m < program.modules@.len() && 0 <= i1 < program.modules@[m].imports@.len() && 0 <= i2 < program.modules@[m].imports@.len()
            && i1 != i2 && import_binding(program.modules@[m].imports@[i1]) is Some ==> import_binding(program.modules@[m].imports@[i1])
            != import_binding(program.modules@[m].imports@[i2])
}

/// A resolved target names a binding or a module of the program when it
/// names one of the program at all.
pub open spec fn target_in_range(program: ProgramIr, x: TargetView) -> bool {
    match x {
        TargetView::Binding(b) => b.module < program.modules@.len() && b.binding < program.modules@[b.module as int].bindings@.len(),
        TargetView::Namespace(ModuleTarget::Internal(y)) => y < program.modules@.len(),
        _ => true,
    }
}

/// A found resolution names a target in range.
pub open spec fn resolution_in_range(program: ProgramIr, r: Resolution) -> bool {
    r matches Resolution::Found(x) ==> target_in_range(program, x)
}

/// Where a request leads inside the program, it leads to a module of it.
proof fn lemma_unique_in_range(
    program: ProgramIr,
    importer: int,
    kind: ModuleRequestKind,
    specifier: Seq<char>,
    attributes: Seq<(Seq<char>, Seq<char>)>,
)
    requires
        reachability_ready(program),
    ensures
        unique_target(program, importer, kind, specifier, attributes) matches Some(ModuleTarget::Internal(x)) ==> x
            < program.modules@.len(),
{
    let deps = program.dependencies@;
    if exists|i: int| #![trigger deps[i]] 0 <= i < deps.len() && crate::program_reachability::answers(deps[i], importer, kind, specifier, attributes) {
        let i = choose|i: int| #![trigger deps[i]] 0 <= i < deps.len() && crate::program_reachability::answers(deps[i], importer, kind, specifier, attributes);
        assert(deps[i].target matches ModuleTarget::Internal(x) ==> x < program.modules@.len());
    }
}

/// The module an export re-exports from, when inside the program, is one of it.
proof fn lemma_reexport_in_range(program: ProgramIr, m: int, export: ModuleExport)
    requires
        reachability_ready(program),
    ensures
        reexport_request_target(program, m, export) matches Some(ModuleTarget::Internal(x)) ==> x < program.modules@.len(),
{
    if let Some((specifier, attributes)) = export_request(export) {
        lemma_unique_in_range(program, m, ModuleRequestKind::ReExport, specifier, attributes);
    }
}

/// A module with an export named `name` has a first one.
proof fn lemma_first_named_exists(module: ModuleIr, name: Seq<char>, k0: int)
    requires
        0 <= k0 < module.exports@.len(),
        crate::program_reachability::exported_name(module.exports@[k0]) == Some(name),
    ensures
        exists|k: int| first_named_export(module, name, k),
    decreases k0,
{
    if exists|k2: int| #![trigger module.exports@[k2]] 0 <= k2 < k0 && crate::program_reachability::exported_name(module.exports@[k2]) == Some(name) {
        let k2 = choose|k2: int| #![trigger module.exports@[k2]] 0 <= k2 < k0 && crate::program_reachability::exported_name(module.exports@[k2]) == Some(name);
        lemma_first_named_exists(module, name, k2);
    } else {
        assert(first_named_export(module, name, k0));
    }
}

/// Resolving an export name finds only targets in range.
proof fn lemma_export_in_range(program: ProgramIr, m: int, name: Seq<char>, visited: Set<(int, Seq<char>)>)
    requires
        reachability_ready(program),
        candidate_names(program).contains(name),
    ensures
        resolution_in_range(program, resolve_export(program, m, name, visited).0),
    decreases unvisited(program, visited), 0int, 0int,
{
    if !visited.contains((m, name)) && 0 <= m < program.modules@.len() {
        let v1 = visited.insert((m, name));
        lemma_unvisited(program, visited, visited);
        let module = program.modules@[m];
        if has_named_export(module, name) {
            let k0 = choose|k: int| #![trigger module.exports@[k]] 0 <= k < module.exports@.len() && crate::program_reachability::exported_name(module.exports@[k]) == Some(name);
            lemma_first_named_exists(module, name, k0);
            let k = choose|k: int| first_named_export(module, name, k);
            lemma_explicit_in_range(program, m, k, v1);
        } else if name != default_name() {
            lemma_stars_in_range(program, m, name, 0, v1, None);
        }
    }
}

/// Resolving an export of a module finds only targets in range.
proof fn lemma_explicit_in_range(program: ProgramIr, m: int, k: int, visited: Set<(int, Seq<char>)>)
    requires
        reachability_ready(program),
        0 <= m < program.modules@.len(),
        0 <= k < program.modules@[m].exports@.len(),
    ensures
        resolution_in_range(program, resolve_explicit(program, m, k, visited).0),
    decreases unvisited(program, visited), 2int, 0int,
{
    let export = program.modules@[m].exports@[k];
    assert(program.modules@[m].wf());
    lemma_reexport_in_range(program, m, export);
    match export {
        ModuleExport::Local { binding, .. } => {
            assert(export_binding(program.modules@[m].exports@[k]) == Some(binding));
            assert(binding < program.modules@[m].bindings@.len());
        },
        ModuleExport::Indirect { imported, .. } => {
            if let Some(t) = reexport_request_target(program, m, export) {
                lemma_candidates(program);
                assert(export_candidate(program.modules@[m].exports@[k]) == imported@);
                lemma_target_in_range(program, t, imported@, visited);
            }
        },
        _ => {},
    }
}

/// Resolving a name in the module a request leads to finds only targets in range.
proof fn lemma_target_in_range(program: ProgramIr, target: ModuleTarget, name: Seq<char>, visited: Set<(int, Seq<char>)>)
    requires
        reachability_ready(program),
        candidate_names(program).contains(name),
    ensures
        resolution_in_range(program, resolve_target(program, target, name, visited).0),
    decreases unvisited(program, visited), 1int, 0int,
{
    if let ModuleTarget::Internal(x) = target {
        lemma_export_in_range(program, x as int, name, visited);
    }
}

/// Resolving a name through star exports finds only targets in range.
proof fn lemma_stars_in_range(
    program: ProgramIr,
    m: int,
    name: Seq<char>,
    k: int,
    visited: Set<(int, Seq<char>)>,
    found: Option<TargetView>,
)
    requires
        reachability_ready(program),
        0 <= m < program.modules@.len(),
        candidate_names(program).contains(name),
        found matches Some(x) ==> target_in_range(program, x),
    ensures
        resolution_in_range(program, resolve_stars(program, m, name, k, visited, found).0),
    decreases unvisited(program, visited), 2int, program.modules@[m].exports@.len() - k,
{
    let exports = program.modules@[m].exports@;
    if 0 <= k < exports.len() {
        if !(exports[k] is Star) {
            lemma_stars_in_range(program, m, name, k + 1, visited, found);
        } else {
            lemma_reexport_in_range(program, m, exports[k]);
            if let Some(t) = reexport_request_target(program, m, exports[k]) {
                let (r, v2) = resolve_target(program, t, name, visited);
                let v3 = visited.union(v2);
                lemma_target_in_range(program, t, name, visited);
                lemma_unvisited(program, visited, v3);
                match r {
                    Resolution::NotFound => {
                        lemma_stars_in_range(program, m, name, k + 1, v3, found);
                    },
                    Resolution::Found(c) => {
                        if found is None {
                            lemma_stars_in_range(program, m, name, k + 1, v3, Some(c));
                        } else if found == Some(c) {
                            lemma_stars_in_range(program, m, name, k + 1, v3, found);
                        }
                    },
                    _ => {},
                }
            }
        }
    }
}

/// Every import of a program whose dependencies are in range resolves to a
/// target in range.
pub proof fn lemma_resolved_import_in_range(program: ProgramIr, m: int, i: int)
    requires
        reachability_ready(program),
        0 <= m < program.modules@.len(),
        0 <= i < program.modules@[m].imports@.len(),
    ensures
        target_in_range(program, resolved_import(program, m, i)),
{
    let import = program.modules@[m].imports@[i];
    let request = import_request(import);
    lemma_unique_in_range(program, m, ModuleRequestKind::StaticImport, request.0, request.1);
    if let Some(t) = unique_target(program, m, ModuleRequestKind::StaticImport, request.0, request.1) {
        lemma_candidates(program);
        lemma_target_in_range(program, t, import_candidate(import), Set::empty());
    }
}

/// A resolved target that names a module of the program names one in the
/// dependency closure of the entry modules.
pub open spec fn target_in_closure(program: ProgramIr, x: TargetView) -> bool {
    match x {
        TargetView::Binding(b) => in_dependency_closure(program, b.module as int),
        TargetView::Namespace(ModuleTarget::Internal(y)) => in_dependency_closure(program, y as int),
        _ => true,
    }
}

/// A found resolution names a target in the dependency closure.
pub open spec fn resolution_in_closure(program: ProgramIr, r: Resolution) -> bool {
    r matches Resolution::Found(x) ==> target_in_closure(program, x)
}

/// The module an export of a module in the closure re-exports from is in it.
proof fn lemma_reexport_in_closure(program: ProgramIr, m: int, export: ModuleExport)
    requires
        reachability_ready(program),
        in_dependency_closure(program, m),
    ensures
        reexport_request_target(program, m, export) matches Some(ModuleTarget::Internal(x)) ==> in_dependency_closure(
            program,
            x as int,
        ),
{
    if let Some((specifier, attributes)) = export_request(export) {
        lemma_unique_target_depends(program, m, ModuleRequestKind::ReExport, specifier, attributes);
    }
}

/// Resolving an export name of a module in the closure finds targets in it.
proof fn lemma_export_in_closure(program: ProgramIr, m: int, name: Seq<char>, visited: Set<(int, Seq<char>)>)
    requires
        reachability_ready(program),
        candidate_names(program).contains(name),
        in_dependency_closure(program, m),
    ensures
        resolution_in_closure(program, resolve_export(program, m, name, visited).0),
    decreases unvisited(program, visited), 0int, 0int,
{
    if !visited.contains((m, name)) && 0 <= m < program.modules@.len() {
        let v1 = visited.insert((m, name));
        lemma_unvisited(program, visited, visited);
        let module = program.modules@[m];
        if has_named_export(module, name) {
            let k0 = choose|k: int| #![trigger module.exports@[k]] 0 <= k < module.exports@.len() && crate::program_reachability::exported_name(module.exports@[k]) == Some(name);
            lemma_first_named_exists(module, name, k0);
            let k = choose|k: int| first_named_export(module, name, k);
            lemma_explicit_in_closure(program, m, k, v1);
        } else if name != default_name() {
            lemma_stars_in_closure(program, m, name, 0, v1, None);
        }
    }
}

/// Resolving an export of a module in the closure finds targets in it.
proof fn lemma_explicit_in_closure(program: ProgramIr, m: int, k: int, visited: Set<(int, Seq<char>)>)
    requires
        reachability_ready(program),
        0 <= m < program.modules@.len(),
        0 <= k < program.modules@[m].exports@.len(),
        in_dependency_closure(program, m),
    ensures
        resolution_in_closure(program, resolve_explicit(program, m, k, visited).0),
    decreases unvisited(program, visited), 2int, 0int,
{
    let export = program.modules@[m].exports@[k];
    lemma_reexport_in_closure(program, m, export);
    match export {
        ModuleExport::Local { binding, .. } => {
            assert((m as u32) as int == m);
        },
        ModuleExport::Indirect { imported, .. } => {
            if let Some(t) = reexport_request_target(program, m, export) {
                lemma_candidates(program);
                assert(export_candidate(program.modules@[m].exports@[k]) == imported@);
                lemma_target_in_closure(program, t, imported@, visited);
            }
        },
        _ => {},
    }
}

/// Resolving a name in a module of the closure that a request leads to
/// finds targets in the closure.
proof fn lemma_target_in_closure(program: ProgramIr, target: ModuleTarget, name: Seq<char>, visited: Set<(int, Seq<char>)>)
    requires
        reachability_ready(program),
        candidate_names(program).contains(name),
        target matches ModuleTarget::Internal(x) ==> in_dependency_closure(program, x as int),
    ensures
        resolution_in_closure(program, resolve_target(program, target, name, visited).0),
    decreases unvisited(program, visited), 1int, 0int,
{
    if let ModuleTarget::Internal(x) = target {
        lemma_export_in_closure(program, x as int, name, visited);
    }
}

/// Resolving a name through the star exports of a module in the closure
/// finds targets in it.
proof fn lemma_stars_in_closure(
    program: ProgramIr,
    m: int,
    name: Seq<char>,
    k: int,
    visited: Set<(int, Seq<char>)>,
    found: Option<TargetView>,
)
    requires
        reachability_ready(program),
        0 <= m < program.modules@.len(),
        candidate_names(program).contains(name),
        in_dependency_closure(program, m),
        found matches Some(x) ==> target_in_closure(program, x),
    ensures
        resolution_in_closure(program, resolve_stars(program, m, name, k, visited, found).0),
    decreases unvisited(program, visited), 2int, program.modules@[m].exports@.len() - k,
{
    let exports = program.modules@[m].exports@;
    if 0 <= k < exports.len() {
        if !(exports[k] is Star) {
            lemma_stars_in_closure(program, m, name, k + 1, visited, found);
        } else {
            lemma_reexport_in_closure(program, m, exports[k]);
            if let Some(t) = reexport_request_target(program, m, exports[k]) {
                let (r, v2) = resolve_target(program, t, name, visited);
                let v3 = visited.union(v2);
                lemma_target_in_closure(program, t, name, visited);
                lemma_unvisited(program, visited, v3);
                match r {
                    Resolution::NotFound => {
                        lemma_stars_in_closure(program, m, name, k + 1, v3, found);
                    },
                    Resolution::Found(c) => {
                        if found is None {
                            lemma_stars_in_closure(program, m, name, k + 1, v3, Some(c));
                        } else if found == Some(c) {
                            lemma_stars_in_closure(program, m, name, k + 1, v3, found);
                        }
                    },
                    _ => {},
                }
            }
        }
    }
}

/// An import of a module in the dependency closure resolves to a target in it.
pub proof fn lemma_resolved_import_in_closure(program: ProgramIr, m: int, i: int)
    requires
        reachability_ready(program),
        0 <= m < program.modules@.len(),
        0 <= i < program.modules@[m].imports@.len(),
        in_dependency_closure(program, m),
    ensures
        target_in_closure(program, resolved_import(program, m, i)),
{
    let import = program.modules@[m].imports@[i];
    let request = import_request(import);
    lemma_unique_target_depends(program, m, ModuleRequestKind::StaticImport, request.0, request.1);
    if let Some(t) = unique_target(program, m, ModuleRequestKind::StaticImport, request.0, request.1) {
        lemma_candidates(program);
        lemma_target_in_closure(program, t, import_candidate(import), Set::empty());
    }
}

/// Resolves the name `name` of the module a request leads to, on its own.
fn resolve_name(program: &ProgramIr, target: ModuleTarget, name: &String) -> (resolved: ImportedBindingTarget)
    requires
        program.wf(),
        candidate_names(*program).contains(name@),
    ensures
        target_view(resolved) == resolved_name(*program, target, name@),
{
    let visited: Vec<(usize, String)> = Vec::new();
    proof {
        assert(visited_set(visited@) =~= Set::<(int, Seq<char>)>::empty());
    }
    let (r, _) = resolve_target_of(program, target, name, visited);
    match r {
        ExportResolution::Found(t) => t,
        _ => ImportedBindingTarget::Unresolved,
    }
}

/// Resolves import `i` of module `m`.
fn resolve_import(program: &ProgramIr, m: usize, i: usize) -> (resolved: ImportedBindingTarget)
    requires
        program.wf(),
        m < program.modules@.len(),
        i < program.modules@[m as int].imports@.len(),
    ensures
        target_view(resolved) == resolved_import(*program, m as int, i as int),
{
    let ghost p = *program;
    let import = &program.modules[m].imports[i];
    proof {
        assert(p.modules@[m as int].imports@[i as int] == *import);
        lemma_candidates(p);
        let _ = p.modules@[m as int].imports@[i as int];
    }
    let (source, attributes) = import_parts(import);
    match resolve_request(program, m, ModuleRequestKind::StaticImport, source, attributes) {
        None => ImportedBindingTarget::Unresolved,
        Some(t) => match import {
            ModuleImport::Bare { .. } => ImportedBindingTarget::Unresolved,
            ModuleImport::Namespace { .. } => ImportedBindingTarget::Namespace(t),
            ModuleImport::Default { .. } => {
                let name = String::from_str("default");
                proof {
                    reveal_strlit("default");
                    assert(name@ =~= default_name());
                }
                resolve_name(program, t, &name)
            },
            ModuleImport::Named { imported, .. } => resolve_name(program, t, imported),
        },
    }
}

impl ProgramLinkage {
    /// Resolves the imported bindings of `program`: each binding an import
    /// declares refers to what that import resolves to.
    pub fn analyze(program: &ProgramIr) -> (linkage: Self)
        requires
            program.wf(),
            imports_distinct(*program),
        ensures
            linkage.imported@.len() == program.modules@.len(),
            forall|m: int|
                #![trigger linkage.imported@[m]]
                0 <= m < program.modules@.len() ==> linkage.imported@[m]@.len() == program.modules@[m].bindings@.len(),
            forall|m: int, b: int|
                #![trigger linkage.imported@[m]@[b]]
                0 <= m < program.modules@.len() && 0 <= b < program.modules@[m].bindings@.len() ==> match linkage.imported@[m]@[b] {
                    Some(t) => exists|i: int|
                        #![trigger program.modules@[m].imports@[i]]
                        0 <= i < program.modules@[m].imports@.len() && import_binding(program.modules@[m].imports@[i]) == Some(b as usize)
                            && target_view(t) == resolved_import(*program, m, i),
                    None => forall|i: int|
                        #![trigger program.modules@[m].imports@[i]]
                        0 <= i < program.modules@[m].imports@.len() ==> import_binding(program.modules@[m].imports@[i]) != Some(b as usize),
                },
            linkage_resolves(*program, linkage),
            reachability_ready(*program) ==> linkage_ready(*program, linkage),
    {
        let ghost p = *program;
        let mut imported: Vec<Vec<Option<ImportedBindingTarget>>> = Vec::new();
        let mut m: usize = 0;
        while m < program.modules.len()
            invariant
                program.wf(),
                imports_distinct(p),
                p == *program,
                m <= p.modules@.len(),
                imported@.len() == m,
                forall|m2: int| #![trigger imported@[m2]] 0 <= m2 < m ==> imported@[m2]@.len() == p.modules@[m2].bindings@.len(),
                forall|m2: int, b: int|
                    #![trigger imported@[m2]@[b]]
                    0 <= m2 < m && 0 <= b < p.modules@[m2].bindings@.len() ==> match imported@[m2]@[b] {
                        Some(t) => exists|i: int|
                            #![trigger p.modules@[m2].imports@[i]]
                            0 <= i < p.modules@[m2].imports@.len() && import_binding(p.modules@[m2].imports@[i]) == Some(b as usize)
                                && target_view(t) == resolved_import(p, m2, i),
                        None => forall|i: int|
                            #![trigger p.modules@[m2].imports@[i]]
                            0 <= i < p.modules@[m2].imports@.len() ==> import_binding(p.modules@[m2].imports@[i]) != Some(b as usize),
                    },
            decreases p.modules@.len() - m,
        {
            let module = &program.modules[m];
            proof {
                assert(p.modules@[m as int] == *module);
                assert(module.wf());
            }
            let mut row: Vec<Option<ImportedBindingTarget>> = Vec::new();
            let mut b: usize = 0;
            while b < module.bindings.len()
                invariant
                    b <= module.bindings@.len(),
                    row@.len() == b,
                    forall|c: int| #![trigger row@[c]] 0 <= c < b ==> row@[c] is None,
                decreases module.bindings@.len() - b,
            {
                row.push(None);
                b = b + 1;
            }
            let mut i: usize = 0;
            while i < module.imports.len()
                invariant
                    program.wf(),
                    imports_distinct(p),
                    p == *program,
                    m < p.modules@.len(),
                    *module == p.modules@[m as int],
                    module.wf(),
                    i <= module.imports@.len(),
                    row@.len() == module.bindings@.len(),
                    forall|b2: int|
                        #![trigger row@[b2]]
                        0 <= b2 < module.bindings@.len() ==> match row@[b2] {
                            Some(t) => exists|i2: int|
                                #![trigger module.imports@[i2]]
                                0 <= i2 < i && import_binding(module.imports@[i2]) == Some(b2 as usize) && target_view(t) == resolved_import(p, m as int, i2),
                            None => forall|i2: int| #![trigger module.imports@[i2]] 0 <= i2 < i ==> import_binding(module.imports@[i2]) != Some(b2 as usize),
                        },
                decreases module.imports@.len() - i,
            {
                match import_binding_of(&module.imports[i]) {
                    Some(b) => {
                        proof {
                            assert(b < module.bindings@.len());
                        }
                        let target = resolve_import(program, m, i);
                        let ghost old_row = row@;
                        row.set(b, Some(target));
                        proof {
                            assert forall|b2: int|
                                #![trigger row@[b2]]
                                0 <= b2 < module.bindings@.len() implies match row@[b2] {
                                    Some(t) => exists|i2: int|
                                        #![trigger module.imports@[i2]]
                                        0 <= i2 < i + 1 && import_binding(module.imports@[i2]) == Some(b2 as usize) && target_view(t) == resolved_import(p, m as int, i2),
                                    None => forall|i2: int| #![trigger module.imports@[i2]] 0 <= i2 < i + 1 ==> import_binding(module.imports@[i2]) != Some(b2 as usize),
                                } by {
                                if b2 == b as int {
                                    let _ = module.imports@[i as int];
                                } else {
                                    assert(row@[b2] == old_row[b2]);
                                    if let Some(t) = old_row[b2] {
                                        let i2 = choose|i2: int|
                                            #![trigger module.imports@[i2]]
                                            0 <= i2 < i && import_binding(module.imports@[i2]) == Some(b2 as usize) && target_view(t) == resolved_import(p, m as int, i2);
                                        let _ = module.imports@[i2];
                                    }
                                }
                            }
                        }
                    },
                    None => {
                        proof {
                            assert forall|b2: int|
                                #![trigger row@[b2]]
                                0 <= b2 < module.bindings@.len() implies match row@[b2] {
                                    Some(t) => exists|i2: int|
                                        #![trigger module.imports@[i2]]
                                        0 <= i2 < i + 1 && import_binding(module.imports@[i2]) == Some(b2 as usize) && target_view(t) == resolved_import(p, m as int, i2),
                                    None => forall|i2: int| #![trigger module.imports@[i2]] 0 <= i2 < i + 1 ==> import_binding(module.imports@[i2]) != Some(b2 as usize),
                                } by {
                                if let Some(t) = row@[b2] {
                                    let i2 = choose|i2: int|
                                        #![trigger module.imports@[i2]]
                                        0 <= i2 < i && import_binding(module.imports@[i2]) == Some(b2 as usize) && target_view(t) == resolved_import(p, m as int, i2);
                                    let _ = module.imports@[i2];
                                }
                            }
                        }
                    },
                }
                i = i + 1;
            }
            imported.push(row);
            proof {
                assert(imported@[m as int] == row);
            }
            m = m + 1;
        }
        let linkage = ProgramLinkage { imported };
        proof {
            assert forall|m: int, b: int|
                0 <= m < p.modules@.len() && 0 <= b < p.modules@[m].bindings@.len() implies match #[trigger] linkage.spec_imported(
                    program_binding(m, b),
                ) {
                    Some(t) => exists|i: int|
                        #![trigger p.modules@[m].imports@[i]]
                        0 <= i < p.modules@[m].imports@.len() && import_binding(p.modules@[m].imports@[i]) == Some(b as usize)
                            && target_view(t) == resolved_import(p, m, i),
                    None => true,
                } by {
                assert(p.modules@[m].wf());
                assert(program_binding(m, b).module as int == m);
                assert(program_binding(m, b).binding as int == b);
            }
        }
        proof {
            if reachability_ready(p) {
                assert forall|m: int, b: int|
                    0 <= m < p.modules@.len() && 0 <= b < p.modules@[m].bindings@.len() implies match #[trigger] linkage.spec_imported(
                        program_binding(m, b),
                    ) {
                        Some(ImportedBindingTarget::Binding(x)) => x.module < p.modules@.len() && x.binding
                            < p.modules@[x.module as int].bindings@.len(),
                        Some(ImportedBindingTarget::Namespace(ModuleTarget::Internal(x))) => x < p.modules@.len(),
                        _ => true,
                    } by {
                    assert(p.modules@[m].wf());
                    assert(program_binding(m, b).module as int == m);
                    assert(program_binding(m, b).binding as int == b);
                    if let Some(t) = linkage.imported@[m]@[b] {
                        let i = choose|i: int|
                            #![trigger p.modules@[m].imports@[i]]
                            0 <= i < p.modules@[m].imports@.len() && import_binding(p.modules@[m].imports@[i]) == Some(b as usize)
                                && target_view(t) == resolved_import(p, m, i);
                        lemma_resolved_import_in_range(p, m, i);
                    }
                }
            }
        }
        linkage
    }
}

} // verus!
