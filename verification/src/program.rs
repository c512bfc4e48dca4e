//! A linked JavaScript program: its modules and how their imports resolve.

use vstd::prelude::*;

use crate::call_graph::ProgramFunctionId;
use crate::ir::ModuleAttribute;
use crate::ir::ModuleIr;

verus! {

/// A binding of one module of a program.
#[derive(Debug, Clone, Copy, PartialEq, Eq, Structural, Hash)]
pub struct ProgramBindingId {
    /// The module.
    pub module: u32,
    /// The binding within the module.
    pub binding: u32,
}

/// One operation of one function of a program.
#[derive(Debug, Clone, Copy, PartialEq, Eq, Structural, Hash)]
pub struct ProgramOperationId {
    /// The function.
    pub function: ProgramFunctionId,
    /// The operation within the function.
    pub operation: u32,
}

/// Where a module request leads.
#[derive(Debug, Clone, Copy, PartialEq, Eq, Structural, Hash)]
pub enum ModuleTarget {
    /// A module of the program.
    Internal(usize),
    /// A host-managed module the analyses cannot inspect, by the host's key for it.
    Opaque(u64),
    /// A module left out of the generated program, by the host's key for it.
    External(u64),
}

/// The program-level target an imported binding refers to.
#[derive(Debug, PartialEq, Eq)]
pub enum ImportedBindingTarget {
    /// A live binding of an inspectable module.
    Binding(ProgramBindingId),
    /// A module namespace object.
    Namespace(ModuleTarget),
    /// A named export of a host-managed module.
    OpaqueExport { module: u64, name: String },
    /// A named export of a module left out of the program.
    ExternalExport { module: u64, name: String },
    /// The import does not resolve to one target.
    Unresolved,
}

/// The form of a module request.
#[derive(Debug, Clone, Copy, PartialEq, Eq, Structural, Hash)]
pub enum ModuleRequestKind {
    /// An `import` declaration.
    StaticImport,
    /// An `export ... from` declaration.
    ReExport,
    /// An `import()` expression.
    DynamicImport,
    /// A CommonJS `require` call.
    CommonJsRequire,
}

/// What one module asks the host for.
pub struct ModuleRequest {
    /// The form of the request.
    pub kind: ModuleRequestKind,
    /// The module specifier.
    pub specifier: String,
    /// The import attributes.
    pub attributes: Vec<ModuleAttribute>,
}

/// How the host answers one request of one module.
pub struct ModuleDependency {
    /// The requesting module.
    pub importer: usize,
    /// The request.
    pub request: ModuleRequest,
    /// Where the request leads.
    pub target: ModuleTarget,
}

/// The modules of a program. Function 0 of each module is its entry function.
pub struct ProgramIr {
    /// The modules.
    pub modules: Vec<ModuleIr>,
    /// The modules the host may start the program from.
    pub entry_modules: Vec<usize>,
    /// How the host answers the modules' requests.
    pub dependencies: Vec<ModuleDependency>,
}

/// How the imported bindings of a program resolve.
pub struct ProgramLinkage {
    /// For each module, the target of each binding that it imports, and
    /// `None` for a binding it does not import.
    pub imported: Vec<Vec<Option<ImportedBindingTarget>>>,
}

impl ProgramLinkage {
    /// The target of binding `binding` if it is imported.
    pub open spec fn spec_imported(&self, binding: ProgramBindingId) -> Option<ImportedBindingTarget> {
        if binding.module < self.imported@.len() && binding.binding < self.imported@[binding.module as int]@.len() {
            self.imported@[binding.module as int]@[binding.binding as int]
        } else {
            None
        }
    }

    /// The target referenced by an imported binding; `None` when `binding` is
    /// not imported.
    pub fn imported_binding(&self, binding: ProgramBindingId) -> (target: Option<&ImportedBindingTarget>)
        ensures
            match target {
                Some(t) => self.spec_imported(binding) == Some(*t),
                None => self.spec_imported(binding) is None,
            },
    {
        let m = binding.module as usize;
        let b = binding.binding as usize;
        if m < self.imported.len() && b < self.imported[m].len() {
            match &self.imported[m][b] {
                Some(t) => Some(t),
                None => None,
            }
        } else {
            None
        }
    }
}

impl ProgramIr {
    /// Every module is well formed, every entry names a module, and every
    /// module, function and binding can be numbered by `u32`.
    pub open spec fn wf(&self) -> bool {
        &&& self.modules@.len() <= u32::MAX + 1
        &&& forall|m: int| #![trigger self.modules@[m]] 0 <= m < self.modules@.len() ==> {
            &&& self.modules@[m].wf()
            &&& self.modules@[m].functions@.len() <= u32::MAX + 1
            &&& self.modules@[m].bindings@.len() <= u32::MAX + 1
            &&& self.modules@[m].functions@.len() > 0
        }
        &&& forall|i: int| #![trigger self.entry_modules@[i]] 0 <= i < self.entry_modules@.len() ==> self.entry_modules@[i] < self.modules@.len()
    }
}

} // verus!
