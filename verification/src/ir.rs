//! The JavaScript module shape that the function analyses read.
//!
//! Functions, values, bindings and regions are numbered from zero within
//! their module or function; an operation names them by these numbers.

use vstd::prelude::*;

use crate::capture::ancestor_at;
use crate::dependence::DependenceSuccessor;
use crate::transfer::BinaryOperator;
use crate::transfer::UnaryOperator;

verus! {

/// How a binding was declared.
#[derive(Debug, Clone, Copy, PartialEq, Eq, Structural, Hash)]
pub enum BindingKind {
    Var,
    Let,
    Const,
    Function,
    Class,
    Import,
    Parameter,
    Catch,
}

/// A binding of the module.
pub struct BindingData {
    /// The function whose scope declares the binding.
    pub declaring_function: usize,
    /// How the binding was declared.
    pub kind: BindingKind,
    /// The binding's source name.
    pub name: String,
}

/// One element of an array literal, naming the region that computes it.
#[derive(Debug, Clone, Copy, PartialEq, Eq, Structural)]
pub enum ArrayLiteralElement {
    Value(usize),
    Spread(usize),
    Elision,
}

/// One entry of an object literal, naming the regions that compute it.
#[derive(Debug, Clone, Copy, PartialEq, Eq, Structural)]
pub enum ObjectLiteralEntry {
    /// A property; `computed_key` is the region of a computed key.
    Property { computed_key: Option<usize>, value: usize },
    /// A `__proto__` entry.
    Prototype(usize),
    /// A method; `computed_key` is the region of a computed key.
    Method { computed_key: Option<usize> },
    /// A spread entry.
    Spread(usize),
}

/// One element of a class body.
#[derive(Debug, Clone, Copy, PartialEq, Eq, Structural)]
pub enum ClassElement {
    Method,
    Field { is_static: bool, has_initializer: bool },
    StaticBlock,
}

/// One attribute of a module request, such as `type: "json"`.
pub struct ModuleAttribute {
    pub key: String,
    pub value: String,
}

/// An import declaration.
pub enum ModuleImport {
    /// `import "source"`.
    Bare { source: String, attributes: Vec<ModuleAttribute> },
    /// `import * as binding from "source"`.
    Namespace { source: String, attributes: Vec<ModuleAttribute>, binding: usize },
    /// `import binding from "source"`.
    Default { source: String, attributes: Vec<ModuleAttribute>, binding: usize },
    /// `import { imported as binding } from "source"`.
    Named { source: String, attributes: Vec<ModuleAttribute>, imported: String, binding: usize },
}

/// An export declaration.
pub enum ModuleExport {
    /// `export {}`.
    Empty,
    /// `export { binding as name }`.
    Local { name: String, binding: usize },
    /// `export { imported as name } from "source"`.
    Indirect { name: String, source: String, attributes: Vec<ModuleAttribute>, imported: String },
    /// `export * as name from "source"`.
    Namespace { name: String, source: String, attributes: Vec<ModuleAttribute> },
    /// `export * from "source"`.
    Star { source: String, attributes: Vec<ModuleAttribute> },
}

/// The local binding an import declares.
pub open spec fn import_binding(import: ModuleImport) -> Option<usize> {
    match import {
        ModuleImport::Bare { .. } => None,
        ModuleImport::Namespace { binding, .. } => Some(binding),
        ModuleImport::Default { binding, .. } => Some(binding),
        ModuleImport::Named { binding, .. } => Some(binding),
    }
}

/// The local binding an export exposes.
pub open spec fn export_binding(export: ModuleExport) -> Option<usize> {
    match export {
        ModuleExport::Local { binding, .. } => Some(binding),
        _ => None,
    }
}

/// What an operation does.
pub enum OperationKind {
    /// A constant; `string` holds the value of a string constant.
    Constant { string: Option<String> },
    RegExpLiteral,
    ArrayLiteral(Vec<ArrayLiteralElement>),
    ObjectLiteral(Vec<ObjectLiteralEntry>),
    LoadThis,
    /// A meta property; `import_meta` for `import.meta`, not for `new.target`.
    MetaProperty { import_meta: bool },
    LoadGlobal { name: String },
    StoreGlobal,
    LoadProperty,
    StoreProperty,
    LoadSuperProperty,
    StoreSuperProperty,
    CreateFunction,
    CreateClass { self_binding: Option<usize>, elements: Vec<ClassElement> },
    LoadArguments,
    /// An `import()`; `has_options` when it passes an options argument.
    DynamicImport { has_options: bool },
    DestructureBinding,
    DestructureAssignment,
    Update,
    Await,
    Yield,
    /// A call; `callee` is the index of the callee among the operands.
    Call { callee: Option<usize> },
    SuperCall,
    Construct,
    /// A tagged template; `value_target` when the tag is a value rather than a property.
    TaggedTemplate { value_target: bool },
    TemplateLiteral,
    JsxElement,
    JsxFragment,
    Debugger,
    InitializeBinding { binding: usize },
    StoreBinding { binding: usize },
    LoadBinding { binding: usize },
    HasPrivateName,
    IsNullish,
    Typeof,
    /// A `delete`; `property` when it deletes a property rather than a binding or a value.
    Delete { property: bool },
    Unary(UnaryOperator),
    Binary(BinaryOperator),
    Jump,
    If,
    Try,
    While,
    DoWhile,
    For,
    ForIn,
    ForOf,
    /// A `switch`; the test region of each case, `None` for `default`.
    Switch { case_tests: Vec<Option<usize>> },
    EnterFinally,
    ResumeCompletion,
    RegionYield,
    Return,
    Throw,
}

/// One operation of a function.
pub struct Operation {
    /// What the operation does; for an invoke, the invoked operation.
    pub kind: OperationKind,
    /// Whether the operation is invoked, its results being the parameters of
    /// its normal successor.
    pub invoked: bool,
    /// The operation's own operands, without successor arguments.
    pub operands: Vec<usize>,
    /// The values the operation defines.
    pub results: Vec<usize>,
    /// The regions the operation owns.
    pub regions: Vec<usize>,
    /// The functions the operation references.
    pub referenced_functions: Vec<usize>,
    /// The bindings the operation references.
    pub referenced_bindings: Vec<usize>,
    /// How the operation's successor edges feed block parameters.
    pub successors: Vec<DependenceSuccessor>,
}

/// What a region belongs to.
#[derive(Debug, Clone, Copy, PartialEq, Eq, Structural)]
pub enum RegionOwner {
    FunctionBody,
    FunctionParameter,
    Operation,
    Detached,
}

/// A region of a function.
pub struct Region {
    /// What the region belongs to.
    pub owner: RegionOwner,
    /// The values the region's yield terminators yield.
    pub yielded: Vec<usize>,
    /// The values of the region's block parameters that a control-flow edge
    /// produces rather than forwards.
    pub produced_parameters: Vec<usize>,
}

/// One function of a module.
pub struct FunctionIr {
    /// The lexically enclosing function; `None` for the module entry.
    pub parent: Option<usize>,
    /// The number of values.
    pub value_count: usize,
    /// The parameter values.
    pub parameters: Vec<usize>,
    /// The binding through which a named function expression refers to itself.
    pub self_binding: Option<usize>,
    /// The operations.
    pub operations: Vec<Operation>,
    /// The regions.
    pub regions: Vec<Region>,
}

/// A JavaScript module.
pub struct ModuleIr {
    /// The functions.
    pub functions: Vec<FunctionIr>,
    /// The bindings.
    pub bindings: Vec<BindingData>,
    /// The import declarations.
    pub imports: Vec<ModuleImport>,
    /// The export declarations, in source order.
    pub exports: Vec<ModuleExport>,
}

/// Every entry of `s` is below `n`.
pub open spec fn all_below(s: Seq<usize>, n: int) -> bool {
    forall|i: int| #![trigger s[i]] 0 <= i < s.len() ==> s[i] < n
}

/// The regions an operation kind names.
pub open spec fn kind_regions_below(kind: OperationKind, n: int) -> bool {
    match kind {
        OperationKind::ArrayLiteral(elements) => forall|i: int|
            #![trigger elements@[i]]
            0 <= i < elements@.len() ==> match elements@[i] {
                ArrayLiteralElement::Value(r) => r < n,
                ArrayLiteralElement::Spread(r) => r < n,
                ArrayLiteralElement::Elision => true,
            },
        OperationKind::ObjectLiteral(entries) => forall|i: int|
            #![trigger entries@[i]]
            0 <= i < entries@.len() ==> match entries@[i] {
                ObjectLiteralEntry::Property { computed_key, value } => value < n && (computed_key matches Some(r) ==> r < n),
                ObjectLiteralEntry::Prototype(r) => r < n,
                ObjectLiteralEntry::Method { computed_key } => computed_key matches Some(r) ==> r < n,
                ObjectLiteralEntry::Spread(r) => r < n,
            },
        OperationKind::Switch { case_tests } => forall|i: int|
            #![trigger case_tests@[i]]
            0 <= i < case_tests@.len() ==> (case_tests@[i] matches Some(r) ==> r < n),
        _ => true,
    }
}

/// The bindings an operation kind names directly.
pub open spec fn kind_bindings_below(kind: OperationKind, n: int) -> bool {
    match kind {
        OperationKind::CreateClass { self_binding, .. } => self_binding matches Some(b) ==> b < n,
        OperationKind::InitializeBinding { binding } => binding < n,
        OperationKind::StoreBinding { binding } => binding < n,
        OperationKind::LoadBinding { binding } => binding < n,
        _ => true,
    }
}

impl Operation {
    /// Every value, region, function and binding the operation names exists.
    pub open spec fn wf(&self, values: int, regions: int, functions: int, bindings: int) -> bool {
        &&& all_below(self.operands@, values)
        &&& all_below(self.results@, values)
        &&& all_below(self.regions@, regions)
        &&& all_below(self.referenced_functions@, functions)
        &&& all_below(self.referenced_bindings@, bindings)
        &&& kind_regions_below(self.kind, regions)
        &&& kind_bindings_below(self.kind, bindings)
        &&& forall|k: int, i: int|
            #![trigger self.successors@[k].produced@[i]]
            0 <= k < self.successors@.len() && 0 <= i < self.successors@[k].produced@.len()
                ==> self.successors@[k].produced@[i] < values
        &&& forall|k: int, i: int|
            #![trigger self.successors@[k].forwarded@[i]]
            0 <= k < self.successors@.len() && 0 <= i < self.successors@[k].forwarded@.len()
                ==> self.successors@[k].forwarded@[i].0 < values && self.successors@[k].forwarded@[i].1 < values
    }
}

impl Region {
    /// Every value the region names exists.
    pub open spec fn wf(&self, values: int) -> bool {
        &&& all_below(self.yielded@, values)
        &&& all_below(self.produced_parameters@, values)
    }
}

impl FunctionIr {
    /// Every value, region, function and binding the function names exists.
    pub open spec fn wf(&self, functions: int, bindings: int) -> bool {
        let values = self.value_count as int;
        let regions = self.regions@.len() as int;
        &&& self.parent matches Some(p) ==> p < functions
        &&& all_below(self.parameters@, values)
        &&& self.self_binding matches Some(b) ==> b < bindings
        &&& forall|j: int|
            #![trigger self.operations@[j]]
            0 <= j < self.operations@.len() ==> self.operations@[j].wf(values, regions, functions, bindings)
        &&& forall|r: int| #![trigger self.regions@[r]] 0 <= r < regions ==> self.regions@[r].wf(values)
    }
}

impl ModuleIr {
    /// The lexical parent of each function.
    pub open spec fn parents(&self) -> Seq<Option<usize>> {
        Seq::new(self.functions@.len(), |f: int| self.functions@[f].parent)
    }

    /// Every name is in range and no function is its own lexical ancestor.
    pub open spec fn wf(&self) -> bool {
        let n = self.functions@.len() as int;
        let b = self.bindings@.len() as int;
        &&& forall|f: int| #![trigger self.functions@[f]] 0 <= f < n ==> self.functions@[f].wf(n, b)
        &&& forall|f: int| 0 <= f < n ==> #[trigger] ancestor_at(self.parents(), f, n as nat) is None
        &&& forall|i: int|
            #![trigger self.bindings@[i]]
            0 <= i < b ==> self.bindings@[i].declaring_function < n
        &&& forall|i: int|
            #![trigger self.imports@[i]]
            0 <= i < self.imports@.len() ==> (import_binding(self.imports@[i]) matches Some(x) ==> x < b)
        &&& forall|i: int|
            #![trigger self.exports@[i]]
            0 <= i < self.exports@.len() ==> (export_binding(self.exports@[i]) matches Some(x) ==> x < b)
    }
}

} // verus!
