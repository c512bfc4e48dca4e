//! Conservative program-wide call and function-reference topology.
//!
//! The graph models target identity and completeness, not callee behavior.
//! Calls with unresolved runtime targets remain explicit incomplete sites, so
//! an empty target list never means "calls nothing".

use vstd::prelude::*;

use crate::call_graph::CallSiteId;
use crate::call_graph::CallSiteKind;
use crate::call_graph::CallTargetCompleteness;
use crate::call_graph::CallTargetSet;
use crate::call_graph::ProgramFunctionId;
use crate::call_graph::sorted_functions;
use crate::escape_flow::stored_binding;
use crate::flow::is_descendant_of;
use crate::flow::is_direct_eval;
use crate::flow::is_direct_eval_call;
use crate::ir::FunctionIr;
use crate::ir::ModuleExport;
use crate::ir::export_binding;
use crate::ir::ModuleIr;
use crate::ir::Operation;
use crate::ir::OperationKind;
use crate::program::ProgramBindingId;
use crate::program::ProgramIr;
use crate::program::ProgramLinkage;
use crate::program::ProgramOperationId;
use crate::program_targets::ProgramFunctionTargets;
use crate::program_targets::binding_node;
use crate::program_targets::held_functions;
use crate::program_targets::is_reached;
use crate::program_targets::is_visible;
use crate::program_targets::may_hold_unknown;
use crate::program_targets::target_node_count;
use crate::program_targets::value_node;
use crate::program_targets::lemma_exact_target_is_function;
use crate::reference_order::references_sorted;
use crate::reference_order::sort_references;

verus! {

/// Where a program function identity is referenced without a resolved call.
#[derive(Debug, Clone, Copy, PartialEq, Eq, Structural, Hash)]
pub enum FunctionReferenceSite {
    /// The host can execute a configured program entry module.
    ProgramEntry,
    /// The operation allocates the referenced function object.
    Allocation { operation: ProgramOperationId },
    /// The operation embeds a method, accessor, or class-owned body.
    Embedded { operation: ProgramOperationId },
    /// An ordinary operand use that is not a resolved invocation target.
    ValueUse { operation: ProgramOperationId, operand_index: u32 },
    /// A module export exposes the function identity beyond local calls.
    Export { binding: ProgramBindingId },
    /// Direct eval can observe and invoke a visible binding.
    DirectEval { operation: ProgramOperationId, binding: ProgramBindingId },
}

/// One statically known reference to a program-owned function body.
#[derive(Debug, Clone, Copy, PartialEq, Eq, Structural, Hash)]
pub struct FunctionReference {
    /// The referenced function.
    pub target: ProgramFunctionId,
    /// Where the function identity is referenced.
    pub site: FunctionReferenceSite,
}

impl FunctionReference {
    /// Returns the referenced function.
    pub fn target(&self) -> (target: ProgramFunctionId)
        ensures
            target == self.target,
    {
        self.target
    }

    /// Returns where the function identity is referenced.
    pub fn site(&self) -> (site: FunctionReferenceSite)
        ensures
            site == self.site,
    {
        self.site
    }
}

/// One explicit invocation and its conservative target set.
#[derive(Debug)]
pub struct CallSite {
    id: CallSiteId,
    operation: ProgramOperationId,
    kind: CallSiteKind,
    targets: CallTargetSet,
}

impl CallSite {
    /// The site's identifier.
    pub closed spec fn spec_id(&self) -> CallSiteId {
        self.id
    }

    /// The invocation operation.
    pub closed spec fn spec_operation(&self) -> ProgramOperationId {
        self.operation
    }

    /// The invocation form.
    pub closed spec fn spec_kind(&self) -> CallSiteKind {
        self.kind
    }

    /// The known targets, in stable order.
    pub closed spec fn spec_functions(&self) -> Seq<ProgramFunctionId> {
        self.targets.spec_functions()
    }

    /// Whether the known targets are every target.
    pub closed spec fn spec_completeness(&self) -> CallTargetCompleteness {
        self.targets.spec_completeness()
    }

    /// Returns this site's dense analysis-local identifier.
    pub fn id(&self) -> (id: CallSiteId)
        ensures
            id == self.spec_id(),
    {
        self.id
    }

    /// Returns the function containing this invocation.
    pub fn caller(&self) -> (caller: ProgramFunctionId)
        ensures
            caller == self.spec_operation().function,
    {
        self.operation.function
    }

    /// Returns the invocation operation.
    pub fn operation(&self) -> (operation: ProgramOperationId)
        ensures
            operation == self.spec_operation(),
    {
        self.operation
    }

    /// Returns the invocation form.
    pub fn kind(&self) -> (kind: CallSiteKind)
        ensures
            kind == self.spec_kind(),
    {
        self.kind
    }

    /// Returns the conservative program target set.
    pub fn targets(&self) -> (targets: &CallTargetSet)
        ensures
            targets.spec_functions() == self.spec_functions(),
            targets.spec_completeness() == self.spec_completeness(),
    {
        &self.targets
    }
}

/// The invocation form of operation `op` and the index of the operand that
/// holds its target, when it has one; `None` when `op` is no invocation. An
/// invoked operation is wrapped by its invoke and is no invocation site.
pub open spec fn invocation(op: Operation) -> Option<(CallSiteKind, Option<usize>)> {
    if op.invoked {
        None
    } else {
        match op.kind {
            OperationKind::Call { callee } => Some((CallSiteKind::Call, callee)),
            OperationKind::Construct => Some((CallSiteKind::Construct, Some(0usize))),
            OperationKind::SuperCall => Some((CallSiteKind::SuperCall, None)),
            OperationKind::TaggedTemplate { value_target } => Some(
                (CallSiteKind::TaggedTemplate, if value_target {
                    Some(0usize)
                } else {
                    None
                }),
            ),
            _ => None,
        }
    }
}

/// The invocation form of `op` and its target operand.
pub fn invocation_of(op: &Operation) -> (r: Option<(CallSiteKind, Option<usize>)>)
    ensures
        r == invocation(*op),
{
    if op.invoked {
        return None;
    }
    match &op.kind {
        OperationKind::Call { callee } => Some((CallSiteKind::Call, *callee)),
        OperationKind::Construct => Some((CallSiteKind::Construct, Some(0))),
        OperationKind::SuperCall => Some((CallSiteKind::SuperCall, None)),
        OperationKind::TaggedTemplate { value_target } => {
            if *value_target {
                Some((CallSiteKind::TaggedTemplate, Some(0)))
            } else {
                Some((CallSiteKind::TaggedTemplate, None))
            }
        },
        _ => None,
    }
}

/// Whether `id` names an operation of the program.
pub open spec fn is_operation(program: ProgramIr, id: ProgramOperationId) -> bool {
    &&& id.function.module < program.modules@.len()
    &&& id.function.function < program.modules@[id.function.module as int].functions@.len()
    &&& id.operation < program.modules@[id.function.module as int].functions@[id.function.function as int].operations@.len()
}

/// The operation `id` names.
pub open spec fn operation_at(program: ProgramIr, id: ProgramOperationId) -> Operation {
    program.modules@[id.function.module as int].functions@[id.function.function as int].operations@[id.operation as int]
}

/// Whether operand `i` of `op` is its invocation target.
pub open spec fn is_invocation_use(op: Operation, i: int) -> bool {
    invocation(op) matches Some((_, Some(t))) && t == i
}

/// Whether operand `i` of `op` forwards its value into a binding.
pub open spec fn is_forwarding_use(op: Operation, i: int) -> bool {
    stored_binding(op.kind) is Some && i == 0
}

/// Whether operation `op` allocates the functions it references.
pub open spec fn allocates(op: Operation) -> bool {
    op.kind is CreateFunction && !op.invoked
}

/// Whether operation `id` references function `target` of its own module.
pub open spec fn references_function(program: ProgramIr, id: ProgramOperationId, target: ProgramFunctionId) -> bool {
    let op = operation_at(program, id);
    target.module == id.function.module && exists|k: int|
        #![trigger op.referenced_functions@[k]]
        0 <= k < op.referenced_functions@.len() && op.referenced_functions@[k] as int == target.function as int
}

/// The node of binding `binding` of the program.
pub open spec fn binding_id_node(program: ProgramIr, binding: ProgramBindingId) -> int {
    binding_node(program, binding.module as int, binding.binding as int)
}

/// Whether `binding` names a binding of the program.
pub open spec fn is_binding(program: ProgramIr, binding: ProgramBindingId) -> bool {
    binding.module < program.modules@.len() && binding.binding < program.modules@[binding.module as int].bindings@.len()
}

/// Whether `function` names a function of the program.
pub open spec fn is_function(program: ProgramIr, function: ProgramFunctionId) -> bool {
    function.module < program.modules@.len() && function.function < program.modules@[function.module as int].functions@.len()
}

/// Whether the program holds reference `r`.
pub open spec fn is_reference(program: ProgramIr, linkage: ProgramLinkage, r: FunctionReference) -> bool {
    match r.site {
        FunctionReferenceSite::ProgramEntry => r.target.function == 0 && exists|i: int|
            #![trigger program.entry_modules@[i]]
            0 <= i < program.entry_modules@.len() && program.entry_modules@[i] as int == r.target.module as int,
        FunctionReferenceSite::Allocation { operation } => is_operation(program, operation) && allocates(
            operation_at(program, operation),
        ) && references_function(program, operation, r.target),
        FunctionReferenceSite::Embedded { operation } => is_operation(program, operation) && !allocates(
            operation_at(program, operation),
        ) && references_function(program, operation, r.target),
        FunctionReferenceSite::ValueUse { operation, operand_index } => {
            let op = operation_at(program, operation);
            &&& is_operation(program, operation)
            &&& operand_index < op.operands@.len()
            &&& !is_invocation_use(op, operand_index as int)
            &&& !is_forwarding_use(op, operand_index as int)
            &&& held_functions(
                program,
                linkage,
                value_node(
                    program,
                    operation.function.module as int,
                    operation.function.function as int,
                    op.operands@[operand_index as int] as int,
                ),
            ).contains(r.target)
        },
        FunctionReferenceSite::Export { binding } => {
            &&& is_binding(program, binding)
            &&& crate::escape_flow::is_exported(program.modules@[binding.module as int], binding.binding as int)
            &&& held_functions(program, linkage, binding_id_node(program, binding)).contains(r.target)
        },
        FunctionReferenceSite::DirectEval { operation, binding } => {
            let module = program.modules@[operation.function.module as int];
            &&& is_operation(program, operation)
            &&& is_direct_eval(module, module.functions@[operation.function.function as int], operation_at(program, operation))
            &&& binding.module == operation.function.module
            &&& is_visible(module, operation.function.function as int, binding.binding as int)
            &&& held_functions(program, linkage, binding_id_node(program, binding)).contains(r.target)
        },
    }
}

/// `new` holds each reference of `old` and each that `piece` gives, once.
pub open spec fn refs_grow(old: Seq<FunctionReference>, new: Seq<FunctionReference>, piece: spec_fn(FunctionReference) -> bool) -> bool {
    &&& new.no_duplicates()
    &&& forall|r: FunctionReference| #[trigger] new.contains(r) <==> (old.contains(r) || piece(r))
}

proof fn lemma_refs_chain(
    a: Seq<FunctionReference>,
    b: Seq<FunctionReference>,
    c: Seq<FunctionReference>,
    p1: spec_fn(FunctionReference) -> bool,
    p2: spec_fn(FunctionReference) -> bool,
    p3: spec_fn(FunctionReference) -> bool,
)
    requires
        refs_grow(a, b, p1),
        refs_grow(b, c, p2),
        forall|r: FunctionReference| #[trigger] p3(r) <==> (p1(r) || p2(r)),
    ensures
        refs_grow(a, c, p3),
{
}

/// Adds `r` unless it is already there.
fn add_reference(references: &mut Vec<FunctionReference>, r: FunctionReference)
    requires
        old(references)@.no_duplicates(),
    ensures
        refs_grow(old(references)@, final(references)@, |x: FunctionReference| x == r),
{
    let ghost r0 = references@;
    let mut k: usize = 0;
    while k < references.len()
        invariant
            r0 == old(references)@,
            references@ == r0,
            r0.no_duplicates(),
            k <= references@.len(),
            forall|i: int| 0 <= i < k ==> references@[i] != r,
        decreases references@.len() - k,
    {
        if references[k] == r {
            proof {
                assert(references@[k as int] == r);
                assert forall|x: FunctionReference| #[trigger] references@.contains(x) <==> (r0.contains(x) || x == r) by {}
            }
            return;
        }
        k = k + 1;
    }
    references.push(r);
    proof {
        assert(!r0.contains(r));
        assert forall|x: FunctionReference| #[trigger] references@.contains(x) <==> (r0.contains(x) || x == r) by {
            if references@.contains(x) {
                let i = choose|i: int| 0 <= i < references@.len() && references@[i] == x;
                if i < r0.len() {
                    assert(r0[i] == x);
                }
            }
            if r0.contains(x) {
                let i = choose|i: int| 0 <= i < r0.len() && r0[i] == x;
                assert(references@[i] == x);
            }
            if x == r {
                assert(references@[r0.len() as int] == x);
            }
        }
        assert forall|i: int, j: int| 0 <= i < references@.len() && 0 <= j < references@.len() && i != j implies references@[i] != references@[j] by {
            if i < r0.len() && j < r0.len() {
            } else if i < r0.len() {
                assert(r0.contains(references@[i]));
            } else {
                assert(r0.contains(references@[j]));
            }
        }
    }
}

/// Adds a reference from `site` to each function of `targets`.
fn add_references(references: &mut Vec<FunctionReference>, targets: &[ProgramFunctionId], site: FunctionReferenceSite)
    requires
        old(references)@.no_duplicates(),
    ensures
        refs_grow(old(references)@, final(references)@, |x: FunctionReference| x.site == site && targets@.contains(x.target)),
{
    let ghost r0 = references@;
    let mut k: usize = 0;
    while k < targets.len()
        invariant
            k <= targets@.len(),
            refs_grow(r0, references@, |x: FunctionReference| x.site == site && targets@.take(k as int).contains(x.target)),
        decreases targets@.len() - k,
    {
        let ghost r1 = references@;
        let r = FunctionReference { target: targets[k], site };
        add_reference(references, r);
        proof {
            let before = |x: FunctionReference| x.site == site && targets@.take(k as int).contains(x.target);
            let after = |x: FunctionReference| x.site == site && targets@.take(k + 1).contains(x.target);
            assert forall|x: FunctionReference| #[trigger] after(x) <==> (before(x) || x == r) by {
                if targets@.take(k + 1).contains(x.target) {
                    let i = choose|i: int| #![trigger targets@.take(k + 1)[i]] 0 <= i < k + 1 && targets@.take(k + 1)[i] == x.target;
                    if i < k {
                        assert(targets@.take(k as int)[i] == x.target);
                    }
                }
                if targets@.take(k as int).contains(x.target) {
                    let i = choose|i: int| #![trigger targets@.take(k as int)[i]] 0 <= i < k && targets@.take(k as int)[i] == x.target;
                    assert(targets@.take(k + 1)[i] == x.target);
                }
                if x == r {
                    assert(targets@.take(k + 1)[k as int] == x.target);
                }
            }
            lemma_refs_chain(r0, r1, references@, before, |x: FunctionReference| x == r, after);
        }
        k = k + 1;
    }
    proof {
        assert(targets@.take(k as int) =~= targets@);
    }
}


/// The identifier of operation `j` of function `f` of module `m`.
pub open spec fn operation_id(m: int, f: int, j: int) -> ProgramOperationId {
    ProgramOperationId { function: ProgramFunctionId { module: m as u32, function: f as u32 }, operation: j as u32 }
}

/// The number of operations of the first `f` functions.
pub open spec fn operations_in(functions: Seq<FunctionIr>, f: int) -> int
    decreases f,
{
    if f <= 0 {
        0
    } else {
        operations_in(functions, f - 1) + functions[f - 1].operations@.len()
    }
}

/// The number of operations of the functions of the first `m` modules.
pub open spec fn operations_before(modules: Seq<ModuleIr>, m: int) -> int
    decreases m,
{
    if m <= 0 {
        0
    } else {
        operations_before(modules, m - 1) + operations_in(modules[m - 1].functions@, modules[m - 1].functions@.len() as int)
    }
}

proof fn lemma_operations_in_mono(functions: Seq<FunctionIr>, f: int, k: int)
    requires
        0 <= f <= k <= functions.len(),
    ensures
        0 <= operations_in(functions, f) <= operations_in(functions, k),
    decreases k,
{
    if k > 0 {
        if f == k {
            lemma_operations_in_mono(functions, k - 1, k - 1);
        } else {
            lemma_operations_in_mono(functions, f, k - 1);
        }
    }
}

proof fn lemma_operations_before_mono(modules: Seq<ModuleIr>, m: int, k: int)
    requires
        0 <= m <= k <= modules.len(),
    ensures
        0 <= operations_before(modules, m) <= operations_before(modules, k),
    decreases k,
{
    if k > 0 {
        lemma_operations_in_mono(modules[k - 1].functions@, 0, modules[k - 1].functions@.len() as int);
        if m == k {
            lemma_operations_before_mono(modules, k - 1, k - 1);
        } else {
            lemma_operations_before_mono(modules, m, k - 1);
        }
    }
}

/// Every invocation's target operand exists, and every operation, operand
/// and call site can be numbered by `u32`.
pub open spec fn call_graph_ready(program: ProgramIr) -> bool {
    &&& program.wf()
    &&& operations_before(program.modules@, program.modules@.len() as int) <= u32::MAX + 1
    &&& forall|m: int, f: int|
        #![trigger program.modules@[m].functions@[f]]
        0 <= m < program.modules@.len() && 0 <= f < program.modules@[m].functions@.len()
            ==> program.modules@[m].functions@[f].operations@.len() <= u32::MAX + 1
    &&& forall|m: int, f: int, j: int|
        #![trigger program.modules@[m].functions@[f].operations@[j]]
        0 <= m < program.modules@.len() && 0 <= f < program.modules@[m].functions@.len() && 0 <= j
            < program.modules@[m].functions@[f].operations@.len() ==> {
            let op = program.modules@[m].functions@[f].operations@[j];
            &&& op.operands@.len() <= u32::MAX + 1
            &&& invocation(op) matches Some((_, Some(i))) ==> i < op.operands@.len()
        }
}

/// The references operation `id` makes to the functions it allocates or embeds.
pub open spec fn embedded_piece(program: ProgramIr, id: ProgramOperationId) -> spec_fn(FunctionReference) -> bool {
    |r: FunctionReference|
        ((r.site == FunctionReferenceSite::Allocation { operation: id } && allocates(operation_at(program, id))) || (r.site
            == FunctionReferenceSite::Embedded { operation: id } && !allocates(operation_at(program, id))))
            && references_function(program, id, r.target)
}

/// The references operation `id` makes through its ordinary operand uses.
pub open spec fn value_use_piece(program: ProgramIr, linkage: ProgramLinkage, id: ProgramOperationId) -> spec_fn(FunctionReference) -> bool {
    |r: FunctionReference|
        r.site matches FunctionReferenceSite::ValueUse { operation, operand_index } && operation == id && is_reference(program, linkage, r)
}

/// The references a direct eval at operation `id` makes through the bindings it can see.
pub open spec fn direct_eval_piece(program: ProgramIr, linkage: ProgramLinkage, id: ProgramOperationId) -> spec_fn(FunctionReference) -> bool {
    |r: FunctionReference|
        r.site matches FunctionReferenceSite::DirectEval { operation, binding } && operation == id && is_reference(program, linkage, r)
}

/// Adds the references operation `j` of function `f` of module `m` makes to
/// the functions it allocates or embeds.
fn add_embedded_references(references: &mut Vec<FunctionReference>, program: &ProgramIr, m: usize, f: usize, j: usize)
    requires
        old(references)@.no_duplicates(),
        call_graph_ready(*program),
        m < program.modules@.len(),
        f < program.modules@[m as int].functions@.len(),
        j < program.modules@[m as int].functions@[f as int].operations@.len(),
    ensures
        refs_grow(old(references)@, final(references)@, embedded_piece(*program, operation_id(m as int, f as int, j as int))),
{
    let ghost p = *program;
    let ghost id = operation_id(m as int, f as int, j as int);
    let module = &program.modules[m];
    let op = &module.functions[f].operations[j];
    proof {
        assert(p.modules@[m as int] == *module);
        assert(module.wf());
        assert(module.functions@[f as int].wf(module.functions@.len() as int, module.bindings@.len() as int));
        assert(module.functions@[f as int].operations@[j as int] == *op);
        assert(operation_at(p, id) == *op);
    }
    let operation = ProgramOperationId { function: ProgramFunctionId { module: m as u32, function: f as u32 }, operation: j as u32 };
    let allocation = match op.kind {
        OperationKind::CreateFunction => !op.invoked,
        _ => false,
    };
    let site = if allocation {
        FunctionReferenceSite::Allocation { operation }
    } else {
        FunctionReferenceSite::Embedded { operation }
    };
    let ghost r0 = references@;
    let mut k: usize = 0;
    while k < op.referenced_functions.len()
        invariant
            r0.no_duplicates(),
            k <= op.referenced_functions@.len(),
            crate::ir::all_below(op.referenced_functions@, module.functions@.len() as int),
            module.functions@.len() <= u32::MAX + 1,
            refs_grow(r0, references@, |x: FunctionReference| x.site == site && x.target.module == m as u32 && exists|k2: int|
                #![trigger op.referenced_functions@[k2]]
                0 <= k2 < k && op.referenced_functions@[k2] as int == x.target.function as int),
        decreases op.referenced_functions@.len() - k,
    {
        let ghost r1 = references@;
        let r = FunctionReference {
            target: ProgramFunctionId { module: m as u32, function: op.referenced_functions[k] as u32 },
            site,
        };
        add_reference(references, r);
        proof {
            let before = |x: FunctionReference| x.site == site && x.target.module == m as u32 && exists|k2: int|
                #![trigger op.referenced_functions@[k2]]
                0 <= k2 < k && op.referenced_functions@[k2] as int == x.target.function as int;
            let after = |x: FunctionReference| x.site == site && x.target.module == m as u32 && exists|k2: int|
                #![trigger op.referenced_functions@[k2]]
                0 <= k2 < k + 1 && op.referenced_functions@[k2] as int == x.target.function as int;
            assert forall|x: FunctionReference| #[trigger] after(x) <==> (before(x) || x == r) by {
                if after(x) && !before(x) {
                    let k2 = choose|k2: int| #![trigger op.referenced_functions@[k2]] 0 <= k2 < k + 1 && op.referenced_functions@[k2] as int == x.target.function as int;
                    assert(k2 == k);
                }
                if x == r {
                    assert(op.referenced_functions@[k as int] < module.functions@.len());
                    assert(op.referenced_functions@[k as int] as int == x.target.function as int);
                }
            }
            lemma_refs_chain(r0, r1, references@, before, |x: FunctionReference| x == r, after);
        }
        k = k + 1;
    }
    proof {
        let done = |x: FunctionReference| x.site == site && x.target.module == m as u32 && exists|k2: int|
            #![trigger op.referenced_functions@[k2]]
            0 <= k2 < k && op.referenced_functions@[k2] as int == x.target.function as int;
        assert forall|x: FunctionReference| #[trigger] embedded_piece(p, id)(x) <==> done(x) by {}
    }
}

/// Adds the references operation `j` of function `f` of module `m` makes
/// through its ordinary operand uses.
fn add_value_use_references(
    references: &mut Vec<FunctionReference>,
    targets: &ProgramFunctionTargets,
    program: &ProgramIr,
    m: usize,
    f: usize,
    j: usize,
)
    requires
        old(references)@.no_duplicates(),
        call_graph_ready(*program),
        targets.wf(),
        targets.spec_program() == *program,
        m < program.modules@.len(),
        f < program.modules@[m as int].functions@.len(),
        j < program.modules@[m as int].functions@[f as int].operations@.len(),
    ensures
        refs_grow(
            old(references)@,
            final(references)@,
            value_use_piece(*program, targets.spec_linkage(), operation_id(m as int, f as int, j as int)),
        ),
{
    let ghost p = *program;
    let ghost l = targets.spec_linkage();
    let ghost id = operation_id(m as int, f as int, j as int);
    let module = &program.modules[m];
    let function = &module.functions[f];
    let op = &function.operations[j];
    proof {
        assert(p.modules@[m as int] == *module);
        assert(module.wf());
        assert(module.functions@[f as int] == *function);
        assert(function.wf(module.functions@.len() as int, module.bindings@.len() as int));
        assert(function.operations@[j as int] == *op);
        assert(operation_at(p, id) == *op);
        assert(id.function.module as int == m && id.function.function as int == f && id.operation as int == j);
        assert(is_operation(p, id));
        assert(op.wf(function.value_count as int, function.regions@.len() as int, module.functions@.len() as int, module.bindings@.len() as int));
        assert(op.operands@.len() <= u32::MAX + 1);
    }
    let operation = ProgramOperationId { function: ProgramFunctionId { module: m as u32, function: f as u32 }, operation: j as u32 };
    let invoked_operand = match invocation_of(op) {
        Some((_, target)) => target,
        None => None,
    };
    let stores = match op.kind {
        OperationKind::InitializeBinding { .. } => true,
        OperationKind::StoreBinding { .. } => true,
        _ => false,
    };
    let ghost r0 = references@;
    let mut i: usize = 0;
    while i < op.operands.len()
        invariant
            r0.no_duplicates(),
            call_graph_ready(p),
            targets.wf(),
            targets.spec_program() == p,
            targets.spec_linkage() == l,
            p == *program,
            m < p.modules@.len(),
            f < p.modules@[m as int].functions@.len(),
            *function == p.modules@[m as int].functions@[f as int],
            *op == operation_at(p, id),
            is_operation(p, id),
            id.function.module as int == m && id.function.function as int == f,
            crate::ir::all_below(op.operands@, function.value_count as int),
            op.operands@.len() <= u32::MAX + 1,
            operation == id,
            invoked_operand == (match invocation(*op) { Some((_, t)) => t, None => None }),
            stores == (stored_binding(op.kind) is Some),
            i <= op.operands@.len(),
            refs_grow(r0, references@, |x: FunctionReference| value_use_piece(p, l, id)(x) && (x.site->operand_index as int) < i),
        decreases op.operands@.len() - i,
    {
        let ghost r1 = references@;
        let skip = match invoked_operand {
            Some(t) => t == i,
            None => false,
        } || (stores && i == 0);
        if !skip {
            let set = targets.target_set(ProgramFunctionId { module: m as u32, function: f as u32 }, op.operands[i]);
            let site = FunctionReferenceSite::ValueUse { operation, operand_index: i as u32 };
            add_references(references, set.functions(), site);
            proof {
                let before = |x: FunctionReference| value_use_piece(p, l, id)(x) && (x.site->operand_index as int) < i;
                let after = |x: FunctionReference| value_use_piece(p, l, id)(x) && (x.site->operand_index as int) < i + 1;
                let here = |x: FunctionReference| x.site == site && set.spec_functions().contains(x.target);
                let node = value_node(p, m as int, f as int, op.operands@[i as int] as int);
                assert(set.spec_functions().to_set() == held_functions(p, l, node));
                assert(!is_invocation_use(*op, i as int));
                assert(!is_forwarding_use(*op, i as int));
                assert forall|x: FunctionReference| #[trigger] after(x) <==> (before(x) || here(x)) by {
                    if x.site == site {
                        assert(is_reference(p, l, x) <==> held_functions(p, l, node).contains(x.target));
                        assert(set.spec_functions().to_set().contains(x.target) <==> set.spec_functions().contains(x.target));
                    }
                    if after(x) && !before(x) {
                        assert(x.site == site);
                    }
                }
                lemma_refs_chain(r0, r1, references@, before, here, after);
            }
        } else {
            proof {
                let before = |x: FunctionReference| value_use_piece(p, l, id)(x) && (x.site->operand_index as int) < i;
                let after = |x: FunctionReference| value_use_piece(p, l, id)(x) && (x.site->operand_index as int) < i + 1;
                assert forall|x: FunctionReference| #[trigger] after(x) <==> before(x) by {}
            }
        }
        i = i + 1;
    }
    proof {
        let done = |x: FunctionReference| value_use_piece(p, l, id)(x) && (x.site->operand_index as int) < i;
        assert forall|x: FunctionReference| #[trigger] value_use_piece(p, l, id)(x) <==> done(x) by {}
    }
}

/// Adds the references a direct eval at operation `j` of function `f` of
/// module `m` makes through the bindings it can see.
fn add_direct_eval_references(
    references: &mut Vec<FunctionReference>,
    targets: &ProgramFunctionTargets,
    program: &ProgramIr,
    m: usize,
    f: usize,
    j: usize,
)
    requires
        old(references)@.no_duplicates(),
        call_graph_ready(*program),
        targets.wf(),
        targets.spec_program() == *program,
        m < program.modules@.len(),
        f < program.modules@[m as int].functions@.len(),
        j < program.modules@[m as int].functions@[f as int].operations@.len(),
    ensures
        refs_grow(
            old(references)@,
            final(references)@,
            direct_eval_piece(*program, targets.spec_linkage(), operation_id(m as int, f as int, j as int)),
        ),
{
    let ghost p = *program;
    let ghost l = targets.spec_linkage();
    let ghost id = operation_id(m as int, f as int, j as int);
    let module = &program.modules[m];
    let function = &module.functions[f];
    let op = &function.operations[j];
    proof {
        assert(p.modules@[m as int] == *module);
        assert(module.wf());
        assert(module.functions@[f as int] == *function);
        assert(function.operations@[j as int] == *op);
        assert(operation_at(p, id) == *op);
        assert(id.function.module as int == m && id.function.function as int == f && id.operation as int == j);
        assert(is_operation(p, id));
    }
    let ghost r0 = references@;
    if !is_direct_eval_call(module, function, op) {
        proof {
            assert forall|x: FunctionReference| #[trigger] direct_eval_piece(p, l, id)(x) <==> false by {}
        }
        return;
    }
    let operation = ProgramOperationId { function: ProgramFunctionId { module: m as u32, function: f as u32 }, operation: j as u32 };
    let mut b: usize = 0;
    while b < module.bindings.len()
        invariant
            r0.no_duplicates(),
            call_graph_ready(p),
            targets.wf(),
            targets.spec_program() == p,
            targets.spec_linkage() == l,
            p == *program,
            m < p.modules@.len(),
            f < p.modules@[m as int].functions@.len(),
            *module == p.modules@[m as int],
            module.wf(),
            *function == module.functions@[f as int],
            *op == operation_at(p, id),
            is_operation(p, id),
            id.function.module as int == m && id.function.function as int == f,
            operation == id,
            is_direct_eval(*module, *function, *op),
            b <= module.bindings@.len(),
            refs_grow(r0, references@, |x: FunctionReference| direct_eval_piece(p, l, id)(x) && (x.site->DirectEval_binding.binding as int) < b),
        decreases module.bindings@.len() - b,
    {
        let ghost r1 = references@;
        proof {
            assert(module.bindings@[b as int].declaring_function < module.functions@.len());
        }
        if is_descendant_of(module, f, module.bindings[b].declaring_function) {
            let binding = ProgramBindingId { module: m as u32, binding: b as u32 };
            let functions = targets.binding_targets(binding);
            let site = FunctionReferenceSite::DirectEval { operation, binding };
            add_references(references, functions.as_slice(), site);
            proof {
                let before = |x: FunctionReference| direct_eval_piece(p, l, id)(x) && (x.site->DirectEval_binding.binding as int) < b;
                let after = |x: FunctionReference| direct_eval_piece(p, l, id)(x) && (x.site->DirectEval_binding.binding as int) < b + 1;
                let here = |x: FunctionReference| x.site == site && functions@.contains(x.target);
                let node = binding_node(p, m as int, b as int);
                assert(functions@.to_set() == held_functions(p, l, node));
                assert(binding_id_node(p, binding) == node);
                assert(is_visible(*module, f as int, b as int));
                assert forall|x: FunctionReference| #[trigger] after(x) <==> (before(x) || here(x)) by {
                    if x.site == site {
                        assert(is_reference(p, l, x) <==> held_functions(p, l, node).contains(x.target));
                        assert(functions@.to_set().contains(x.target) <==> functions@.contains(x.target));
                    }
                    if after(x) && !before(x) {
                        assert(x.site == site);
                    }
                }
                lemma_refs_chain(r0, r1, references@, before, here, after);
            }
        } else {
            proof {
                let before = |x: FunctionReference| direct_eval_piece(p, l, id)(x) && (x.site->DirectEval_binding.binding as int) < b;
                let after = |x: FunctionReference| direct_eval_piece(p, l, id)(x) && (x.site->DirectEval_binding.binding as int) < b + 1;
                assert(!is_visible(*module, f as int, b as int));
                assert forall|x: FunctionReference| #[trigger] after(x) <==> before(x) by {
                    if after(x) && !before(x) {
                        assert(x.site->DirectEval_binding.binding == b);
                        assert(x.site->DirectEval_binding.module as int == m);
                    }
                }
            }
        }
        b = b + 1;
    }
    proof {
        let done = |x: FunctionReference| direct_eval_piece(p, l, id)(x) && (x.site->DirectEval_binding.binding as int) < b;
        assert forall|x: FunctionReference| #[trigger] direct_eval_piece(p, l, id)(x) <==> done(x) by {}
    }
}


/// The operation a reference of an operation sits at.
pub open spec fn site_operation(site: FunctionReferenceSite) -> Option<ProgramOperationId> {
    match site {
        FunctionReferenceSite::Allocation { operation } => Some(operation),
        FunctionReferenceSite::Embedded { operation } => Some(operation),
        FunctionReferenceSite::ValueUse { operation, .. } => Some(operation),
        FunctionReferenceSite::DirectEval { operation, .. } => Some(operation),
        _ => None,
    }
}

/// The references made at the operations of function `f` of module `m`.
pub open spec fn function_piece(program: ProgramIr, linkage: ProgramLinkage, m: int, f: int) -> spec_fn(FunctionReference) -> bool {
    |r: FunctionReference|
        site_operation(r.site) matches Some(op) && is_reference(program, linkage, r) && op.function.module as int == m
            && op.function.function as int == f
}

/// The references modules before `m` make, and those the functions before
/// function `f` of module `m` make at their operations.
pub open spec fn collected(program: ProgramIr, linkage: ProgramLinkage, m: int, f: int) -> spec_fn(FunctionReference) -> bool {
    |r: FunctionReference|
        is_reference(program, linkage, r) && match r.site {
            FunctionReferenceSite::ProgramEntry => false,
            FunctionReferenceSite::Export { binding } => (binding.module as int) < m,
            _ => {
                let op = site_operation(r.site)->0;
                (op.function.module as int) < m || (op.function.module as int == m && (op.function.function as int) < f)
            },
        }
}

/// Adds the references function `f` of module `m` makes at its operations.
fn add_function_references(
    references: &mut Vec<FunctionReference>,
    targets: &ProgramFunctionTargets,
    program: &ProgramIr,
    m: usize,
    f: usize,
)
    requires
        old(references)@.no_duplicates(),
        call_graph_ready(*program),
        targets.wf(),
        targets.spec_program() == *program,
        m < program.modules@.len(),
        f < program.modules@[m as int].functions@.len(),
    ensures
        refs_grow(old(references)@, final(references)@, function_piece(*program, targets.spec_linkage(), m as int, f as int)),
{
    let ghost p = *program;
    let ghost l = targets.spec_linkage();
    let ghost r0 = references@;
    let count = program.modules[m].functions[f].operations.len();
    proof {
        assert(p.modules@[m as int].functions@.len() <= u32::MAX + 1);
        assert(count <= u32::MAX + 1);
    }
    let mut j: usize = 0;
    while j < count
        invariant
            r0.no_duplicates(),
            call_graph_ready(p),
            targets.wf(),
            targets.spec_program() == p,
            targets.spec_linkage() == l,
            p == *program,
            m < p.modules@.len(),
            f < p.modules@[m as int].functions@.len(),
            p.modules@.len() <= u32::MAX + 1,
            p.modules@[m as int].functions@.len() <= u32::MAX + 1,
            count == p.modules@[m as int].functions@[f as int].operations@.len(),
            count <= u32::MAX + 1,
            j <= count,
            refs_grow(r0, references@, |r: FunctionReference| function_piece(p, l, m as int, f as int)(r) && (site_operation(r.site)->0.operation as int) < j),
        decreases count - j,
    {
        let ghost r1 = references@;
        let ghost id = operation_id(m as int, f as int, j as int);
        add_embedded_references(references, program, m, f, j);
        let ghost r2 = references@;
        add_value_use_references(references, targets, program, m, f, j);
        let ghost r3 = references@;
        add_direct_eval_references(references, targets, program, m, f, j);
        proof {
            let before = |r: FunctionReference| function_piece(p, l, m as int, f as int)(r) && (site_operation(r.site)->0.operation as int) < j;
            let after = |r: FunctionReference| function_piece(p, l, m as int, f as int)(r) && (site_operation(r.site)->0.operation as int) < j + 1;
            let e = embedded_piece(p, id);
            let v = value_use_piece(p, l, id);
            let d = direct_eval_piece(p, l, id);
            assert(id.function.module as int == m && id.function.function as int == f && id.operation as int == j);
            assert(is_operation(p, id));
            assert forall|r: FunctionReference| #[trigger] after(r) <==> (before(r) || e(r) || v(r) || d(r)) by {
                if after(r) && !before(r) {
                    let op = site_operation(r.site)->0;
                    assert(op == id);
                }
            }
            lemma_refs_chain(r1, r2, r3, e, v, |r: FunctionReference| e(r) || v(r));
            lemma_refs_chain(r1, r3, references@, |r: FunctionReference| e(r) || v(r), d, |r: FunctionReference| e(r) || v(r) || d(r));
            lemma_refs_chain(r0, r1, references@, before, |r: FunctionReference| e(r) || v(r) || d(r), after);
        }
        j = j + 1;
    }
    proof {
        let done = |r: FunctionReference| function_piece(p, l, m as int, f as int)(r) && (site_operation(r.site)->0.operation as int) < j;
        assert forall|r: FunctionReference| #[trigger] function_piece(p, l, m as int, f as int)(r) <==> done(r) by {}
    }
}

/// Adds the references the exports of module `m` make.
fn add_export_references(references: &mut Vec<FunctionReference>, targets: &ProgramFunctionTargets, program: &ProgramIr, m: usize)
    requires
        old(references)@.no_duplicates(),
        call_graph_ready(*program),
        targets.wf(),
        targets.spec_program() == *program,
        m < program.modules@.len(),
    ensures
        refs_grow(
            old(references)@,
            final(references)@,
            |r: FunctionReference| r.site matches FunctionReferenceSite::Export { binding } && is_reference(*program, targets.spec_linkage(), r) && binding.module as int == m,
        ),
{
    let ghost p = *program;
    let ghost l = targets.spec_linkage();
    let ghost r0 = references@;
    let module = &program.modules[m];
    proof {
        assert(p.modules@[m as int] == *module);
        assert(module.wf());
    }
    let mut k: usize = 0;
    while k < module.exports.len()
        invariant
            r0.no_duplicates(),
            call_graph_ready(p),
            targets.wf(),
            targets.spec_program() == p,
            targets.spec_linkage() == l,
            p == *program,
            m < p.modules@.len(),
            p.modules@.len() <= u32::MAX + 1,
            *module == p.modules@[m as int],
            module.wf(),
            module.bindings@.len() <= u32::MAX + 1,
            k <= module.exports@.len(),
            refs_grow(r0, references@, |r: FunctionReference| r.site matches FunctionReferenceSite::Export { binding } && is_reference(p, l, r) && binding.module as int == m && exists|k2: int|
                #![trigger module.exports@[k2]]
                0 <= k2 < k && (export_binding(module.exports@[k2]) matches Some(x) && x as int == binding.binding as int)),
        decreases module.exports@.len() - k,
    {
        let ghost r1 = references@;
        let ghost before = |r: FunctionReference| r.site matches FunctionReferenceSite::Export { binding } && is_reference(p, l, r) && binding.module as int == m && exists|k2: int|
            #![trigger module.exports@[k2]]
            0 <= k2 < k && (export_binding(module.exports@[k2]) matches Some(x) && x as int == binding.binding as int);
        let ghost after = |r: FunctionReference| r.site matches FunctionReferenceSite::Export { binding } && is_reference(p, l, r) && binding.module as int == m && exists|k2: int|
            #![trigger module.exports@[k2]]
            0 <= k2 < k + 1 && (export_binding(module.exports@[k2]) matches Some(x) && x as int == binding.binding as int);
        if let ModuleExport::Local { binding: b, .. } = &module.exports[k] {
            let b = *b;
            proof {
                assert(export_binding(module.exports@[k as int]) == Some(b));
                assert(b < module.bindings@.len());
            }
            let binding = ProgramBindingId { module: m as u32, binding: b as u32 };
            let functions = targets.binding_targets(binding);
            let site = FunctionReferenceSite::Export { binding };
            add_references(references, functions.as_slice(), site);
            proof {
                let here = |r: FunctionReference| r.site == site && functions@.contains(r.target);
                let node = binding_node(p, m as int, b as int);
                assert(functions@.to_set() == held_functions(p, l, node));
                assert(binding_id_node(p, binding) == node);
                assert(crate::escape_flow::is_exported(*module, b as int));
                assert forall|r: FunctionReference| #[trigger] after(r) <==> (before(r) || here(r)) by {
                    if r.site == site {
                        assert(is_reference(p, l, r) <==> held_functions(p, l, node).contains(r.target));
                        assert(functions@.to_set().contains(r.target) <==> functions@.contains(r.target));
                    }
                    if after(r) && !before(r) {
                        assert(r.site == site);
                    }
                }
                lemma_refs_chain(r0, r1, references@, before, here, after);
            }
        } else {
            proof {
                assert(export_binding(module.exports@[k as int]) is None);
                assert forall|r: FunctionReference| #[trigger] after(r) <==> before(r) by {}
            }
        }
        k = k + 1;
    }
    proof {
        let done = |r: FunctionReference| r.site matches FunctionReferenceSite::Export { binding } && is_reference(p, l, r) && binding.module as int == m && exists|k2: int|
            #![trigger module.exports@[k2]]
            0 <= k2 < k && (export_binding(module.exports@[k2]) matches Some(x) && x as int == binding.binding as int);
        let goal = |r: FunctionReference| r.site matches FunctionReferenceSite::Export { binding } && is_reference(p, l, r) && binding.module as int == m;
        assert forall|r: FunctionReference| #[trigger] goal(r) <==> done(r) by {
            if goal(r) {
                let binding = r.site->Export_binding;
                let k2 = choose|k2: int| #![trigger module.exports@[k2]] 0 <= k2 < module.exports@.len() && (export_binding(module.exports@[k2]) matches Some(x) && x as int == binding.binding as int);
            }
        }
    }
}

/// Every reference the program makes, each once.
fn collect_references(targets: &ProgramFunctionTargets, program: &ProgramIr) -> (references: Vec<FunctionReference>)
    requires
        call_graph_ready(*program),
        targets.wf(),
        targets.spec_program() == *program,
    ensures
        references@.no_duplicates(),
        forall|r: FunctionReference| #[trigger] references@.contains(r) <==> is_reference(*program, targets.spec_linkage(), r),
{
    let ghost p = *program;
    let ghost l = targets.spec_linkage();
    let mut references: Vec<FunctionReference> = Vec::new();
    let ghost r0 = references@;
    proof {
        assert forall|r: FunctionReference| #[trigger] references@.contains(r) <==> (r0.contains(r) || collected(p, l, 0, 0)(r)) by {
            if collected(p, l, 0, 0)(r) {
                if let Some(op) = site_operation(r.site) {
                    assert(is_operation(p, op));
                }
            }
        }
    }
    let mut m: usize = 0;
    while m < program.modules.len()
        invariant
            call_graph_ready(p),
            targets.wf(),
            targets.spec_program() == p,
            targets.spec_linkage() == l,
            p == *program,
            r0 == Seq::<FunctionReference>::empty(),
            m <= p.modules@.len(),
            refs_grow(r0, references@, collected(p, l, m as int, 0)),
        decreases p.modules@.len() - m,
    {
        let count = program.modules[m].functions.len();
        let mut f: usize = 0;
        while f < count
            invariant
                call_graph_ready(p),
                targets.wf(),
                targets.spec_program() == p,
                targets.spec_linkage() == l,
                p == *program,
                r0 == Seq::<FunctionReference>::empty(),
                m < p.modules@.len(),
                count == p.modules@[m as int].functions@.len(),
                f <= count,
                refs_grow(r0, references@, collected(p, l, m as int, f as int)),
            decreases count - f,
        {
            let ghost r1 = references@;
            add_function_references(&mut references, targets, program, m, f);
            proof {
                let before = collected(p, l, m as int, f as int);
                let after = collected(p, l, m as int, f as int + 1);
                let here = function_piece(p, l, m as int, f as int);
                assert forall|r: FunctionReference| #[trigger] after(r) <==> (before(r) || here(r)) by {}
                lemma_refs_chain(r0, r1, references@, before, here, after);
            }
            f = f + 1;
        }
        let ghost r2 = references@;
        add_export_references(&mut references, targets, program, m);
        proof {
            let before = collected(p, l, m as int, f as int);
            let after = collected(p, l, m as int + 1, 0);
            let here = |r: FunctionReference| r.site matches FunctionReferenceSite::Export { binding } && is_reference(p, l, r) && binding.module as int == m;
            assert forall|r: FunctionReference| #[trigger] after(r) <==> (before(r) || here(r)) by {
                if after(r) {
                    if let Some(op) = site_operation(r.site) {
                        assert(is_operation(p, op));
                    }
                }
            }
            lemma_refs_chain(r0, r2, references@, before, here, after);
        }
        m = m + 1;
    }
    let ghost r3 = references@;
    let mut i: usize = 0;
    while i < program.entry_modules.len()
        invariant
            call_graph_ready(p),
            p == *program,
            r0 == Seq::<FunctionReference>::empty(),
            i <= p.entry_modules@.len(),
            refs_grow(r0, r3, collected(p, l, p.modules@.len() as int, 0)),
            refs_grow(r3, references@, |r: FunctionReference| r.site == FunctionReferenceSite::ProgramEntry && r.target.function == 0 && exists|k: int|
                #![trigger p.entry_modules@[k]]
                0 <= k < i && p.entry_modules@[k] as int == r.target.module as int),
        decreases p.entry_modules@.len() - i,
    {
        let ghost r4 = references@;
        let module = program.entry_modules[i];
        proof {
            assert(p.entry_modules@[i as int] < p.modules@.len());
        }
        let r = FunctionReference { target: ProgramFunctionId { module: module as u32, function: 0 }, site: FunctionReferenceSite::ProgramEntry };
        add_reference(&mut references, r);
        proof {
            let before = |r: FunctionReference| r.site == FunctionReferenceSite::ProgramEntry && r.target.function == 0 && exists|k: int|
                #![trigger p.entry_modules@[k]]
                0 <= k < i && p.entry_modules@[k] as int == r.target.module as int;
            let after = |r: FunctionReference| r.site == FunctionReferenceSite::ProgramEntry && r.target.function == 0 && exists|k: int|
                #![trigger p.entry_modules@[k]]
                0 <= k < i + 1 && p.entry_modules@[k] as int == r.target.module as int;
            assert forall|x: FunctionReference| #[trigger] after(x) <==> (before(x) || x == r) by {
                if after(x) && !before(x) {
                    let k = choose|k: int| #![trigger p.entry_modules@[k]] 0 <= k < i + 1 && p.entry_modules@[k] as int == x.target.module as int;
                    assert(k == i);
                }
                if x == r {
                    assert(p.entry_modules@[i as int] as int == x.target.module as int);
                }
            }
            lemma_refs_chain(r3, r4, references@, before, |x: FunctionReference| x == r, after);
        }
        i = i + 1;
    }
    proof {
        let n = p.modules@.len() as int;
        let entries = |r: FunctionReference| r.site == FunctionReferenceSite::ProgramEntry && r.target.function == 0 && exists|k: int|
            #![trigger p.entry_modules@[k]]
            0 <= k < i && p.entry_modules@[k] as int == r.target.module as int;
        lemma_refs_chain(r0, r3, references@, collected(p, l, n, 0), entries, |r: FunctionReference| is_reference(p, l, r));
    }
    references
}


/// Whether `id` names an invocation of the program.
pub open spec fn is_site(program: ProgramIr, id: ProgramOperationId) -> bool {
    is_operation(program, id) && invocation(operation_at(program, id)) is Some
}

/// The stable order of operations: by function, then by position.
pub open spec fn op_lt(a: ProgramOperationId, b: ProgramOperationId) -> bool {
    ||| a.function.module < b.function.module
    ||| a.function.module == b.function.module && a.function.function < b.function.function
    ||| a.function == b.function && a.operation < b.operation
}

/// Whether `id` comes before operation `j` of function `f` of module `m`.
pub open spec fn op_before(id: ProgramOperationId, m: int, f: int, j: int) -> bool {
    ||| (id.function.module as int) < m
    ||| id.function.module as int == m && (id.function.function as int) < f
    ||| id.function.module as int == m && id.function.function as int == f && (id.operation as int) < j
}

/// Whether `site` describes the invocation it names: its form, and the
/// functions its target operand may hold, or none and incomplete when it has
/// no target operand.
pub open spec fn site_matches(program: ProgramIr, linkage: ProgramLinkage, site: CallSite) -> bool {
    let id = site.spec_operation();
    let op = operation_at(program, id);
    &&& is_site(program, id)
    &&& site.spec_kind() == (invocation(op)->0).0
    &&& sorted_functions(site.spec_functions())
    &&& match (invocation(op)->0).1 {
        Some(i) => {
            let x = value_node(program, id.function.module as int, id.function.function as int, op.operands@[i as int] as int);
            &&& site.spec_functions().to_set() == held_functions(program, linkage, x)
            &&& site.spec_completeness() == (if is_reached(program, linkage, x) && !may_hold_unknown(program, linkage, x) {
                CallTargetCompleteness::Complete
            } else {
                CallTargetCompleteness::Incomplete
            })
        },
        None => {
            &&& site.spec_functions().len() == 0
            &&& site.spec_completeness() == CallTargetCompleteness::Incomplete
        },
    }
}

/// `sites` is every invocation of the program once, in the stable order of
/// operations, each numbered by its position.
pub open spec fn sites_exact(program: ProgramIr, linkage: ProgramLinkage, sites: Seq<CallSite>) -> bool {
    &&& forall|i: int|
        #![trigger sites[i]]
        0 <= i < sites.len() ==> sites[i].spec_id().spec_index() == i && site_matches(program, linkage, sites[i])
    &&& forall|a: int, b: int|
        #![trigger sites[a], sites[b]]
        0 <= a < b < sites.len() ==> op_lt(sites[a].spec_operation(), sites[b].spec_operation())
    &&& forall|id: ProgramOperationId|
        #[trigger] is_site(program, id) ==> exists|i: int| #![trigger sites[i]] 0 <= i < sites.len() && sites[i].spec_operation() == id
}

/// Every invocation of the program, in the stable order of operations.
fn collect_sites(targets: &ProgramFunctionTargets, program: &ProgramIr) -> (sites: Vec<CallSite>)
    requires
        call_graph_ready(*program),
        targets.wf(),
        targets.spec_program() == *program,
    ensures
        sites_exact(*program, targets.spec_linkage(), sites@),
{
    let ghost p = *program;
    let ghost l = targets.spec_linkage();
    let ghost n = p.modules@.len() as int;
    let mut sites: Vec<CallSite> = Vec::new();
    let mut m: usize = 0;
    while m < program.modules.len()
        invariant
            call_graph_ready(p),
            targets.wf(),
            targets.spec_program() == p,
            targets.spec_linkage() == l,
            p == *program,
            n == p.modules@.len(),
            m <= n,
            sites@.len() <= operations_before(p.modules@, m as int),
            forall|i: int| #![trigger sites@[i]] 0 <= i < sites@.len() ==> sites@[i].spec_id().spec_index() == i && site_matches(p, l, sites@[i]) && op_before(sites@[i].spec_operation(), m as int, 0, 0),
            forall|a: int, b: int| #![trigger sites@[a], sites@[b]] 0 <= a < b < sites@.len() ==> op_lt(sites@[a].spec_operation(), sites@[b].spec_operation()),
            forall|id: ProgramOperationId| #[trigger] is_site(p, id) && op_before(id, m as int, 0, 0) ==> exists|i: int| #![trigger sites@[i]] 0 <= i < sites@.len() && sites@[i].spec_operation() == id,
        decreases n - m,
    {
        let module = &program.modules[m];
        proof {
            assert(p.modules@[m as int] == *module);
            assert(module.wf());
            lemma_operations_before_mono(p.modules@, m as int + 1, n);
        }
        let mut f: usize = 0;
        while f < module.functions.len()
            invariant
                call_graph_ready(p),
                targets.wf(),
                targets.spec_program() == p,
                targets.spec_linkage() == l,
                p == *program,
                n == p.modules@.len(),
                m < n,
                *module == p.modules@[m as int],
                module.wf(),
                f <= module.functions@.len(),
                operations_before(p.modules@, m as int + 1) <= operations_before(p.modules@, n),
                sites@.len() <= operations_before(p.modules@, m as int) + operations_in(module.functions@, f as int),
                forall|i: int| #![trigger sites@[i]] 0 <= i < sites@.len() ==> sites@[i].spec_id().spec_index() == i && site_matches(p, l, sites@[i]) && op_before(sites@[i].spec_operation(), m as int, f as int, 0),
                forall|a: int, b: int| #![trigger sites@[a], sites@[b]] 0 <= a < b < sites@.len() ==> op_lt(sites@[a].spec_operation(), sites@[b].spec_operation()),
                forall|id: ProgramOperationId| #[trigger] is_site(p, id) && op_before(id, m as int, f as int, 0) ==> exists|i: int| #![trigger sites@[i]] 0 <= i < sites@.len() && sites@[i].spec_operation() == id,
            decreases module.functions@.len() - f,
        {
            let function = &module.functions[f];
            let caller = ProgramFunctionId { module: m as u32, function: f as u32 };
            proof {
                assert(module.functions@[f as int] == *function);
                assert(function.wf(module.functions@.len() as int, module.bindings@.len() as int));
                lemma_operations_in_mono(module.functions@, f as int + 1, module.functions@.len() as int);
            }
            let mut j: usize = 0;
            while j < function.operations.len()
                invariant
                    call_graph_ready(p),
                    targets.wf(),
                    targets.spec_program() == p,
                    targets.spec_linkage() == l,
                    p == *program,
                    n == p.modules@.len(),
                    m < n,
                    *module == p.modules@[m as int],
                    module.wf(),
                    f < module.functions@.len(),
                    *function == module.functions@[f as int],
                    caller.module as int == m && caller.function as int == f,
                    j <= function.operations@.len(),
                    operations_before(p.modules@, m as int + 1) <= operations_before(p.modules@, n),
                    operations_in(module.functions@, f as int + 1) <= operations_in(module.functions@, module.functions@.len() as int),
                    sites@.len() <= operations_before(p.modules@, m as int) + operations_in(module.functions@, f as int) + j,
                    forall|i: int| #![trigger sites@[i]] 0 <= i < sites@.len() ==> sites@[i].spec_id().spec_index() == i && site_matches(p, l, sites@[i]) && op_before(sites@[i].spec_operation(), m as int, f as int, j as int),
                    forall|a: int, b: int| #![trigger sites@[a], sites@[b]] 0 <= a < b < sites@.len() ==> op_lt(sites@[a].spec_operation(), sites@[b].spec_operation()),
                    forall|id: ProgramOperationId| #[trigger] is_site(p, id) && op_before(id, m as int, f as int, j as int) ==> exists|i: int| #![trigger sites@[i]] 0 <= i < sites@.len() && sites@[i].spec_operation() == id,
                decreases function.operations@.len() - j,
            {
                let op = &function.operations[j];
                let ghost id = operation_id(m as int, f as int, j as int);
                proof {
                    assert(function.operations@[j as int] == *op);
                    assert(id.function.module as int == m && id.function.function as int == f && id.operation as int == j);
                    assert(is_operation(p, id));
                    assert(operation_at(p, id) == *op);
                    assert(op.wf(function.value_count as int, function.regions@.len() as int, module.functions@.len() as int, module.bindings@.len() as int));
                }
                match invocation_of(op) {
                    Some((kind, target)) => {
                        let targets_of_site = match target {
                            Some(i) => targets.target_set(caller, op.operands[i]),
                            None => CallTargetSet::unknown(),
                        };
                        let operation = ProgramOperationId { function: caller, operation: j as u32 };
                        let ghost before = sites@;
                        proof {
                            assert(sites@.len() < operations_before(p.modules@, n));
                        }
                        let site = CallSite { id: CallSiteId::from_index(sites.len()), operation, kind, targets: targets_of_site };
                        proof {
                            assert(operation == id);
                            assert(site_matches(p, l, site));
                        }
                        sites.push(site);
                        proof {
                            assert(sites@[before.len() as int] == site);
                            assert forall|i: int| #![trigger sites@[i]] 0 <= i < sites@.len() implies sites@[i].spec_id().spec_index() == i && site_matches(p, l, sites@[i]) && op_before(sites@[i].spec_operation(), m as int, f as int, j + 1) by {
                                if i < before.len() {
                                    assert(sites@[i] == before[i]);
                                }
                            }
                            assert forall|a: int, b: int| #![trigger sites@[a], sites@[b]] 0 <= a < b < sites@.len() implies op_lt(sites@[a].spec_operation(), sites@[b].spec_operation()) by {
                                assert(sites@[a] == before[a]);
                                if b < before.len() {
                                    assert(sites@[b] == before[b]);
                                }
                            }
                            assert forall|x: ProgramOperationId| #[trigger] is_site(p, x) && op_before(x, m as int, f as int, j + 1) implies exists|i: int| #![trigger sites@[i]] 0 <= i < sites@.len() && sites@[i].spec_operation() == x by {
                                if op_before(x, m as int, f as int, j as int) {
                                    let i = choose|i: int| #![trigger before[i]] 0 <= i < before.len() && before[i].spec_operation() == x;
                                    assert(sites@[i] == before[i]);
                                } else {
                                    assert(x == id);
                                    assert(sites@[before.len() as int].spec_operation() == x);
                                }
                            }
                        }
                    },
                    None => {
                        proof {
                            assert forall|x: ProgramOperationId| #[trigger] is_site(p, x) && op_before(x, m as int, f as int, j + 1) implies exists|i: int| #![trigger sites@[i]] 0 <= i < sites@.len() && sites@[i].spec_operation() == x by {
                                if !op_before(x, m as int, f as int, j as int) {
                                    assert(x == id);
                                }
                            }
                        }
                    },
                }
                j = j + 1;
            }
            proof {
                assert forall|x: ProgramOperationId| #[trigger] is_site(p, x) && op_before(x, m as int, f as int + 1, 0) implies op_before(x, m as int, f as int, j as int) by {}
            }
            f = f + 1;
        }
        proof {
            assert forall|x: ProgramOperationId| #[trigger] is_site(p, x) && op_before(x, m as int + 1, 0, 0) implies op_before(x, m as int, f as int, 0) by {}
        }
        m = m + 1;
    }
    proof {
        assert forall|x: ProgramOperationId| #[trigger] is_site(p, x) implies op_before(x, n, 0, 0) by {}
    }
    sites
}


/// Whether some reference other than an allocation may lead to `function`.
pub open spec fn has_outside_reference(program: ProgramIr, linkage: ProgramLinkage, function: ProgramFunctionId) -> bool {
    exists|r: FunctionReference|
        #[trigger] is_reference(program, linkage, r) && r.target == function && !(r.site is Allocation)
}

/// Whether a site sits in function `caller`.
pub open spec fn sits_in(caller: ProgramFunctionId) -> spec_fn(CallSite) -> bool {
    |s: CallSite| s.spec_operation().function == caller
}

/// Whether a site may call `callee`.
pub open spec fn may_call(callee: ProgramFunctionId) -> spec_fn(CallSite) -> bool {
    |s: CallSite| s.spec_functions().contains(callee)
}

/// Whether a reference leads to `target`.
pub open spec fn leads_to(target: ProgramFunctionId) -> spec_fn(FunctionReference) -> bool {
    |r: FunctionReference| r.target == target
}

/// `sites` refers to the sites of `expected`, in order.
pub open spec fn refers_to(sites: Seq<&CallSite>, expected: Seq<CallSite>) -> bool {
    sites.len() == expected.len() && forall|k: int| #![trigger sites[k]] 0 <= k < sites.len() ==> *sites[k] == expected[k]
}

/// Every function a site may call is a function of the program.
proof fn lemma_site_targets_are_functions(program: ProgramIr, linkage: ProgramLinkage, site: CallSite)
    requires
        program.wf(),
        site_matches(program, linkage, site),
    ensures
        forall|k: int| 0 <= k < site.spec_functions().len() ==> is_function(program, #[trigger] site.spec_functions()[k]),
{
    let id = site.spec_operation();
    let op = operation_at(program, id);
    assert forall|k: int| 0 <= k < site.spec_functions().len() implies is_function(program, #[trigger] site.spec_functions()[k]) by {
        let g = site.spec_functions()[k];
        if let Some(i) = (invocation(op)->0).1 {
            let x = value_node(program, id.function.module as int, id.function.function as int, op.operands@[i as int] as int);
            assert(site.spec_functions().to_set().contains(g));
            assert(held_functions(program, linkage, x).contains(g));
            let n = choose|n: int| #![trigger crate::program_targets::flows_to(program, linkage, n, x)] crate::program_targets::flows_to(program, linkage, n, x)
                && crate::program_targets::target_exact(program, n, g);
            lemma_exact_target_is_function(program, n, g);
        }
    }
}

/// The entry function of every entry module has a program-entry reference
/// among the graph's references, so its incoming calls are never complete.
pub proof fn lemma_entry_functions_incomplete(graph: ProgramCallGraph, i: int)
    requires
        graph.wf(),
        0 <= i < graph.spec_program().entry_modules@.len(),
    ensures
        ({
            let entry = ProgramFunctionId { module: graph.spec_program().entry_modules@[i] as u32, function: 0 };
            let r = FunctionReference { target: entry, site: FunctionReferenceSite::ProgramEntry };
            &&& graph.spec_references().contains(r)
            &&& has_outside_reference(graph.spec_program(), graph.spec_linkage(), entry)
        }),
{
    let p = graph.spec_program();
    let m = p.entry_modules@[i];
    assert(m < p.modules@.len());
    assert(p.modules@.len() <= u32::MAX + 1);
    assert((m as u32) as int == m as int);
    let entry = ProgramFunctionId { module: m as u32, function: 0 };
    let r = FunctionReference { target: entry, site: FunctionReferenceSite::ProgramEntry };
    assert(is_reference(p, graph.spec_linkage(), r));
}

/// Keeping the sites that satisfy `pred` keeps their order and keeps only
/// sites of `s`.
proof fn lemma_filter_keeps_order(s: Seq<CallSite>, pred: spec_fn(CallSite) -> bool)
    requires
        forall|i: int, j: int| 0 <= i < j < s.len() ==> #[trigger] s[i].spec_id().spec_index() < #[trigger] s[j].spec_id().spec_index(),
    ensures
        forall|i: int, j: int|
            0 <= i < j < s.filter(pred).len() ==> #[trigger] s.filter(pred)[i].spec_id().spec_index()
                < #[trigger] s.filter(pred)[j].spec_id().spec_index(),
        forall|k: int| 0 <= k < s.filter(pred).len() ==> s.contains(#[trigger] s.filter(pred)[k]),
    decreases s.len(),
{
    reveal(Seq::filter);
    if s.len() > 0 {
        let d = s.drop_last();
        lemma_filter_keeps_order(d, pred);
        let t = d.filter(pred);
        let u = s.filter(pred);
        assert forall|k: int| 0 <= k < t.len() implies #[trigger] t[k].spec_id().spec_index() < s.last().spec_id().spec_index() by {
            assert(d.contains(t[k]));
            let i = choose|i: int| 0 <= i < d.len() && d[i] == t[k];
            assert(s[i] == t[k]);
        }
        assert forall|k: int| 0 <= k < u.len() implies s.contains(#[trigger] u[k]) by {
            if k < t.len() {
                assert(u[k] == t[k]);
                assert(d.contains(t[k]));
                let i = choose|i: int| 0 <= i < d.len() && d[i] == t[k];
                assert(s[i] == u[k]);
            } else {
                assert(u[k] == s.last());
                assert(s[s.len() - 1] == u[k]);
            }
        }
        assert forall|i: int, j: int| 0 <= i < j < u.len() implies #[trigger] u[i].spec_id().spec_index() < #[trigger] u[j].spec_id().spec_index() by {
            if j < t.len() {
                assert(u[i] == t[i] && u[j] == t[j]);
            } else {
                assert(u[i] == t[i]);
                assert(u[j] == s.last());
            }
        }
    }
}

/// The sites of a caller, and the sites that may call a callee, come in
/// increasing identifier order; a function that the program lacks contains
/// no site and is called by none.
pub proof fn lemma_site_lists_ordered(graph: ProgramCallGraph, function: ProgramFunctionId)
    requires
        graph.wf(),
    ensures
        forall|i: int, j: int|
            0 <= i < j < graph.spec_sites().filter(sits_in(function)).len() ==> #[trigger] graph.spec_sites().filter(
                sits_in(function),
            )[i].spec_id().spec_index() < #[trigger] graph.spec_sites().filter(sits_in(function))[j].spec_id().spec_index(),
        forall|i: int, j: int|
            0 <= i < j < graph.spec_sites().filter(may_call(function)).len() ==> #[trigger] graph.spec_sites().filter(
                may_call(function),
            )[i].spec_id().spec_index() < #[trigger] graph.spec_sites().filter(may_call(function))[j].spec_id().spec_index(),
        !is_function(graph.spec_program(), function) ==> graph.spec_sites().filter(sits_in(function)).len() == 0,
        !is_function(graph.spec_program(), function) ==> graph.spec_sites().filter(may_call(function)).len() == 0,
{
    let s = graph.spec_sites();
    assert forall|i: int, j: int| 0 <= i < j < s.len() implies #[trigger] s[i].spec_id().spec_index() < #[trigger] s[j].spec_id().spec_index() by {
        assert(s[i].spec_id().spec_index() == i);
        assert(s[j].spec_id().spec_index() == j);
    }
    lemma_filter_keeps_order(s, sits_in(function));
    lemma_filter_keeps_order(s, may_call(function));
    let c = s.filter(may_call(function));
    if c.len() > 0 && !is_function(graph.spec_program(), function) {
        s.filter_lemma(may_call(function));
        assert(may_call(function)(c[0]));
        assert(s.contains(c[0]));
        let i = choose|i: int| 0 <= i < s.len() && s[i] == c[0];
        assert(site_matches(graph.spec_program(), graph.spec_linkage(), s[i]));
        lemma_site_targets_are_functions(graph.spec_program(), graph.spec_linkage(), s[i]);
        let k = choose|k: int| 0 <= k < s[i].spec_functions().len() && s[i].spec_functions()[k] == function;
        assert(is_function(graph.spec_program(), s[i].spec_functions()[k]));
    }
    let t = s.filter(sits_in(function));
    if t.len() > 0 {
        s.filter_lemma(sits_in(function));
        assert(sits_in(function)(t[0]));
        assert(s.contains(t[0]));
        let i = choose|i: int| 0 <= i < s.len() && s[i] == t[0];
        assert(site_matches(graph.spec_program(), graph.spec_linkage(), s[i]));
    }
}

/// Whole-program call and function-reference topology for one program.
///
/// Every incoming path not represented by a call site remains visible as a
/// non-allocation function reference.
pub struct ProgramCallGraph {
    sites: Vec<CallSite>,
    references: Vec<FunctionReference>,
    function_counts: Vec<usize>,
    program: Ghost<ProgramIr>,
    linkage: Ghost<ProgramLinkage>,
}

impl ProgramCallGraph {
    /// The program the graph describes.
    pub closed spec fn spec_program(&self) -> ProgramIr {
        self.program@
    }

    /// The linkage the graph describes.
    pub closed spec fn spec_linkage(&self) -> ProgramLinkage {
        self.linkage@
    }

    /// Every invocation, in the stable order of operations.
    pub closed spec fn spec_sites(&self) -> Seq<CallSite> {
        self.sites@
    }

    /// Every reference, each once.
    pub closed spec fn spec_references(&self) -> Seq<FunctionReference> {
        self.references@
    }

    /// The graph knows how many functions each module of its program has.
    pub closed spec fn counts_functions(&self) -> bool {
        &&& self.function_counts@.len() == self.program@.modules@.len()
        &&& forall|m: int|
            #![trigger self.function_counts@[m]]
            0 <= m < self.function_counts@.len() ==> self.function_counts@[m] == self.program@.modules@[m].functions@.len()
    }

    /// The sites are every invocation, each calling only functions of the
    /// program, and the references every reference of the program, once
    /// each, in the stable order of references.
    pub open spec fn wf(&self) -> bool {
        &&& self.spec_program().wf()
        &&& forall|i: int, k: int|
            0 <= i < self.spec_sites().len() && 0 <= k < self.spec_sites()[i].spec_functions().len() ==> is_function(
                self.spec_program(),
                #[trigger] self.spec_sites()[i].spec_functions()[k],
            )
        &&& self.counts_functions()
        &&& sites_exact(self.spec_program(), self.spec_linkage(), self.spec_sites())
        &&& self.spec_references().no_duplicates()
        &&& references_sorted(self.spec_references())
        &&& forall|r: FunctionReference|
            #[trigger] self.spec_references().contains(r) <==> is_reference(self.spec_program(), self.spec_linkage(), r)
    }

    /// Analyzes calls and function references across one linked program.
    pub fn analyze(program: &ProgramIr, linkage: &ProgramLinkage) -> (graph: Self)
        requires
            call_graph_ready(*program),
            target_node_count(*program) <= usize::MAX,
        ensures
            graph.wf(),
            graph.spec_program() == *program,
            graph.spec_linkage() == *linkage,
    {
        let targets = ProgramFunctionTargets::analyze(program, linkage);
        let sites = collect_sites(&targets, program);
        let references = sort_references(collect_references(&targets, program));
        let mut function_counts: Vec<usize> = Vec::new();
        let mut m: usize = 0;
        while m < program.modules.len()
            invariant
                m <= program.modules@.len(),
                function_counts@.len() == m,
                forall|k: int| #![trigger function_counts@[k]] 0 <= k < m ==> function_counts@[k] == program.modules@[k].functions@.len(),
            decreases program.modules@.len() - m,
        {
            function_counts.push(program.modules[m].functions.len());
            m = m + 1;
        }
        let graph = ProgramCallGraph { sites, references, function_counts, program: Ghost(*program), linkage: Ghost(*linkage) };
        proof {
            assert forall|i: int, k: int|
                0 <= i < graph.spec_sites().len() && 0 <= k < graph.spec_sites()[i].spec_functions().len() implies is_function(
                    graph.spec_program(),
                    #[trigger] graph.spec_sites()[i].spec_functions()[k],
                ) by {
                assert(site_matches(*program, *linkage, graph.spec_sites()[i]));
                lemma_site_targets_are_functions(*program, *linkage, graph.spec_sites()[i]);
            }
        }
        graph
    }

    /// Every explicit invocation in the stable order of operations.
    pub fn sites(&self) -> (sites: &[CallSite])
        ensures
            sites@ == self.spec_sites(),
    {
        self.sites.as_slice()
    }

    /// One invocation site, by its identifier.
    pub fn site(&self, id: CallSiteId) -> (site: Option<&CallSite>)
        ensures
            match site {
                Some(s) => id.spec_index() < self.spec_sites().len() && *s == self.spec_sites()[id.spec_index() as int],
                None => id.spec_index() >= self.spec_sites().len(),
            },
    {
        let index = id.index();
        if index < self.sites.len() {
            Some(&self.sites[index])
        } else {
            None
        }
    }

    /// The invocation sites contained in `caller`, in order.
    pub fn sites_in(&self, caller: ProgramFunctionId) -> (sites: Vec<&CallSite>)
        ensures
            refers_to(sites@, self.spec_sites().filter(sits_in(caller))),
    {
        let ghost pred = sits_in(caller);
        let mut result: Vec<&CallSite> = Vec::new();
        let mut i: usize = 0;
        while i < self.sites.len()
            invariant
                pred == sits_in(caller),
                i <= self.sites@.len(),
                refers_to(result@, self.sites@.take(i as int).filter(pred)),
            decreases self.sites@.len() - i,
        {
            let site = &self.sites[i];
            proof {
                assert(self.sites@.take(i + 1) =~= self.sites@.take(i as int).push(*site));
                self.sites@.take(i as int).lemma_filter_push(*site, pred);
            }
            let ghost old_result = result@;
            if site.operation.function == caller {
                result.push(site);
                assert(result@[old_result.len() as int] == site);
            }
            i = i + 1;
        }
        assert(self.sites@.take(i as int) =~= self.sites@);
        result
    }

    /// The invocation sites that may call `callee`, in order.
    pub fn callers_of(&self, callee: ProgramFunctionId) -> (sites: Vec<&CallSite>)
        ensures
            refers_to(sites@, self.spec_sites().filter(may_call(callee))),
    {
        let ghost pred = may_call(callee);
        let mut result: Vec<&CallSite> = Vec::new();
        let mut i: usize = 0;
        while i < self.sites.len()
            invariant
                pred == may_call(callee),
                i <= self.sites@.len(),
                refers_to(result@, self.sites@.take(i as int).filter(pred)),
            decreases self.sites@.len() - i,
        {
            let site = &self.sites[i];
            proof {
                assert(self.sites@.take(i + 1) =~= self.sites@.take(i as int).push(*site));
                self.sites@.take(i as int).lemma_filter_push(*site, pred);
            }
            let ghost old_result = result@;
            if contains_function(site.targets.functions(), callee) {
                result.push(site);
                assert(result@[old_result.len() as int] == site);
            }
            i = i + 1;
        }
        assert(self.sites@.take(i as int) =~= self.sites@);
        result
    }

    /// Every statically known non-call function reference, in the stable
    /// order of references: by target, then by site kind and position.
    pub fn references(&self) -> (references: &[FunctionReference])
        ensures
            references@ == self.spec_references(),
    {
        self.references.as_slice()
    }

    /// The non-call references to `target`, in order.
    pub fn references_to(&self, target: ProgramFunctionId) -> (references: Vec<FunctionReference>)
        ensures
            references@ == self.spec_references().filter(leads_to(target)),
    {
        let ghost pred = leads_to(target);
        let mut result: Vec<FunctionReference> = Vec::new();
        let mut i: usize = 0;
        while i < self.references.len()
            invariant
                pred == leads_to(target),
                i <= self.references@.len(),
                result@ == self.references@.take(i as int).filter(pred),
            decreases self.references@.len() - i,
        {
            let r = self.references[i];
            proof {
                assert(self.references@.take(i + 1) =~= self.references@.take(i as int).push(r));
                self.references@.take(i as int).lemma_filter_push(r, pred);
            }
            if r.target == target {
                result.push(r);
            }
            i = i + 1;
        }
        assert(self.references@.take(i as int) =~= self.references@);
        result
    }

    /// Whether every possible invocation of `function` is a call site: it is
    /// a function of the program that no reference other than its allocation
    /// leads to, neither a program entry, an export, an ordinary use nor a
    /// direct eval.
    pub fn has_complete_incoming_calls(&self, function: ProgramFunctionId) -> (complete: bool)
        requires
            self.wf(),
        ensures
            complete == (is_function(self.spec_program(), function) && !has_outside_reference(
                self.spec_program(),
                self.spec_linkage(),
                function,
            )),
    {
        let ghost p = self.program@;
        let ghost l = self.linkage@;
        let mut i: usize = 0;
        while i < self.references.len()
            invariant
                self.wf(),
                p == self.spec_program(),
                l == self.spec_linkage(),
                i <= self.references@.len(),
                forall|k: int| 0 <= k < i ==> !(self.references@[k].target == function && !(self.references@[k].site is Allocation)),
            decreases self.references@.len() - i,
        {
            let r = self.references[i];
            let allocation = match r.site {
                FunctionReferenceSite::Allocation { .. } => true,
                _ => false,
            };
            if r.target == function && !allocation {
                proof {
                    assert(self.references@[i as int] == r);
                    assert(self.spec_references().contains(r));
                    assert(is_reference(p, l, r));
                }
                return false;
            }
            i = i + 1;
        }
        proof {
            assert forall|r: FunctionReference| #[trigger] is_reference(p, l, r) && r.target == function implies r.site is Allocation by {
                assert(self.spec_references().contains(r));
                let k = choose|k: int| 0 <= k < self.references@.len() && self.references@[k] == r;
            }
        }
        let m = function.module as usize;
        m < self.function_counts.len() && (function.function as usize) < self.function_counts[m]
    }
}

/// Whether `functions` holds `g`.
fn contains_function(functions: &[ProgramFunctionId], g: ProgramFunctionId) -> (r: bool)
    ensures
        r == functions@.contains(g),
{
    let mut k: usize = 0;
    while k < functions.len()
        invariant
            k <= functions@.len(),
            forall|i: int| 0 <= i < k ==> functions@[i] != g,
        decreases functions@.len() - k,
    {
        if functions[k] == g {
            assert(functions@[k as int] == g);
            return true;
        }
        k = k + 1;
    }
    false
}

} // verus!
