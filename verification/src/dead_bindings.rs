//! Planning the removal of dead module bindings.
//!
//! A binding of the module's entry function that is neither imported nor
//! exported is dead when the only operations that reference it initialize
//! it. Removing it removes those initializations; their operands stay, so
//! that ordinary dead-code elimination keeps producers with observable
//! effects. A module that may evaluate code with a direct `eval` keeps every
//! binding.

use vstd::prelude::*;

use crate::binding_promotion::exported;
use crate::binding_promotion::is_exported;
use crate::binding_promotion::loads_global_eval;
use crate::binding_promotion::loads_global_eval_of;
use crate::ir::BindingKind;
use crate::ir::ModuleIr;
use crate::ir::Operation;
use crate::ir::OperationKind;

verus! {

/// The removal of one dead binding: the binding, and for each function that
/// initializes it, in function order, its initializing operations in order.
pub struct BindingRemoval {
    pub binding: usize,
    pub initializations: Vec<(usize, Vec<usize>)>,
}

impl View for BindingRemoval {
    type V = (usize, Seq<(usize, Seq<usize>)>);

    open spec fn view(&self) -> (usize, Seq<(usize, Seq<usize>)>) {
        (self.binding, self.initializations@.map_values(|e: (usize, Vec<usize>)| (e.0, e.1@)))
    }
}

/// Whether some function of `module` loads the global `eval`.
pub open spec fn module_loads_eval(module: ModuleIr) -> bool {
    exists|f: int| #![trigger module.functions@[f]] 0 <= f < module.functions@.len() && loads_global_eval(module.functions@[f])
}

/// Whether `operation` references binding `b`.
pub open spec fn references(operation: Operation, b: usize) -> bool {
    operation.referenced_bindings@.contains(b)
}

/// Whether `operation` initializes binding `b`.
pub open spec fn initializes(operation: Operation, b: usize) -> bool {
    operation.kind matches OperationKind::InitializeBinding { binding } && binding == b
}

/// The positions among the first `k` of `operations` that reference `b`, in order.
pub open spec fn referencing_upto(operations: Seq<Operation>, b: usize, k: int) -> Seq<usize>
    decreases k,
{
    if k <= 0 {
        Seq::empty()
    } else if references(operations[k - 1], b) {
        referencing_upto(operations, b, k - 1).push((k - 1) as usize)
    } else {
        referencing_upto(operations, b, k - 1)
    }
}

/// The positions of `operations` that reference `b`, in order.
pub open spec fn referencing(operations: Seq<Operation>, b: usize) -> Seq<usize> {
    referencing_upto(operations, b, operations.len() as int)
}

/// For each of the first `f` functions of `module` with an operation that
/// references `b`, in function order: the function and those operations.
pub open spec fn initializations_upto(module: ModuleIr, b: usize, f: int) -> Seq<(usize, Seq<usize>)>
    decreases f,
{
    if f <= 0 {
        Seq::empty()
    } else {
        let found = referencing(module.functions@[f - 1].operations@, b);
        if found.len() > 0 {
            initializations_upto(module, b, f - 1).push(((f - 1) as usize, found))
        } else {
            initializations_upto(module, b, f - 1)
        }
    }
}

/// Whether every operation of `module` that references `b` initializes it.
pub open spec fn only_initialized(module: ModuleIr, b: usize) -> bool {
    forall|f: int, j: int|
        #![trigger module.functions@[f].operations@[j]]
        0 <= f < module.functions@.len() && 0 <= j < module.functions@[f].operations@.len() && references(
            module.functions@[f].operations@[j],
            b,
        ) ==> initializes(module.functions@[f].operations@[j], b)
}

/// The removal of binding `b`, when it is dead: a binding of the entry
/// function, not imported and not exported, that some operation references
/// and that every referencing operation initializes.
pub open spec fn removal_of(module: ModuleIr, b: usize) -> Option<(usize, Seq<(usize, Seq<usize>)>)> {
    let data = module.bindings@[b as int];
    let initializations = initializations_upto(module, b, module.functions@.len() as int);
    if data.declaring_function == 0 && data.kind != BindingKind::Import && !exported(module, b) && only_initialized(
        module,
        b,
    ) && initializations.len() > 0 {
        Some((b, initializations))
    } else {
        None
    }
}

/// The removals of the dead bindings among the first `c` bindings of `module`, in binding order.
pub open spec fn removals_upto(module: ModuleIr, c: int) -> Seq<(usize, Seq<(usize, Seq<usize>)>)>
    decreases c,
{
    if c <= 0 {
        Seq::empty()
    } else {
        match removal_of(module, (c - 1) as usize) {
            Some(r) => removals_upto(module, c - 1).push(r),
            None => removals_upto(module, c - 1),
        }
    }
}

/// The removals of the dead bindings of `module`: none when some function
/// loads the global `eval`.
pub open spec fn dead_binding_removals(module: ModuleIr) -> Seq<(usize, Seq<(usize, Seq<usize>)>)> {
    if module_loads_eval(module) {
        Seq::empty()
    } else {
        removals_upto(module, module.bindings@.len() as int)
    }
}

/// Whether some function of `module` loads the global `eval`.
fn module_loads_eval_of(module: &ModuleIr) -> (r: bool)
    ensures
        r == module_loads_eval(*module),
{
    let mut f: usize = 0;
    while f < module.functions.len()
        invariant
            f <= module.functions@.len(),
            forall|g: int| #![trigger module.functions@[g]] 0 <= g < f ==> !loads_global_eval(module.functions@[g]),
        decreases module.functions.len() - f,
    {
        if loads_global_eval_of(&module.functions[f]) {
            return true;
        }
        f = f + 1;
    }
    false
}

/// Whether `operation` references binding `b`.
fn references_binding(operation: &Operation, b: usize) -> (r: bool)
    ensures
        r == references(*operation, b),
{
    let mut i: usize = 0;
    while i < operation.referenced_bindings.len()
        invariant
            i <= operation.referenced_bindings@.len(),
            forall|q: int| 0 <= q < i ==> #[trigger] operation.referenced_bindings@[q] != b,
        decreases operation.referenced_bindings.len() - i,
    {
        if operation.referenced_bindings[i] == b {
            assert(operation.referenced_bindings@[i as int] == b);
            return true;
        }
        i = i + 1;
    }
    false
}

/// The positions of `operations` that reference `b`, when each of them
/// initializes `b`; `None` when one of them does not.
fn initializing_positions(operations: &Vec<Operation>, b: usize) -> (r: Option<Vec<usize>>)
    ensures
        match r {
            Some(found) => found@ == referencing(operations@, b) && forall|j: int|
                0 <= j < operations@.len() && references(#[trigger] operations@[j], b) ==> initializes(operations@[j], b),
            None => exists|j: int|
                0 <= j < operations@.len() && references(#[trigger] operations@[j], b) && !initializes(operations@[j], b),
        },
{
    let mut found: Vec<usize> = Vec::new();
    let mut j: usize = 0;
    while j < operations.len()
        invariant
            j <= operations@.len(),
            found@ == referencing_upto(operations@, b, j as int),
            forall|q: int| 0 <= q < j && references(#[trigger] operations@[q], b) ==> initializes(operations@[q], b),
        decreases operations.len() - j,
    {
        let operation = &operations[j];
        if references_binding(operation, b) {
            let initializing = match &operation.kind {
                OperationKind::InitializeBinding { binding } => *binding == b,
                _ => false,
            };
            if !initializing {
                assert(references(operations@[j as int], b) && !initializes(operations@[j as int], b));
                return None;
            }
            found.push(j);
        }
        j = j + 1;
    }
    Some(found)
}

/// Plans the removal of binding `b` of `module`: for each function with an
/// operation that references `b`, those operations; `None` when one of them
/// does something other than initialize `b`, or when none references it.
pub fn plan_binding_removal(module: &ModuleIr, b: usize) -> (plan: Option<BindingRemoval>)
    ensures
        match plan {
            Some(p) => only_initialized(*module, b) && p@ == (b, initializations_upto(*module, b, module.functions@.len() as int))
                && p@.1.len() > 0,
            None => !only_initialized(*module, b) || initializations_upto(*module, b, module.functions@.len() as int).len()
                == 0,
        },
{
    let mut initializations: Vec<(usize, Vec<usize>)> = Vec::new();
    let mut f: usize = 0;
    while f < module.functions.len()
        invariant
            f <= module.functions@.len(),
            initializations@.map_values(|e: (usize, Vec<usize>)| (e.0, e.1@)) == initializations_upto(*module, b, f as int),
            forall|g: int, j: int|
                #![trigger module.functions@[g].operations@[j]]
                0 <= g < f && 0 <= j < module.functions@[g].operations@.len() && references(module.functions@[g].operations@[j], b)
                    ==> initializes(module.functions@[g].operations@[j], b),
        decreases module.functions.len() - f,
    {
        let ghost before = initializations@;
        match initializing_positions(&module.functions[f].operations, b) {
            None => {
                proof {
                    let ops = module.functions@[f as int].operations@;
                    let j = choose|j: int| 0 <= j < ops.len() && references(#[trigger] ops[j], b) && !initializes(ops[j], b);
                    assert(references(module.functions@[f as int].operations@[j], b));
                }
                return None;
            },
            Some(found) => {
                if found.len() > 0 {
                    initializations.push((f, found));
                    proof {
                        assert(initializations@.map_values(|e: (usize, Vec<usize>)| (e.0, e.1@)) =~= before.map_values(
                            |e: (usize, Vec<usize>)| (e.0, e.1@),
                        ).push((f, found@)));
                    }
                }
            },
        }
        f = f + 1;
    }
    if initializations.len() == 0 {
        return None;
    }
    Some(BindingRemoval { binding: b, initializations })
}

/// Plans the removal of every dead binding of `module`, in binding order:
/// each binding of the entry function (function 0) that is neither imported
/// nor exported and that only initializing operations reference. Nothing is
/// removed from a module in which some function loads the global `eval`.
pub fn plan_dead_binding_removals(module: &ModuleIr) -> (plans: Vec<BindingRemoval>)
    ensures
        plans@.map_values(|p: BindingRemoval| p@) == dead_binding_removals(*module),
{
    let mut plans: Vec<BindingRemoval> = Vec::new();
    if module_loads_eval_of(module) {
        assert(plans@.map_values(|p: BindingRemoval| p@) =~= Seq::empty());
        return plans;
    }
    let mut c: usize = 0;
    while c < module.bindings.len()
        invariant
            c <= module.bindings@.len(),
            plans@.map_values(|p: BindingRemoval| p@) == removals_upto(*module, c as int),
        decreases module.bindings.len() - c,
    {
        let data = &module.bindings[c];
        let ghost before = plans@;
        if data.declaring_function == 0 && data.kind != BindingKind::Import && !is_exported(module, c) {
            match plan_binding_removal(module, c) {
                Some(plan) => {
                    plans.push(plan);
                    proof {
                        assert(plans@.map_values(|p: BindingRemoval| p@) =~= before.map_values(|p: BindingRemoval| p@).push(
                            plans@[before.len() as int]@,
                        ));
                    }
                },
                None => {},
            }
        }
        c = c + 1;
    }
    plans
}

} // verus!
