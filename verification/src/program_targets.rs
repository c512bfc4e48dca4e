//! Which program functions each value and binding of a linked program may
//! hold, as a fixed point over the whole program.
//!
//! The problem has a node for every binding of every module, modules in
//! order, followed by a node for every value of every function, modules and
//! functions in order.

use vstd::prelude::*;

use crate::call_graph::CallTargetCompleteness;
use crate::call_graph::CallTargetSet;
use crate::call_graph::ProgramFunctionId;
use crate::call_graph::is_reaching_state;
use crate::call_graph::reaching_functions;
use crate::call_graph::reaching_incomplete;
use crate::call_graph::reaching_known_state;
use crate::call_graph::sorted_functions;
use crate::call_graph::TargetSolver;
use crate::call_graph::TargetState;
use crate::escape_flow::stored_binding;
use crate::flow::is_descendant;
use crate::flow::is_descendant_of;
use crate::flow::is_direct_eval;
use crate::flow::is_direct_eval_call;
use crate::ir::BindingKind;
use crate::ir::FunctionIr;
use crate::ir::ModuleIr;
use crate::ir::Operation;
use crate::ir::OperationKind;
use crate::paths::reaches;
use crate::pointer_solver::list_step;
use crate::program::ImportedBindingTarget;
use crate::program::ProgramBindingId;
use crate::program::ProgramIr;
use crate::program::ProgramLinkage;

verus! {

/// The number of bindings of the first `m` modules.
pub open spec fn bindings_before(modules: Seq<ModuleIr>, m: int) -> int
    decreases m,
{
    if m <= 0 {
        0
    } else {
        bindings_before(modules, m - 1) + modules[m - 1].bindings@.len()
    }
}

/// The number of values of the first `f` functions.
pub open spec fn values_in(functions: Seq<FunctionIr>, f: int) -> int
    decreases f,
{
    if f <= 0 {
        0
    } else {
        values_in(functions, f - 1) + functions[f - 1].value_count
    }
}

/// The number of values of the functions of the first `m` modules.
pub open spec fn values_before(modules: Seq<ModuleIr>, m: int) -> int
    decreases m,
{
    if m <= 0 {
        0
    } else {
        values_before(modules, m - 1) + values_in(modules[m - 1].functions@, modules[m - 1].functions@.len() as int)
    }
}

/// The node of binding `b` of module `m`.
pub open spec fn binding_node(program: ProgramIr, m: int, b: int) -> int {
    bindings_before(program.modules@, m) + b
}

/// The node of value `v` of function `f` of module `m`.
pub open spec fn value_node(program: ProgramIr, m: int, f: int, v: int) -> int {
    let modules = program.modules@;
    bindings_before(modules, modules.len() as int) + values_before(modules, m) + values_in(modules[m].functions@, f) + v
}

/// The number of nodes.
pub open spec fn target_node_count(program: ProgramIr) -> int {
    let modules = program.modules@;
    bindings_before(modules, modules.len() as int) + values_before(modules, modules.len() as int)
}

pub proof fn lemma_bindings_before_mono(modules: Seq<ModuleIr>, m: int, k: int)
    requires
        0 <= m <= k <= modules.len(),
    ensures
        0 <= bindings_before(modules, m) <= bindings_before(modules, k),
    decreases k,
{
    if k > 0 {
        if m == k {
            lemma_bindings_before_mono(modules, k - 1, k - 1);
        } else {
            lemma_bindings_before_mono(modules, m, k - 1);
        }
    }
}

proof fn lemma_values_in_mono(functions: Seq<FunctionIr>, f: int, k: int)
    requires
        0 <= f <= k <= functions.len(),
    ensures
        0 <= values_in(functions, f) <= values_in(functions, k),
    decreases k,
{
    if k > 0 {
        if f == k {
            lemma_values_in_mono(functions, k - 1, k - 1);
        } else {
            lemma_values_in_mono(functions, f, k - 1);
        }
    }
}

proof fn lemma_values_before_mono(modules: Seq<ModuleIr>, m: int, k: int)
    requires
        0 <= m <= k <= modules.len(),
    ensures
        0 <= values_before(modules, m) <= values_before(modules, k),
    decreases k,
{
    if k > 0 {
        lemma_values_in_mono(modules[k - 1].functions@, 0, modules[k - 1].functions@.len() as int);
        if m == k {
            lemma_values_before_mono(modules, k - 1, k - 1);
        } else {
            lemma_values_before_mono(modules, m, k - 1);
        }
    }
}

/// Binding and value nodes lie among the nodes.
pub proof fn lemma_nodes_in_range(program: ProgramIr)
    ensures
        forall|m: int, b: int|
            #![trigger binding_node(program, m, b)]
            0 <= m < program.modules@.len() && 0 <= b < program.modules@[m].bindings@.len() ==> 0 <= binding_node(
                program,
                m,
                b,
            ) < bindings_before(program.modules@, program.modules@.len() as int),
        forall|m: int, f: int, v: int|
            #![trigger value_node(program, m, f, v)]
            0 <= m < program.modules@.len() && 0 <= f < program.modules@[m].functions@.len() && 0 <= v
                < program.modules@[m].functions@[f].value_count ==> bindings_before(
                program.modules@,
                program.modules@.len() as int,
            ) <= value_node(program, m, f, v) < target_node_count(program),
{
    let modules = program.modules@;
    let n = modules.len() as int;
    assert forall|m: int, b: int|
        #![trigger binding_node(program, m, b)]
        0 <= m < n && 0 <= b < modules[m].bindings@.len() implies 0 <= binding_node(program, m, b) < bindings_before(modules, n) by {
        lemma_bindings_before_mono(modules, m + 1, n);
        lemma_bindings_before_mono(modules, 0, m);
    }
    assert forall|m: int, f: int, v: int|
        #![trigger value_node(program, m, f, v)]
        0 <= m < n && 0 <= f < modules[m].functions@.len() && 0 <= v < modules[m].functions@[f].value_count implies bindings_before(
            modules,
            n,
        ) <= value_node(program, m, f, v) < target_node_count(program) by {
        lemma_bindings_before_mono(modules, 0, n);
        lemma_values_before_mono(modules, 0, m);
        lemma_values_before_mono(modules, m + 1, n);
        lemma_values_in_mono(modules[m].functions@, 0, f);
        lemma_values_in_mono(modules[m].functions@, f + 1, modules[m].functions@.len() as int);
    }
}

/// Where the nodes of each module's bindings and each function's values start.
pub struct TargetLayout {
    binding_base: Vec<usize>,
    value_base: Vec<Vec<usize>>,
    node_count: usize,
}

impl TargetLayout {
    /// The layout numbers the nodes of `program` as `binding_node` and `value_node` do.
    pub closed spec fn describes(&self, program: ProgramIr) -> bool {
        let modules = program.modules@;
        &&& self.binding_base@.len() == modules.len()
        &&& self.value_base@.len() == modules.len()
        &&& self.node_count == target_node_count(program)
        &&& forall|m: int|
            #![trigger self.binding_base@[m]]
            0 <= m < modules.len() ==> self.binding_base@[m] == bindings_before(modules, m)
        &&& forall|m: int|
            #![trigger self.value_base@[m]]
            0 <= m < modules.len() ==> self.value_base@[m]@.len() == modules[m].functions@.len()
        &&& forall|m: int, f: int|
            #![trigger self.value_base@[m]@[f]]
            0 <= m < modules.len() && 0 <= f < modules[m].functions@.len() ==> self.value_base@[m]@[f] == value_node(
                program,
                m,
                f,
                0,
            )
    }

    /// The number of nodes.
    pub closed spec fn spec_node_count(&self) -> nat {
        self.node_count as nat
    }

    /// Numbers the nodes of `program`.
    pub fn new(program: &ProgramIr) -> (layout: Self)
        requires
            target_node_count(*program) <= usize::MAX,
        ensures
            layout.describes(*program),
            layout.spec_node_count() == target_node_count(*program),
    {
        let ghost modules = program.modules@;
        let ghost n = modules.len() as int;
        proof {
            lemma_bindings_before_mono(modules, 0, n);
            lemma_values_before_mono(modules, 0, n);
        }
        let mut binding_base: Vec<usize> = Vec::new();
        let mut next: usize = 0;
        let mut m: usize = 0;
        while m < program.modules.len()
            invariant
                modules == program.modules@,
                n == modules.len(),
                m <= n,
                target_node_count(*program) <= usize::MAX,
                bindings_before(modules, n) <= target_node_count(*program),
                next == bindings_before(modules, m as int),
                binding_base@.len() == m,
                forall|k: int| #![trigger binding_base@[k]] 0 <= k < m ==> binding_base@[k] == bindings_before(modules, k),
            decreases n - m,
        {
            proof {
                lemma_bindings_before_mono(modules, m as int + 1, n);
            }
            binding_base.push(next);
            next = next + program.modules[m].bindings.len();
            m = m + 1;
        }
        let total_bindings = next;
        let mut value_base: Vec<Vec<usize>> = Vec::new();
        let mut m: usize = 0;
        while m < program.modules.len()
            invariant
                modules == program.modules@,
                n == modules.len(),
                m <= n,
                target_node_count(*program) <= usize::MAX,
                total_bindings == bindings_before(modules, n),
                next == total_bindings + values_before(modules, m as int),
                0 <= values_before(modules, n),
                value_base@.len() == m,
                forall|k: int|
                    #![trigger value_base@[k]]
                    0 <= k < m ==> value_base@[k]@.len() == modules[k].functions@.len(),
                forall|k: int, f: int|
                    #![trigger value_base@[k]@[f]]
                    0 <= k < m && 0 <= f < modules[k].functions@.len() ==> value_base@[k]@[f] == value_node(
                        *program,
                        k,
                        f,
                        0,
                    ),
            decreases n - m,
        {
            let functions = &program.modules[m].functions;
            let ghost fs = functions@;
            proof {
                lemma_values_before_mono(modules, m as int + 1, n);
                lemma_values_in_mono(fs, 0, fs.len() as int);
            }
            let mut bases: Vec<usize> = Vec::new();
            let mut f: usize = 0;
            while f < functions.len()
                invariant
                    fs == functions@,
                    fs == modules[m as int].functions@,
                    m < n,
                    modules == program.modules@,
                    n == modules.len(),
                    target_node_count(*program) <= usize::MAX,
                    total_bindings == bindings_before(modules, n),
                    values_before(modules, m as int + 1) <= values_before(modules, n),
                    values_before(modules, m as int + 1) == values_before(modules, m as int) + values_in(fs, fs.len() as int),
                    f <= fs.len(),
                    next == total_bindings + values_before(modules, m as int) + values_in(fs, f as int),
                    bases@.len() == f,
                    forall|g: int| #![trigger bases@[g]] 0 <= g < f ==> bases@[g] == value_node(*program, m as int, g, 0),
                decreases fs.len() - f,
            {
                proof {
                    lemma_values_in_mono(fs, f as int + 1, fs.len() as int);
                }
                bases.push(next);
                next = next + functions[f].value_count;
                f = f + 1;
            }
            value_base.push(bases);
            m = m + 1;
        }
        TargetLayout { binding_base, value_base, node_count: next }
    }

    /// The node of binding `b` of module `m`.
    pub fn binding_node(&self, m: usize, b: usize, Ghost(program): Ghost<ProgramIr>) -> (node: usize)
        requires
            self.describes(program),
            m < program.modules@.len(),
            b < program.modules@[m as int].bindings@.len(),
        ensures
            node == binding_node(program, m as int, b as int),
    {
        proof {
            lemma_nodes_in_range(program);
            assert(0 <= binding_node(program, m as int, b as int) < bindings_before(program.modules@, program.modules@.len() as int));
            lemma_bindings_before_mono(program.modules@, 0, program.modules@.len() as int);
            lemma_values_before_mono(program.modules@, 0, program.modules@.len() as int);
        }
        self.binding_base[m] + b
    }

    /// The node of value `v` of function `f` of module `m`.
    pub fn value_node(&self, m: usize, f: usize, v: usize, Ghost(program): Ghost<ProgramIr>) -> (node: usize)
        requires
            self.describes(program),
            m < program.modules@.len(),
            f < program.modules@[m as int].functions@.len(),
            v < program.modules@[m as int].functions@[f as int].value_count,
        ensures
            node == value_node(program, m as int, f as int, v as int),
    {
        proof {
            lemma_nodes_in_range(program);
            assert(value_node(program, m as int, f as int, v as int) < target_node_count(program));
        }
        self.value_base[m][f] + v
    }

    /// The number of nodes.
    pub fn node_count(&self) -> (count: usize)
        ensures
            count == self.spec_node_count(),
    {
        self.node_count
    }
}

/// The program-level name of binding `b` of module `m`.
pub open spec fn program_binding(m: int, b: int) -> ProgramBindingId {
    ProgramBindingId { module: m as u32, binding: b as u32 }
}

/// The program-level name of function `f` of module `m`.
pub open spec fn program_function(m: int, f: int) -> ProgramFunctionId {
    ProgramFunctionId { module: m as u32, function: f as u32 }
}

/// Whether binding `b` of module `m` imports the binding `target` of the program.
pub open spec fn imports_binding(program: ProgramIr, linkage: ProgramLinkage, m: int, b: int, target: ProgramBindingId) -> bool {
    &&& program.modules@[m].bindings@[b].kind == BindingKind::Import
    &&& linkage.spec_imported(program_binding(m, b)) == Some(ImportedBindingTarget::Binding(target))
    &&& target.module < program.modules@.len()
    &&& target.binding < program.modules@[target.module as int].bindings@.len()
}

/// Whether binding `b` of module `m` may hold any function: an import that
/// does not resolve to a binding, a parameter or a caught exception.
pub open spec fn binding_is_unknown(program: ProgramIr, linkage: ProgramLinkage, m: int, b: int) -> bool {
    let kind = program.modules@[m].bindings@[b].kind;
    ||| kind == BindingKind::Import && !(linkage.spec_imported(program_binding(m, b)) matches Some(
        ImportedBindingTarget::Binding(_),
    ))
    ||| kind == BindingKind::Parameter
    ||| kind == BindingKind::Catch
}

/// Whether operation `op` creates the function whose value is `v`: function `target` of module `m`.
pub open spec fn creates_function(op: Operation, m: int, v: int, target: ProgramFunctionId) -> bool {
    &&& op.kind is CreateFunction
    &&& !op.invoked
    &&& op.results@.len() > 0
    &&& op.referenced_functions@.len() > 0
    &&& op.results@[0] as int == v
    &&& target == program_function(m, op.referenced_functions@[0] as int)
}

/// Whether binding `b` of module `m` is visible from function `f` of that module.
pub open spec fn is_visible(module: ModuleIr, f: int, b: int) -> bool {
    0 <= b < module.bindings@.len() && is_descendant(module, f, module.bindings@[b].declaring_function as int)
}

/// Whether operation `op` of function `f` of module `m` makes the state of node `s` flow to node `t`.
pub open spec fn op_target_edge(program: ProgramIr, m: int, f: int, op: Operation, s: int, t: int) -> bool {
    ||| (stored_binding(op.kind) matches Some(b) && op.operands@.len() > 0 && s == value_node(program, m, f, op.operands@[0] as int)
        && t == binding_node(program, m, b as int))
    ||| (op.kind matches OperationKind::LoadBinding { binding } && !op.invoked && op.results@.len() > 0 && s
        == binding_node(program, m, binding as int) && t == value_node(program, m, f, op.results@[0] as int))
    ||| exists|k: int, i: int|
        #![trigger op.successors@[k].forwarded@[i]]
        0 <= k < op.successors@.len() && 0 <= i < op.successors@[k].forwarded@.len() && s == value_node(
            program,
            m,
            f,
            op.successors@[k].forwarded@[i].1 as int,
        ) && t == value_node(program, m, f, op.successors@[k].forwarded@[i].0 as int)
}

/// Whether operation `op` of function `f` of module `m` lets binding node `x` hold any function:
/// a binding it destructures into, or one a direct eval can see.
pub open spec fn op_binding_unknown(program: ProgramIr, m: int, f: int, op: Operation, x: int) -> bool {
    let module = program.modules@[m];
    ||| (op.kind is DestructureBinding || op.kind is DestructureAssignment) && exists|k: int|
        #![trigger op.referenced_bindings@[k]]
        0 <= k < op.referenced_bindings@.len() && x == binding_node(program, m, op.referenced_bindings@[k] as int)
    ||| is_direct_eval(module, module.functions@[f], op) && exists|b: int|
        #![trigger binding_node(program, m, b)]
        is_visible(module, f, b) && x == binding_node(program, m, b)
}

/// `new` is `old` with the states and flows the predicates give added.
pub open spec fn tgrows(
    old: TargetSolver,
    new: TargetSolver,
    known: spec_fn(int) -> bool,
    functions: spec_fn(int, ProgramFunctionId) -> bool,
    incomplete: spec_fn(int) -> bool,
    edge: spec_fn(int, int) -> bool,
) -> bool {
    &&& new.wf()
    &&& new.spec_states().len() == old.spec_states().len()
    &&& new.spec_dependents().len() == old.spec_dependents().len()
    &&& forall|x: int|
        #![trigger new.spec_states()[x]]
        0 <= x < old.spec_states().len() ==> {
            &&& new.spec_states()[x].spec_is_known() == (old.spec_states()[x].spec_is_known() || known(x))
            &&& forall|g: ProgramFunctionId|
                #![trigger new.spec_states()[x].spec_functions().contains(g)]
                new.spec_states()[x].spec_functions().contains(g) <==> (old.spec_states()[x].spec_functions().contains(g)
                    || functions(x, g))
            &&& new.spec_states()[x].spec_incomplete() == (old.spec_states()[x].spec_incomplete() || incomplete(x))
        }
    &&& forall|s: int, t: int|
        #![trigger list_step(new.spec_dependents())(s, t)]
        list_step(new.spec_dependents())(s, t) <==> (list_step(old.spec_dependents())(s, t) || edge(s, t))
}

/// No node.
pub open spec fn t_none() -> spec_fn(int) -> bool {
    |x: int| false
}

/// No function at any node.
pub open spec fn t_no_function() -> spec_fn(int, ProgramFunctionId) -> bool {
    |x: int, g: ProgramFunctionId| false
}

/// No flow.
pub open spec fn t_no_edge() -> spec_fn(int, int) -> bool {
    |s: int, t: int| false
}

proof fn lemma_tgrows_refl(s: TargetSolver)
    requires
        s.wf(),
    ensures
        tgrows(s, s, t_none(), t_no_function(), t_none(), t_no_edge()),
{
    s.lemma_wf();
}

proof fn lemma_tchain(
    a: TargetSolver,
    b: TargetSolver,
    c: TargetSolver,
    k1: spec_fn(int) -> bool,
    f1: spec_fn(int, ProgramFunctionId) -> bool,
    i1: spec_fn(int) -> bool,
    e1: spec_fn(int, int) -> bool,
    k2: spec_fn(int) -> bool,
    f2: spec_fn(int, ProgramFunctionId) -> bool,
    i2: spec_fn(int) -> bool,
    e2: spec_fn(int, int) -> bool,
    k3: spec_fn(int) -> bool,
    f3: spec_fn(int, ProgramFunctionId) -> bool,
    i3: spec_fn(int) -> bool,
    e3: spec_fn(int, int) -> bool,
)
    requires
        tgrows(a, b, k1, f1, i1, e1),
        tgrows(b, c, k2, f2, i2, e2),
        forall|x: int| 0 <= x < a.spec_states().len() ==> (#[trigger] k3(x) <==> (k1(x) || k2(x))),
        forall|x: int, g: ProgramFunctionId| 0 <= x < a.spec_states().len() ==> (#[trigger] f3(x, g) <==> (f1(x, g) || f2(x, g))),
        forall|x: int| 0 <= x < a.spec_states().len() ==> (#[trigger] i3(x) <==> (i1(x) || i2(x))),
        forall|x: int, y: int| #[trigger] e3(x, y) <==> (e1(x, y) || e2(x, y)),
    ensures
        tgrows(a, c, k3, f3, i3, e3),
{
}

/// Lets node `x` hold any function.
fn seed_unknown(solver: &mut TargetSolver, x: usize)
    requires
        old(solver).wf(),
        x < old(solver).spec_states().len(),
    ensures
        tgrows(*old(solver), *final(solver), |y: int| y == x, t_no_function(), |y: int| y == x, t_no_edge()),
{
    proof {
        solver.lemma_wf();
    }
    let state = TargetState::unknown();
    solver.seed(x, &state);
    proof {
        solver.lemma_wf();
    }
}

/// Lets node `x` hold function `target`.
fn seed_exact(solver: &mut TargetSolver, x: usize, target: ProgramFunctionId)
    requires
        old(solver).wf(),
        x < old(solver).spec_states().len(),
    ensures
        tgrows(*old(solver), *final(solver), |y: int| y == x, |y: int, g: ProgramFunctionId| y == x && g == target, t_none(), t_no_edge()),
{
    proof {
        solver.lemma_wf();
    }
    let state = TargetState::exact(target);
    solver.seed(x, &state);
    proof {
        solver.lemma_wf();
    }
}

/// Makes the state of node `s` flow to node `t`.
fn flow(solver: &mut TargetSolver, s: usize, t: usize)
    requires
        old(solver).wf(),
        s < old(solver).spec_states().len(),
        t < old(solver).spec_states().len(),
    ensures
        tgrows(*old(solver), *final(solver), t_none(), t_no_function(), t_none(), |a: int, b: int| a == s && b == t),
{
    let ghost d0 = solver.spec_dependents();
    proof {
        solver.lemma_wf();
    }
    solver.add_dependency(s, t);
    proof {
        solver.lemma_wf();
        let d1 = solver.spec_dependents();
        assert forall|x: int, y: int|
            #![trigger list_step(d1)(x, y)]
            list_step(d1)(x, y) <==> (list_step(d0)(x, y) || (x == s as int && y == t as int)) by {
            if 0 <= x < d0.len() && x != s as int {
                assert(d1[x] == d0[x]);
            }
            if x == s as int {
                if list_step(d1)(x, y) {
                    let k = choose|k: int| #![trigger d1[x]@[k]] 0 <= k < d1[x]@.len() && d1[x]@[k] as int == y;
                    if k < d0[x]@.len() {
                        assert(d0[x]@[k] == d1[x]@[k]);
                    }
                }
                if list_step(d0)(x, y) {
                    let k = choose|k: int| #![trigger d0[x]@[k]] 0 <= k < d0[x]@.len() && d0[x]@[k] as int == y;
                    assert(d1[x]@[k] == d0[x]@[k]);
                }
                if y == t as int {
                    assert(d1[x]@[d0[x]@.len() as int] == t);
                }
            }
        }
    }
}

/// Whether operation `op` of function `f` of module `m` lets its result `x` hold any function.
pub open spec fn op_value_unknown(program: ProgramIr, m: int, f: int, op: Operation, x: int) -> bool {
    exists|k: int|
        #![trigger op.results@[k]]
        0 <= k < op.results@.len() && x == value_node(program, m, f, op.results@[k] as int) && (op.invoked || k > 0 || !(
        op.kind is CreateFunction || op.kind is LoadBinding))
}

/// Whether operation `op` of function `f` of module `m` gives its result `x` the function `g` it creates.
pub open spec fn op_value_exact(program: ProgramIr, m: int, f: int, op: Operation, x: int, g: ProgramFunctionId) -> bool {
    creates_function(op, m, op.results@[0] as int, g) && x == value_node(program, m, f, op.results@[0] as int)
}

/// Whether operation `op` of function `f` of module `m` lets node `x` hold any function.
pub open spec fn op_unknown(program: ProgramIr, m: int, f: int, op: Operation, x: int) -> bool {
    op_binding_unknown(program, m, f, op, x) || op_value_unknown(program, m, f, op, x)
}

/// Lets every binding of module `m` visible from function `f` hold any function.
fn seed_visible_bindings(solver: &mut TargetSolver, layout: &TargetLayout, program: &ProgramIr, m: usize, f: usize)
    requires
        old(solver).wf(),
        program.wf(),
        layout.describes(*program),
        old(solver).spec_states().len() == target_node_count(*program),
        m < program.modules@.len(),
        f < program.modules@[m as int].functions@.len(),
    ensures
        tgrows(
            *old(solver),
            *final(solver),
            |x: int| exists|b: int| #![trigger binding_node(*program, m as int, b)] is_visible(program.modules@[m as int], f as int, b) && x == binding_node(*program, m as int, b),
            t_no_function(),
            |x: int| exists|b: int| #![trigger binding_node(*program, m as int, b)] is_visible(program.modules@[m as int], f as int, b) && x == binding_node(*program, m as int, b),
            t_no_edge(),
        ),
{
    let ghost s0 = *solver;
    let module = &program.modules[m];
    proof {
        lemma_tgrows_refl(s0);
        lemma_nodes_in_range(*program);
        lemma_bindings_before_mono(program.modules@, 0, program.modules@.len() as int);
        lemma_values_before_mono(program.modules@, 0, program.modules@.len() as int);
        assert(program.modules@[m as int] == *module);
    }
    let mut b: usize = 0;
    while b < module.bindings.len()
        invariant
            program.wf(),
            layout.describes(*program),
            m < program.modules@.len(),
            *module == program.modules@[m as int],
            module.wf(),
            f < module.functions@.len(),
            s0.spec_states().len() == target_node_count(*program),
            bindings_before(program.modules@, program.modules@.len() as int) <= target_node_count(*program),
            forall|m2: int, b2: int|
                #![trigger binding_node(*program, m2, b2)]
                0 <= m2 < program.modules@.len() && 0 <= b2 < program.modules@[m2].bindings@.len() ==> 0 <= binding_node(
                    *program,
                    m2,
                    b2,
                ) < bindings_before(program.modules@, program.modules@.len() as int),
            b <= module.bindings@.len(),
            tgrows(
                s0,
                *solver,
                |x: int| exists|c: int| #![trigger binding_node(*program, m as int, c)] c < b && is_visible(*module, f as int, c) && x == binding_node(*program, m as int, c),
                t_no_function(),
                |x: int| exists|c: int| #![trigger binding_node(*program, m as int, c)] c < b && is_visible(*module, f as int, c) && x == binding_node(*program, m as int, c),
                t_no_edge(),
            ),
        decreases module.bindings@.len() - b,
    {
        let ghost s1 = *solver;
        proof {
            assert(module.bindings@[b as int].declaring_function < module.functions@.len());
        }
        let visible = is_descendant_of(module, f, module.bindings[b].declaring_function);
        if visible {
            let node = layout.binding_node(m, b, Ghost(*program));
            seed_unknown(solver, node);
        } else {
            proof {
                lemma_tgrows_refl(s1);
            }
        }
        proof {
            let here = if visible { |y: int| y == binding_node(*program, m as int, b as int) } else { t_none() };
            lemma_tchain(
                s0, s1, *solver,
                |x: int| exists|c: int| #![trigger binding_node(*program, m as int, c)] c < b && is_visible(*module, f as int, c) && x == binding_node(*program, m as int, c),
                t_no_function(),
                |x: int| exists|c: int| #![trigger binding_node(*program, m as int, c)] c < b && is_visible(*module, f as int, c) && x == binding_node(*program, m as int, c),
                t_no_edge(),
                here, t_no_function(), here, t_no_edge(),
                |x: int| exists|c: int| #![trigger binding_node(*program, m as int, c)] c < b + 1 && is_visible(*module, f as int, c) && x == binding_node(*program, m as int, c),
                t_no_function(),
                |x: int| exists|c: int| #![trigger binding_node(*program, m as int, c)] c < b + 1 && is_visible(*module, f as int, c) && x == binding_node(*program, m as int, c),
                t_no_edge(),
            );
        }
        b = b + 1;
    }
    proof {
        lemma_tgrows_refl(*solver);
        lemma_tchain(
            s0, *solver, *solver,
            |x: int| exists|c: int| #![trigger binding_node(*program, m as int, c)] c < b && is_visible(*module, f as int, c) && x == binding_node(*program, m as int, c),
            t_no_function(),
            |x: int| exists|c: int| #![trigger binding_node(*program, m as int, c)] c < b && is_visible(*module, f as int, c) && x == binding_node(*program, m as int, c),
            t_no_edge(),
            t_none(), t_no_function(), t_none(), t_no_edge(),
            |x: int| exists|c: int| #![trigger binding_node(*program, m as int, c)] is_visible(program.modules@[m as int], f as int, c) && x == binding_node(*program, m as int, c),
            t_no_function(),
            |x: int| exists|c: int| #![trigger binding_node(*program, m as int, c)] is_visible(program.modules@[m as int], f as int, c) && x == binding_node(*program, m as int, c),
            t_no_edge(),
        );
    }
}

/// Whether operation `op` belongs to function `f` of module `m`, and the
/// solver has a node for every binding and value of the program.
pub open spec fn op_in_targets(solver: TargetSolver, layout: TargetLayout, program: ProgramIr, m: int, f: int, op: Operation) -> bool {
    &&& program.wf()
    &&& layout.describes(program)
    &&& solver.spec_states().len() == target_node_count(program)
    &&& 0 <= m < program.modules@.len()
    &&& 0 <= f < program.modules@[m].functions@.len()
    &&& op.wf(
        program.modules@[m].functions@[f].value_count as int,
        program.modules@[m].functions@[f].regions@.len() as int,
        program.modules@[m].functions@.len() as int,
        program.modules@[m].bindings@.len() as int,
    )
}

/// Adds the states and flows that operation `op` of function `f` of module `m` gives.
fn add_operation_targets(solver: &mut TargetSolver, layout: &TargetLayout, program: &ProgramIr, m: usize, f: usize, op: &Operation)
    requires
        old(solver).wf(),
        op_in_targets(*old(solver), *layout, *program, m as int, f as int, *op),
    ensures
        tgrows(
            *old(solver),
            *final(solver),
            |x: int| op_unknown(*program, m as int, f as int, *op, x) || exists|g: ProgramFunctionId| #[trigger] op_value_exact(*program, m as int, f as int, *op, x, g),
            |x: int, g: ProgramFunctionId| op_value_exact(*program, m as int, f as int, *op, x, g),
            |x: int| op_unknown(*program, m as int, f as int, *op, x),
            |s: int, t: int| op_target_edge(*program, m as int, f as int, *op, s, t),
        ),
{
    let ghost s0 = *solver;
    let ghost p = *program;
    let ghost mi = m as int;
    let ghost fi = f as int;
    let module = &program.modules[m];
    let function = &module.functions[f];
    proof {
        lemma_tgrows_refl(s0);
        lemma_nodes_in_range(p);
        lemma_bindings_before_mono(p.modules@, 0, p.modules@.len() as int);
        lemma_values_before_mono(p.modules@, 0, p.modules@.len() as int);
        assert(p.modules@[mi] == *module);
        assert(module.functions@[fi] == *function);
    }
    // Results.
    let mut k: usize = 0;
    while k < op.results.len()
        invariant
            op_in_targets(s0, *layout, p, mi, fi, *op),
            p == *program,
            mi == m,
            fi == f,
            *module == p.modules@[mi],
            *function == module.functions@[fi],
            forall|m2: int, f2: int, v2: int|
                #![trigger value_node(p, m2, f2, v2)]
                0 <= m2 < p.modules@.len() && 0 <= f2 < p.modules@[m2].functions@.len() && 0 <= v2
                    < p.modules@[m2].functions@[f2].value_count ==> bindings_before(p.modules@, p.modules@.len() as int) <= value_node(p, m2, f2, v2)
                    < target_node_count(p),
            k <= op.results@.len(),
            tgrows(
                s0,
                *solver,
                |x: int| (exists|k2: int| #![trigger op.results@[k2]] 0 <= k2 < k && x == value_node(p, mi, fi, op.results@[k2] as int) && (op.invoked || k2 > 0 || !(op.kind is CreateFunction || op.kind is LoadBinding)))
                    || (k > 0 && exists|g: ProgramFunctionId| #[trigger] op_value_exact(p, mi, fi, *op, x, g)),
                |x: int, g: ProgramFunctionId| k > 0 && op_value_exact(p, mi, fi, *op, x, g),
                |x: int| exists|k2: int| #![trigger op.results@[k2]] 0 <= k2 < k && x == value_node(p, mi, fi, op.results@[k2] as int) && (op.invoked || k2 > 0 || !(op.kind is CreateFunction || op.kind is LoadBinding)),
                t_no_edge(),
            ),
        decreases op.results@.len() - k,
    {
        let ghost s1 = *solver;
        let node = layout.value_node(m, f, op.results[k], Ghost(p));
        let kind_creates = match &op.kind {
            OperationKind::CreateFunction => true,
            _ => false,
        };
        let kind_loads = match &op.kind {
            OperationKind::LoadBinding { .. } => true,
            _ => false,
        };
        let ghost mut hk: spec_fn(int) -> bool = t_none();
        let ghost mut hf: spec_fn(int, ProgramFunctionId) -> bool = t_no_function();
        let ghost mut hi: spec_fn(int) -> bool = t_none();
        if op.invoked || k > 0 || !(kind_creates || kind_loads) {
            seed_unknown(solver, node);
            proof {
                hk = |y: int| y == node;
                hi = |y: int| y == node;
            }
        } else if kind_creates && op.referenced_functions.len() > 0 {
            let target = ProgramFunctionId { module: m as u32, function: op.referenced_functions[0] as u32 };
            seed_exact(solver, node, target);
            proof {
                hk = |y: int| y == node;
                hf = |y: int, g: ProgramFunctionId| y == node && g == target;
                assert(op_value_exact(p, mi, fi, *op, node as int, target));
            }
        } else {
            proof {
                lemma_tgrows_refl(s1);
            }
        }
        proof {
            lemma_tchain(
                s0, s1, *solver,
                |x: int| (exists|k2: int| #![trigger op.results@[k2]] 0 <= k2 < k && x == value_node(p, mi, fi, op.results@[k2] as int) && (op.invoked || k2 > 0 || !(op.kind is CreateFunction || op.kind is LoadBinding)))
                    || (k > 0 && exists|g: ProgramFunctionId| #[trigger] op_value_exact(p, mi, fi, *op, x, g)),
                |x: int, g: ProgramFunctionId| k > 0 && op_value_exact(p, mi, fi, *op, x, g),
                |x: int| exists|k2: int| #![trigger op.results@[k2]] 0 <= k2 < k && x == value_node(p, mi, fi, op.results@[k2] as int) && (op.invoked || k2 > 0 || !(op.kind is CreateFunction || op.kind is LoadBinding)),
                t_no_edge(),
                hk, hf, hi, t_no_edge(),
                |x: int| (exists|k2: int| #![trigger op.results@[k2]] 0 <= k2 < k + 1 && x == value_node(p, mi, fi, op.results@[k2] as int) && (op.invoked || k2 > 0 || !(op.kind is CreateFunction || op.kind is LoadBinding)))
                    || (k + 1 > 0 && exists|g: ProgramFunctionId| #[trigger] op_value_exact(p, mi, fi, *op, x, g)),
                |x: int, g: ProgramFunctionId| k + 1 > 0 && op_value_exact(p, mi, fi, *op, x, g),
                |x: int| exists|k2: int| #![trigger op.results@[k2]] 0 <= k2 < k + 1 && x == value_node(p, mi, fi, op.results@[k2] as int) && (op.invoked || k2 > 0 || !(op.kind is CreateFunction || op.kind is LoadBinding)),
                t_no_edge(),
            );
        }
        k = k + 1;
    }
    let ghost s2 = *solver;
    proof {
        lemma_tgrows_refl(s2);
    }
    // Flows through bindings.
    let ghost mut e1: spec_fn(int, int) -> bool = t_no_edge();
    match &op.kind {
        OperationKind::InitializeBinding { binding } | OperationKind::StoreBinding { binding } => {
            if op.operands.len() > 0 {
                let source = layout.value_node(m, f, op.operands[0], Ghost(p));
                let target = layout.binding_node(m, *binding, Ghost(p));
                flow(solver, source, target);
                proof {
                    e1 = |a: int, c: int| a == source && c == target;
                }
            }
        },
        OperationKind::LoadBinding { binding } => {
            if !op.invoked && op.results.len() > 0 {
                let source = layout.binding_node(m, *binding, Ghost(p));
                let target = layout.value_node(m, f, op.results[0], Ghost(p));
                flow(solver, source, target);
                proof {
                    e1 = |a: int, c: int| a == source && c == target;
                }
            }
        },
        _ => {},
    }
    let ghost s3 = *solver;
    proof {
        lemma_tgrows_refl(s3);
    }
    // Forwarded block parameters.
    let mut q: usize = 0;
    while q < op.successors.len()
        invariant
            op_in_targets(s0, *layout, p, mi, fi, *op),
            p == *program,
            mi == m,
            fi == f,
            forall|m2: int, f2: int, v2: int|
                #![trigger value_node(p, m2, f2, v2)]
                0 <= m2 < p.modules@.len() && 0 <= f2 < p.modules@[m2].functions@.len() && 0 <= v2
                    < p.modules@[m2].functions@[f2].value_count ==> bindings_before(p.modules@, p.modules@.len() as int) <= value_node(p, m2, f2, v2)
                    < target_node_count(p),
            s3.spec_states().len() == s0.spec_states().len(),
            q <= op.successors@.len(),
            tgrows(
                s3,
                *solver,
                t_none(),
                t_no_function(),
                t_none(),
                |a: int, c: int| exists|k2: int, i: int|
                    #![trigger op.successors@[k2].forwarded@[i]]
                    0 <= k2 < q && 0 <= i < op.successors@[k2].forwarded@.len() && a == value_node(p, mi, fi, op.successors@[k2].forwarded@[i].1 as int)
                        && c == value_node(p, mi, fi, op.successors@[k2].forwarded@[i].0 as int),
            ),
        decreases op.successors@.len() - q,
    {
        let successor = &op.successors[q];
        let ghost s4 = *solver;
        proof {
            lemma_tgrows_refl(s4);
            assert(op.successors@[q as int] == *successor);
        }
        let mut i: usize = 0;
        while i < successor.forwarded.len()
            invariant
                op_in_targets(s0, *layout, p, mi, fi, *op),
                p == *program,
                mi == m,
                fi == f,
                forall|m2: int, f2: int, v2: int|
                    #![trigger value_node(p, m2, f2, v2)]
                    0 <= m2 < p.modules@.len() && 0 <= f2 < p.modules@[m2].functions@.len() && 0 <= v2
                        < p.modules@[m2].functions@[f2].value_count ==> bindings_before(p.modules@, p.modules@.len() as int) <= value_node(p, m2, f2, v2)
                        < target_node_count(p),
                s4.spec_states().len() == s0.spec_states().len(),
                q < op.successors@.len(),
                *successor == op.successors@[q as int],
                i <= successor.forwarded@.len(),
                tgrows(
                    s4,
                    *solver,
                    t_none(),
                    t_no_function(),
                    t_none(),
                    |a: int, c: int| exists|i2: int|
                        #![trigger successor.forwarded@[i2]]
                        0 <= i2 < i && a == value_node(p, mi, fi, successor.forwarded@[i2].1 as int)
                            && c == value_node(p, mi, fi, successor.forwarded@[i2].0 as int),
                ),
            decreases successor.forwarded@.len() - i,
        {
            let ghost s5 = *solver;
            let (parameter, argument) = successor.forwarded[i];
            proof {
                assert(op.successors@[q as int].forwarded@[i as int] == (parameter, argument));
            }
            let source = layout.value_node(m, f, argument, Ghost(p));
            let target = layout.value_node(m, f, parameter, Ghost(p));
            flow(solver, source, target);
            proof {
                lemma_tchain(
                    s4, s5, *solver,
                    t_none(), t_no_function(), t_none(),
                    |a: int, c: int| exists|i2: int|
                        #![trigger successor.forwarded@[i2]]
                        0 <= i2 < i && a == value_node(p, mi, fi, successor.forwarded@[i2].1 as int)
                            && c == value_node(p, mi, fi, successor.forwarded@[i2].0 as int),
                    t_none(), t_no_function(), t_none(), |a: int, c: int| a == source && c == target,
                    t_none(), t_no_function(), t_none(),
                    |a: int, c: int| exists|i2: int|
                        #![trigger successor.forwarded@[i2]]
                        0 <= i2 < i + 1 && a == value_node(p, mi, fi, successor.forwarded@[i2].1 as int)
                            && c == value_node(p, mi, fi, successor.forwarded@[i2].0 as int),
                );
            }
            i = i + 1;
        }
        proof {
            lemma_tchain(
                s3, s4, *solver,
                t_none(), t_no_function(), t_none(),
                |a: int, c: int| exists|k2: int, i2: int|
                    #![trigger op.successors@[k2].forwarded@[i2]]
                    0 <= k2 < q && 0 <= i2 < op.successors@[k2].forwarded@.len() && a == value_node(p, mi, fi, op.successors@[k2].forwarded@[i2].1 as int)
                        && c == value_node(p, mi, fi, op.successors@[k2].forwarded@[i2].0 as int),
                t_none(), t_no_function(), t_none(),
                |a: int, c: int| exists|i2: int|
                    #![trigger successor.forwarded@[i2]]
                    0 <= i2 < successor.forwarded@.len() && a == value_node(p, mi, fi, successor.forwarded@[i2].1 as int)
                        && c == value_node(p, mi, fi, successor.forwarded@[i2].0 as int),
                t_none(), t_no_function(), t_none(),
                |a: int, c: int| exists|k2: int, i2: int|
                    #![trigger op.successors@[k2].forwarded@[i2]]
                    0 <= k2 < q + 1 && 0 <= i2 < op.successors@[k2].forwarded@.len() && a == value_node(p, mi, fi, op.successors@[k2].forwarded@[i2].1 as int)
                        && c == value_node(p, mi, fi, op.successors@[k2].forwarded@[i2].0 as int),
            );
        }
        q = q + 1;
    }
    let ghost s6 = *solver;
    // Bindings a destructuring writes.
    let destructures = match &op.kind {
        OperationKind::DestructureBinding | OperationKind::DestructureAssignment => true,
        _ => false,
    };
    proof {
        lemma_tgrows_refl(s6);
    }
    if destructures {
        let mut k: usize = 0;
        while k < op.referenced_bindings.len()
            invariant
                op_in_targets(s0, *layout, p, mi, fi, *op),
                p == *program,
                mi == m,
                fi == f,
                forall|m2: int, b2: int|
                    #![trigger binding_node(p, m2, b2)]
                    0 <= m2 < p.modules@.len() && 0 <= b2 < p.modules@[m2].bindings@.len() ==> 0 <= binding_node(
                        p,
                        m2,
                        b2,
                    ) < bindings_before(p.modules@, p.modules@.len() as int),
                bindings_before(p.modules@, p.modules@.len() as int) <= target_node_count(p),
                s6.spec_states().len() == s0.spec_states().len(),
                k <= op.referenced_bindings@.len(),
                tgrows(
                    s6,
                    *solver,
                    |x: int| exists|k2: int| #![trigger op.referenced_bindings@[k2]] 0 <= k2 < k && x == binding_node(p, mi, op.referenced_bindings@[k2] as int),
                    t_no_function(),
                    |x: int| exists|k2: int| #![trigger op.referenced_bindings@[k2]] 0 <= k2 < k && x == binding_node(p, mi, op.referenced_bindings@[k2] as int),
                    t_no_edge(),
                ),
            decreases op.referenced_bindings@.len() - k,
        {
            let ghost s7 = *solver;
            let node = layout.binding_node(m, op.referenced_bindings[k], Ghost(p));
            seed_unknown(solver, node);
            proof {
                lemma_tchain(
                    s6, s7, *solver,
                    |x: int| exists|k2: int| #![trigger op.referenced_bindings@[k2]] 0 <= k2 < k && x == binding_node(p, mi, op.referenced_bindings@[k2] as int),
                    t_no_function(),
                    |x: int| exists|k2: int| #![trigger op.referenced_bindings@[k2]] 0 <= k2 < k && x == binding_node(p, mi, op.referenced_bindings@[k2] as int),
                    t_no_edge(),
                    |y: int| y == node, t_no_function(), |y: int| y == node, t_no_edge(),
                    |x: int| exists|k2: int| #![trigger op.referenced_bindings@[k2]] 0 <= k2 < k + 1 && x == binding_node(p, mi, op.referenced_bindings@[k2] as int),
                    t_no_function(),
                    |x: int| exists|k2: int| #![trigger op.referenced_bindings@[k2]] 0 <= k2 < k + 1 && x == binding_node(p, mi, op.referenced_bindings@[k2] as int),
                    t_no_edge(),
                );
            }
            k = k + 1;
        }
    }
    let ghost s8 = *solver;
    // Bindings a direct eval can see.
    let direct_eval = is_direct_eval_call(module, function, op);
    if direct_eval {
        seed_visible_bindings(solver, layout, program, m, f);
    } else {
        proof {
            lemma_tgrows_refl(s8);
        }
    }
    proof {
        let d = if destructures {
            |x: int| exists|k2: int| #![trigger op.referenced_bindings@[k2]] 0 <= k2 < op.referenced_bindings@.len() && x == binding_node(p, mi, op.referenced_bindings@[k2] as int)
        } else {
            t_none()
        };
        let v = if direct_eval {
            |x: int| exists|b: int| #![trigger binding_node(p, mi, b)] is_visible(p.modules@[mi], fi, b) && x == binding_node(p, mi, b)
        } else {
            t_none()
        };
        let rk = |x: int| (exists|k2: int| #![trigger op.results@[k2]] 0 <= k2 < op.results@.len() && x == value_node(p, mi, fi, op.results@[k2] as int) && (op.invoked || k2 > 0 || !(op.kind is CreateFunction || op.kind is LoadBinding)))
            || (op.results@.len() > 0 && exists|g: ProgramFunctionId| #[trigger] op_value_exact(p, mi, fi, *op, x, g));
        let rf = |x: int, g: ProgramFunctionId| op.results@.len() > 0 && op_value_exact(p, mi, fi, *op, x, g);
        let ri = |x: int| exists|k2: int| #![trigger op.results@[k2]] 0 <= k2 < op.results@.len() && x == value_node(p, mi, fi, op.results@[k2] as int) && (op.invoked || k2 > 0 || !(op.kind is CreateFunction || op.kind is LoadBinding));
        let fe = |a: int, c: int| exists|k2: int, i2: int|
            #![trigger op.successors@[k2].forwarded@[i2]]
            0 <= k2 < op.successors@.len() && 0 <= i2 < op.successors@[k2].forwarded@.len() && a == value_node(p, mi, fi, op.successors@[k2].forwarded@[i2].1 as int)
                && c == value_node(p, mi, fi, op.successors@[k2].forwarded@[i2].0 as int);
        lemma_tchain(s0, s2, s3, rk, rf, ri, t_no_edge(), t_none(), t_no_function(), t_none(), e1, rk, rf, ri, e1);
        lemma_tchain(s0, s3, s6, rk, rf, ri, e1, t_none(), t_no_function(), t_none(), fe, rk, rf, ri, |a: int, c: int| e1(a, c) || fe(a, c));
        lemma_tchain(s0, s6, s8, rk, rf, ri, |a: int, c: int| e1(a, c) || fe(a, c), d, t_no_function(), d, t_no_edge(),
            |x: int| rk(x) || d(x), rf, |x: int| ri(x) || d(x), |a: int, c: int| e1(a, c) || fe(a, c));
        lemma_tchain(s0, s8, *solver,
            |x: int| rk(x) || d(x), rf, |x: int| ri(x) || d(x), |a: int, c: int| e1(a, c) || fe(a, c),
            v, t_no_function(), v, t_no_edge(),
            |x: int| op_unknown(p, mi, fi, *op, x) || exists|g: ProgramFunctionId| #[trigger] op_value_exact(p, mi, fi, *op, x, g),
            |x: int, g: ProgramFunctionId| op_value_exact(p, mi, fi, *op, x, g),
            |x: int| op_unknown(p, mi, fi, *op, x),
            |s: int, t: int| op_target_edge(p, mi, fi, *op, s, t),
        );
    }
}

/// Whether function `f` of module `m` lets node `x` hold any function.
pub open spec fn function_unknown(program: ProgramIr, m: int, f: int, x: int) -> bool {
    let function = program.modules@[m].functions@[f];
    ||| exists|q: int| #![trigger function.parameters@[q]] 0 <= q < function.parameters@.len() && x == value_node(program, m, f, function.parameters@[q] as int)
    ||| exists|r: int, k: int|
        #![trigger function.regions@[r].produced_parameters@[k]]
        0 <= r < function.regions@.len() && 0 <= k < function.regions@[r].produced_parameters@.len() && x == value_node(
            program,
            m,
            f,
            function.regions@[r].produced_parameters@[k] as int,
        )
    ||| exists|j: int| #![trigger function.operations@[j]] 0 <= j < function.operations@.len() && op_unknown(program, m, f, function.operations@[j], x)
}

/// Whether function `f` of module `m` lets node `x` hold exactly function `g`.
pub open spec fn function_exact(program: ProgramIr, m: int, f: int, x: int, g: ProgramFunctionId) -> bool {
    let function = program.modules@[m].functions@[f];
    ||| (function.self_binding matches Some(b) && x == binding_node(program, m, b as int) && g == program_function(m, f))
    ||| exists|j: int| #![trigger function.operations@[j]] 0 <= j < function.operations@.len() && op_value_exact(program, m, f, function.operations@[j], x, g)
}

/// A function that a node starts out holding is a function of the program.
pub proof fn lemma_exact_target_is_function(program: ProgramIr, x: int, g: ProgramFunctionId)
    requires
        program.wf(),
        target_exact(program, x, g),
    ensures
        g.module < program.modules@.len(),
        g.function < program.modules@[g.module as int].functions@.len(),
{
    let modules = program.modules@;
    let (m, f) = choose|m: int, f: int|
        #![trigger function_exact(program, m, f, x, g)]
        0 <= m < modules.len() && 0 <= f < modules[m].functions@.len() && function_exact(program, m, f, x, g);
    assert(modules[m].wf());
    let function = modules[m].functions@[f];
    assert(function.wf(modules[m].functions@.len() as int, modules[m].bindings@.len() as int));
    if !(function.self_binding matches Some(b) && x == binding_node(program, m, b as int) && g == program_function(m, f)) {
        let j = choose|j: int| #![trigger function.operations@[j]] 0 <= j < function.operations@.len() && op_value_exact(program, m, f, function.operations@[j], x, g);
        let op = function.operations@[j];
        assert(op.wf(function.value_count as int, function.regions@.len() as int, modules[m].functions@.len() as int, modules[m].bindings@.len() as int));
        assert(op.referenced_functions@[0] < modules[m].functions@.len());
    }
}

/// Whether function `f` of module `m` makes the state of node `s` flow to node `t`.
pub open spec fn function_edge(program: ProgramIr, m: int, f: int, s: int, t: int) -> bool {
    let function = program.modules@[m].functions@[f];
    exists|j: int| #![trigger function.operations@[j]] 0 <= j < function.operations@.len() && op_target_edge(program, m, f, function.operations@[j], s, t)
}

/// Lets every value in `values` of function `f` of module `m` hold any function.
fn seed_unknown_values(solver: &mut TargetSolver, layout: &TargetLayout, program: &ProgramIr, m: usize, f: usize, values: &Vec<usize>)
    requires
        old(solver).wf(),
        program.wf(),
        layout.describes(*program),
        old(solver).spec_states().len() == target_node_count(*program),
        m < program.modules@.len(),
        f < program.modules@[m as int].functions@.len(),
        crate::ir::all_below(values@, program.modules@[m as int].functions@[f as int].value_count as int),
    ensures
        tgrows(
            *old(solver),
            *final(solver),
            |x: int| exists|q: int| #![trigger values@[q]] 0 <= q < values@.len() && x == value_node(*program, m as int, f as int, values@[q] as int),
            t_no_function(),
            |x: int| exists|q: int| #![trigger values@[q]] 0 <= q < values@.len() && x == value_node(*program, m as int, f as int, values@[q] as int),
            t_no_edge(),
        ),
{
    let ghost s0 = *solver;
    proof {
        lemma_tgrows_refl(s0);
        lemma_nodes_in_range(*program);
        lemma_bindings_before_mono(program.modules@, 0, program.modules@.len() as int);
    }
    let mut i: usize = 0;
    while i < values.len()
        invariant
            program.wf(),
            layout.describes(*program),
            s0.spec_states().len() == target_node_count(*program),
            m < program.modules@.len(),
            f < program.modules@[m as int].functions@.len(),
            crate::ir::all_below(values@, program.modules@[m as int].functions@[f as int].value_count as int),
            forall|m2: int, f2: int, v2: int|
                #![trigger value_node(*program, m2, f2, v2)]
                0 <= m2 < program.modules@.len() && 0 <= f2 < program.modules@[m2].functions@.len() && 0 <= v2
                    < program.modules@[m2].functions@[f2].value_count ==> bindings_before(program.modules@, program.modules@.len() as int) <= value_node(*program, m2, f2, v2)
                    < target_node_count(*program),
            i <= values@.len(),
            tgrows(
                s0,
                *solver,
                |x: int| exists|q: int| #![trigger values@[q]] 0 <= q < i && x == value_node(*program, m as int, f as int, values@[q] as int),
                t_no_function(),
                |x: int| exists|q: int| #![trigger values@[q]] 0 <= q < i && x == value_node(*program, m as int, f as int, values@[q] as int),
                t_no_edge(),
            ),
        decreases values@.len() - i,
    {
        let ghost s1 = *solver;
        let node = layout.value_node(m, f, values[i], Ghost(*program));
        seed_unknown(solver, node);
        proof {
            lemma_tchain(
                s0, s1, *solver,
                |x: int| exists|q: int| #![trigger values@[q]] 0 <= q < i && x == value_node(*program, m as int, f as int, values@[q] as int),
                t_no_function(),
                |x: int| exists|q: int| #![trigger values@[q]] 0 <= q < i && x == value_node(*program, m as int, f as int, values@[q] as int),
                t_no_edge(),
                |y: int| y == node, t_no_function(), |y: int| y == node, t_no_edge(),
                |x: int| exists|q: int| #![trigger values@[q]] 0 <= q < i + 1 && x == value_node(*program, m as int, f as int, values@[q] as int),
                t_no_function(),
                |x: int| exists|q: int| #![trigger values@[q]] 0 <= q < i + 1 && x == value_node(*program, m as int, f as int, values@[q] as int),
                t_no_edge(),
            );
        }
        i = i + 1;
    }
}

/// Adds the states and flows that function `f` of module `m` gives.
fn add_function(solver: &mut TargetSolver, layout: &TargetLayout, program: &ProgramIr, m: usize, f: usize)
    requires
        old(solver).wf(),
        program.wf(),
        layout.describes(*program),
        old(solver).spec_states().len() == target_node_count(*program),
        m < program.modules@.len(),
        f < program.modules@[m as int].functions@.len(),
    ensures
        tgrows(
            *old(solver),
            *final(solver),
            |x: int| function_unknown(*program, m as int, f as int, x) || exists|g: ProgramFunctionId| #[trigger] function_exact(*program, m as int, f as int, x, g),
            |x: int, g: ProgramFunctionId| function_exact(*program, m as int, f as int, x, g),
            |x: int| function_unknown(*program, m as int, f as int, x),
            |s: int, t: int| function_edge(*program, m as int, f as int, s, t),
        ),
{
    let ghost s0 = *solver;
    let ghost p = *program;
    let ghost mi = m as int;
    let ghost fi = f as int;
    let module = &program.modules[m];
    let function = &module.functions[f];
    let ghost nf = module.functions@.len() as int;
    let ghost nb = module.bindings@.len() as int;
    proof {
        assert(p.modules@[mi] == *module);
        assert(module.wf());
        assert(module.functions@[fi] == *function);
        assert(function.wf(nf, nb));
        lemma_nodes_in_range(p);
    }
    // Parameters.
    seed_unknown_values(solver, layout, program, m, f, &function.parameters);
    let ghost s1 = *solver;
    let ghost pu = |x: int| exists|q: int| #![trigger function.parameters@[q]] 0 <= q < function.parameters@.len() && x == value_node(p, mi, fi, function.parameters@[q] as int);
    // The function's own name binding.
    let ghost mut se: spec_fn(int, ProgramFunctionId) -> bool = t_no_function();
    let ghost mut sk: spec_fn(int) -> bool = t_none();
    match function.self_binding {
        Some(b) => {
            let node = layout.binding_node(m, b, Ghost(p));
            let target = ProgramFunctionId { module: m as u32, function: f as u32 };
            proof {
                lemma_values_before_mono(p.modules@, 0, p.modules@.len() as int);
                assert(binding_node(p, mi, b as int) < bindings_before(p.modules@, p.modules@.len() as int));
            }
            seed_exact(solver, node, target);
            proof {
                se = |y: int, g: ProgramFunctionId| y == node && g == target;
                sk = |y: int| y == node;
            }
        },
        None => {
            proof {
                lemma_tgrows_refl(s1);
            }
        },
    }
    let ghost s2 = *solver;
    // Block parameters that control flow produces.
    let mut r: usize = 0;
    proof {
        lemma_tgrows_refl(s2);
    }
    while r < function.regions.len()
        invariant
            program.wf(),
            layout.describes(*program),
            p == *program,
            mi == m,
            fi == f,
            s0.spec_states().len() == target_node_count(p),
            s2.spec_states().len() == s0.spec_states().len(),
            m < program.modules@.len(),
            f < program.modules@[mi].functions@.len(),
            *function == p.modules@[mi].functions@[fi],
            function.wf(nf, nb),
            r <= function.regions@.len(),
            tgrows(
                s2,
                *solver,
                |x: int| exists|r2: int, k: int|
                    #![trigger function.regions@[r2].produced_parameters@[k]]
                    0 <= r2 < r && 0 <= k < function.regions@[r2].produced_parameters@.len() && x == value_node(p, mi, fi, function.regions@[r2].produced_parameters@[k] as int),
                t_no_function(),
                |x: int| exists|r2: int, k: int|
                    #![trigger function.regions@[r2].produced_parameters@[k]]
                    0 <= r2 < r && 0 <= k < function.regions@[r2].produced_parameters@.len() && x == value_node(p, mi, fi, function.regions@[r2].produced_parameters@[k] as int),
                t_no_edge(),
            ),
        decreases function.regions@.len() - r,
    {
        let ghost s3 = *solver;
        let region = &function.regions[r];
        proof {
            assert(function.regions@[r as int] == *region);
            assert(region.wf(function.value_count as int));
        }
        seed_unknown_values(solver, layout, program, m, f, &region.produced_parameters);
        proof {
            let before = |x: int| exists|r2: int, k: int|
                #![trigger function.regions@[r2].produced_parameters@[k]]
                0 <= r2 < r && 0 <= k < function.regions@[r2].produced_parameters@.len() && x == value_node(p, mi, fi, function.regions@[r2].produced_parameters@[k] as int);
            let here = |x: int| exists|q: int| #![trigger region.produced_parameters@[q]] 0 <= q < region.produced_parameters@.len() && x == value_node(p, mi, fi, region.produced_parameters@[q] as int);
            let after = |x: int| exists|r2: int, k: int|
                #![trigger function.regions@[r2].produced_parameters@[k]]
                0 <= r2 < r + 1 && 0 <= k < function.regions@[r2].produced_parameters@.len() && x == value_node(p, mi, fi, function.regions@[r2].produced_parameters@[k] as int);
            assert forall|x: int| #[trigger] after(x) <==> (before(x) || here(x)) by {
                if after(x) {
                    let (r2, k) = choose|r2: int, k: int|
                        #![trigger function.regions@[r2].produced_parameters@[k]]
                        0 <= r2 < r + 1 && 0 <= k < function.regions@[r2].produced_parameters@.len() && x == value_node(p, mi, fi, function.regions@[r2].produced_parameters@[k] as int);
                    if r2 == r {
                        assert(region.produced_parameters@[k] == function.regions@[r2].produced_parameters@[k]);
                    }
                }
                if here(x) {
                    let q = choose|q: int| #![trigger region.produced_parameters@[q]] 0 <= q < region.produced_parameters@.len() && x == value_node(p, mi, fi, region.produced_parameters@[q] as int);
                    assert(function.regions@[r as int].produced_parameters@[q] == region.produced_parameters@[q]);
                }
            }
            lemma_tchain(s2, s3, *solver, before, t_no_function(), before, t_no_edge(), here, t_no_function(), here, t_no_edge(),
                after, t_no_function(), after, t_no_edge());
        }
        r = r + 1;
    }
    let ghost s4 = *solver;
    proof {
        lemma_tgrows_refl(s4);
    }
    // Operations.
    let mut j: usize = 0;
    while j < function.operations.len()
        invariant
            program.wf(),
            layout.describes(*program),
            p == *program,
            mi == m,
            fi == f,
            s0.spec_states().len() == target_node_count(p),
            s4.spec_states().len() == s0.spec_states().len(),
            m < program.modules@.len(),
            f < program.modules@[mi].functions@.len(),
            *module == p.modules@[mi],
            *function == module.functions@[fi],
            nf == module.functions@.len(),
            nb == module.bindings@.len(),
            function.wf(nf, nb),
            j <= function.operations@.len(),
            tgrows(
                s4,
                *solver,
                |x: int| exists|j2: int| #![trigger function.operations@[j2]] 0 <= j2 < j && (op_unknown(p, mi, fi, function.operations@[j2], x) || exists|g: ProgramFunctionId| #[trigger] op_value_exact(p, mi, fi, function.operations@[j2], x, g)),
                |x: int, g: ProgramFunctionId| exists|j2: int| #![trigger function.operations@[j2]] 0 <= j2 < j && op_value_exact(p, mi, fi, function.operations@[j2], x, g),
                |x: int| exists|j2: int| #![trigger function.operations@[j2]] 0 <= j2 < j && op_unknown(p, mi, fi, function.operations@[j2], x),
                |s: int, t: int| exists|j2: int| #![trigger function.operations@[j2]] 0 <= j2 < j && op_target_edge(p, mi, fi, function.operations@[j2], s, t),
            ),
        decreases function.operations@.len() - j,
    {
        let ghost s5 = *solver;
        let op = &function.operations[j];
        proof {
            assert(function.operations@[j as int] == *op);
            assert(op.wf(function.value_count as int, function.regions@.len() as int, nf, nb));
        }
        add_operation_targets(solver, layout, program, m, f, op);
        proof {
            lemma_tchain(
                s4, s5, *solver,
                |x: int| exists|j2: int| #![trigger function.operations@[j2]] 0 <= j2 < j && (op_unknown(p, mi, fi, function.operations@[j2], x) || exists|g: ProgramFunctionId| #[trigger] op_value_exact(p, mi, fi, function.operations@[j2], x, g)),
                |x: int, g: ProgramFunctionId| exists|j2: int| #![trigger function.operations@[j2]] 0 <= j2 < j && op_value_exact(p, mi, fi, function.operations@[j2], x, g),
                |x: int| exists|j2: int| #![trigger function.operations@[j2]] 0 <= j2 < j && op_unknown(p, mi, fi, function.operations@[j2], x),
                |s: int, t: int| exists|j2: int| #![trigger function.operations@[j2]] 0 <= j2 < j && op_target_edge(p, mi, fi, function.operations@[j2], s, t),
                |x: int| op_unknown(p, mi, fi, *op, x) || exists|g: ProgramFunctionId| #[trigger] op_value_exact(p, mi, fi, *op, x, g),
                |x: int, g: ProgramFunctionId| op_value_exact(p, mi, fi, *op, x, g),
                |x: int| op_unknown(p, mi, fi, *op, x),
                |s: int, t: int| op_target_edge(p, mi, fi, *op, s, t),
                |x: int| exists|j2: int| #![trigger function.operations@[j2]] 0 <= j2 < j + 1 && (op_unknown(p, mi, fi, function.operations@[j2], x) || exists|g: ProgramFunctionId| #[trigger] op_value_exact(p, mi, fi, function.operations@[j2], x, g)),
                |x: int, g: ProgramFunctionId| exists|j2: int| #![trigger function.operations@[j2]] 0 <= j2 < j + 1 && op_value_exact(p, mi, fi, function.operations@[j2], x, g),
                |x: int| exists|j2: int| #![trigger function.operations@[j2]] 0 <= j2 < j + 1 && op_unknown(p, mi, fi, function.operations@[j2], x),
                |s: int, t: int| exists|j2: int| #![trigger function.operations@[j2]] 0 <= j2 < j + 1 && op_target_edge(p, mi, fi, function.operations@[j2], s, t),
            );
        }
        j = j + 1;
    }
    proof {
        let ru = |x: int| exists|r2: int, k: int|
            #![trigger function.regions@[r2].produced_parameters@[k]]
            0 <= r2 < function.regions@.len() && 0 <= k < function.regions@[r2].produced_parameters@.len() && x == value_node(p, mi, fi, function.regions@[r2].produced_parameters@[k] as int);
        let ok = |x: int| exists|j2: int| #![trigger function.operations@[j2]] 0 <= j2 < function.operations@.len() && (op_unknown(p, mi, fi, function.operations@[j2], x) || exists|g: ProgramFunctionId| #[trigger] op_value_exact(p, mi, fi, function.operations@[j2], x, g));
        let of = |x: int, g: ProgramFunctionId| exists|j2: int| #![trigger function.operations@[j2]] 0 <= j2 < function.operations@.len() && op_value_exact(p, mi, fi, function.operations@[j2], x, g);
        let ou = |x: int| exists|j2: int| #![trigger function.operations@[j2]] 0 <= j2 < function.operations@.len() && op_unknown(p, mi, fi, function.operations@[j2], x);
        let oe = |s: int, t: int| exists|j2: int| #![trigger function.operations@[j2]] 0 <= j2 < function.operations@.len() && op_target_edge(p, mi, fi, function.operations@[j2], s, t);
        lemma_tchain(s0, s1, s2, pu, t_no_function(), pu, t_no_edge(), sk, se, t_none(), t_no_edge(),
            |x: int| pu(x) || sk(x), se, pu, t_no_edge());
        lemma_tchain(s0, s2, s4, |x: int| pu(x) || sk(x), se, pu, t_no_edge(), ru, t_no_function(), ru, t_no_edge(),
            |x: int| pu(x) || sk(x) || ru(x), se, |x: int| pu(x) || ru(x), t_no_edge());
        assert forall|x: int| 0 <= x < s0.spec_states().len() implies
            ((function_unknown(p, mi, fi, x) || exists|g: ProgramFunctionId| #[trigger] function_exact(p, mi, fi, x, g))
                <==> (pu(x) || sk(x) || ru(x) || ok(x))) by {
            if sk(x) {
                let b = function.self_binding->0;
                assert(function_exact(p, mi, fi, x, program_function(mi, fi)));
            }
            if exists|g: ProgramFunctionId| #[trigger] function_exact(p, mi, fi, x, g) {
                let g = choose|g: ProgramFunctionId| #[trigger] function_exact(p, mi, fi, x, g);
                if !(function.self_binding matches Some(b) && x == binding_node(p, mi, b as int) && g == program_function(mi, fi)) {
                    let j2 = choose|j2: int| #![trigger function.operations@[j2]] 0 <= j2 < function.operations@.len() && op_value_exact(p, mi, fi, function.operations@[j2], x, g);
                    assert(op_value_exact(p, mi, fi, function.operations@[j2], x, g));
                }
            }
            if ok(x) {
                let j2 = choose|j2: int| #![trigger function.operations@[j2]] 0 <= j2 < function.operations@.len() && (op_unknown(p, mi, fi, function.operations@[j2], x) || exists|g: ProgramFunctionId| #[trigger] op_value_exact(p, mi, fi, function.operations@[j2], x, g));
                if !op_unknown(p, mi, fi, function.operations@[j2], x) {
                    let g = choose|g: ProgramFunctionId| #[trigger] op_value_exact(p, mi, fi, function.operations@[j2], x, g);
                    assert(function_exact(p, mi, fi, x, g));
                }
            }
        }
        lemma_tchain(s0, s4, *solver, |x: int| pu(x) || sk(x) || ru(x), se, |x: int| pu(x) || ru(x), t_no_edge(), ok, of, ou, oe,
            |x: int| function_unknown(p, mi, fi, x) || exists|g: ProgramFunctionId| #[trigger] function_exact(p, mi, fi, x, g),
            |x: int, g: ProgramFunctionId| function_exact(p, mi, fi, x, g),
            |x: int| function_unknown(p, mi, fi, x),
            |s: int, t: int| function_edge(p, mi, fi, s, t),
        );
    }
}


/// Whether a binding of module `m` lets node `x` hold any function.
pub open spec fn module_binding_unknown(program: ProgramIr, linkage: ProgramLinkage, m: int, x: int) -> bool {
    exists|b: int|
        #![trigger binding_node(program, m, b)]
        0 <= b < program.modules@[m].bindings@.len() && x == binding_node(program, m, b) && binding_is_unknown(
            program,
            linkage,
            m,
            b,
        )
}

/// Whether an import of module `m` makes the state of node `s` flow to node `t`.
pub open spec fn module_import_edge(program: ProgramIr, linkage: ProgramLinkage, m: int, s: int, t: int) -> bool {
    exists|b: int, target: ProgramBindingId|
        #![trigger imports_binding(program, linkage, m, b, target)]
        0 <= b < program.modules@[m].bindings@.len() && imports_binding(program, linkage, m, b, target) && s
            == binding_node(program, target.module as int, target.binding as int) && t == binding_node(program, m, b)
}

/// Whether node `x` may start out holding any function.
pub open spec fn target_unknown(program: ProgramIr, linkage: ProgramLinkage, x: int) -> bool {
    let modules = program.modules@;
    ||| exists|m: int|
        #![trigger module_binding_unknown(program, linkage, m, x)]
        0 <= m < modules.len() && module_binding_unknown(program, linkage, m, x)
    ||| exists|m: int, f: int|
        #![trigger function_unknown(program, m, f, x)]
        0 <= m < modules.len() && 0 <= f < modules[m].functions@.len() && function_unknown(program, m, f, x)
}

/// Whether node `x` starts out holding function `g`: the binding through
/// which `g` refers to itself, or the value that creates it.
pub open spec fn target_exact(program: ProgramIr, x: int, g: ProgramFunctionId) -> bool {
    let modules = program.modules@;
    exists|m: int, f: int|
        #![trigger function_exact(program, m, f, x, g)]
        0 <= m < modules.len() && 0 <= f < modules[m].functions@.len() && function_exact(program, m, f, x, g)
}

/// Whether the state of node `s` flows to node `t`: from an imported binding
/// to its import, or along an operation of some function.
pub open spec fn target_edges(program: ProgramIr, linkage: ProgramLinkage) -> spec_fn(int, int) -> bool {
    let modules = program.modules@;
    |s: int, t: int|
        (exists|m: int|
            #![trigger module_import_edge(program, linkage, m, s, t)]
            0 <= m < modules.len() && module_import_edge(program, linkage, m, s, t)) || (exists|m: int, f: int|
            #![trigger function_edge(program, m, f, s, t)]
            0 <= m < modules.len() && 0 <= f < modules[m].functions@.len() && function_edge(program, m, f, s, t))
}

/// Function `f2` of module `m2` comes before function `f` of module `m`.
pub open spec fn precedes(program: ProgramIr, m2: int, f2: int, m: int, f: int) -> bool {
    &&& 0 <= m2 < program.modules@.len()
    &&& 0 <= f2 < program.modules@[m2].functions@.len()
    &&& (m2 < m || (m2 == m && f2 < f))
}

/// What the first `mb` modules' bindings and the functions before function
/// `f` of module `m` let node `x` hold: any function.
pub open spec fn unknown_upto(program: ProgramIr, linkage: ProgramLinkage, mb: int, m: int, f: int) -> spec_fn(int) -> bool {
    |x: int|
        (exists|m2: int| #![trigger module_binding_unknown(program, linkage, m2, x)] 0 <= m2 < mb && module_binding_unknown(program, linkage, m2, x))
            || (exists|m2: int, f2: int| #![trigger function_unknown(program, m2, f2, x)] precedes(program, m2, f2, m, f) && function_unknown(program, m2, f2, x))
}

/// The functions that the functions before function `f` of module `m` let node `x` hold exactly.
pub open spec fn exact_upto(program: ProgramIr, m: int, f: int) -> spec_fn(int, ProgramFunctionId) -> bool {
    |x: int, g: ProgramFunctionId|
        exists|m2: int, f2: int| #![trigger function_exact(program, m2, f2, x, g)] precedes(program, m2, f2, m, f) && function_exact(program, m2, f2, x, g)
}

/// Whether something before that point lets node `x` hold something.
pub open spec fn known_upto(program: ProgramIr, linkage: ProgramLinkage, mb: int, m: int, f: int) -> spec_fn(int) -> bool {
    |x: int| unknown_upto(program, linkage, mb, m, f)(x) || exists|g: ProgramFunctionId| #[trigger] exact_upto(program, m, f)(x, g)
}

/// The flows of the first `mb` modules' imports and of the functions before function `f` of module `m`.
pub open spec fn edges_upto(program: ProgramIr, linkage: ProgramLinkage, mb: int, m: int, f: int) -> spec_fn(int, int) -> bool {
    |s: int, t: int|
        (exists|m2: int| #![trigger module_import_edge(program, linkage, m2, s, t)] 0 <= m2 < mb && module_import_edge(program, linkage, m2, s, t))
            || (exists|m2: int, f2: int| #![trigger function_edge(program, m2, f2, s, t)] precedes(program, m2, f2, m, f) && function_edge(program, m2, f2, s, t))
}


/// Adds the states and flows that the bindings of module `m` give: an
/// import that resolves to a binding takes that binding's state, other
/// imports, parameters and caught exceptions may hold any function.
fn add_module_bindings(solver: &mut TargetSolver, layout: &TargetLayout, program: &ProgramIr, linkage: &ProgramLinkage, m: usize)
    requires
        old(solver).wf(),
        program.wf(),
        layout.describes(*program),
        old(solver).spec_states().len() == target_node_count(*program),
        m < program.modules@.len(),
    ensures
        tgrows(
            *old(solver),
            *final(solver),
            |x: int| module_binding_unknown(*program, *linkage, m as int, x),
            t_no_function(),
            |x: int| module_binding_unknown(*program, *linkage, m as int, x),
            |s: int, t: int| module_import_edge(*program, *linkage, m as int, s, t),
        ),
{
    let ghost s0 = *solver;
    let ghost p = *program;
    let ghost l = *linkage;
    let ghost mi = m as int;
    let module = &program.modules[m];
    proof {
        lemma_tgrows_refl(s0);
        lemma_nodes_in_range(p);
        lemma_values_before_mono(p.modules@, 0, p.modules@.len() as int);
        assert(p.modules@[mi] == *module);
    }
    let mut b: usize = 0;
    while b < module.bindings.len()
        invariant
            program.wf(),
            layout.describes(*program),
            p == *program,
            l == *linkage,
            mi == m,
            m < program.modules@.len(),
            *module == p.modules@[mi],
            s0.spec_states().len() == target_node_count(p),
            bindings_before(p.modules@, p.modules@.len() as int) <= target_node_count(p),
            forall|m2: int, b2: int|
                #![trigger binding_node(p, m2, b2)]
                0 <= m2 < p.modules@.len() && 0 <= b2 < p.modules@[m2].bindings@.len() ==> 0 <= binding_node(p, m2, b2)
                    < bindings_before(p.modules@, p.modules@.len() as int),
            b <= module.bindings@.len(),
            tgrows(
                s0,
                *solver,
                |x: int| exists|c: int| #![trigger binding_node(p, mi, c)] 0 <= c < b && x == binding_node(p, mi, c) && binding_is_unknown(p, l, mi, c),
                t_no_function(),
                |x: int| exists|c: int| #![trigger binding_node(p, mi, c)] 0 <= c < b && x == binding_node(p, mi, c) && binding_is_unknown(p, l, mi, c),
                |s: int, t: int| exists|c: int, target: ProgramBindingId| #![trigger imports_binding(p, l, mi, c, target)] 0 <= c < b && imports_binding(p, l, mi, c, target) && s == binding_node(p, target.module as int, target.binding as int) && t == binding_node(p, mi, c),
            ),
        decreases module.bindings@.len() - b,
    {
        let ghost s1 = *solver;
        let node = layout.binding_node(m, b, Ghost(p));
        let id = ProgramBindingId { module: m as u32, binding: b as u32 };
        let kind = module.bindings[b].kind;
        let mut unknown = false;
        let mut source: Option<ProgramBindingId> = None;
        match kind {
            BindingKind::Import => match linkage.imported_binding(id) {
                Some(ImportedBindingTarget::Binding(target)) => {
                    let tm = target.module as usize;
                    let tb = target.binding as usize;
                    if tm < program.modules.len() && tb < program.modules[tm].bindings.len() {
                        source = Some(*target);
                    }
                },
                _ => {
                    unknown = true;
                },
            },
            BindingKind::Parameter => {
                unknown = true;
            },
            BindingKind::Catch => {
                unknown = true;
            },
            _ => {},
        }
        proof {
            assert(id == program_binding(mi, b as int));
            assert(module.bindings@[b as int].kind == kind);
            assert(unknown == binding_is_unknown(p, l, mi, b as int));
            assert forall|target: ProgramBindingId| imports_binding(p, l, mi, b as int, target) <==> source == Some(target) by {}
        }
        if unknown {
            seed_unknown(solver, node);
        } else {
            match source {
                Some(target) => {
                    let from = layout.binding_node(target.module as usize, target.binding as usize, Ghost(p));
                    flow(solver, from, node);
                },
                None => {
                    proof {
                        lemma_tgrows_refl(s1);
                    }
                },
            }
        }
        proof {
            let before_k = |x: int| exists|c: int| #![trigger binding_node(p, mi, c)] 0 <= c < b && x == binding_node(p, mi, c) && binding_is_unknown(p, l, mi, c);
            let after_k = |x: int| exists|c: int| #![trigger binding_node(p, mi, c)] 0 <= c < b + 1 && x == binding_node(p, mi, c) && binding_is_unknown(p, l, mi, c);
            let before_e = |s: int, t: int| exists|c: int, target: ProgramBindingId| #![trigger imports_binding(p, l, mi, c, target)] 0 <= c < b && imports_binding(p, l, mi, c, target) && s == binding_node(p, target.module as int, target.binding as int) && t == binding_node(p, mi, c);
            let after_e = |s: int, t: int| exists|c: int, target: ProgramBindingId| #![trigger imports_binding(p, l, mi, c, target)] 0 <= c < b + 1 && imports_binding(p, l, mi, c, target) && s == binding_node(p, target.module as int, target.binding as int) && t == binding_node(p, mi, c);
            let here_k = if unknown { |y: int| y == node } else { t_none() };
            let here_e = match source {
                Some(target) => |s: int, t: int| s == binding_node(p, target.module as int, target.binding as int) && t == node,
                None => t_no_edge(),
            };
            assert forall|x: int| #[trigger] after_k(x) <==> (before_k(x) || here_k(x)) by {
                if after_k(x) {
                    let c = choose|c: int| #![trigger binding_node(p, mi, c)] 0 <= c < b + 1 && x == binding_node(p, mi, c) && binding_is_unknown(p, l, mi, c);
                    if c == b {
                        assert(here_k(x));
                    } else {
                        assert(before_k(x));
                    }
                }
                if here_k(x) {
                    assert(binding_node(p, mi, b as int) == x);
                }
            }
            assert forall|s: int, t: int| #[trigger] after_e(s, t) <==> (before_e(s, t) || here_e(s, t)) by {
                if after_e(s, t) {
                    let (c, target) = choose|c: int, target: ProgramBindingId| #![trigger imports_binding(p, l, mi, c, target)] 0 <= c < b + 1 && imports_binding(p, l, mi, c, target) && s == binding_node(p, target.module as int, target.binding as int) && t == binding_node(p, mi, c);
                    if c == b {
                        assert(source == Some(target));
                        assert(here_e(s, t));
                    } else {
                        assert(before_e(s, t));
                    }
                }
                if here_e(s, t) {
                    let target = source->0;
                    assert(imports_binding(p, l, mi, b as int, target));
                }
            }
            lemma_tchain(s0, s1, *solver, before_k, t_no_function(), before_k, before_e, here_k, t_no_function(), here_k, here_e,
                after_k, t_no_function(), after_k, after_e);
        }
        b = b + 1;
    }
    proof {
        lemma_tgrows_refl(*solver);
        lemma_tchain(
            s0, *solver, *solver,
            |x: int| exists|c: int| #![trigger binding_node(p, mi, c)] 0 <= c < b && x == binding_node(p, mi, c) && binding_is_unknown(p, l, mi, c),
            t_no_function(),
            |x: int| exists|c: int| #![trigger binding_node(p, mi, c)] 0 <= c < b && x == binding_node(p, mi, c) && binding_is_unknown(p, l, mi, c),
            |s: int, t: int| exists|c: int, target: ProgramBindingId| #![trigger imports_binding(p, l, mi, c, target)] 0 <= c < b && imports_binding(p, l, mi, c, target) && s == binding_node(p, target.module as int, target.binding as int) && t == binding_node(p, mi, c),
            t_none(), t_no_function(), t_none(), t_no_edge(),
            |x: int| module_binding_unknown(p, l, mi, x),
            t_no_function(),
            |x: int| module_binding_unknown(p, l, mi, x),
            |s: int, t: int| module_import_edge(p, l, mi, s, t),
        );
    }
}


proof fn lemma_upto_bindings_step(program: ProgramIr, linkage: ProgramLinkage, mb: int, m: int, f: int)
    requires
        0 <= mb,
    ensures
        forall|x: int|
            #[trigger] unknown_upto(program, linkage, mb + 1, m, f)(x) <==> (unknown_upto(program, linkage, mb, m, f)(x)
                || module_binding_unknown(program, linkage, mb, x)),
        forall|x: int|
            #[trigger] known_upto(program, linkage, mb + 1, m, f)(x) <==> (known_upto(program, linkage, mb, m, f)(x)
                || module_binding_unknown(program, linkage, mb, x)),
        forall|s: int, t: int|
            #[trigger] edges_upto(program, linkage, mb + 1, m, f)(s, t) <==> (edges_upto(program, linkage, mb, m, f)(s, t)
                || module_import_edge(program, linkage, mb, s, t)),
{
    assert forall|x: int|
        #[trigger] unknown_upto(program, linkage, mb + 1, m, f)(x) <==> (unknown_upto(program, linkage, mb, m, f)(x)
            || module_binding_unknown(program, linkage, mb, x)) by {
        if module_binding_unknown(program, linkage, mb, x) {
            assert(0 <= mb < mb + 1);
        }
    }
    assert forall|s: int, t: int|
        #[trigger] edges_upto(program, linkage, mb + 1, m, f)(s, t) <==> (edges_upto(program, linkage, mb, m, f)(s, t)
            || module_import_edge(program, linkage, mb, s, t)) by {
        if module_import_edge(program, linkage, mb, s, t) {
            assert(0 <= mb < mb + 1);
        }
    }
}

proof fn lemma_upto_function_step(program: ProgramIr, linkage: ProgramLinkage, mb: int, m: int, f: int)
    requires
        0 <= m < program.modules@.len(),
        0 <= f < program.modules@[m].functions@.len(),
    ensures
        forall|x: int|
            #[trigger] unknown_upto(program, linkage, mb, m, f + 1)(x) <==> (unknown_upto(program, linkage, mb, m, f)(x)
                || function_unknown(program, m, f, x)),
        forall|x: int, g: ProgramFunctionId|
            #[trigger] exact_upto(program, m, f + 1)(x, g) <==> (exact_upto(program, m, f)(x, g) || function_exact(program, m, f, x, g)),
        forall|x: int|
            #[trigger] known_upto(program, linkage, mb, m, f + 1)(x) <==> (known_upto(program, linkage, mb, m, f)(x)
                || (function_unknown(program, m, f, x) || exists|g: ProgramFunctionId| #[trigger] function_exact(program, m, f, x, g))),
        forall|s: int, t: int|
            #[trigger] edges_upto(program, linkage, mb, m, f + 1)(s, t) <==> (edges_upto(program, linkage, mb, m, f)(s, t)
                || function_edge(program, m, f, s, t)),
{
    assert(precedes(program, m, f, m, f + 1));
    assert forall|x: int|
        #[trigger] unknown_upto(program, linkage, mb, m, f + 1)(x) <==> (unknown_upto(program, linkage, mb, m, f)(x)
            || function_unknown(program, m, f, x)) by {
        if unknown_upto(program, linkage, mb, m, f + 1)(x) && !(exists|m2: int| #![trigger module_binding_unknown(program, linkage, m2, x)] 0 <= m2 < mb && module_binding_unknown(program, linkage, m2, x)) {
            let (m2, f2) = choose|m2: int, f2: int| #![trigger function_unknown(program, m2, f2, x)] precedes(program, m2, f2, m, f + 1) && function_unknown(program, m2, f2, x);
            if !(m2 == m && f2 == f) {
                assert(precedes(program, m2, f2, m, f));
            }
        }
    }
    assert forall|x: int, g: ProgramFunctionId|
        #[trigger] exact_upto(program, m, f + 1)(x, g) <==> (exact_upto(program, m, f)(x, g) || function_exact(program, m, f, x, g)) by {
        if exact_upto(program, m, f + 1)(x, g) {
            let (m2, f2) = choose|m2: int, f2: int| #![trigger function_exact(program, m2, f2, x, g)] precedes(program, m2, f2, m, f + 1) && function_exact(program, m2, f2, x, g);
            if !(m2 == m && f2 == f) {
                assert(precedes(program, m2, f2, m, f));
            }
        }
    }
    assert forall|x: int|
        #[trigger] known_upto(program, linkage, mb, m, f + 1)(x) <==> (known_upto(program, linkage, mb, m, f)(x)
            || (function_unknown(program, m, f, x) || exists|g: ProgramFunctionId| #[trigger] function_exact(program, m, f, x, g))) by {
        if exists|g: ProgramFunctionId| #[trigger] exact_upto(program, m, f + 1)(x, g) {
            let g = choose|g: ProgramFunctionId| #[trigger] exact_upto(program, m, f + 1)(x, g);
            if !function_exact(program, m, f, x, g) {
                assert(exact_upto(program, m, f)(x, g));
            }
        }
        if exists|g: ProgramFunctionId| #[trigger] exact_upto(program, m, f)(x, g) {
            let g = choose|g: ProgramFunctionId| #[trigger] exact_upto(program, m, f)(x, g);
            assert(exact_upto(program, m, f + 1)(x, g));
        }
        if exists|g: ProgramFunctionId| #[trigger] function_exact(program, m, f, x, g) {
            let g = choose|g: ProgramFunctionId| #[trigger] function_exact(program, m, f, x, g);
            assert(exact_upto(program, m, f + 1)(x, g));
        }
    }
    assert forall|s: int, t: int|
        #[trigger] edges_upto(program, linkage, mb, m, f + 1)(s, t) <==> (edges_upto(program, linkage, mb, m, f)(s, t)
            || function_edge(program, m, f, s, t)) by {
        if edges_upto(program, linkage, mb, m, f + 1)(s, t) && !(exists|m2: int| #![trigger module_import_edge(program, linkage, m2, s, t)] 0 <= m2 < mb && module_import_edge(program, linkage, m2, s, t)) {
            let (m2, f2) = choose|m2: int, f2: int| #![trigger function_edge(program, m2, f2, s, t)] precedes(program, m2, f2, m, f + 1) && function_edge(program, m2, f2, s, t);
            if !(m2 == m && f2 == f) {
                assert(precedes(program, m2, f2, m, f));
            }
        }
    }
}

proof fn lemma_upto_next_module(program: ProgramIr, linkage: ProgramLinkage, mb: int, m: int)
    requires
        0 <= m < program.modules@.len(),
    ensures
        forall|x: int|
            #[trigger] unknown_upto(program, linkage, mb, m + 1, 0)(x) <==> unknown_upto(
                program,
                linkage,
                mb,
                m,
                program.modules@[m].functions@.len() as int,
            )(x),
        forall|x: int, g: ProgramFunctionId|
            #[trigger] exact_upto(program, m + 1, 0)(x, g) <==> exact_upto(program, m, program.modules@[m].functions@.len() as int)(x, g),
        forall|x: int|
            #[trigger] known_upto(program, linkage, mb, m + 1, 0)(x) <==> known_upto(
                program,
                linkage,
                mb,
                m,
                program.modules@[m].functions@.len() as int,
            )(x),
        forall|s: int, t: int|
            #[trigger] edges_upto(program, linkage, mb, m + 1, 0)(s, t) <==> edges_upto(
                program,
                linkage,
                mb,
                m,
                program.modules@[m].functions@.len() as int,
            )(s, t),
{
    let nf = program.modules@[m].functions@.len() as int;
    assert forall|m2: int, f2: int| precedes(program, m2, f2, m + 1, 0) <==> precedes(program, m2, f2, m, nf) by {}
    assert forall|x: int, g: ProgramFunctionId|
        #[trigger] exact_upto(program, m + 1, 0)(x, g) <==> exact_upto(program, m, nf)(x, g) by {
        if exact_upto(program, m + 1, 0)(x, g) {
            let (m2, f2) = choose|m2: int, f2: int| #![trigger function_exact(program, m2, f2, x, g)] precedes(program, m2, f2, m + 1, 0) && function_exact(program, m2, f2, x, g);
            assert(precedes(program, m2, f2, m, nf));
        }
        if exact_upto(program, m, nf)(x, g) {
            let (m2, f2) = choose|m2: int, f2: int| #![trigger function_exact(program, m2, f2, x, g)] precedes(program, m2, f2, m, nf) && function_exact(program, m2, f2, x, g);
            assert(precedes(program, m2, f2, m + 1, 0));
        }
    }
    assert forall|x: int|
        #[trigger] unknown_upto(program, linkage, mb, m + 1, 0)(x) <==> unknown_upto(program, linkage, mb, m, nf)(x) by {
        if exists|m2: int, f2: int| #![trigger function_unknown(program, m2, f2, x)] precedes(program, m2, f2, m + 1, 0) && function_unknown(program, m2, f2, x) {
            let (m2, f2) = choose|m2: int, f2: int| #![trigger function_unknown(program, m2, f2, x)] precedes(program, m2, f2, m + 1, 0) && function_unknown(program, m2, f2, x);
            assert(precedes(program, m2, f2, m, nf));
        }
        if exists|m2: int, f2: int| #![trigger function_unknown(program, m2, f2, x)] precedes(program, m2, f2, m, nf) && function_unknown(program, m2, f2, x) {
            let (m2, f2) = choose|m2: int, f2: int| #![trigger function_unknown(program, m2, f2, x)] precedes(program, m2, f2, m, nf) && function_unknown(program, m2, f2, x);
            assert(precedes(program, m2, f2, m + 1, 0));
        }
    }
    assert forall|x: int|
        #[trigger] known_upto(program, linkage, mb, m + 1, 0)(x) <==> known_upto(program, linkage, mb, m, nf)(x) by {
        if exists|g: ProgramFunctionId| #[trigger] exact_upto(program, m + 1, 0)(x, g) {
            let g = choose|g: ProgramFunctionId| #[trigger] exact_upto(program, m + 1, 0)(x, g);
            assert(exact_upto(program, m, nf)(x, g));
        }
        if exists|g: ProgramFunctionId| #[trigger] exact_upto(program, m, nf)(x, g) {
            let g = choose|g: ProgramFunctionId| #[trigger] exact_upto(program, m, nf)(x, g);
            assert(exact_upto(program, m + 1, 0)(x, g));
        }
    }
    assert forall|s: int, t: int|
        #[trigger] edges_upto(program, linkage, mb, m + 1, 0)(s, t) <==> edges_upto(program, linkage, mb, m, nf)(s, t) by {
        if exists|m2: int, f2: int| #![trigger function_edge(program, m2, f2, s, t)] precedes(program, m2, f2, m + 1, 0) && function_edge(program, m2, f2, s, t) {
            let (m2, f2) = choose|m2: int, f2: int| #![trigger function_edge(program, m2, f2, s, t)] precedes(program, m2, f2, m + 1, 0) && function_edge(program, m2, f2, s, t);
            assert(precedes(program, m2, f2, m, nf));
        }
        if exists|m2: int, f2: int| #![trigger function_edge(program, m2, f2, s, t)] precedes(program, m2, f2, m, nf) && function_edge(program, m2, f2, s, t) {
            let (m2, f2) = choose|m2: int, f2: int| #![trigger function_edge(program, m2, f2, s, t)] precedes(program, m2, f2, m, nf) && function_edge(program, m2, f2, s, t);
            assert(precedes(program, m2, f2, m + 1, 0));
        }
    }
}

proof fn lemma_upto_all(program: ProgramIr, linkage: ProgramLinkage)
    ensures
        forall|x: int|
            #[trigger] unknown_upto(program, linkage, program.modules@.len() as int, program.modules@.len() as int, 0)(x)
                <==> target_unknown(program, linkage, x),
        forall|x: int, g: ProgramFunctionId|
            #[trigger] exact_upto(program, program.modules@.len() as int, 0)(x, g) <==> target_exact(program, x, g),
        forall|x: int|
            #[trigger] known_upto(program, linkage, program.modules@.len() as int, program.modules@.len() as int, 0)(x)
                <==> (target_unknown(program, linkage, x) || exists|g: ProgramFunctionId| #[trigger] target_exact(program, x, g)),
        forall|s: int, t: int|
            #[trigger] edges_upto(program, linkage, program.modules@.len() as int, program.modules@.len() as int, 0)(s, t)
                <==> target_edges(program, linkage)(s, t),
{
    let n = program.modules@.len() as int;
    assert forall|m2: int, f2: int|
        precedes(program, m2, f2, n, 0) <==> (0 <= m2 < n && 0 <= f2 < program.modules@[m2].functions@.len()) by {}
    assert forall|x: int, g: ProgramFunctionId| #[trigger] exact_upto(program, n, 0)(x, g) <==> target_exact(program, x, g) by {
        if target_exact(program, x, g) {
            let (m2, f2) = choose|m2: int, f2: int| #![trigger function_exact(program, m2, f2, x, g)] 0 <= m2 < n && 0 <= f2 < program.modules@[m2].functions@.len() && function_exact(program, m2, f2, x, g);
            assert(precedes(program, m2, f2, n, 0));
        }
    }
    assert forall|x: int| #[trigger] unknown_upto(program, linkage, n, n, 0)(x) <==> target_unknown(program, linkage, x) by {
        if exists|m2: int, f2: int| #![trigger function_unknown(program, m2, f2, x)] 0 <= m2 < n && 0 <= f2 < program.modules@[m2].functions@.len() && function_unknown(program, m2, f2, x) {
            let (m2, f2) = choose|m2: int, f2: int| #![trigger function_unknown(program, m2, f2, x)] 0 <= m2 < n && 0 <= f2 < program.modules@[m2].functions@.len() && function_unknown(program, m2, f2, x);
            assert(precedes(program, m2, f2, n, 0));
        }
    }
    assert forall|x: int|
        #[trigger] known_upto(program, linkage, n, n, 0)(x) <==> (target_unknown(program, linkage, x) || exists|g: ProgramFunctionId| #[trigger] target_exact(program, x, g)) by {
        if exists|g: ProgramFunctionId| #[trigger] exact_upto(program, n, 0)(x, g) {
            let g = choose|g: ProgramFunctionId| #[trigger] exact_upto(program, n, 0)(x, g);
            assert(target_exact(program, x, g));
        }
        if exists|g: ProgramFunctionId| #[trigger] target_exact(program, x, g) {
            let g = choose|g: ProgramFunctionId| #[trigger] target_exact(program, x, g);
            assert(exact_upto(program, n, 0)(x, g));
        }
    }
    assert forall|s: int, t: int| #[trigger] edges_upto(program, linkage, n, n, 0)(s, t) <==> target_edges(program, linkage)(s, t) by {
        if exists|m2: int, f2: int| #![trigger function_edge(program, m2, f2, s, t)] 0 <= m2 < n && 0 <= f2 < program.modules@[m2].functions@.len() && function_edge(program, m2, f2, s, t) {
            let (m2, f2) = choose|m2: int, f2: int| #![trigger function_edge(program, m2, f2, s, t)] 0 <= m2 < n && 0 <= f2 < program.modules@[m2].functions@.len() && function_edge(program, m2, f2, s, t);
            assert(precedes(program, m2, f2, n, 0));
        }
    }
}

/// The fixed-point problem of `program` under `linkage`: every node starts
/// with what the program gives it, and states flow along `target_edges`.
fn target_problem(program: &ProgramIr, linkage: &ProgramLinkage, layout: &TargetLayout) -> (solver: TargetSolver)
    requires
        program.wf(),
        layout.describes(*program),
    ensures
        solver.wf(),
        solver.spec_states().len() == target_node_count(*program),
        forall|x: int|
            #![trigger solver.spec_states()[x]]
            0 <= x < target_node_count(*program) ==> {
                &&& solver.spec_states()[x].spec_is_known() == (target_unknown(*program, *linkage, x) || exists|g: ProgramFunctionId|
                    #[trigger] target_exact(*program, x, g))
                &&& forall|g: ProgramFunctionId|
                    #[trigger] solver.spec_states()[x].spec_functions().contains(g) <==> target_exact(*program, x, g)
                &&& solver.spec_states()[x].spec_incomplete() == target_unknown(*program, *linkage, x)
            },
        forall|s: int, t: int|
            #[trigger] list_step(solver.spec_dependents())(s, t) <==> target_edges(*program, *linkage)(s, t),
{
    let ghost p = *program;
    let ghost l = *linkage;
    let mut solver = TargetSolver::new(layout.node_count());
    let ghost s0 = solver;
    proof {
        lemma_tgrows_refl(s0);
        assert forall|m2: int, f2: int| !precedes(p, m2, f2, 0, 0) by {}
        lemma_tchain(s0, s0, s0, t_none(), t_no_function(), t_none(), t_no_edge(), t_none(), t_no_function(), t_none(), t_no_edge(),
            known_upto(p, l, 0, 0, 0), exact_upto(p, 0, 0), unknown_upto(p, l, 0, 0, 0), edges_upto(p, l, 0, 0, 0));
    }
    let mut m: usize = 0;
    while m < program.modules.len()
        invariant
            program.wf(),
            layout.describes(*program),
            p == *program,
            l == *linkage,
            s0.spec_states().len() == target_node_count(p),
            m <= p.modules@.len(),
            tgrows(s0, solver, known_upto(p, l, m as int, m as int, 0), exact_upto(p, m as int, 0), unknown_upto(p, l, m as int, m as int, 0), edges_upto(p, l, m as int, m as int, 0)),
        decreases p.modules@.len() - m,
    {
        let ghost s1 = solver;
        let ghost mi = m as int;
        add_module_bindings(&mut solver, layout, program, linkage, m);
        proof {
            lemma_upto_bindings_step(p, l, mi, mi, 0);
            lemma_tchain(s0, s1, solver,
                known_upto(p, l, mi, mi, 0), exact_upto(p, mi, 0), unknown_upto(p, l, mi, mi, 0), edges_upto(p, l, mi, mi, 0),
                |x: int| module_binding_unknown(p, l, mi, x), t_no_function(), |x: int| module_binding_unknown(p, l, mi, x), |s: int, t: int| module_import_edge(p, l, mi, s, t),
                known_upto(p, l, mi + 1, mi, 0), exact_upto(p, mi, 0), unknown_upto(p, l, mi + 1, mi, 0), edges_upto(p, l, mi + 1, mi, 0));
        }
        let function_count = program.modules[m].functions.len();
        let mut f: usize = 0;
        while f < function_count
            invariant
                program.wf(),
                layout.describes(*program),
                p == *program,
                l == *linkage,
                mi == m,
                s0.spec_states().len() == target_node_count(p),
                m < p.modules@.len(),
                function_count == p.modules@[mi].functions@.len(),
                f <= function_count,
                tgrows(s0, solver, known_upto(p, l, mi + 1, mi, f as int), exact_upto(p, mi, f as int), unknown_upto(p, l, mi + 1, mi, f as int), edges_upto(p, l, mi + 1, mi, f as int)),
            decreases function_count - f,
        {
            let ghost s2 = solver;
            let ghost fi = f as int;
            add_function(&mut solver, layout, program, m, f);
            proof {
                lemma_upto_function_step(p, l, mi + 1, mi, fi);
                lemma_tchain(s0, s2, solver,
                    known_upto(p, l, mi + 1, mi, fi), exact_upto(p, mi, fi), unknown_upto(p, l, mi + 1, mi, fi), edges_upto(p, l, mi + 1, mi, fi),
                    |x: int| function_unknown(p, mi, fi, x) || exists|g: ProgramFunctionId| #[trigger] function_exact(p, mi, fi, x, g),
                    |x: int, g: ProgramFunctionId| function_exact(p, mi, fi, x, g),
                    |x: int| function_unknown(p, mi, fi, x),
                    |s: int, t: int| function_edge(p, mi, fi, s, t),
                    known_upto(p, l, mi + 1, mi, fi + 1), exact_upto(p, mi, fi + 1), unknown_upto(p, l, mi + 1, mi, fi + 1), edges_upto(p, l, mi + 1, mi, fi + 1));
            }
            f = f + 1;
        }
        proof {
            lemma_upto_next_module(p, l, mi + 1, mi);
            lemma_tgrows_refl(solver);
            lemma_tchain(s0, solver, solver,
                known_upto(p, l, mi + 1, mi, f as int), exact_upto(p, mi, f as int), unknown_upto(p, l, mi + 1, mi, f as int), edges_upto(p, l, mi + 1, mi, f as int),
                t_none(), t_no_function(), t_none(), t_no_edge(),
                known_upto(p, l, mi + 1, mi + 1, 0), exact_upto(p, mi + 1, 0), unknown_upto(p, l, mi + 1, mi + 1, 0), edges_upto(p, l, mi + 1, mi + 1, 0));
        }
        m = m + 1;
    }
    proof {
        let n = p.modules@.len() as int;
        lemma_upto_all(p, l);
        assert forall|x: int|
            #![trigger solver.spec_states()[x]]
            0 <= x < target_node_count(p) implies {
                &&& solver.spec_states()[x].spec_is_known() == (target_unknown(p, l, x) || exists|g: ProgramFunctionId|
                    #[trigger] target_exact(p, x, g))
                &&& forall|g: ProgramFunctionId|
                    #[trigger] solver.spec_states()[x].spec_functions().contains(g) <==> target_exact(p, x, g)
                &&& solver.spec_states()[x].spec_incomplete() == target_unknown(p, l, x)
            } by {
            assert(s0.spec_states()[x].spec_functions() == Set::<ProgramFunctionId>::empty());
            assert(known_upto(p, l, n, n, 0)(x) <==> (target_unknown(p, l, x) || exists|g: ProgramFunctionId| #[trigger] target_exact(p, x, g)));
            assert(unknown_upto(p, l, n, n, 0)(x) <==> target_unknown(p, l, x));
            assert forall|g: ProgramFunctionId|
                #[trigger] solver.spec_states()[x].spec_functions().contains(g) <==> target_exact(p, x, g) by {
                assert(exact_upto(p, n, 0)(x, g) <==> target_exact(p, x, g));
            }
        }
        assert forall|s: int, t: int| #[trigger] list_step(solver.spec_dependents())(s, t) <==> target_edges(p, l)(s, t) by {
            assert(edges_upto(p, l, n, n, 0)(s, t) <==> target_edges(p, l)(s, t));
            if list_step(s0.spec_dependents())(s, t) {
                let k = choose|k: int| #![trigger s0.spec_dependents()[s]@[k]] 0 <= k < s0.spec_dependents()[s]@.len() && s0.spec_dependents()[s]@[k] as int == t;
            }
        }
    }
    solver
}


/// Whether the state that node `n` starts with reaches node `x`.
pub open spec fn flows_to(program: ProgramIr, linkage: ProgramLinkage, n: int, x: int) -> bool {
    0 <= n < target_node_count(program) && reaches(target_edges(program, linkage), n, x)
}

/// Whether node `x` may hold function `g`: some node that starts out holding
/// `g` reaches it.
pub open spec fn may_hold(program: ProgramIr, linkage: ProgramLinkage, x: int, g: ProgramFunctionId) -> bool {
    exists|n: int| #![trigger flows_to(program, linkage, n, x)] flows_to(program, linkage, n, x) && target_exact(program, n, g)
}

/// Whether node `x` may hold a function the analysis does not know: some
/// node that starts out unknown reaches it.
pub open spec fn may_hold_unknown(program: ProgramIr, linkage: ProgramLinkage, x: int) -> bool {
    exists|n: int| #![trigger flows_to(program, linkage, n, x)] flows_to(program, linkage, n, x) && target_unknown(program, linkage, n)
}

/// Whether anything reaches node `x`.
pub open spec fn is_reached(program: ProgramIr, linkage: ProgramLinkage, x: int) -> bool {
    exists|n: int|
        #![trigger flows_to(program, linkage, n, x)]
        flows_to(program, linkage, n, x) && (target_unknown(program, linkage, n) || exists|g: ProgramFunctionId| #[trigger] target_exact(program, n, g))
}

/// The set of functions node `x` may hold.
pub open spec fn held_functions(program: ProgramIr, linkage: ProgramLinkage, x: int) -> Set<ProgramFunctionId> {
    Set::new(|g: ProgramFunctionId| may_hold(program, linkage, x, g))
}

/// Fixed-point function-target facts for every binding and value of a linked program.
pub struct ProgramFunctionTargets {
    layout: TargetLayout,
    states: Vec<TargetState>,
    program: Ghost<ProgramIr>,
    linkage: Ghost<ProgramLinkage>,
}

impl ProgramFunctionTargets {
    /// The program the facts are about.
    pub closed spec fn spec_program(&self) -> ProgramIr {
        self.program@
    }

    /// The linkage the facts are about.
    pub closed spec fn spec_linkage(&self) -> ProgramLinkage {
        self.linkage@
    }

    /// The state of every node is what reaches it.
    pub closed spec fn wf(&self) -> bool {
        let p = self.program@;
        let l = self.linkage@;
        &&& p.wf()
        &&& self.layout.describes(p)
        &&& self.states@.len() == target_node_count(p)
        &&& forall|x: int|
            #![trigger self.states@[x]]
            0 <= x < self.states@.len() ==> {
                &&& self.states@[x].spec_is_known() == is_reached(p, l, x)
                &&& self.states@[x].spec_functions() == held_functions(p, l, x)
                &&& self.states@[x].spec_incomplete() == may_hold_unknown(p, l, x)
            }
    }

    /// Solves the function-target problem of `program` under `linkage`.
    pub fn analyze(program: &ProgramIr, linkage: &ProgramLinkage) -> (targets: Self)
        requires
            program.wf(),
            target_node_count(*program) <= usize::MAX,
        ensures
            targets.wf(),
            targets.spec_program() == *program,
            targets.spec_linkage() == *linkage,
    {
        let ghost p = *program;
        let ghost l = *linkage;
        let layout = TargetLayout::new(program);
        let solver = target_problem(program, linkage, &layout);
        let ghost init = solver.spec_states();
        let ghost lists = solver.spec_dependents();
        let states = solver.solve();
        proof {
            assert(list_step(lists) =~= target_edges(p, l));
            assert forall|x: int|
                #![trigger states@[x]]
                0 <= x < states@.len() implies {
                    &&& states@[x].spec_is_known() == is_reached(p, l, x)
                    &&& states@[x].spec_functions() == held_functions(p, l, x)
                    &&& states@[x].spec_incomplete() == may_hold_unknown(p, l, x)
                } by {
                assert(is_reaching_state(states@[x], lists, init, x));
                if reaching_known_state(lists, init, x) {
                    let n = choose|n: int| #![trigger init[n]] 0 <= n < init.len() && reaches(list_step(lists), n, x) && init[n].spec_is_known();
                    assert(flows_to(p, l, n, x));
                }
                if is_reached(p, l, x) {
                    let n = choose|n: int|
                        #![trigger flows_to(p, l, n, x)]
                        flows_to(p, l, n, x) && (target_unknown(p, l, n) || exists|g: ProgramFunctionId| #[trigger] target_exact(p, n, g));
                    assert(init[n].spec_is_known());
                }
                if reaching_incomplete(lists, init, x) {
                    let n = choose|n: int| #![trigger init[n]] 0 <= n < init.len() && reaches(list_step(lists), n, x) && init[n].spec_incomplete();
                    assert(flows_to(p, l, n, x));
                }
                if may_hold_unknown(p, l, x) {
                    let n = choose|n: int| #![trigger flows_to(p, l, n, x)] flows_to(p, l, n, x) && target_unknown(p, l, n);
                    assert(init[n].spec_incomplete());
                }
                assert forall|g: ProgramFunctionId| #[trigger] reaching_functions(lists, init, x).contains(g) <==> held_functions(p, l, x).contains(g) by {
                    if reaching_functions(lists, init, x).contains(g) {
                        let n = choose|n: int| #![trigger init[n]] 0 <= n < init.len() && reaches(list_step(lists), n, x) && init[n].spec_functions().contains(g);
                        assert(flows_to(p, l, n, x));
                    }
                    if held_functions(p, l, x).contains(g) {
                        let n = choose|n: int| #![trigger flows_to(p, l, n, x)] flows_to(p, l, n, x) && target_exact(p, n, g);
                        assert(init[n].spec_functions().contains(g));
                    }
                }
                assert(states@[x].spec_functions() =~= held_functions(p, l, x));
            }
        }
        ProgramFunctionTargets { layout, states, program: Ghost(p), linkage: Ghost(l) }
    }

    /// The functions value `value` of function `function` may hold, in
    /// stable order, and whether it may hold others.
    pub fn target_set(&self, function: ProgramFunctionId, value: usize) -> (set: CallTargetSet)
        requires
            self.wf(),
            function.module < self.spec_program().modules@.len(),
            function.function < self.spec_program().modules@[function.module as int].functions@.len(),
            value < self.spec_program().modules@[function.module as int].functions@[function.function as int].value_count,
        ensures
            sorted_functions(set.spec_functions()),
            set.spec_functions().to_set() == held_functions(
                self.spec_program(),
                self.spec_linkage(),
                value_node(self.spec_program(), function.module as int, function.function as int, value as int),
            ),
            set.spec_completeness() == (if is_reached(
                self.spec_program(),
                self.spec_linkage(),
                value_node(self.spec_program(), function.module as int, function.function as int, value as int),
            ) && !may_hold_unknown(
                self.spec_program(),
                self.spec_linkage(),
                value_node(self.spec_program(), function.module as int, function.function as int, value as int),
            ) {
                CallTargetCompleteness::Complete
            } else {
                CallTargetCompleteness::Incomplete
            }),
    {
        let node = self.layout.value_node(function.module as usize, function.function as usize, value, Ghost(self.program@));
        proof {
            lemma_nodes_in_range(self.program@);
            assert(value_node(self.program@, function.module as int, function.function as int, value as int) < target_node_count(self.program@));
            assert(self.states@[node as int].spec_functions() == held_functions(self.program@, self.linkage@, node as int));
        }
        self.states[node].as_target_set()
    }

    /// The functions binding `binding` may hold, in stable order.
    pub fn binding_targets(&self, binding: ProgramBindingId) -> (functions: Vec<ProgramFunctionId>)
        requires
            self.wf(),
            binding.module < self.spec_program().modules@.len(),
            binding.binding < self.spec_program().modules@[binding.module as int].bindings@.len(),
        ensures
            sorted_functions(functions@),
            functions@.to_set() == held_functions(
                self.spec_program(),
                self.spec_linkage(),
                binding_node(self.spec_program(), binding.module as int, binding.binding as int),
            ),
    {
        let node = self.layout.binding_node(binding.module as usize, binding.binding as usize, Ghost(self.program@));
        proof {
            lemma_nodes_in_range(self.program@);
            lemma_values_before_mono(self.program@.modules@, 0, self.program@.modules@.len() as int);
            assert(binding_node(self.program@, binding.module as int, binding.binding as int) < bindings_before(self.program@.modules@, self.program@.modules@.len() as int));
            assert(self.states@[node as int].spec_functions() == held_functions(self.program@, self.linkage@, node as int));
        }
        let set = self.states[node].as_target_set();
        let known = set.functions();
        let mut functions: Vec<ProgramFunctionId> = Vec::new();
        let mut k: usize = 0;
        while k < known.len()
            invariant
                k <= known@.len(),
                functions@ == known@.take(k as int),
            decreases known@.len() - k,
        {
            functions.push(known[k]);
            k = k + 1;
            assert(functions@ =~= known@.take(k as int));
        }
        assert(functions@ =~= known@);
        functions
    }
}

} // verus!
