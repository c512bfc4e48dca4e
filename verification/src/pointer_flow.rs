//! How the boundary, operations, block parameters and regions of one
//! function make up its pointer problem.
//!
//! The problem has a node for each value of the function, numbered as the
//! values are, followed by a node for each binding of the module: binding `b`
//! is node `value_count + b`. A copy edge carries facts from its source to its
//! target; escaping the target of a copy makes its source escape, and escaping
//! a container makes what it contains escape.

use vstd::prelude::*;

use crate::escape_flow::carries_captures;
use crate::escape_flow::captured_by_operation;
use crate::escape_flow::function_forwards;
use crate::escape_flow::exports_binding;
use crate::escape_flow::forwards;
use crate::escape_flow::lemma_claim_containers;
use crate::escape_flow::op_forwards;
use crate::escape_flow::is_exported;
use crate::escape_flow::is_local_binding;
use crate::escape_flow::is_local_binding_node;
use crate::escape_flow::is_local_identity;
use crate::escape_flow::names_operand;
use crate::escape_flow::region_values_escape;
use crate::escape_flow::stored_binding;
use crate::escape_flow::yields;
use crate::flow::captured_bindings;
use crate::flow::captured_through;
use crate::flow::claims_ready;
use crate::flow::function_claims;
use crate::flow::region_roles;
use crate::flow::roles_match;
use crate::flow::has_static_initialization;
use crate::flow::is_direct_eval_call;
use crate::flow::is_direct_eval;
use crate::flow::role_in;
use crate::flow::runs_static_initialization;
use crate::flow::RegionRole;
use crate::ir::BindingKind;
use crate::ir::FunctionIr;
use crate::ir::ModuleIr;
use crate::ir::Operation;
use crate::ir::OperationKind;
use crate::ir::RegionOwner;
use crate::pointer_solver::list_step;
use crate::pointer_solver::PointerSolver;
use crate::points_to::AbstractObject;
use crate::points_to::AbstractObjectId;
use crate::points_to::AbstractObjectKind;
use crate::points_to::PointsToSet;

verus! {

/// Whether an operation of this kind loads `import.meta`.
pub open spec fn loads_import_meta(kind: OperationKind) -> bool {
    kind matches OperationKind::MetaProperty { import_meta } && import_meta
}

/// The objects that the first `j` operations allocate, in order, and the
/// positions of the `arguments` and `import.meta` objects once allocated:
/// each allocating operation allocates one object, and the first load of
/// `arguments` or `import.meta` allocates the shared one.
pub open spec fn object_plan(ops: Seq<Operation>, j: int) -> (Seq<AbstractObjectKind>, Option<nat>, Option<nat>)
    decreases j,
{
    if j <= 0 {
        (Seq::empty(), None, None)
    } else {
        let before = object_plan(ops, j - 1);
        let kind = ops[j - 1].kind;
        if is_local_identity(kind) {
            (before.0.push(AbstractObjectKind::Allocation((j - 1) as u32)), before.1, before.2)
        } else if kind is LoadArguments && before.1 is None {
            (before.0.push(AbstractObjectKind::ArgumentsObject), Some(before.0.len()), before.2)
        } else if loads_import_meta(kind) && before.2 is None {
            (before.0.push(AbstractObjectKind::ImportMeta), before.1, Some(before.0.len()))
        } else {
            before
        }
    }
}

/// Whether operation `op` points its result at an abstract object.
pub open spec fn points_at_object(op: Operation) -> bool {
    is_local_identity(op.kind) || op.kind is LoadArguments || loads_import_meta(op.kind)
}

/// The object operation `j` points its result at.
pub open spec fn op_object(ops: Seq<Operation>, j: int) -> nat {
    if is_local_identity(ops[j].kind) {
        object_plan(ops, j).0.len()
    } else if ops[j].kind is LoadArguments {
        object_plan(ops, j + 1).1->0
    } else {
        object_plan(ops, j + 1).2->0
    }
}

/// Whether the results of an operation of this kind are primitive.
pub open spec fn yields_primitive(kind: OperationKind) -> bool {
    kind is Constant || kind is TemplateLiteral || kind is HasPrivateName || kind is IsNullish || kind is Typeof
        || kind is Delete || kind is Unary || kind is Update || kind is Binary
}

/// Whether the results of an operation of this kind may be any value.
pub open spec fn yields_unknown(kind: OperationKind) -> bool {
    ||| kind is LoadThis || kind is LoadGlobal || kind is LoadProperty || kind is LoadSuperProperty
    ||| kind is Await || kind is Yield || kind is Call || kind is TaggedTemplate || kind is JsxElement
        || kind is JsxFragment
    ||| kind is MetaProperty && !loads_import_meta(kind)
}

/// Whether the results of an operation of this kind are objects the analysis does not model.
pub open spec fn yields_unknown_object(kind: OperationKind) -> bool {
    kind is Construct || kind is SuperCall
}

/// Whether an operation of this kind writes unknown values into the bindings it references.
pub open spec fn writes_unknown_bindings(kind: OperationKind) -> bool {
    kind is DestructureBinding || kind is DestructureAssignment || kind is For || kind is ForIn || kind is ForOf
}

/// Whether `op` has `x` among its results.
pub open spec fn names_result(op: Operation, x: int) -> bool {
    exists|k: int| #![trigger op.results@[k]] 0 <= k < op.results@.len() && op.results@[k] as int == x
}

/// Whether `op` references the binding whose node is `x`.
pub open spec fn names_binding_node(op: Operation, values: int, x: int) -> bool {
    exists|k: int|
        #![trigger op.referenced_bindings@[k]]
        0 <= k < op.referenced_bindings@.len() && values + op.referenced_bindings@[k] == x
}

/// Whether operation `op` may give node `x` an object the analysis does not model.
pub open spec fn op_unknown_object(op: Operation, values: int, x: int) -> bool {
    ||| (yields_unknown(op.kind) || yields_unknown_object(op.kind)) && names_result(op, x)
    ||| writes_unknown_bindings(op.kind) && names_binding_node(op, values, x)
}

/// Whether operation `op` may give node `x` a primitive value.
pub open spec fn op_primitive(op: Operation, values: int, x: int) -> bool {
    ||| (yields_unknown(op.kind) || yields_primitive(op.kind)) && names_result(op, x)
    ||| writes_unknown_bindings(op.kind) && names_binding_node(op, values, x)
}

/// Whether operation `j` gives node `x` the known object `i`.
pub open spec fn op_known(ops: Seq<Operation>, j: int, x: int, i: nat) -> bool {
    points_at_object(ops[j]) && x == ops[j].results@[0] as int && i == op_object(ops, j)
}

/// Whether binding `b` may hold any value when function `function` starts:
/// it belongs to another function, or is an import, a parameter or a caught exception.
pub open spec fn binding_is_opaque(module: ModuleIr, function: int, b: int) -> bool {
    module.bindings@[b].declaring_function as int != function || module.bindings@[b].kind == BindingKind::Import
        || module.bindings@[b].kind == BindingKind::Parameter || module.bindings@[b].kind == BindingKind::Catch
}

/// Whether node `x` may hold any value when function `function` starts: a
/// parameter value, a block parameter that control flow produces, or an
/// opaque binding.
pub open spec fn boundary_unknown(module: ModuleIr, function: int, x: int) -> bool {
    let body = module.functions@[function];
    let values = body.value_count as int;
    ||| exists|p: int| #![trigger body.parameters@[p]] 0 <= p < body.parameters@.len() && body.parameters@[p] as int == x
    ||| exists|r: int, k: int|
        #![trigger body.regions@[r].produced_parameters@[k]]
        0 <= r < body.regions@.len() && 0 <= k < body.regions@[r].produced_parameters@.len()
            && body.regions@[r].produced_parameters@[k] as int == x
    ||| values <= x < values + module.bindings@.len() && binding_is_opaque(module, function, x - values)
}

/// Whether node `x` is the binding through which function `function` refers to itself.
pub open spec fn boundary_self(module: ModuleIr, function: int, x: int) -> bool {
    let body = module.functions@[function];
    body.self_binding matches Some(b) && x == body.value_count + b
}

/// Whether node `x` may initially hold an object the analysis does not model.
pub open spec fn initial_unknown_object(module: ModuleIr, function: int, x: int) -> bool {
    let body = module.functions@[function];
    ||| boundary_unknown(module, function, x)
    ||| boundary_self(module, function, x)
    ||| exists|j: int|
        #![trigger body.operations@[j]]
        0 <= j < body.operations@.len() && op_unknown_object(body.operations@[j], body.value_count as int, x)
}

/// Whether node `x` may initially hold a primitive value.
pub open spec fn initial_primitive(module: ModuleIr, function: int, x: int) -> bool {
    let body = module.functions@[function];
    ||| boundary_unknown(module, function, x)
    ||| exists|j: int|
        #![trigger body.operations@[j]]
        0 <= j < body.operations@.len() && op_primitive(body.operations@[j], body.value_count as int, x)
}

/// The known objects node `x` initially holds.
pub open spec fn initial_known(module: ModuleIr, function: int, x: int) -> Set<nat> {
    let ops = module.functions@[function].operations@;
    Set::new(|i: nat| exists|j: int| #![trigger ops[j]] 0 <= j < ops.len() && op_known(ops, j, x, i))
}

/// Whether operation `op` copies the facts of node `s` into node `t`.
pub open spec fn op_copy(op: Operation, values: int, s: int, t: int) -> bool {
    ||| (op.kind matches OperationKind::LoadBinding { binding } && s == values + binding && t == op.results@[0] as int)
    ||| (stored_binding(op.kind) matches Some(b) && s == op.operands@[0] as int && t == values + b)
    ||| (op.kind matches OperationKind::CreateClass { self_binding: Some(b), .. } && s == op.results@[0] as int && t
        == values + b)
}

/// Whether operation `op` of function `function` makes container node `a` hold node `c`.
pub open spec fn op_contain(module: ModuleIr, function: int, op: Operation, a: int, c: int) -> bool {
    let values = module.functions@[function].value_count as int;
    ||| op.kind is LoadArguments && a == op.results@[0] as int && values <= c && is_local_binding(
        module,
        function,
        c - values,
    ) && module.bindings@[c - values].kind == BindingKind::Parameter
    ||| carries_captures(op.kind) && !op.invoked && op.results@.len() > 0 && a == op.results@[0] as int && values <= c
        && captured_by_operation(module, function, op, c - values)
}

/// The region claims of the operations of `function`, reading invoked
/// operations as owning only escaping regions.
pub open spec fn pointer_claims(function: FunctionIr) -> Seq<(usize, RegionRole)> {
    function_claims(function.operations@, false)
}

/// Whether region `r` of `function` stores its yielded value `c` in container `a`.
pub open spec fn region_contains(function: FunctionIr, r: int, a: int, c: int) -> bool {
    &&& function.regions@[r].owner is Operation
    &&& role_in(pointer_claims(function), r) matches Some(RegionRole::ContainedBy(container))
    &&& container as int == a
    &&& yields(function.regions@[r], c)
}

/// Whether region `r` of `function` seeds its yielded value `x`.
pub open spec fn region_seeds(function: FunctionIr, r: int, x: int) -> bool {
    region_values_escape(function.regions@[r].owner, role_in(pointer_claims(function), r)) && yields(
        function.regions@[r],
        x,
    )
}

/// Every copy edge of function `function`.
pub open spec fn pointer_copies(module: ModuleIr, function: int) -> spec_fn(int, int) -> bool {
    let body = module.functions@[function];
    |s: int, t: int|
        function_forwards(body, t, s) || exists|j: int|
            #![trigger body.operations@[j]]
            0 <= j < body.operations@.len() && op_copy(body.operations@[j], body.value_count as int, s, t)
}

/// Every containment of function `function`.
pub open spec fn pointer_contains(module: ModuleIr, function: int) -> spec_fn(int, int) -> bool {
    let body = module.functions@[function];
    |a: int, c: int|
        (exists|j: int|
            #![trigger body.operations@[j]]
            0 <= j < body.operations@.len() && op_contain(module, function, body.operations@[j], a, c)) || exists|r: int|
            #![trigger body.regions@[r]]
            0 <= r < body.regions@.len() && region_contains(body, r, a, c)
}

/// Whether node `y` escapes whenever node `x` does: `x` is the target of a
/// copy from `y`, or contains it.
pub open spec fn pointer_escape_edges(module: ModuleIr, function: int) -> spec_fn(int, int) -> bool {
    |x: int, y: int| pointer_copies(module, function)(y, x) || pointer_contains(module, function)(x, y)
}

/// Whether an operation of this kind may retain its operands beyond the activation.
pub open spec fn pointer_retains_operands(kind: OperationKind) -> bool {
    match kind {
        OperationKind::DestructureBinding | OperationKind::DestructureAssignment | OperationKind::StoreGlobal
        | OperationKind::LoadSuperProperty | OperationKind::StoreSuperProperty | OperationKind::LoadProperty
        | OperationKind::StoreProperty | OperationKind::Update | OperationKind::Call { .. } | OperationKind::SuperCall
        | OperationKind::Construct | OperationKind::TaggedTemplate { .. } | OperationKind::TemplateLiteral
        | OperationKind::JsxElement | OperationKind::JsxFragment | OperationKind::ForIn | OperationKind::ForOf
        | OperationKind::Return | OperationKind::Throw | OperationKind::EnterFinally | OperationKind::DynamicImport { .. } => true,
        OperationKind::Delete { property } => property,
        OperationKind::Unary(operator) => !(operator is LogicalNot || operator is Void),
        OperationKind::Binary(operator) => !(operator is StrictEqual || operator is StrictNotEqual),
        _ => false,
    }
}

/// Whether operation `op` of function `function` seeds node `x` as escaping.
pub open spec fn pointer_op_seed(module: ModuleIr, function: int, op: Operation, x: int) -> bool {
    let values = module.functions@[function].value_count as int;
    ||| pointer_retains_operands(op.kind) && names_operand(op, x)
    ||| (op.kind is DynamicImport || loads_import_meta(op.kind)) && x == op.results@[0] as int
    ||| (op.kind matches OperationKind::CreateClass { elements, .. } && runs_static_initialization(elements@) && x
        == op.results@[0] as int)
    ||| (op.kind is Await || op.kind is Yield) && ((0 <= x < values) || is_local_binding_node(module, function, x))
    ||| (op.kind is Debugger || is_direct_eval(module, module.functions@[function], op)) && is_local_binding_node(
        module,
        function,
        x,
    )
    ||| (stored_binding(op.kind) matches Some(b) && x == values + b && (!is_local_binding(module, function, b as int)
        || is_exported(module, b as int)))
}

/// Whether function `function` seeds node `x` as escaping.
pub open spec fn pointer_seed(module: ModuleIr, function: int, x: int) -> bool {
    let body = module.functions@[function];
    ||| exists|j: int|
        #![trigger body.operations@[j]]
        0 <= j < body.operations@.len() && pointer_op_seed(module, function, body.operations@[j], x)
    ||| exists|r: int| #![trigger body.regions@[r]] 0 <= r < body.regions@.len() && region_seeds(body, r, x)
}

/// Whether `op` has the results and operands that its kind reads.
pub open spec fn pointer_ready(op: Operation) -> bool {
    &&& (points_at_object(op) || op.kind is LoadBinding) ==> op.results@.len() == 1
    &&& stored_binding(op.kind) is Some ==> op.operands@.len() > 0
}

/// Whether the pointer analysis of function `function` can run: its problem
/// fits in memory, its operations can be numbered by `u32`, each has the
/// results and operands its kind reads, and no region is claimed twice.
pub open spec fn pointer_analyzable(module: ModuleIr, function: int) -> bool {
    let body = module.functions@[function];
    &&& body.value_count + module.bindings@.len() <= usize::MAX
    &&& body.operations@.len() <= u32::MAX + 1
    &&& function <= u32::MAX
    &&& forall|j: int| #![trigger body.operations@[j]] 0 <= j < body.operations@.len() ==> pointer_ready(body.operations@[j])
    &&& crate::flow::distinct_regions(pointer_claims(body))
}

/// The solver's objects are those `plan` lists, with its `arguments` and
/// `import.meta` objects where `plan` puts them.
pub open spec fn objects_follow(solver: PointerSolver, plan: (Seq<AbstractObjectKind>, Option<nat>, Option<nat>)) -> bool {
    &&& solver.spec_objects().len() == plan.0.len()
    &&& forall|k: int|
        #![trigger solver.spec_objects()[k]]
        0 <= k < plan.0.len() ==> solver.spec_objects()[k].spec_kind() == plan.0[k]
    &&& match plan.1 {
        Some(i) => solver.spec_arguments_object() matches Some(id) && id.spec_index() == i && id.spec_owner()
            == solver.spec_owner(),
        None => solver.spec_arguments_object() is None,
    }
    &&& match plan.2 {
        Some(i) => solver.spec_import_meta_object() matches Some(id) && id.spec_index() == i && id.spec_owner()
            == solver.spec_owner(),
        None => solver.spec_import_meta_object() is None,
    }
}

/// `new` is `old` with the facts, copies, containments and seeds the
/// predicates give added.
pub open spec fn grows_core(
    old: PointerSolver,
    new: PointerSolver,
    known: spec_fn(int, nat) -> bool,
    unknown_object: spec_fn(int) -> bool,
    primitive: spec_fn(int) -> bool,
    copy: spec_fn(int, int) -> bool,
    contain: spec_fn(int, int) -> bool,
    seed: spec_fn(int) -> bool,
) -> bool {
    &&& new.wf()
    &&& new.spec_owner() == old.spec_owner()
    &&& new.spec_node_count() == old.spec_node_count()
    &&& new.spec_facts().len() == old.spec_facts().len()
    &&& forall|x: int|
        #![trigger new.spec_facts()[x]]
        0 <= x < old.spec_node_count() ==> {
            &&& forall|i: nat|
                #![trigger new.spec_facts()[x].known().contains(i)]
                new.spec_facts()[x].known().contains(i) <==> (old.spec_facts()[x].known().contains(i) || known(x, i))
            &&& new.spec_facts()[x].spec_unknown_object() == (old.spec_facts()[x].spec_unknown_object()
                || unknown_object(x))
            &&& new.spec_facts()[x].spec_primitive() == (old.spec_facts()[x].spec_primitive() || primitive(x))
        }
    &&& forall|s: int, t: int|
        #![trigger list_step(new.spec_copy_edges())(s, t)]
        list_step(new.spec_copy_edges())(s, t) <==> (list_step(old.spec_copy_edges())(s, t) || copy(s, t))
    &&& forall|x: int, y: int|
        #![trigger list_step(new.spec_escape_dependencies())(x, y)]
        list_step(new.spec_escape_dependencies())(x, y) <==> (list_step(old.spec_escape_dependencies())(x, y)
            || copy(y, x) || contain(x, y))
    &&& forall|x: int| #![trigger new.spec_seeds().contains(x)] new.spec_seeds().contains(x) <==> (old.spec_seeds().contains(x) || seed(x))
}

/// `new` is `old` with the facts, copies, containments and seeds the
/// predicates give added, and the same objects.
pub open spec fn grows(
    old: PointerSolver,
    new: PointerSolver,
    known: spec_fn(int, nat) -> bool,
    unknown_object: spec_fn(int) -> bool,
    primitive: spec_fn(int) -> bool,
    copy: spec_fn(int, int) -> bool,
    contain: spec_fn(int, int) -> bool,
    seed: spec_fn(int) -> bool,
) -> bool {
    &&& grows_core(old, new, known, unknown_object, primitive, copy, contain, seed)
    &&& new.spec_objects() == old.spec_objects()
    &&& new.spec_arguments_object() == old.spec_arguments_object()
    &&& new.spec_import_meta_object() == old.spec_import_meta_object()
}

/// Nothing added.
pub open spec fn no_known() -> spec_fn(int, nat) -> bool {
    |x: int, i: nat| false
}

/// No node.
pub open spec fn no_node() -> spec_fn(int) -> bool {
    |x: int| false
}

/// No pair of nodes.
pub open spec fn no_pair() -> spec_fn(int, int) -> bool {
    |x: int, y: int| false
}

proof fn lemma_grows_refl(s: PointerSolver)
    requires
        s.wf(),
    ensures
        grows(s, s, no_known(), no_node(), no_node(), no_pair(), no_pair(), no_node()),
{
    s.lemma_wf();
}

proof fn lemma_grows_trans(
    a: PointerSolver,
    b: PointerSolver,
    c: PointerSolver,
    k1: spec_fn(int, nat) -> bool,
    u1: spec_fn(int) -> bool,
    p1: spec_fn(int) -> bool,
    c1: spec_fn(int, int) -> bool,
    h1: spec_fn(int, int) -> bool,
    s1: spec_fn(int) -> bool,
    k2: spec_fn(int, nat) -> bool,
    u2: spec_fn(int) -> bool,
    p2: spec_fn(int) -> bool,
    c2: spec_fn(int, int) -> bool,
    h2: spec_fn(int, int) -> bool,
    s2: spec_fn(int) -> bool,
)
    requires
        grows(a, b, k1, u1, p1, c1, h1, s1),
        grows(b, c, k2, u2, p2, c2, h2, s2),
    ensures
        grows(
            a,
            c,
            |x: int, i: nat| k1(x, i) || k2(x, i),
            |x: int| u1(x) || u2(x),
            |x: int| p1(x) || p2(x),
            |x: int, y: int| c1(x, y) || c2(x, y),
            |x: int, y: int| h1(x, y) || h2(x, y),
            |x: int| s1(x) || s2(x),
        ),
{
}

proof fn lemma_grows_equiv(
    a: PointerSolver,
    c: PointerSolver,
    k1: spec_fn(int, nat) -> bool,
    u1: spec_fn(int) -> bool,
    p1: spec_fn(int) -> bool,
    c1: spec_fn(int, int) -> bool,
    h1: spec_fn(int, int) -> bool,
    s1: spec_fn(int) -> bool,
    k2: spec_fn(int, nat) -> bool,
    u2: spec_fn(int) -> bool,
    p2: spec_fn(int) -> bool,
    c2: spec_fn(int, int) -> bool,
    h2: spec_fn(int, int) -> bool,
    s2: spec_fn(int) -> bool,
)
    requires
        grows(a, c, k1, u1, p1, c1, h1, s1),
        forall|x: int, i: nat| 0 <= x < a.spec_node_count() ==> (#[trigger] k1(x, i) <==> #[trigger] k2(x, i)),
        forall|x: int| 0 <= x < a.spec_node_count() ==> (#[trigger] u1(x) <==> #[trigger] u2(x)),
        forall|x: int| 0 <= x < a.spec_node_count() ==> (#[trigger] p1(x) <==> #[trigger] p2(x)),
        forall|x: int, y: int| #[trigger] c1(x, y) <==> #[trigger] c2(x, y),
        forall|x: int, y: int| #[trigger] h1(x, y) <==> #[trigger] h2(x, y),
        forall|x: int| #[trigger] s1(x) <==> #[trigger] s2(x),
    ensures
        grows(a, c, k2, u2, p2, c2, h2, s2),
{
}

/// Joins `fact` into the fact of node `x`.
fn join_fact(solver: &mut PointerSolver, x: usize, fact: crate::points_to::PointsToSet)
    requires
        old(solver).wf(),
        x < old(solver).spec_node_count(),
        fact.spec_owner() == old(solver).spec_owner(),
        forall|i: nat| #[trigger] fact.known().contains(i) ==> i < old(solver).spec_objects().len(),
    ensures
        grows(
            *old(solver),
            *final(solver),
            |y: int, i: nat| y == x && fact.known().contains(i),
            |y: int| y == x && fact.spec_unknown_object(),
            |y: int| y == x && fact.spec_primitive(),
            no_pair(),
            no_pair(),
            no_node(),
        ),
{
    let ghost s0 = *solver;
    proof {
        solver.lemma_wf();
    }
    solver.add_fact(x, fact);
    proof {
        solver.lemma_wf();
    }
}

/// Adds the copy edge from `s` to `t`.
fn copy(solver: &mut PointerSolver, s: usize, t: usize)
    requires
        old(solver).wf(),
        s < old(solver).spec_node_count(),
        t < old(solver).spec_node_count(),
    ensures
        grows(
            *old(solver),
            *final(solver),
            no_known(),
            no_node(),
            no_node(),
            |a: int, b: int| a == s && b == t,
            no_pair(),
            no_node(),
        ),
{
    let ghost s0 = *solver;
    proof {
        solver.lemma_wf();
    }
    solver.add_copy(s, t);
    proof {
        solver.lemma_wf();
        lemma_list_added(s0.spec_copy_edges(), solver.spec_copy_edges(), s, t);
        lemma_list_added(s0.spec_escape_dependencies(), solver.spec_escape_dependencies(), t, s);
    }
}

/// Makes container node `a` hold node `c`.
fn contain(solver: &mut PointerSolver, a: usize, c: usize)
    requires
        old(solver).wf(),
        a < old(solver).spec_node_count(),
        c < old(solver).spec_node_count(),
    ensures
        grows(
            *old(solver),
            *final(solver),
            no_known(),
            no_node(),
            no_node(),
            no_pair(),
            |x: int, y: int| x == a && y == c,
            no_node(),
        ),
{
    let ghost s0 = *solver;
    proof {
        solver.lemma_wf();
    }
    solver.add_containment(a, c);
    proof {
        solver.lemma_wf();
        lemma_list_added(s0.spec_escape_dependencies(), solver.spec_escape_dependencies(), a, c);
    }
}

/// Seeds node `x` as escaping.
fn seed(solver: &mut PointerSolver, x: usize)
    requires
        old(solver).wf(),
        x < old(solver).spec_node_count(),
    ensures
        grows(*old(solver), *final(solver), no_known(), no_node(), no_node(), no_pair(), no_pair(), |y: int| y == x),
{
    let ghost s0 = *solver;
    proof {
        solver.lemma_wf();
    }
    solver.seed_escape(x);
    proof {
        solver.lemma_wf();
    }
}

/// Adding `v` to list `at`, and nothing else, adds exactly the step from `at` to `v`.
proof fn lemma_list_added(d0: Seq<Vec<usize>>, d1: Seq<Vec<usize>>, at: usize, v: usize)
    requires
        d1.len() == d0.len(),
        at < d0.len(),
        forall|x: int| #![trigger d1[x]] 0 <= x < d0.len() && x != at ==> d1[x] == d0[x],
        forall|w: usize| #![trigger d1[at as int]@.contains(w)] d1[at as int]@.contains(w) <==> (d0[at as int]@.contains(w) || w == v),
    ensures
        forall|x: int, y: int|
            #![trigger list_step(d1)(x, y)]
            list_step(d1)(x, y) <==> (list_step(d0)(x, y) || (x == at as int && y == v as int)),
{
    assert forall|x: int, y: int|
        #![trigger list_step(d1)(x, y)]
        list_step(d1)(x, y) <==> (list_step(d0)(x, y) || (x == at as int && y == v as int)) by {
        if 0 <= x < d0.len() && x != at as int {
            assert(d1[x] == d0[x]);
        }
        if x == at as int {
            if list_step(d1)(x, y) {
                let k = choose|k: int| #![trigger d1[x]@[k]] 0 <= k < d1[x]@.len() && d1[x]@[k] as int == y;
                assert(d1[x]@.contains(d1[x]@[k]));
                if d0[x]@.contains(d1[x]@[k]) {
                    let k0 = choose|k0: int| 0 <= k0 < d0[x]@.len() && d0[x]@[k0] == d1[x]@[k];
                    assert(d0[x]@[k0] as int == y);
                }
            }
            if list_step(d0)(x, y) {
                let k = choose|k: int| #![trigger d0[x]@[k]] 0 <= k < d0[x]@.len() && d0[x]@[k] as int == y;
                assert(d0[x]@.contains(d0[x]@[k]));
                assert(d1[x]@.contains(d0[x]@[k]));
                let k1 = choose|k1: int| 0 <= k1 < d1[x]@.len() && d1[x]@[k1] == d0[x]@[k];
                assert(d1[x]@[k1] as int == y);
            }
            if y == v as int {
                assert(d1[x]@.contains(v));
                let k1 = choose|k1: int| 0 <= k1 < d1[x]@.len() && d1[x]@[k1] == v;
                assert(d1[x]@[k1] as int == y);
            }
        }
    }
}

proof fn lemma_chain(
    a: PointerSolver,
    b: PointerSolver,
    c: PointerSolver,
    k1: spec_fn(int, nat) -> bool,
    u1: spec_fn(int) -> bool,
    p1: spec_fn(int) -> bool,
    c1: spec_fn(int, int) -> bool,
    h1: spec_fn(int, int) -> bool,
    s1: spec_fn(int) -> bool,
    k2: spec_fn(int, nat) -> bool,
    u2: spec_fn(int) -> bool,
    p2: spec_fn(int) -> bool,
    c2: spec_fn(int, int) -> bool,
    h2: spec_fn(int, int) -> bool,
    s2: spec_fn(int) -> bool,
    k3: spec_fn(int, nat) -> bool,
    u3: spec_fn(int) -> bool,
    p3: spec_fn(int) -> bool,
    c3: spec_fn(int, int) -> bool,
    h3: spec_fn(int, int) -> bool,
    s3: spec_fn(int) -> bool,
)
    requires
        grows(a, b, k1, u1, p1, c1, h1, s1),
        grows(b, c, k2, u2, p2, c2, h2, s2),
        forall|x: int, i: nat| 0 <= x < a.spec_node_count() ==> (#[trigger] k3(x, i) <==> (k1(x, i) || k2(x, i))),
        forall|x: int| 0 <= x < a.spec_node_count() ==> (#[trigger] u3(x) <==> (u1(x) || u2(x))),
        forall|x: int| 0 <= x < a.spec_node_count() ==> (#[trigger] p3(x) <==> (p1(x) || p2(x))),
        forall|x: int, y: int| #[trigger] c3(x, y) <==> (c1(x, y) || c2(x, y)),
        forall|x: int, y: int| #[trigger] h3(x, y) <==> (h1(x, y) || h2(x, y)),
        forall|x: int| #[trigger] s3(x) <==> (s1(x) || s2(x)),
    ensures
        grows(a, c, k3, u3, p3, c3, h3, s3),
{
}

proof fn lemma_chain_core(
    a: PointerSolver,
    b: PointerSolver,
    c: PointerSolver,
    k1: spec_fn(int, nat) -> bool,
    u1: spec_fn(int) -> bool,
    p1: spec_fn(int) -> bool,
    c1: spec_fn(int, int) -> bool,
    h1: spec_fn(int, int) -> bool,
    s1: spec_fn(int) -> bool,
    k2: spec_fn(int, nat) -> bool,
    u2: spec_fn(int) -> bool,
    p2: spec_fn(int) -> bool,
    c2: spec_fn(int, int) -> bool,
    h2: spec_fn(int, int) -> bool,
    s2: spec_fn(int) -> bool,
    k3: spec_fn(int, nat) -> bool,
    u3: spec_fn(int) -> bool,
    p3: spec_fn(int) -> bool,
    c3: spec_fn(int, int) -> bool,
    h3: spec_fn(int, int) -> bool,
    s3: spec_fn(int) -> bool,
)
    requires
        grows_core(a, b, k1, u1, p1, c1, h1, s1),
        grows_core(b, c, k2, u2, p2, c2, h2, s2),
        forall|x: int, i: nat| 0 <= x < a.spec_node_count() ==> (#[trigger] k3(x, i) <==> (k1(x, i) || k2(x, i))),
        forall|x: int| 0 <= x < a.spec_node_count() ==> (#[trigger] u3(x) <==> (u1(x) || u2(x))),
        forall|x: int| 0 <= x < a.spec_node_count() ==> (#[trigger] p3(x) <==> (p1(x) || p2(x))),
        forall|x: int, y: int| #[trigger] c3(x, y) <==> (c1(x, y) || c2(x, y)),
        forall|x: int, y: int| #[trigger] h3(x, y) <==> (h1(x, y) || h2(x, y)),
        forall|x: int| #[trigger] s3(x) <==> (s1(x) || s2(x)),
    ensures
        grows_core(a, c, k3, u3, p3, c3, h3, s3),
{
}

/// Seeds every value in `values`.
fn seed_values(solver: &mut PointerSolver, values: &Vec<usize>)
    requires
        old(solver).wf(),
        forall|k: int| #![trigger values@[k]] 0 <= k < values@.len() ==> values@[k] < old(solver).spec_node_count(),
    ensures
        grows(
            *old(solver),
            *final(solver),
            no_known(),
            no_node(),
            no_node(),
            no_pair(),
            no_pair(),
            |x: int| exists|k: int| #![trigger values@[k]] 0 <= k < values@.len() && values@[k] as int == x,
        ),
{
    let ghost s0 = *solver;
    proof {
        lemma_grows_refl(s0);
    }
    let mut i: usize = 0;
    while i < values.len()
        invariant
            i <= values@.len(),
            forall|k: int| #![trigger values@[k]] 0 <= k < values@.len() ==> values@[k] < s0.spec_node_count(),
            grows(
                s0,
                *solver,
                no_known(),
                no_node(),
                no_node(),
                no_pair(),
                no_pair(),
                |x: int| exists|k: int| #![trigger values@[k]] 0 <= k < i && values@[k] as int == x,
            ),
        decreases values@.len() - i,
    {
        let ghost s1 = *solver;
        let ghost before = |x: int| exists|k: int| #![trigger values@[k]] 0 <= k < i && values@[k] as int == x;
        let v = values[i];
        seed(solver, v);
        proof {
            lemma_chain(
                s0,
                s1,
                *solver,
                no_known(),
                no_node(),
                no_node(),
                no_pair(),
                no_pair(),
                before,
                no_known(),
                no_node(),
                no_node(),
                no_pair(),
                no_pair(),
                |y: int| y == v,
                no_known(),
                no_node(),
                no_node(),
                no_pair(),
                no_pair(),
                |x: int| exists|k: int| #![trigger values@[k]] 0 <= k < i + 1 && values@[k] as int == x,
            );
        }
        i = i + 1;
    }
}

/// Seeds the node of every binding that function `function` declares.
fn seed_local_bindings(solver: &mut PointerSolver, module: &ModuleIr, function: usize)
    requires
        old(solver).wf(),
        module.wf(),
        function < module.functions@.len(),
        old(solver).spec_node_count() == module.functions@[function as int].value_count + module.bindings@.len(),
    ensures
        grows(
            *old(solver),
            *final(solver),
            no_known(),
            no_node(),
            no_node(),
            no_pair(),
            no_pair(),
            |x: int| is_local_binding_node(*module, function as int, x),
        ),
{
    let ghost s0 = *solver;
    proof {
        lemma_grows_refl(s0);
        s0.lemma_wf();
    }
    let values = module.functions[function].value_count;
    let mut b: usize = 0;
    while b < module.bindings.len()
        invariant
            module.wf(),
            function < module.functions@.len(),
            values == module.functions@[function as int].value_count,
            s0.spec_node_count() == values + module.bindings@.len(),
            s0.spec_node_count() <= usize::MAX,
            b <= module.bindings@.len(),
            grows(
                s0,
                *solver,
                no_known(),
                no_node(),
                no_node(),
                no_pair(),
                no_pair(),
                |x: int| is_local_binding_node(*module, function as int, x) && x < values + b,
            ),
        decreases module.bindings@.len() - b,
    {
        let ghost s1 = *solver;
        if module.bindings[b].declaring_function == function {
            seed(solver, values + b);
            proof {
                lemma_chain(
                    s0,
                    s1,
                    *solver,
                    no_known(),
                    no_node(),
                    no_node(),
                    no_pair(),
                    no_pair(),
                    |x: int| is_local_binding_node(*module, function as int, x) && x < values + b,
                    no_known(),
                    no_node(),
                    no_node(),
                    no_pair(),
                    no_pair(),
                    |y: int| y == values + b,
                    no_known(),
                    no_node(),
                    no_node(),
                    no_pair(),
                    no_pair(),
                    |x: int| is_local_binding_node(*module, function as int, x) && x < values + b + 1,
                );
            }
        } else {
            proof {
                lemma_grows_refl(s1);
                lemma_chain(
                    s0,
                    s1,
                    *solver,
                    no_known(),
                    no_node(),
                    no_node(),
                    no_pair(),
                    no_pair(),
                    |x: int| is_local_binding_node(*module, function as int, x) && x < values + b,
                    no_known(),
                    no_node(),
                    no_node(),
                    no_pair(),
                    no_pair(),
                    no_node(),
                    no_known(),
                    no_node(),
                    no_node(),
                    no_pair(),
                    no_pair(),
                    |x: int| is_local_binding_node(*module, function as int, x) && x < values + b + 1,
                );
            }
        }
        b = b + 1;
    }
    proof {
        lemma_grows_refl(*solver);
        lemma_chain(
            s0,
            *solver,
            *solver,
            no_known(),
            no_node(),
            no_node(),
            no_pair(),
            no_pair(),
            |x: int| is_local_binding_node(*module, function as int, x) && x < values + module.bindings@.len(),
            no_known(),
            no_node(),
            no_node(),
            no_pair(),
            no_pair(),
            no_node(),
            no_known(),
            no_node(),
            no_node(),
            no_pair(),
            no_pair(),
            |x: int| is_local_binding_node(*module, function as int, x),
        );
    }
}

/// Seeds every value and every local binding: a suspended activation keeps them all.
fn seed_activation_state(solver: &mut PointerSolver, module: &ModuleIr, function: usize)
    requires
        old(solver).wf(),
        module.wf(),
        function < module.functions@.len(),
        old(solver).spec_node_count() == module.functions@[function as int].value_count + module.bindings@.len(),
    ensures
        grows(
            *old(solver),
            *final(solver),
            no_known(),
            no_node(),
            no_node(),
            no_pair(),
            no_pair(),
            |x: int| (0 <= x < module.functions@[function as int].value_count) || is_local_binding_node(
                *module,
                function as int,
                x,
            ),
        ),
{
    let ghost s0 = *solver;
    proof {
        lemma_grows_refl(s0);
    }
    let values = module.functions[function].value_count;
    let mut v: usize = 0;
    while v < values
        invariant
            values == module.functions@[function as int].value_count,
            s0.spec_node_count() == values + module.bindings@.len(),
            v <= values,
            grows(s0, *solver, no_known(), no_node(), no_node(), no_pair(), no_pair(), |x: int| 0 <= x < v),
        decreases values - v,
    {
        let ghost s1 = *solver;
        seed(solver, v);
        proof {
            lemma_chain(
                s0,
                s1,
                *solver,
                no_known(),
                no_node(),
                no_node(),
                no_pair(),
                no_pair(),
                |x: int| 0 <= x < v,
                no_known(),
                no_node(),
                no_node(),
                no_pair(),
                no_pair(),
                |y: int| y == v,
                no_known(),
                no_node(),
                no_node(),
                no_pair(),
                no_pair(),
                |x: int| 0 <= x < v + 1,
            );
        }
        v = v + 1;
    }
    let ghost s1 = *solver;
    seed_local_bindings(solver, module, function);
    proof {
        lemma_chain(
            s0,
            s1,
            *solver,
            no_known(),
            no_node(),
            no_node(),
            no_pair(),
            no_pair(),
            |x: int| 0 <= x < values,
            no_known(),
            no_node(),
            no_node(),
            no_pair(),
            no_pair(),
            |x: int| is_local_binding_node(*module, function as int, x),
            no_known(),
            no_node(),
            no_node(),
            no_pair(),
            no_pair(),
            |x: int| (0 <= x < module.functions@[function as int].value_count) || is_local_binding_node(
                *module,
                function as int,
                x,
            ),
        );
    }
}

/// Joins `fact` into the fact of every result in `results`.
fn add_results(solver: &mut PointerSolver, results: &Vec<usize>, fact: &PointsToSet)
    requires
        old(solver).wf(),
        fact.spec_owner() == old(solver).spec_owner(),
        fact.known() == Set::<nat>::empty(),
        forall|k: int| #![trigger results@[k]] 0 <= k < results@.len() ==> results@[k] < old(solver).spec_node_count(),
    ensures
        grows(
            *old(solver),
            *final(solver),
            no_known(),
            |x: int| fact.spec_unknown_object() && exists|k: int|
                #![trigger results@[k]]
                0 <= k < results@.len() && results@[k] as int == x,
            |x: int| fact.spec_primitive() && exists|k: int|
                #![trigger results@[k]]
                0 <= k < results@.len() && results@[k] as int == x,
            no_pair(),
            no_pair(),
            no_node(),
        ),
{
    let ghost s0 = *solver;
    proof {
        lemma_grows_refl(s0);
    }
    let mut i: usize = 0;
    while i < results.len()
        invariant
            i <= results@.len(),
            fact.spec_owner() == s0.spec_owner(),
            fact.known() == Set::<nat>::empty(),
            forall|k: int| #![trigger results@[k]] 0 <= k < results@.len() ==> results@[k] < s0.spec_node_count(),
            grows(
                s0,
                *solver,
                no_known(),
                |x: int| fact.spec_unknown_object() && exists|k: int|
                    #![trigger results@[k]]
                    0 <= k < i && results@[k] as int == x,
                |x: int| fact.spec_primitive() && exists|k: int|
                    #![trigger results@[k]]
                    0 <= k < i && results@[k] as int == x,
                no_pair(),
                no_pair(),
                no_node(),
            ),
        decreases results@.len() - i,
    {
        let ghost s1 = *solver;
        let r = results[i];
        let f = fact.clone();
        join_fact(solver, r, f);
        proof {
            lemma_chain(
                s0,
                s1,
                *solver,
                no_known(),
                |x: int| fact.spec_unknown_object() && exists|k: int|
                    #![trigger results@[k]]
                    0 <= k < i && results@[k] as int == x,
                |x: int| fact.spec_primitive() && exists|k: int|
                    #![trigger results@[k]]
                    0 <= k < i && results@[k] as int == x,
                no_pair(),
                no_pair(),
                no_node(),
                |y: int, j: nat| y == r && f.known().contains(j),
                |y: int| y == r && f.spec_unknown_object(),
                |y: int| y == r && f.spec_primitive(),
                no_pair(),
                no_pair(),
                no_node(),
                no_known(),
                |x: int| fact.spec_unknown_object() && exists|k: int|
                    #![trigger results@[k]]
                    0 <= k < i + 1 && results@[k] as int == x,
                |x: int| fact.spec_primitive() && exists|k: int|
                    #![trigger results@[k]]
                    0 <= k < i + 1 && results@[k] as int == x,
                no_pair(),
                no_pair(),
                no_node(),
            );
        }
        i = i + 1;
    }
}

/// Joins an unknown fact into the node of every binding `op` references.
fn write_unknown_bindings(solver: &mut PointerSolver, op: &Operation, values: usize)
    requires
        old(solver).wf(),
        forall|k: int|
            #![trigger op.referenced_bindings@[k]]
            0 <= k < op.referenced_bindings@.len() ==> values + op.referenced_bindings@[k] < old(solver).spec_node_count(),
    ensures
        grows(
            *old(solver),
            *final(solver),
            no_known(),
            |x: int| names_binding_node(*op, values as int, x),
            |x: int| names_binding_node(*op, values as int, x),
            no_pair(),
            no_pair(),
            no_node(),
        ),
{
    let ghost s0 = *solver;
    proof {
        lemma_grows_refl(s0);
        s0.lemma_wf();
    }
    let owner = solver.owner();
    let mut k: usize = 0;
    while k < op.referenced_bindings.len()
        invariant
            k <= op.referenced_bindings@.len(),
            owner == s0.spec_owner(),
            s0.spec_node_count() <= usize::MAX,
            forall|t: int|
                #![trigger op.referenced_bindings@[t]]
                0 <= t < op.referenced_bindings@.len() ==> values + op.referenced_bindings@[t] < s0.spec_node_count(),
            grows(
                s0,
                *solver,
                no_known(),
                |x: int| exists|t: int| #![trigger op.referenced_bindings@[t]] 0 <= t < k && values + op.referenced_bindings@[t] == x,
                |x: int| exists|t: int| #![trigger op.referenced_bindings@[t]] 0 <= t < k && values + op.referenced_bindings@[t] == x,
                no_pair(),
                no_pair(),
                no_node(),
            ),
        decreases op.referenced_bindings@.len() - k,
    {
        let ghost s1 = *solver;
        let node = values + op.referenced_bindings[k];
        let f = PointsToSet::unknown(owner);
        join_fact(solver, node, f);
        proof {
            lemma_chain(
                s0,
                s1,
                *solver,
                no_known(),
                |x: int| exists|t: int| #![trigger op.referenced_bindings@[t]] 0 <= t < k && values + op.referenced_bindings@[t] == x,
                |x: int| exists|t: int| #![trigger op.referenced_bindings@[t]] 0 <= t < k && values + op.referenced_bindings@[t] == x,
                no_pair(),
                no_pair(),
                no_node(),
                |y: int, j: nat| y == node && f.known().contains(j),
                |y: int| y == node && f.spec_unknown_object(),
                |y: int| y == node && f.spec_primitive(),
                no_pair(),
                no_pair(),
                no_node(),
                no_known(),
                |x: int| exists|t: int| #![trigger op.referenced_bindings@[t]] 0 <= t < k + 1 && values + op.referenced_bindings@[t] == x,
                |x: int| exists|t: int| #![trigger op.referenced_bindings@[t]] 0 <= t < k + 1 && values + op.referenced_bindings@[t] == x,
                no_pair(),
                no_pair(),
                no_node(),
            );
        }
        k = k + 1;
    }
}

/// Makes node `from` contain every parameter binding that function `function` declares.
fn contain_parameters(solver: &mut PointerSolver, module: &ModuleIr, function: usize, from: usize)
    requires
        old(solver).wf(),
        module.wf(),
        function < module.functions@.len(),
        old(solver).spec_node_count() == module.functions@[function as int].value_count + module.bindings@.len(),
        from < module.functions@[function as int].value_count,
    ensures
        grows(
            *old(solver),
            *final(solver),
            no_known(),
            no_node(),
            no_node(),
            no_pair(),
            |a: int, c: int| a == from as int && module.functions@[function as int].value_count <= c && is_local_binding(
                *module,
                function as int,
                c - module.functions@[function as int].value_count,
            ) && module.bindings@[c - module.functions@[function as int].value_count].kind == BindingKind::Parameter,
            no_node(),
        ),
{
    let ghost s0 = *solver;
    proof {
        lemma_grows_refl(s0);
        s0.lemma_wf();
    }
    let values = module.functions[function].value_count;
    let mut b: usize = 0;
    while b < module.bindings.len()
        invariant
            module.wf(),
            function < module.functions@.len(),
            values == module.functions@[function as int].value_count,
            s0.spec_node_count() == values + module.bindings@.len(),
            s0.spec_node_count() <= usize::MAX,
            from < values,
            b <= module.bindings@.len(),
            grows(
                s0,
                *solver,
                no_known(),
                no_node(),
                no_node(),
                no_pair(),
                |a: int, c: int| a == from as int && values <= c < values + b && is_local_binding(*module, function as int, c - values)
                    && module.bindings@[c - values].kind == BindingKind::Parameter,
                no_node(),
            ),
        decreases module.bindings@.len() - b,
    {
        let ghost s1 = *solver;
        if module.bindings[b].declaring_function == function && module.bindings[b].kind == BindingKind::Parameter {
            contain(solver, from, values + b);
        } else {
            proof {
                lemma_grows_refl(s1);
            }
        }
        proof {
            let added = if module.bindings@[b as int].declaring_function == function && module.bindings@[b as int].kind == BindingKind::Parameter {
                |x: int, y: int| x == from && y == values + b
            } else {
                no_pair()
            };
            lemma_chain(
                s0,
                s1,
                *solver,
                no_known(),
                no_node(),
                no_node(),
                no_pair(),
                |a: int, c: int| a == from as int && values <= c < values + b && is_local_binding(*module, function as int, c - values)
                    && module.bindings@[c - values].kind == BindingKind::Parameter,
                no_node(),
                no_known(),
                no_node(),
                no_node(),
                no_pair(),
                added,
                no_node(),
                no_known(),
                no_node(),
                no_node(),
                no_pair(),
                |a: int, c: int| a == from as int && values <= c < values + b + 1 && is_local_binding(*module, function as int, c - values)
                    && module.bindings@[c - values].kind == BindingKind::Parameter,
                no_node(),
            );
        }
        b = b + 1;
    }
}

/// Makes the carrier of `op` contain every binding of function `function`
/// that a function `op` references captures.
fn contain_captured(solver: &mut PointerSolver, module: &ModuleIr, function: usize, op: &Operation)
    requires
        old(solver).wf(),
        module.wf(),
        function < module.functions@.len(),
        old(solver).spec_node_count() == module.functions@[function as int].value_count + module.bindings@.len(),
        crate::ir::all_below(op.results@, module.functions@[function as int].value_count as int),
    ensures
        grows(
            *old(solver),
            *final(solver),
            no_known(),
            no_node(),
            no_node(),
            no_pair(),
            |a: int, c: int| !op.invoked && op.results@.len() > 0 && a == op.results@[0] as int
                && module.functions@[function as int].value_count <= c && captured_by_operation(
                *module,
                function as int,
                *op,
                c - module.functions@[function as int].value_count,
            ),
            no_node(),
        ),
{
    let ghost s0 = *solver;
    proof {
        lemma_grows_refl(s0);
        s0.lemma_wf();
    }
    let values = module.functions[function].value_count;
    if op.invoked || op.results.len() == 0 {
        return;
    }
    let carrier = op.results[0];
    let mut i: usize = 0;
    while i < op.referenced_functions.len()
        invariant
            module.wf(),
            function < module.functions@.len(),
            values == module.functions@[function as int].value_count,
            s0.spec_node_count() == values + module.bindings@.len(),
            s0.spec_node_count() <= usize::MAX,
            !op.invoked,
            op.results@.len() > 0,
            carrier == op.results@[0],
            carrier < values,
            i <= op.referenced_functions@.len(),
            grows(
                s0,
                *solver,
                no_known(),
                no_node(),
                no_node(),
                no_pair(),
                |a: int, c: int| a == carrier as int && values <= c && exists|k: int|
                    #![trigger op.referenced_functions@[k]]
                    0 <= k < i && captured_through(*module, function as int, op.referenced_functions@[k] as int, c - values),
                no_node(),
            ),
        decreases op.referenced_functions@.len() - i,
    {
        let root = op.referenced_functions[i];
        let captured = captured_bindings(module, function, root);
        let ghost s1 = *solver;
        proof {
            lemma_grows_refl(s1);
        }
        let mut k: usize = 0;
        while k < captured.len()
            invariant
                values == module.functions@[function as int].value_count,
                s0.spec_node_count() == values + module.bindings@.len(),
                s0.spec_node_count() <= usize::MAX,
                s1.spec_node_count() == s0.spec_node_count(),
                carrier < values,
                k <= captured@.len(),
                forall|j: int| #![trigger captured@[j]] 0 <= j < captured@.len() ==> captured@[j] < module.bindings@.len(),
                grows(
                    s1,
                    *solver,
                    no_known(),
                    no_node(),
                    no_node(),
                    no_pair(),
                    |a: int, c: int| a == carrier as int && exists|j: int| #![trigger captured@[j]] 0 <= j < k && c == values + captured@[j],
                    no_node(),
                ),
            decreases captured@.len() - k,
        {
            let ghost s2 = *solver;
            let target = values + captured[k];
            contain(solver, carrier, target);
            proof {
                lemma_chain(
                    s1,
                    s2,
                    *solver,
                    no_known(),
                    no_node(),
                    no_node(),
                    no_pair(),
                    |a: int, c: int| a == carrier as int && exists|j: int| #![trigger captured@[j]] 0 <= j < k && c == values + captured@[j],
                    no_node(),
                    no_known(),
                    no_node(),
                    no_node(),
                    no_pair(),
                    |a: int, c: int| a == carrier && c == target,
                    no_node(),
                    no_known(),
                    no_node(),
                    no_node(),
                    no_pair(),
                    |a: int, c: int| a == carrier as int && exists|j: int| #![trigger captured@[j]] 0 <= j < k + 1 && c == values + captured@[j],
                    no_node(),
                );
            }
            k = k + 1;
        }
        proof {
            let h1 = |a: int, c: int| a == carrier as int && values <= c && exists|k2: int|
                #![trigger op.referenced_functions@[k2]]
                0 <= k2 < i && captured_through(*module, function as int, op.referenced_functions@[k2] as int, c - values);
            let h2 = |a: int, c: int| a == carrier as int && exists|j: int| #![trigger captured@[j]] 0 <= j < captured@.len() && c == values + captured@[j];
            let h3 = |a: int, c: int| a == carrier as int && values <= c && exists|k2: int|
                #![trigger op.referenced_functions@[k2]]
                0 <= k2 < i + 1 && captured_through(*module, function as int, op.referenced_functions@[k2] as int, c - values);
            assert forall|a: int, c: int| #[trigger] h3(a, c) <==> (h1(a, c) || h2(a, c)) by {
                if a == carrier as int && values <= c {
                    let b = c - values;
                    if exists|j: int| #![trigger captured@[j]] 0 <= j < captured@.len() && c == values + captured@[j] {
                        let j = choose|j: int| #![trigger captured@[j]] 0 <= j < captured@.len() && c == values + captured@[j];
                        assert(captured@.contains(captured@[j]));
                        assert(captured_through(*module, function as int, root as int, b));
                        assert(op.referenced_functions@[i as int] == root);
                    }
                    if captured_through(*module, function as int, root as int, b) {
                        assert(captured@.contains(b as usize));
                        let j = choose|j: int| 0 <= j < captured@.len() && captured@[j] == b as usize;
                        assert(c == values + captured@[j]);
                    }
                    if exists|k2: int|
                        #![trigger op.referenced_functions@[k2]]
                        0 <= k2 < i + 1 && captured_through(*module, function as int, op.referenced_functions@[k2] as int, b) {
                        let k2 = choose|k2: int|
                            #![trigger op.referenced_functions@[k2]]
                            0 <= k2 < i + 1 && captured_through(*module, function as int, op.referenced_functions@[k2] as int, b);
                        if k2 == i {
                            assert(captured_through(*module, function as int, root as int, b));
                        }
                    }
                }
                if a == carrier as int && exists|j: int| #![trigger captured@[j]] 0 <= j < captured@.len() && c == values + captured@[j] {
                    let j = choose|j: int| #![trigger captured@[j]] 0 <= j < captured@.len() && c == values + captured@[j];
                    assert(values <= c);
                }
            }
            lemma_chain(
                s0,
                s1,
                *solver,
                no_known(),
                no_node(),
                no_node(),
                no_pair(),
                h1,
                no_node(),
                no_known(),
                no_node(),
                no_node(),
                no_pair(),
                h2,
                no_node(),
                no_known(),
                no_node(),
                no_node(),
                no_pair(),
                h3,
                no_node(),
            );
        }
        i = i + 1;
    }
}

/// Whether operation `op` copies the class it creates into its own name binding.
pub open spec fn class_self_copy(op: Operation, values: int, s: int, t: int) -> bool {
    op.kind matches OperationKind::CreateClass { self_binding: Some(b), .. } && s == op.results@[0] as int && t == values + b
}

/// Whether operation `op` of function `function` makes its carrier contain a captured binding's node.
pub open spec fn captures_contain(module: ModuleIr, function: int, op: Operation, a: int, c: int) -> bool {
    let values = module.functions@[function].value_count as int;
    carries_captures(op.kind) && !op.invoked && op.results@.len() > 0 && a == op.results@[0] as int && values <= c
        && captured_by_operation(module, function, op, c - values)
}

/// The seeds of operation `op` that follow from what it may do with its operands and the activation.
pub open spec fn escape_part_seed(module: ModuleIr, function: int, op: Operation, x: int) -> bool {
    let values = module.functions@[function].value_count as int;
    ||| pointer_retains_operands(op.kind) && names_operand(op, x)
    ||| op.kind is DynamicImport && x == op.results@[0] as int
    ||| (op.kind matches OperationKind::CreateClass { elements, .. } && runs_static_initialization(elements@) && x
        == op.results@[0] as int)
    ||| (op.kind is Await || op.kind is Yield) && ((0 <= x < values) || is_local_binding_node(module, function, x))
    ||| (op.kind is Debugger || is_direct_eval(module, module.functions@[function], op)) && is_local_binding_node(
        module,
        function,
        x,
    )
}

/// Whether the pointer problem of function `function` has a node for each
/// value and binding, and `op` is one of its well-formed operations.
pub open spec fn op_in_problem(solver: PointerSolver, module: ModuleIr, function: int, op: Operation) -> bool {
    &&& module.wf()
    &&& 0 <= function < module.functions@.len()
    &&& solver.spec_node_count() == module.functions@[function].value_count + module.bindings@.len()
    &&& op.wf(
        module.functions@[function].value_count as int,
        module.functions@[function].regions@.len() as int,
        module.functions@.len() as int,
        module.bindings@.len() as int,
    )
    &&& pointer_ready(op)
}

/// Adds the escape dependencies and seeds of operation `op`.
pub fn add_operation_escape_flow(solver: &mut PointerSolver, module: &ModuleIr, function: usize, op: &Operation)
    requires
        old(solver).wf(),
        op_in_problem(*old(solver), *module, function as int, *op),
    ensures
        grows(
            *old(solver),
            *final(solver),
            no_known(),
            no_node(),
            no_node(),
            |s: int, t: int| class_self_copy(*op, module.functions@[function as int].value_count as int, s, t),
            |a: int, c: int| captures_contain(*module, function as int, *op, a, c),
            |x: int| escape_part_seed(*module, function as int, *op, x),
        ),
{
    let ghost s0 = *solver;
    let ghost m = *module;
    let ghost f = function as int;
    let ghost vc = module.functions@[function as int].value_count as int;
    proof {
        s0.lemma_wf();
        lemma_grows_refl(s0);
    }
    let values = module.functions[function].value_count;
    let direct_eval = is_direct_eval_call(module, &module.functions[function], op);
    let retains = match &op.kind {
        OperationKind::DestructureBinding | OperationKind::DestructureAssignment | OperationKind::StoreGlobal
        | OperationKind::LoadSuperProperty | OperationKind::StoreSuperProperty | OperationKind::LoadProperty
        | OperationKind::StoreProperty | OperationKind::Update | OperationKind::Call { .. } | OperationKind::SuperCall
        | OperationKind::Construct | OperationKind::TaggedTemplate { .. } | OperationKind::TemplateLiteral
        | OperationKind::JsxElement | OperationKind::JsxFragment | OperationKind::ForIn | OperationKind::ForOf
        | OperationKind::Return | OperationKind::Throw | OperationKind::EnterFinally | OperationKind::DynamicImport { .. } => true,
        OperationKind::Delete { property } => *property,
        OperationKind::Unary(operator) => !(*operator == crate::transfer::UnaryOperator::LogicalNot || *operator
            == crate::transfer::UnaryOperator::Void),
        OperationKind::Binary(operator) => !(*operator == crate::transfer::BinaryOperator::StrictEqual || *operator
            == crate::transfer::BinaryOperator::StrictNotEqual),
        _ => false,
    };
    assert(retains == pointer_retains_operands(op.kind));
    // The operands an operation may retain.
    let ghost s1 = *solver;
    if retains {
        seed_values(solver, &op.operands);
    } else {
        proof {
            lemma_grows_refl(s1);
        }
    }
    let ghost seed1 = |x: int| retains && exists|k: int| #![trigger op.operands@[k]] 0 <= k < op.operands@.len() && op.operands@[k] as int == x;
    proof {
        lemma_chain(
            s0, s1, *solver,
            no_known(), no_node(), no_node(), no_pair(), no_pair(), no_node(),
            no_known(), no_node(), no_node(), no_pair(), no_pair(),
            if retains { |x: int| exists|k: int| #![trigger op.operands@[k]] 0 <= k < op.operands@.len() && op.operands@[k] as int == x } else { no_node() },
            no_known(), no_node(), no_node(), no_pair(), no_pair(), seed1,
        );
    }
    // What the kind adds besides.
    let ghost s2 = *solver;
    let ghost mut copy2: spec_fn(int, int) -> bool = no_pair();
    let ghost mut seed2: spec_fn(int) -> bool = no_node();
    match &op.kind {
        OperationKind::CreateClass { self_binding, elements } => {
            let result = op.results[0];
            match self_binding {
                Some(b) => {
                    copy(solver, result, values + *b);
                    proof {
                        copy2 = |s: int, t: int| s == result && t == values + *b;
                    }
                },
                None => {
                    proof {
                        lemma_grows_refl(s2);
                    }
                },
            }
            let ghost s3 = *solver;
            if has_static_initialization(elements) {
                seed(solver, result);
                proof {
                    seed2 = |y: int| y == result;
                }
            } else {
                proof {
                    lemma_grows_refl(s3);
                }
            }
            proof {
                lemma_chain(
                    s2, s3, *solver,
                    no_known(), no_node(), no_node(), copy2, no_pair(), no_node(),
                    no_known(), no_node(), no_node(), no_pair(), no_pair(), seed2,
                    no_known(), no_node(), no_node(), copy2, no_pair(), seed2,
                );
            }
        },
        OperationKind::DynamicImport { .. } => {
            seed(solver, op.results[0]);
            proof {
                seed2 = |y: int| y == op.results@[0];
            }
        },
        OperationKind::Await | OperationKind::Yield => {
            seed_activation_state(solver, module, function);
            proof {
                seed2 = |x: int| (0 <= x < vc) || is_local_binding_node(m, f, x);
            }
        },
        OperationKind::Debugger => {
            seed_local_bindings(solver, module, function);
            proof {
                seed2 = |x: int| is_local_binding_node(m, f, x);
            }
        },
        _ => {
            proof {
                lemma_grows_refl(s2);
            }
        },
    }
    proof {
        lemma_chain(
            s0, s2, *solver,
            no_known(), no_node(), no_node(), no_pair(), no_pair(), seed1,
            no_known(), no_node(), no_node(), copy2, no_pair(), seed2,
            no_known(), no_node(), no_node(), copy2, no_pair(), |x: int| seed1(x) || seed2(x),
        );
    }
    // The bindings a created function captures.
    let ghost s4 = *solver;
    let carries = match &op.kind {
        OperationKind::CreateFunction | OperationKind::CreateClass { .. } | OperationKind::ObjectLiteral(_) => true,
        _ => false,
    };
    if carries {
        contain_captured(solver, module, function, op);
    } else {
        proof {
            lemma_grows_refl(s4);
        }
    }
    let ghost contain4 = |a: int, c: int| captures_contain(m, f, *op, a, c);
    proof {
        lemma_chain(
            s0, s4, *solver,
            no_known(), no_node(), no_node(), copy2, no_pair(), |x: int| seed1(x) || seed2(x),
            no_known(), no_node(), no_node(), no_pair(),
            if carries { |a: int, c: int| !op.invoked && op.results@.len() > 0 && a == op.results@[0] as int
                && vc <= c && captured_by_operation(m, f, *op, c - vc) } else { no_pair() },
            no_node(),
            no_known(), no_node(), no_node(), copy2, contain4, |x: int| seed1(x) || seed2(x),
        );
    }
    // A direct eval may reach every local binding.
    let ghost s5 = *solver;
    if direct_eval {
        seed_local_bindings(solver, module, function);
    } else {
        proof {
            lemma_grows_refl(s5);
        }
    }
    proof {
        lemma_chain(
            s0, s5, *solver,
            no_known(), no_node(), no_node(), copy2, contain4, |x: int| seed1(x) || seed2(x),
            no_known(), no_node(), no_node(), no_pair(), no_pair(),
            if direct_eval { |x: int| is_local_binding_node(m, f, x) } else { no_node() },
            no_known(), no_node(), no_node(),
            |s: int, t: int| class_self_copy(*op, vc, s, t),
            contain4,
            |x: int| escape_part_seed(m, f, *op, x),
        );
    }
}

/// Each operation allocates at most one object, and the shared objects lie among those allocated.
proof fn lemma_plan_len(ops: Seq<Operation>, j: int)
    requires
        0 <= j,
    ensures
        object_plan(ops, j).0.len() <= j,
        object_plan(ops, j).1 matches Some(i) ==> i < object_plan(ops, j).0.len(),
        object_plan(ops, j).2 matches Some(i) ==> i < object_plan(ops, j).0.len(),
    decreases j,
{
    if j > 0 {
        lemma_plan_len(ops, j - 1);
    }
}

/// A step that only allocates objects adds nothing else.
proof fn lemma_only_objects(a: PointerSolver, b: PointerSolver)
    requires
        a.wf(),
        b.wf(),
        b.spec_owner() == a.spec_owner(),
        b.spec_node_count() == a.spec_node_count(),
        b.spec_facts() == a.spec_facts(),
        b.spec_copy_edges() == a.spec_copy_edges(),
        b.spec_escape_dependencies() == a.spec_escape_dependencies(),
        b.spec_seeds() == a.spec_seeds(),
    ensures
        grows_core(a, b, no_known(), no_node(), no_node(), no_pair(), no_pair(), no_node()),
{
    a.lemma_wf();
}

/// Adds the facts, copies, containments, seeds and objects of operation `j`
/// of function `function`.
pub fn add_operation_flow(solver: &mut PointerSolver, module: &ModuleIr, function: usize, j: usize)
    requires
        old(solver).wf(),
        function < module.functions@.len(),
        j < module.functions@[function as int].operations@.len(),
        op_in_problem(*old(solver), *module, function as int, module.functions@[function as int].operations@[j as int]),
        module.functions@[function as int].operations@.len() <= u32::MAX + 1,
        objects_follow(*old(solver), object_plan(module.functions@[function as int].operations@, j as int)),
    ensures
        grows_core(
            *old(solver),
            *final(solver),
            |x: int, i: nat| op_known(module.functions@[function as int].operations@, j as int, x, i),
            |x: int| op_unknown_object(
                module.functions@[function as int].operations@[j as int],
                module.functions@[function as int].value_count as int,
                x,
            ),
            |x: int| op_primitive(
                module.functions@[function as int].operations@[j as int],
                module.functions@[function as int].value_count as int,
                x,
            ),
            |s: int, t: int| op_copy(
                module.functions@[function as int].operations@[j as int],
                module.functions@[function as int].value_count as int,
                s,
                t,
            ),
            |a: int, c: int| op_contain(*module, function as int, module.functions@[function as int].operations@[j as int], a, c),
            |x: int| pointer_op_seed(*module, function as int, module.functions@[function as int].operations@[j as int], x),
        ),
        objects_follow(*final(solver), object_plan(module.functions@[function as int].operations@, j as int + 1)),
{
    let ghost s0 = *solver;
    let ghost m = *module;
    let ghost f = function as int;
    let body = &module.functions[function];
    let op = &body.operations[j];
    let ghost ops = body.operations@;
    let ghost vc = body.value_count as int;
    let ghost plan0 = object_plan(ops, j as int);
    let ghost plan1 = object_plan(ops, j as int + 1);
    proof {
        s0.lemma_wf();
        lemma_plan_len(ops, j as int);
        assert(ops[j as int] == *op);
    }
    let values = body.value_count;
    let owner = solver.owner();
    let ghost fk = |x: int, i: nat| op_known(ops, j as int, x, i);
    let ghost fu = |x: int| (yields_unknown(op.kind) || yields_unknown_object(op.kind)) && names_result(*op, x);
    let ghost fp = |x: int| (yields_unknown(op.kind) || yields_primitive(op.kind)) && names_result(*op, x);
    let ghost fc = |s: int, t: int|
        (op.kind matches OperationKind::LoadBinding { binding } && s == vc + binding && t == op.results@[0] as int)
            || (stored_binding(op.kind) matches Some(b) && s == op.operands@[0] as int && t == vc + b);
    let ghost fh = |a: int, c: int|
        op.kind is LoadArguments && a == op.results@[0] as int && vc <= c && is_local_binding(m, f, c - vc)
            && m.bindings@[c - vc].kind == BindingKind::Parameter;
    let ghost fs = |x: int|
        (loads_import_meta(op.kind) && x == op.results@[0] as int) || ((op.kind is Construct || op.kind is SuperCall)
            && names_operand(*op, x)) || (stored_binding(op.kind) matches Some(b) && x == vc + b && (!is_local_binding(
            m,
            f,
            b as int,
        ) || is_exported(m, b as int)));
    match &op.kind {
        OperationKind::RegExpLiteral | OperationKind::ArrayLiteral(_) | OperationKind::ObjectLiteral(_)
        | OperationKind::CreateFunction | OperationKind::CreateClass { .. } | OperationKind::DynamicImport { .. } => {
            let id = solver.allocate_object(AbstractObjectKind::Allocation(j as u32));
            let ghost s1 = *solver;
            proof {
                lemma_only_objects(s0, s1);
                AbstractObject::lemma_new(id, AbstractObjectKind::Allocation(j as u32));
                s1.lemma_wf();
            }
            let r = op.results[0];
            let fact = PointsToSet::singleton(id);
            join_fact(solver, r, fact);
            proof {
                lemma_grows_refl(*solver);
                lemma_chain_core(
                    s0, s1, *solver,
                    no_known(), no_node(), no_node(), no_pair(), no_pair(), no_node(),
                    |y: int, i: nat| y == r && fact.known().contains(i), |y: int| y == r && fact.spec_unknown_object(),
                    |y: int| y == r && fact.spec_primitive(), no_pair(), no_pair(), no_node(),
                    fk, fu, fp, fc, fh, fs,
                );
            }
        },
        OperationKind::LoadArguments => {
            let id = solver.arguments_object();
            let ghost s1 = *solver;
            proof {
                lemma_only_objects(s0, s1);
                s1.lemma_wf();
                if plan0.1 is None {
                    AbstractObject::lemma_new(id, AbstractObjectKind::ArgumentsObject);
                }
            }
            let r = op.results[0];
            let fact = PointsToSet::singleton(id);
            join_fact(solver, r, fact);
            let ghost s2 = *solver;
            contain_parameters(solver, module, function, r);
            proof {
                lemma_chain_core(
                    s0, s1, s2,
                    no_known(), no_node(), no_node(), no_pair(), no_pair(), no_node(),
                    |y: int, i: nat| y == r && fact.known().contains(i), |y: int| y == r && fact.spec_unknown_object(),
                    |y: int| y == r && fact.spec_primitive(), no_pair(), no_pair(), no_node(),
                    fk, fu, fp, no_pair(), no_pair(), no_node(),
                );
                lemma_chain_core(
                    s0, s2, *solver,
                    fk, fu, fp, no_pair(), no_pair(), no_node(),
                    no_known(), no_node(), no_node(), no_pair(),
                    |a: int, c: int| a == r as int && vc <= c && is_local_binding(m, f, c - vc) && m.bindings@[c - vc].kind == BindingKind::Parameter,
                    no_node(),
                    fk, fu, fp, fc, fh, fs,
                );
            }
        },
        OperationKind::MetaProperty { import_meta: true } => {
            let id = solver.import_meta_object();
            let ghost s1 = *solver;
            proof {
                lemma_only_objects(s0, s1);
                s1.lemma_wf();
                if plan0.2 is None {
                    AbstractObject::lemma_new(id, AbstractObjectKind::ImportMeta);
                }
            }
            let r = op.results[0];
            let fact = PointsToSet::singleton(id);
            join_fact(solver, r, fact);
            let ghost s2 = *solver;
            seed(solver, r);
            proof {
                lemma_chain_core(
                    s0, s1, s2,
                    no_known(), no_node(), no_node(), no_pair(), no_pair(), no_node(),
                    |y: int, i: nat| y == r && fact.known().contains(i), |y: int| y == r && fact.spec_unknown_object(),
                    |y: int| y == r && fact.spec_primitive(), no_pair(), no_pair(), no_node(),
                    fk, fu, fp, no_pair(), no_pair(), no_node(),
                );
                lemma_chain_core(
                    s0, s2, *solver,
                    fk, fu, fp, no_pair(), no_pair(), no_node(),
                    no_known(), no_node(), no_node(), no_pair(), no_pair(), |y: int| y == r,
                    fk, fu, fp, fc, fh, fs,
                );
            }
        },
        OperationKind::Construct | OperationKind::SuperCall => {
            let fact = PointsToSet::unknown_object(owner);
            add_results(solver, &op.results, &fact);
            let ghost s1 = *solver;
            seed_values(solver, &op.operands);
            proof {
                lemma_chain_core(
                    s0, s1, *solver,
                    no_known(),
                    |x: int| fact.spec_unknown_object() && exists|k: int| #![trigger op.results@[k]] 0 <= k < op.results@.len() && op.results@[k] as int == x,
                    |x: int| fact.spec_primitive() && exists|k: int| #![trigger op.results@[k]] 0 <= k < op.results@.len() && op.results@[k] as int == x,
                    no_pair(), no_pair(), no_node(),
                    no_known(), no_node(), no_node(), no_pair(), no_pair(),
                    |x: int| exists|k: int| #![trigger op.operands@[k]] 0 <= k < op.operands@.len() && op.operands@[k] as int == x,
                    fk, fu, fp, fc, fh, fs,
                );
            }
        },
        OperationKind::LoadBinding { binding } => {
            let r = op.results[0];
            let b = *binding;
            copy(solver, values + b, r);
            proof {
                lemma_grows_refl(*solver);
                lemma_chain_core(
                    s0, *solver, *solver,
                    no_known(), no_node(), no_node(), |x: int, y: int| x == values + b && y == r, no_pair(), no_node(),
                    no_known(), no_node(), no_node(), no_pair(), no_pair(), no_node(),
                    fk, fu, fp, fc, fh, fs,
                );
            }
        },
        OperationKind::InitializeBinding { binding } | OperationKind::StoreBinding { binding } => {
            let b = *binding;
            let v = op.operands[0];
            copy(solver, v, values + b);
            let ghost s1 = *solver;
            let opaque = module.bindings[b].declaring_function != function || exports_binding(module, b);
            if opaque {
                seed(solver, values + b);
            } else {
                proof {
                    lemma_grows_refl(s1);
                }
            }
            proof {
                lemma_chain_core(
                    s0, s1, *solver,
                    no_known(), no_node(), no_node(), |x: int, y: int| x == v && y == values + b, no_pair(), no_node(),
                    no_known(), no_node(), no_node(), no_pair(), no_pair(),
                    if opaque { |y: int| y == values + b } else { no_node() },
                    fk, fu, fp, fc, fh, fs,
                );
            }
        },
        _ => {
            let kind_fact: Option<PointsToSet> = match &op.kind {
                OperationKind::Constant { .. } | OperationKind::TemplateLiteral | OperationKind::HasPrivateName
                | OperationKind::IsNullish | OperationKind::Typeof | OperationKind::Delete { .. } | OperationKind::Unary(_)
                | OperationKind::Update | OperationKind::Binary(_) => Some(PointsToSet::primitive(owner)),
                OperationKind::LoadThis | OperationKind::MetaProperty { .. } | OperationKind::LoadGlobal { .. }
                | OperationKind::LoadProperty | OperationKind::LoadSuperProperty | OperationKind::Await
                | OperationKind::Yield | OperationKind::Call { .. } | OperationKind::TaggedTemplate { .. }
                | OperationKind::JsxElement | OperationKind::JsxFragment => Some(PointsToSet::unknown(owner)),
                _ => None,
            };
            match kind_fact {
                Some(fact) => {
                    add_results(solver, &op.results, &fact);
                    proof {
                        lemma_grows_refl(*solver);
                        lemma_chain_core(
                            s0, *solver, *solver,
                            no_known(),
                            |x: int| fact.spec_unknown_object() && exists|k: int| #![trigger op.results@[k]] 0 <= k < op.results@.len() && op.results@[k] as int == x,
                            |x: int| fact.spec_primitive() && exists|k: int| #![trigger op.results@[k]] 0 <= k < op.results@.len() && op.results@[k] as int == x,
                            no_pair(), no_pair(), no_node(),
                            no_known(), no_node(), no_node(), no_pair(), no_pair(), no_node(),
                            fk, fu, fp, fc, fh, fs,
                        );
                    }
                },
                None => {
                    proof {
                        lemma_grows_refl(s0);
                        lemma_chain_core(
                            s0, s0, *solver,
                            no_known(), no_node(), no_node(), no_pair(), no_pair(), no_node(),
                            no_known(), no_node(), no_node(), no_pair(), no_pair(), no_node(),
                            fk, fu, fp, fc, fh, fs,
                        );
                    }
                },
            }
        },
    }
    let ghost s3 = *solver;
    proof {
        assert(objects_follow(s3, plan1));
    }
    add_operation_escape_flow(solver, module, function, op);
    let ghost s4 = *solver;
    let writes = match &op.kind {
        OperationKind::DestructureBinding | OperationKind::DestructureAssignment | OperationKind::For
        | OperationKind::ForIn | OperationKind::ForOf => true,
        _ => false,
    };
    if writes {
        write_unknown_bindings(solver, op, values);
    } else {
        proof {
            lemma_grows_refl(s4);
        }
    }
    proof {
        lemma_chain_core(
            s0, s3, s4,
            fk, fu, fp, fc, fh, fs,
            no_known(), no_node(), no_node(),
            |s: int, t: int| class_self_copy(*op, vc, s, t),
            |a: int, c: int| captures_contain(m, f, *op, a, c),
            |x: int| escape_part_seed(m, f, *op, x),
            fk, fu, fp,
            |s: int, t: int| op_copy(*op, vc, s, t),
            |a: int, c: int| op_contain(m, f, *op, a, c),
            |x: int| pointer_op_seed(m, f, *op, x),
        );
        lemma_chain_core(
            s0, s4, *solver,
            fk, fu, fp,
            |s: int, t: int| op_copy(*op, vc, s, t),
            |a: int, c: int| op_contain(m, f, *op, a, c),
            |x: int| pointer_op_seed(m, f, *op, x),
            no_known(),
            if writes { |x: int| names_binding_node(*op, vc, x) } else { no_node() },
            if writes { |x: int| names_binding_node(*op, vc, x) } else { no_node() },
            no_pair(), no_pair(), no_node(),
            fk,
            |x: int| op_unknown_object(*op, vc, x),
            |x: int| op_primitive(*op, vc, x),
            |s: int, t: int| op_copy(*op, vc, s, t),
            |a: int, c: int| op_contain(m, f, *op, a, c),
            |x: int| pointer_op_seed(m, f, *op, x),
        );
    }
}

/// Joins what function `function` may hold when it starts: any value in its
/// parameters, in block parameters that control flow produces and in opaque
/// bindings, and an unmodelled object in its own name binding.
pub fn initialize_boundary_facts(solver: &mut PointerSolver, module: &ModuleIr, function: usize)
    requires
        old(solver).wf(),
        module.wf(),
        function < module.functions@.len(),
        old(solver).spec_node_count() == module.functions@[function as int].value_count + module.bindings@.len(),
    ensures
        grows(
            *old(solver),
            *final(solver),
            no_known(),
            |x: int| boundary_unknown(*module, function as int, x) || boundary_self(*module, function as int, x),
            |x: int| boundary_unknown(*module, function as int, x),
            no_pair(),
            no_pair(),
            no_node(),
        ),
{
    let ghost s0 = *solver;
    let ghost m = *module;
    let ghost f = function as int;
    let body = &module.functions[function];
    proof {
        s0.lemma_wf();
        lemma_grows_refl(s0);
        assert(body.wf(module.functions@.len() as int, module.bindings@.len() as int));
    }
    let values = body.value_count;
    let owner = solver.owner();
    let unknown = PointsToSet::unknown(owner);
    // Parameters.
    add_results(solver, &body.parameters, &unknown);
    let ghost pu = |x: int| exists|k: int| #![trigger body.parameters@[k]] 0 <= k < body.parameters@.len() && body.parameters@[k] as int == x;
    proof {
        lemma_grows_refl(*solver);
        lemma_chain(
            s0, *solver, *solver,
            no_known(),
            |x: int| unknown.spec_unknown_object() && exists|k: int| #![trigger body.parameters@[k]] 0 <= k < body.parameters@.len() && body.parameters@[k] as int == x,
            |x: int| unknown.spec_primitive() && exists|k: int| #![trigger body.parameters@[k]] 0 <= k < body.parameters@.len() && body.parameters@[k] as int == x,
            no_pair(), no_pair(), no_node(),
            no_known(), no_node(), no_node(), no_pair(), no_pair(), no_node(),
            no_known(), pu, pu, no_pair(), no_pair(), no_node(),
        );
    }
    // The function's own name binding.
    let ghost s1 = *solver;
    match body.self_binding {
        Some(b) => {
            let fact = PointsToSet::unknown_object(owner);
            join_fact(solver, values + b, fact);
        },
        None => {
            proof {
                lemma_grows_refl(s1);
            }
        },
    }
    let ghost su = |x: int| boundary_self(m, f, x);
    proof {
        lemma_chain(
            s0, s1, *solver,
            no_known(), pu, pu, no_pair(), no_pair(), no_node(),
            no_known(),
            if body.self_binding is Some { |y: int| y == values + body.self_binding->0 } else { no_node() },
            no_node(), no_pair(), no_pair(), no_node(),
            no_known(), |x: int| pu(x) || su(x), pu, no_pair(), no_pair(), no_node(),
        );
    }
    // Block parameters that control flow produces.
    let ghost rp = |x: int| exists|r: int, k: int|
        #![trigger body.regions@[r].produced_parameters@[k]]
        0 <= r < body.regions@.len() && 0 <= k < body.regions@[r].produced_parameters@.len()
            && body.regions@[r].produced_parameters@[k] as int == x;
    let mut r: usize = 0;
    while r < body.regions.len()
        invariant
            *body == module.functions@[function as int],
            body.wf(module.functions@.len() as int, module.bindings@.len() as int),
            values == body.value_count,
            s0.spec_node_count() == values + module.bindings@.len(),
            unknown.spec_owner() == s0.spec_owner(),
            unknown.known() == Set::<nat>::empty(),
            unknown.spec_unknown_object(),
            unknown.spec_primitive(),
            r <= body.regions@.len(),
            grows(
                s0,
                *solver,
                no_known(),
                |x: int| pu(x) || su(x) || exists|q: int, k: int|
                    #![trigger body.regions@[q].produced_parameters@[k]]
                    0 <= q < r && 0 <= k < body.regions@[q].produced_parameters@.len()
                        && body.regions@[q].produced_parameters@[k] as int == x,
                |x: int| pu(x) || exists|q: int, k: int|
                    #![trigger body.regions@[q].produced_parameters@[k]]
                    0 <= q < r && 0 <= k < body.regions@[q].produced_parameters@.len()
                        && body.regions@[q].produced_parameters@[k] as int == x,
                no_pair(),
                no_pair(),
                no_node(),
            ),
        decreases body.regions@.len() - r,
    {
        let region = &body.regions[r];
        let ghost s2 = *solver;
        proof {
            assert(body.regions@[r as int] == *region);
            assert(region.wf(values as int));
        }
        add_results(solver, &region.produced_parameters, &unknown);
        proof {
            let prev = |x: int| exists|q: int, k: int|
                #![trigger body.regions@[q].produced_parameters@[k]]
                0 <= q < r && 0 <= k < body.regions@[q].produced_parameters@.len()
                    && body.regions@[q].produced_parameters@[k] as int == x;
            let next = |x: int| exists|q: int, k: int|
                #![trigger body.regions@[q].produced_parameters@[k]]
                0 <= q < r + 1 && 0 <= k < body.regions@[q].produced_parameters@.len()
                    && body.regions@[q].produced_parameters@[k] as int == x;
            let here = |x: int| exists|k: int| #![trigger region.produced_parameters@[k]] 0 <= k < region.produced_parameters@.len() && region.produced_parameters@[k] as int == x;
            assert forall|x: int| #[trigger] next(x) <==> (prev(x) || here(x)) by {
                if next(x) {
                    let (q, k) = choose|q: int, k: int|
                        #![trigger body.regions@[q].produced_parameters@[k]]
                        0 <= q < r + 1 && 0 <= k < body.regions@[q].produced_parameters@.len()
                            && body.regions@[q].produced_parameters@[k] as int == x;
                    if q == r {
                        assert(region.produced_parameters@[k] as int == x);
                    }
                }
                if here(x) {
                    let k = choose|k: int| #![trigger region.produced_parameters@[k]] 0 <= k < region.produced_parameters@.len() && region.produced_parameters@[k] as int == x;
                    assert(body.regions@[r as int].produced_parameters@[k] as int == x);
                }
            }
            lemma_chain(
                s0, s2, *solver,
                no_known(), |x: int| pu(x) || su(x) || prev(x), |x: int| pu(x) || prev(x), no_pair(), no_pair(), no_node(),
                no_known(),
                |x: int| unknown.spec_unknown_object() && here(x),
                |x: int| unknown.spec_primitive() && here(x),
                no_pair(), no_pair(), no_node(),
                no_known(), |x: int| pu(x) || su(x) || next(x), |x: int| pu(x) || next(x), no_pair(), no_pair(), no_node(),
            );
        }
        r = r + 1;
    }
    // Opaque bindings.
    let mut b: usize = 0;
    let ghost s3 = *solver;
    proof {
        lemma_grows_refl(s3);
        s3.lemma_wf();
    }
    while b < module.bindings.len()
        invariant
            module.wf(),
            function < module.functions@.len(),
            m == *module,
            f == function as int,
            values == module.functions@[function as int].value_count,
            s3.spec_node_count() == values + module.bindings@.len(),
            s3.spec_node_count() <= usize::MAX,
            unknown.spec_owner() == s3.spec_owner(),
            unknown.known() == Set::<nat>::empty(),
            unknown.spec_unknown_object(),
            unknown.spec_primitive(),
            b <= module.bindings@.len(),
            grows(
                s3,
                *solver,
                no_known(),
                |x: int| values <= x < values + b && binding_is_opaque(m, f, x - values),
                |x: int| values <= x < values + b && binding_is_opaque(m, f, x - values),
                no_pair(),
                no_pair(),
                no_node(),
            ),
        decreases module.bindings@.len() - b,
    {
        let ghost s4 = *solver;
        let data = &module.bindings[b];
        let opaque = data.declaring_function != function || data.kind == BindingKind::Import || data.kind
            == BindingKind::Parameter || data.kind == BindingKind::Catch;
        if opaque {
            join_fact(solver, values + b, unknown.clone());
        } else {
            proof {
                lemma_grows_refl(s4);
            }
        }
        proof {
            lemma_chain(
                s3, s4, *solver,
                no_known(),
                |x: int| values <= x < values + b && binding_is_opaque(m, f, x - values),
                |x: int| values <= x < values + b && binding_is_opaque(m, f, x - values),
                no_pair(), no_pair(), no_node(),
                no_known(),
                if opaque { |y: int| y == values + b } else { no_node() },
                if opaque { |y: int| y == values + b } else { no_node() },
                no_pair(), no_pair(), no_node(),
                no_known(),
                |x: int| values <= x < values + b + 1 && binding_is_opaque(m, f, x - values),
                |x: int| values <= x < values + b + 1 && binding_is_opaque(m, f, x - values),
                no_pair(), no_pair(), no_node(),
            );
        }
        b = b + 1;
    }
    proof {
        lemma_chain(
            s0, s3, *solver,
            no_known(), |x: int| pu(x) || su(x) || rp(x), |x: int| pu(x) || rp(x), no_pair(), no_pair(), no_node(),
            no_known(),
            |x: int| values <= x < values + module.bindings@.len() && binding_is_opaque(m, f, x - values),
            |x: int| values <= x < values + module.bindings@.len() && binding_is_opaque(m, f, x - values),
            no_pair(), no_pair(), no_node(),
            no_known(),
            |x: int| boundary_unknown(m, f, x) || boundary_self(m, f, x),
            |x: int| boundary_unknown(m, f, x),
            no_pair(), no_pair(), no_node(),
        );
    }
}

/// Copies each argument a successor edge of `function` forwards into its parameter.
pub fn add_block_parameter_flow(solver: &mut PointerSolver, module: &ModuleIr, function: usize)
    requires
        old(solver).wf(),
        module.wf(),
        function < module.functions@.len(),
        old(solver).spec_node_count() == module.functions@[function as int].value_count + module.bindings@.len(),
    ensures
        grows(
            *old(solver),
            *final(solver),
            no_known(),
            no_node(),
            no_node(),
            |s: int, t: int| function_forwards(module.functions@[function as int], t, s),
            no_pair(),
            no_node(),
        ),
{
    let ghost s0 = *solver;
    let body = &module.functions[function];
    let ghost values = body.value_count as int;
    let ghost nf = module.functions@.len() as int;
    let ghost nb = module.bindings@.len() as int;
    proof {
        lemma_grows_refl(s0);
        assert(body.wf(nf, nb));
    }
    let mut j: usize = 0;
    while j < body.operations.len()
        invariant
            *body == module.functions@[function as int],
            body.wf(nf, nb),
            values == body.value_count,
            s0.spec_node_count() == values + nb,
            nb == module.bindings@.len(),
            nf == module.functions@.len(),
            j <= body.operations@.len(),
            grows(
                s0,
                *solver,
                no_known(),
                no_node(),
                no_node(),
                |s: int, t: int| exists|q: int| #![trigger body.operations@[q]] 0 <= q < j && op_forwards(body.operations@[q], t, s),
                no_pair(),
                no_node(),
            ),
        decreases body.operations@.len() - j,
    {
        let op = &body.operations[j];
        let ghost s1 = *solver;
        proof {
            assert(body.operations@[j as int] == *op);
            assert(op.wf(values, body.regions@.len() as int, nf, nb));
            lemma_grows_refl(s1);
        }
        let mut k: usize = 0;
        while k < op.successors.len()
            invariant
                op.wf(values, body.regions@.len() as int, nf, nb),
                s1.spec_node_count() == values + nb,
                nb == module.bindings@.len(),
                k <= op.successors@.len(),
                grows(
                    s1,
                    *solver,
                    no_known(),
                    no_node(),
                    no_node(),
                    |s: int, t: int| exists|q: int| #![trigger op.successors@[q]] 0 <= q < k && forwards(op.successors@[q], t, s),
                    no_pair(),
                    no_node(),
                ),
            decreases op.successors@.len() - k,
        {
            let successor = &op.successors[k];
            let ghost s2 = *solver;
            proof {
                assert(op.successors@[k as int] == *successor);
                lemma_grows_refl(s2);
            }
            let mut i: usize = 0;
            while i < successor.forwarded.len()
                invariant
                    op.wf(values, body.regions@.len() as int, nf, nb),
                    k < op.successors@.len(),
                    *successor == op.successors@[k as int],
                    s2.spec_node_count() == values + nb,
                    nb == module.bindings@.len(),
                    i <= successor.forwarded@.len(),
                    grows(
                        s2,
                        *solver,
                        no_known(),
                        no_node(),
                        no_node(),
                        |s: int, t: int| exists|q: int|
                            #![trigger successor.forwarded@[q]]
                            0 <= q < i && successor.forwarded@[q].0 as int == t && successor.forwarded@[q].1 as int == s,
                        no_pair(),
                        no_node(),
                    ),
                decreases successor.forwarded@.len() - i,
            {
                let ghost s3 = *solver;
                let (parameter, argument) = successor.forwarded[i];
                proof {
                    assert(successor.forwarded@[i as int] == (parameter, argument));
                    assert(op.successors@[k as int].forwarded@[i as int] == (parameter, argument));
                }
                copy(solver, argument, parameter);
                proof {
                    lemma_chain(
                        s2, s3, *solver,
                        no_known(), no_node(), no_node(),
                        |s: int, t: int| exists|q: int|
                            #![trigger successor.forwarded@[q]]
                            0 <= q < i && successor.forwarded@[q].0 as int == t && successor.forwarded@[q].1 as int == s,
                        no_pair(), no_node(),
                        no_known(), no_node(), no_node(), |s: int, t: int| s == argument && t == parameter, no_pair(), no_node(),
                        no_known(), no_node(), no_node(),
                        |s: int, t: int| exists|q: int|
                            #![trigger successor.forwarded@[q]]
                            0 <= q < i + 1 && successor.forwarded@[q].0 as int == t && successor.forwarded@[q].1 as int == s,
                        no_pair(), no_node(),
                    );
                }
                i = i + 1;
            }
            proof {
                lemma_chain(
                    s1, s2, *solver,
                    no_known(), no_node(), no_node(),
                    |s: int, t: int| exists|q: int| #![trigger op.successors@[q]] 0 <= q < k && forwards(op.successors@[q], t, s),
                    no_pair(), no_node(),
                    no_known(), no_node(), no_node(),
                    |s: int, t: int| forwards(*successor, t, s),
                    no_pair(), no_node(),
                    no_known(), no_node(), no_node(),
                    |s: int, t: int| exists|q: int| #![trigger op.successors@[q]] 0 <= q < k + 1 && forwards(op.successors@[q], t, s),
                    no_pair(), no_node(),
                );
            }
            k = k + 1;
        }
        proof {
            lemma_chain(
                s0, s1, *solver,
                no_known(), no_node(), no_node(),
                |s: int, t: int| exists|q: int| #![trigger body.operations@[q]] 0 <= q < j && op_forwards(body.operations@[q], t, s),
                no_pair(), no_node(),
                no_known(), no_node(), no_node(),
                |s: int, t: int| op_forwards(*op, t, s),
                no_pair(), no_node(),
                no_known(), no_node(), no_node(),
                |s: int, t: int| exists|q: int| #![trigger body.operations@[q]] 0 <= q < j + 1 && op_forwards(body.operations@[q], t, s),
                no_pair(), no_node(),
            );
        }
        j = j + 1;
    }
}

/// Adds the containments and seeds of the values the regions of `function` yield.
pub fn add_region_flow(solver: &mut PointerSolver, module: &ModuleIr, function: usize)
    requires
        old(solver).wf(),
        module.wf(),
        function < module.functions@.len(),
        old(solver).spec_node_count() == module.functions@[function as int].value_count + module.bindings@.len(),
        claims_ready(
            module.functions@[function as int].operations@,
            module.functions@[function as int].regions@.len() as int,
            false,
        ),
        crate::flow::distinct_regions(crate::flow::function_claims(module.functions@[function as int].operations@, false)),
    ensures
        grows(
            *old(solver),
            *final(solver),
            no_known(),
            no_node(),
            no_node(),
            no_pair(),
            |a: int, c: int| exists|r: int|
                #![trigger module.functions@[function as int].regions@[r]]
                0 <= r < module.functions@[function as int].regions@.len() && region_contains(
                    module.functions@[function as int],
                    r,
                    a,
                    c,
                ),
            |x: int| exists|r: int|
                #![trigger module.functions@[function as int].regions@[r]]
                0 <= r < module.functions@[function as int].regions@.len() && region_seeds(
                    module.functions@[function as int],
                    r,
                    x,
                ),
        ),
{
    let ghost s0 = *solver;
    let body = &module.functions[function];
    let ghost values = body.value_count as int;
    let ghost claims = pointer_claims(*body);
    proof {
        s0.lemma_wf();
        lemma_grows_refl(s0);
        assert(body.wf(module.functions@.len() as int, module.bindings@.len() as int));
        lemma_claim_containers(*body, module.functions@.len() as int, module.bindings@.len() as int, false);
    }
    let roles = region_roles(body, false);
    let mut r: usize = 0;
    while r < body.regions.len()
        invariant
            *body == module.functions@[function as int],
            body.wf(module.functions@.len() as int, module.bindings@.len() as int),
            values == body.value_count,
            s0.spec_node_count() == values + module.bindings@.len(),
            claims == pointer_claims(*body),
            roles@.len() == body.regions@.len(),
            roles_match(roles@, claims),
            forall|q: int|
                #![trigger role_in(function_claims(body.operations@, false), q)]
                (role_in(function_claims(body.operations@, false), q) matches Some(RegionRole::ContainedBy(c)) ==> c < values),
            r <= body.regions@.len(),
            grows(
                s0,
                *solver,
                no_known(),
                no_node(),
                no_node(),
                no_pair(),
                |a: int, c: int| exists|q: int| #![trigger body.regions@[q]] 0 <= q < r && region_contains(*body, q, a, c),
                |x: int| exists|q: int| #![trigger body.regions@[q]] 0 <= q < r && region_seeds(*body, q, x),
            ),
        decreases body.regions@.len() - r,
    {
        let region = &body.regions[r];
        let ghost s1 = *solver;
        proof {
            assert(body.regions@[r as int] == *region);
            assert(region.wf(values));
            assert(roles@[r as int] == role_in(claims, r as int));
        }
        let role = roles[r];
        let (contain_in, escape) = match region.owner {
            RegionOwner::FunctionBody => (None, false),
            RegionOwner::FunctionParameter | RegionOwner::Detached => (None, true),
            RegionOwner::Operation => match role {
                Some(RegionRole::ContainedBy(container)) => (Some(container), false),
                Some(RegionRole::ObservedOnly) => (None, false),
                _ => (None, true),
            },
        };
        let ghost here_seed = |x: int| region_seeds(*body, r as int, x);
        let ghost here_contain = |a: int, c: int| region_contains(*body, r as int, a, c);
        if escape {
            seed_values(solver, &region.yielded);
            proof {
                lemma_grows_refl(*solver);
                lemma_chain(
                    s1, *solver, *solver,
                    no_known(), no_node(), no_node(), no_pair(), no_pair(),
                    |x: int| exists|k: int| #![trigger region.yielded@[k]] 0 <= k < region.yielded@.len() && region.yielded@[k] as int == x,
                    no_known(), no_node(), no_node(), no_pair(), no_pair(), no_node(),
                    no_known(), no_node(), no_node(), no_pair(), here_contain, here_seed,
                );
            }
        } else {
            match contain_in {
                Some(container) => {
                    proof {
                        assert(role_in(claims, r as int) matches Some(RegionRole::ContainedBy(c)) && c == container);
                        assert(container < values);
                        lemma_grows_refl(s1);
                    }
                    let mut i: usize = 0;
                    while i < region.yielded.len()
                        invariant
                            region.wf(values),
                            container < values,
                            s1.spec_node_count() == values + module.bindings@.len(),
                            i <= region.yielded@.len(),
                            grows(
                                s1,
                                *solver,
                                no_known(),
                                no_node(),
                                no_node(),
                                no_pair(),
                                |a: int, c: int| a == container && exists|k: int| #![trigger region.yielded@[k]] 0 <= k < i && region.yielded@[k] as int == c,
                                no_node(),
                            ),
                        decreases region.yielded@.len() - i,
                    {
                        let ghost s2 = *solver;
                        let y = region.yielded[i];
                        contain(solver, container, y);
                        proof {
                            lemma_chain(
                                s1, s2, *solver,
                                no_known(), no_node(), no_node(), no_pair(),
                                |a: int, c: int| a == container && exists|k: int| #![trigger region.yielded@[k]] 0 <= k < i && region.yielded@[k] as int == c,
                                no_node(),
                                no_known(), no_node(), no_node(), no_pair(), |a: int, c: int| a == container && c == y, no_node(),
                                no_known(), no_node(), no_node(), no_pair(),
                                |a: int, c: int| a == container && exists|k: int| #![trigger region.yielded@[k]] 0 <= k < i + 1 && region.yielded@[k] as int == c,
                                no_node(),
                            );
                        }
                        i = i + 1;
                    }
                    proof {
                        lemma_grows_refl(*solver);
                        lemma_chain(
                            s1, *solver, *solver,
                            no_known(), no_node(), no_node(), no_pair(),
                            |a: int, c: int| a == container && exists|k: int| #![trigger region.yielded@[k]] 0 <= k < region.yielded@.len() && region.yielded@[k] as int == c,
                            no_node(),
                            no_known(), no_node(), no_node(), no_pair(), no_pair(), no_node(),
                            no_known(), no_node(), no_node(), no_pair(), here_contain, here_seed,
                        );
                    }
                },
                None => {
                    proof {
                        lemma_grows_refl(s1);
                        lemma_chain(
                            s1, s1, *solver,
                            no_known(), no_node(), no_node(), no_pair(), no_pair(), no_node(),
                            no_known(), no_node(), no_node(), no_pair(), no_pair(), no_node(),
                            no_known(), no_node(), no_node(), no_pair(), here_contain, here_seed,
                        );
                    }
                },
            }
        }
        proof {
            lemma_chain(
                s0, s1, *solver,
                no_known(), no_node(), no_node(), no_pair(),
                |a: int, c: int| exists|q: int| #![trigger body.regions@[q]] 0 <= q < r && region_contains(*body, q, a, c),
                |x: int| exists|q: int| #![trigger body.regions@[q]] 0 <= q < r && region_seeds(*body, q, x),
                no_known(), no_node(), no_node(), no_pair(), here_contain, here_seed,
                no_known(), no_node(), no_node(), no_pair(),
                |a: int, c: int| exists|q: int| #![trigger body.regions@[q]] 0 <= q < r + 1 && region_contains(*body, q, a, c),
                |x: int| exists|q: int| #![trigger body.regions@[q]] 0 <= q < r + 1 && region_seeds(*body, q, x),
            );
        }
        r = r + 1;
    }
}

/// The pointer problem of function `function` holds exactly the facts,
/// copies, containments, seeds and objects that the function gives it.
pub open spec fn is_pointer_problem(solver: PointerSolver, module: ModuleIr, function: int) -> bool {
    let body = module.functions@[function];
    let n = body.value_count + module.bindings@.len();
    &&& solver.wf()
    &&& solver.spec_node_count() == n
    &&& objects_follow(solver, object_plan(body.operations@, body.operations@.len() as int))
    &&& forall|x: int|
        #![trigger solver.spec_facts()[x]]
        0 <= x < n ==> {
            &&& forall|i: nat|
                #![trigger solver.spec_facts()[x].known().contains(i)]
                solver.spec_facts()[x].known().contains(i) <==> initial_known(module, function, x).contains(i)
            &&& solver.spec_facts()[x].spec_unknown_object() == initial_unknown_object(module, function, x)
            &&& solver.spec_facts()[x].spec_primitive() == initial_primitive(module, function, x)
        }
    &&& forall|s: int, t: int|
        #![trigger list_step(solver.spec_copy_edges())(s, t)]
        list_step(solver.spec_copy_edges())(s, t) <==> pointer_copies(module, function)(s, t)
    &&& forall|x: int, y: int|
        #![trigger list_step(solver.spec_escape_dependencies())(x, y)]
        list_step(solver.spec_escape_dependencies())(x, y) <==> pointer_escape_edges(module, function)(x, y)
    &&& forall|x: int| #![trigger solver.spec_seeds().contains(x)] solver.spec_seeds().contains(x) <==> pointer_seed(module, function, x)
}

/// Builds the pointer problem of function `function`.
pub fn pointer_problem(module: &ModuleIr, function: usize, owner: crate::points_to::AnalysisOwner) -> (solver: PointerSolver)
    requires
        module.wf(),
        function < module.functions@.len(),
        pointer_analyzable(*module, function as int),
    ensures
        is_pointer_problem(solver, *module, function as int),
        solver.spec_owner() == owner,
{
    let body = &module.functions[function];
    let ghost m = *module;
    let ghost f = function as int;
    let ghost ops = body.operations@;
    let ghost vc = body.value_count as int;
    let ghost nf = module.functions@.len() as int;
    let ghost nb = module.bindings@.len() as int;
    proof {
        assert(body.wf(nf, nb));
    }
    let mut solver = PointerSolver::new(owner, body.value_count + module.bindings.len());
    let ghost s0 = solver;
    proof {
        s0.lemma_wf();
        assert forall|x: int, y: int| !#[trigger] list_step(s0.spec_copy_edges())(x, y) by {
            if list_step(s0.spec_copy_edges())(x, y) {
                let k = choose|k: int| #![trigger s0.spec_copy_edges()[x]@[k]] 0 <= k < s0.spec_copy_edges()[x]@.len() && s0.spec_copy_edges()[x]@[k] as int == y;
            }
        }
        assert forall|x: int, y: int| !#[trigger] list_step(s0.spec_escape_dependencies())(x, y) by {
            if list_step(s0.spec_escape_dependencies())(x, y) {
                let k = choose|k: int|
                    #![trigger s0.spec_escape_dependencies()[x]@[k]]
                    0 <= k < s0.spec_escape_dependencies()[x]@.len() && s0.spec_escape_dependencies()[x]@[k] as int == y;
            }
        }
        assert(objects_follow(s0, object_plan(ops, 0)));
    }
    initialize_boundary_facts(&mut solver, module, function);
    let ghost s1 = solver;
    add_block_parameter_flow(&mut solver, module, function);
    let ghost s2 = solver;
    proof {
        lemma_chain(
            s0, s1, s2,
            no_known(), |x: int| boundary_unknown(m, f, x) || boundary_self(m, f, x), |x: int| boundary_unknown(m, f, x),
            no_pair(), no_pair(), no_node(),
            no_known(), no_node(), no_node(), |s: int, t: int| function_forwards(*body, t, s), no_pair(), no_node(),
            no_known(), |x: int| boundary_unknown(m, f, x) || boundary_self(m, f, x), |x: int| boundary_unknown(m, f, x),
            |s: int, t: int| function_forwards(*body, t, s), no_pair(), no_node(),
        );
        lemma_grows_refl(s2);
    }
    let mut j: usize = 0;
    while j < body.operations.len()
        invariant
            module.wf(),
            function < module.functions@.len(),
            *body == module.functions@[function as int],
            m == *module,
            f == function as int,
            ops == body.operations@,
            vc == body.value_count,
            nf == module.functions@.len(),
            nb == module.bindings@.len(),
            body.wf(nf, nb),
            pointer_analyzable(m, f),
            s2.spec_node_count() == vc + nb,
            j <= ops.len(),
            objects_follow(solver, object_plan(ops, j as int)),
            grows_core(
                s2,
                solver,
                |x: int, i: nat| exists|t: int| #![trigger ops[t]] 0 <= t < j && op_known(ops, t, x, i),
                |x: int| exists|t: int| #![trigger ops[t]] 0 <= t < j && op_unknown_object(ops[t], vc, x),
                |x: int| exists|t: int| #![trigger ops[t]] 0 <= t < j && op_primitive(ops[t], vc, x),
                |s: int, t2: int| exists|t: int| #![trigger ops[t]] 0 <= t < j && op_copy(ops[t], vc, s, t2),
                |a: int, c: int| exists|t: int| #![trigger ops[t]] 0 <= t < j && op_contain(m, f, ops[t], a, c),
                |x: int| exists|t: int| #![trigger ops[t]] 0 <= t < j && pointer_op_seed(m, f, ops[t], x),
            ),
        decreases ops.len() - j,
    {
        let ghost s3 = solver;
        proof {
            assert(ops[j as int].wf(vc, body.regions@.len() as int, nf, nb));
            assert(pointer_ready(ops[j as int]));
        }
        add_operation_flow(&mut solver, module, function, j);
        proof {
            lemma_chain_core(
                s2, s3, solver,
                |x: int, i: nat| exists|t: int| #![trigger ops[t]] 0 <= t < j && op_known(ops, t, x, i),
                |x: int| exists|t: int| #![trigger ops[t]] 0 <= t < j && op_unknown_object(ops[t], vc, x),
                |x: int| exists|t: int| #![trigger ops[t]] 0 <= t < j && op_primitive(ops[t], vc, x),
                |s: int, t2: int| exists|t: int| #![trigger ops[t]] 0 <= t < j && op_copy(ops[t], vc, s, t2),
                |a: int, c: int| exists|t: int| #![trigger ops[t]] 0 <= t < j && op_contain(m, f, ops[t], a, c),
                |x: int| exists|t: int| #![trigger ops[t]] 0 <= t < j && pointer_op_seed(m, f, ops[t], x),
                |x: int, i: nat| op_known(ops, j as int, x, i),
                |x: int| op_unknown_object(ops[j as int], vc, x),
                |x: int| op_primitive(ops[j as int], vc, x),
                |s: int, t: int| op_copy(ops[j as int], vc, s, t),
                |a: int, c: int| op_contain(m, f, ops[j as int], a, c),
                |x: int| pointer_op_seed(m, f, ops[j as int], x),
                |x: int, i: nat| exists|t: int| #![trigger ops[t]] 0 <= t < j + 1 && op_known(ops, t, x, i),
                |x: int| exists|t: int| #![trigger ops[t]] 0 <= t < j + 1 && op_unknown_object(ops[t], vc, x),
                |x: int| exists|t: int| #![trigger ops[t]] 0 <= t < j + 1 && op_primitive(ops[t], vc, x),
                |s: int, t2: int| exists|t: int| #![trigger ops[t]] 0 <= t < j + 1 && op_copy(ops[t], vc, s, t2),
                |a: int, c: int| exists|t: int| #![trigger ops[t]] 0 <= t < j + 1 && op_contain(m, f, ops[t], a, c),
                |x: int| exists|t: int| #![trigger ops[t]] 0 <= t < j + 1 && pointer_op_seed(m, f, ops[t], x),
            );
        }
        j = j + 1;
    }
    let ghost s4 = solver;
    proof {
        assert forall|q: int|
            #![trigger ops[q]]
            0 <= q < ops.len() implies {
                &&& crate::ir::all_below(ops[q].regions@, body.regions@.len() as int)
                &&& crate::ir::kind_regions_below(ops[q].kind, body.regions@.len() as int)
                &&& crate::flow::is_region_container(ops[q], false) ==> ops[q].results@.len() > 0
            } by {
            assert(ops[q].wf(vc, body.regions@.len() as int, nf, nb));
            assert(pointer_ready(ops[q]));
        }
    }
    add_region_flow(&mut solver, module, function);
    proof {
        lemma_chain_core(
            s2, s4, solver,
            |x: int, i: nat| exists|t: int| #![trigger ops[t]] 0 <= t < ops.len() && op_known(ops, t, x, i),
            |x: int| exists|t: int| #![trigger ops[t]] 0 <= t < ops.len() && op_unknown_object(ops[t], vc, x),
            |x: int| exists|t: int| #![trigger ops[t]] 0 <= t < ops.len() && op_primitive(ops[t], vc, x),
            |s: int, t2: int| exists|t: int| #![trigger ops[t]] 0 <= t < ops.len() && op_copy(ops[t], vc, s, t2),
            |a: int, c: int| exists|t: int| #![trigger ops[t]] 0 <= t < ops.len() && op_contain(m, f, ops[t], a, c),
            |x: int| exists|t: int| #![trigger ops[t]] 0 <= t < ops.len() && pointer_op_seed(m, f, ops[t], x),
            no_known(), no_node(), no_node(), no_pair(),
            |a: int, c: int| exists|r: int| #![trigger body.regions@[r]] 0 <= r < body.regions@.len() && region_contains(*body, r, a, c),
            |x: int| exists|r: int| #![trigger body.regions@[r]] 0 <= r < body.regions@.len() && region_seeds(*body, r, x),
            |x: int, i: nat| exists|t: int| #![trigger ops[t]] 0 <= t < ops.len() && op_known(ops, t, x, i),
            |x: int| exists|t: int| #![trigger ops[t]] 0 <= t < ops.len() && op_unknown_object(ops[t], vc, x),
            |x: int| exists|t: int| #![trigger ops[t]] 0 <= t < ops.len() && op_primitive(ops[t], vc, x),
            |s: int, t2: int| exists|t: int| #![trigger ops[t]] 0 <= t < ops.len() && op_copy(ops[t], vc, s, t2),
            |a: int, c: int| pointer_contains(m, f)(a, c),
            |x: int| pointer_seed(m, f, x),
        );
        lemma_chain_core(
            s0, s2, solver,
            no_known(), |x: int| boundary_unknown(m, f, x) || boundary_self(m, f, x), |x: int| boundary_unknown(m, f, x),
            |s: int, t: int| function_forwards(*body, t, s), no_pair(), no_node(),
            |x: int, i: nat| exists|t: int| #![trigger ops[t]] 0 <= t < ops.len() && op_known(ops, t, x, i),
            |x: int| exists|t: int| #![trigger ops[t]] 0 <= t < ops.len() && op_unknown_object(ops[t], vc, x),
            |x: int| exists|t: int| #![trigger ops[t]] 0 <= t < ops.len() && op_primitive(ops[t], vc, x),
            |s: int, t2: int| exists|t: int| #![trigger ops[t]] 0 <= t < ops.len() && op_copy(ops[t], vc, s, t2),
            |a: int, c: int| pointer_contains(m, f)(a, c),
            |x: int| pointer_seed(m, f, x),
            |x: int, i: nat| initial_known(m, f, x).contains(i),
            |x: int| initial_unknown_object(m, f, x),
            |x: int| initial_primitive(m, f, x),
            |s: int, t: int| pointer_copies(m, f)(s, t),
            |a: int, c: int| pointer_contains(m, f)(a, c),
            |x: int| pointer_seed(m, f, x),
        );
        assert forall|x: int|
            #![trigger solver.spec_facts()[x]]
            0 <= x < vc + nb implies {
                &&& forall|i: nat|
                    #![trigger solver.spec_facts()[x].known().contains(i)]
                    solver.spec_facts()[x].known().contains(i) <==> initial_known(m, f, x).contains(i)
                &&& solver.spec_facts()[x].spec_unknown_object() == initial_unknown_object(m, f, x)
                &&& solver.spec_facts()[x].spec_primitive() == initial_primitive(m, f, x)
            } by {
            assert(s0.spec_facts()[x].known() == Set::<nat>::empty());
        }
    }
    solver
}

/// The known objects that reach node `x` of function `function` along its copy edges.
pub open spec fn reaching_objects(module: ModuleIr, function: int, x: int) -> Set<nat> {
    let n = module.functions@[function].value_count + module.bindings@.len();
    Set::new(
        |i: nat|
            exists|y: int|
                #![trigger initial_known(module, function, y)]
                0 <= y < n && crate::paths::reaches(pointer_copies(module, function), y, x) && initial_known(
                    module,
                    function,
                    y,
                ).contains(i),
    )
}

/// Whether an unmodelled object reaches node `x` of function `function` along its copy edges.
pub open spec fn reaching_unknown_object(module: ModuleIr, function: int, x: int) -> bool {
    let n = module.functions@[function].value_count + module.bindings@.len();
    exists|y: int|
        #![trigger initial_unknown_object(module, function, y)]
        0 <= y < n && crate::paths::reaches(pointer_copies(module, function), y, x) && initial_unknown_object(
            module,
            function,
            y,
        )
}

/// Whether a primitive value reaches node `x` of function `function` along its copy edges.
pub open spec fn reaching_primitive(module: ModuleIr, function: int, x: int) -> bool {
    let n = module.functions@[function].value_count + module.bindings@.len();
    exists|y: int|
        #![trigger initial_primitive(module, function, y)]
        0 <= y < n && crate::paths::reaches(pointer_copies(module, function), y, x) && initial_primitive(
            module,
            function,
            y,
        )
}

/// Whether node `x` of function `function` escapes: a seed reaches it along the escape edges.
pub open spec fn node_escapes(module: ModuleIr, function: int, x: int) -> bool {
    exists|s: int| #[trigger] pointer_seed(module, function, s) && crate::paths::reaches(pointer_escape_edges(module, function), s, x)
}

/// The known objects of the nodes of function `function` that escape.
pub open spec fn escaping_objects(module: ModuleIr, function: int) -> Set<nat> {
    let n = module.functions@[function].value_count + module.bindings@.len();
    Set::new(
        |i: nat|
            exists|x: int|
                #![trigger reaching_objects(module, function, x)]
                0 <= x < n && node_escapes(module, function, x) && reaching_objects(module, function, x).contains(i),
    )
}

/// A value that the function hands to code outside it leaves the
/// activation: each operand of a `return` or a `throw`, of a call, a
/// construction or a template tag, of a property or global access, of a
/// destructuring, an update, an `await` or a `yield`, of a JSX element or a
/// `for-in`/`for-of` loop, or of an `import()` is a pointer escape seed, it
/// escapes, and every object it may point to is among the escaping objects.
pub proof fn lemma_handed_out_objects_escape(module: ModuleIr, function: int, j: int, k: int)
    requires
        module.wf(),
        0 <= function < module.functions@.len(),
        0 <= j < module.functions@[function].operations@.len(),
        (match module.functions@[function].operations@[j].kind {
            OperationKind::DestructureBinding | OperationKind::DestructureAssignment | OperationKind::StoreGlobal
            | OperationKind::LoadSuperProperty | OperationKind::StoreSuperProperty | OperationKind::LoadProperty
            | OperationKind::StoreProperty | OperationKind::Update | OperationKind::Await | OperationKind::Yield
            | OperationKind::Call { .. } | OperationKind::SuperCall | OperationKind::Construct
            | OperationKind::TaggedTemplate { .. } | OperationKind::TemplateLiteral | OperationKind::JsxElement
            | OperationKind::JsxFragment | OperationKind::ForIn | OperationKind::ForOf | OperationKind::Return
            | OperationKind::Throw | OperationKind::DynamicImport { .. } => true,
            _ => false,
        }),
        0 <= k < module.functions@[function].operations@[j].operands@.len(),
    ensures
        pointer_seed(module, function, module.functions@[function].operations@[j].operands@[k] as int),
        node_escapes(module, function, module.functions@[function].operations@[j].operands@[k] as int),
        reaching_objects(module, function, module.functions@[function].operations@[j].operands@[k] as int).subset_of(
            escaping_objects(module, function),
        ),
{
    let body = module.functions@[function];
    let op = body.operations@[j];
    let x = op.operands@[k] as int;
    assert(body.wf(module.functions@.len() as int, module.bindings@.len() as int));
    assert(op.wf(body.value_count as int, body.regions@.len() as int, module.functions@.len() as int, module.bindings@.len() as int));
    assert(op.operands@[k] < body.value_count);
    assert(names_operand(op, x));
    assert(pointer_op_seed(module, function, body.operations@[j], x));
    assert(pointer_seed(module, function, x));
    crate::paths::lemma_reaches_self(pointer_escape_edges(module, function), x);
    assert(node_escapes(module, function, x));
    assert forall|i: nat| reaching_objects(module, function, x).contains(i) implies #[trigger] escaping_objects(
        module,
        function,
    ).contains(i) by {
        assert(reaching_objects(module, function, x).contains(i));
    }
}

} // verus!
