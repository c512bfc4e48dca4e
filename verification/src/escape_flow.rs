//! How the operations, block parameters and regions of one function feed its
//! escape graph.
//!
//! The graph has a node for each value of the function, numbered as the
//! values are, followed by a node for each binding of the module: binding `b`
//! is node `value_count + b`.

use vstd::prelude::*;

use crate::flow::captured_bindings;
use crate::flow::captured_through;
use crate::flow::function_claims;
use crate::flow::has_static_initialization;
use crate::flow::is_direct_eval;
use crate::flow::is_direct_eval_call;
use crate::flow::claims_of;
use crate::flow::claims_ready;
use crate::flow::distinct_regions;
use crate::flow::op_claims;
use crate::flow::region_roles;
use crate::flow::role_in;
use crate::flow::roles_match;
use crate::flow::RegionRole;
use crate::flow::runs_static_initialization;
use crate::function_escape::EscapeGraph;
use crate::ir::BindingKind;
use crate::ir::FunctionIr;
use crate::ir::ModuleExport;
use crate::ir::ModuleIr;
use crate::ir::export_binding;
use crate::ir::Region;
use crate::ir::RegionOwner;
use crate::ir::Operation;
use crate::ir::OperationKind;
use crate::pointer_solver::list_step;
use crate::transfer::BinaryOperator;
use crate::transfer::UnaryOperator;

verus! {

/// Whether binding `b` is declared by function `function`.
pub open spec fn is_local_binding(module: ModuleIr, function: int, b: int) -> bool {
    0 <= b < module.bindings@.len() && module.bindings@[b].declaring_function as int == function
}

/// Whether the module exports binding `b`.
pub open spec fn is_exported(module: ModuleIr, b: int) -> bool {
    exists|i: int|
        #![trigger module.exports@[i]]
        0 <= i < module.exports@.len() && (export_binding(module.exports@[i]) matches Some(x) && x as int == b)
}

/// Whether node `x` is the node of a binding that function `function` declares.
pub open spec fn is_local_binding_node(module: ModuleIr, function: int, x: int) -> bool {
    let values = module.functions@[function].value_count as int;
    values <= x && is_local_binding(module, function, x - values)
}

/// Whether `op` has `x` among its operands.
pub open spec fn names_operand(op: Operation, x: int) -> bool {
    exists|k: int| #![trigger op.operands@[k]] 0 <= k < op.operands@.len() && op.operands@[k] as int == x
}

/// Whether an operation of this kind may retain its operands beyond the
/// activation, handing them to code the analysis does not follow.
pub open spec fn retains_operands(kind: OperationKind) -> bool {
    match kind {
        OperationKind::DestructureBinding | OperationKind::DestructureAssignment | OperationKind::StoreGlobal
        | OperationKind::LoadSuperProperty | OperationKind::StoreSuperProperty | OperationKind::LoadProperty
        | OperationKind::StoreProperty | OperationKind::Update | OperationKind::Await | OperationKind::Yield
        | OperationKind::Call { .. } | OperationKind::SuperCall | OperationKind::Construct
        | OperationKind::TaggedTemplate { .. } | OperationKind::TemplateLiteral | OperationKind::JsxElement
        | OperationKind::JsxFragment | OperationKind::ForIn | OperationKind::ForOf | OperationKind::Return
        | OperationKind::Throw | OperationKind::EnterFinally | OperationKind::DynamicImport { .. } => true,
        OperationKind::Delete { property } => property,
        OperationKind::Unary(operator) => !(operator is LogicalNot || operator is Void),
        OperationKind::Binary(operator) => !(operator is StrictEqual || operator is StrictNotEqual),
        _ => false,
    }
}

/// The binding an operation of this kind stores its first operand into.
pub open spec fn stored_binding(kind: OperationKind) -> Option<usize> {
    match kind {
        OperationKind::InitializeBinding { binding } => Some(binding),
        OperationKind::StoreBinding { binding } => Some(binding),
        _ => None,
    }
}

/// Whether an operation of this kind creates a value that carries the
/// bindings its referenced functions capture.
pub open spec fn carries_captures(kind: OperationKind) -> bool {
    kind is CreateFunction || kind is CreateClass || kind is ObjectLiteral
}

/// Whether binding `b` of function `function` is captured by a function that
/// `op` references.
pub open spec fn captured_by_operation(module: ModuleIr, function: int, op: Operation, b: int) -> bool {
    exists|i: int|
        #![trigger op.referenced_functions@[i]]
        0 <= i < op.referenced_functions@.len() && captured_through(module, function, op.referenced_functions@[i] as int, b)
}

/// Whether `op` has the results and operands that its kind reads.
pub open spec fn escape_ready(op: Operation) -> bool {
    &&& (op.kind is CreateClass || op.kind is DynamicImport || op.kind is LoadArguments || op.kind is LoadBinding)
        ==> op.results@.len() > 0
    &&& stored_binding(op.kind) is Some ==> op.operands@.len() > 0
}

/// Whether operation `op` of function `function` seeds node `x` as escaping.
pub open spec fn escape_op_seed(module: ModuleIr, function: int, op: Operation, x: int) -> bool {
    let values = module.functions@[function].value_count as int;
    ||| retains_operands(op.kind) && names_operand(op, x)
    ||| op.kind is DynamicImport && x == op.results@[0] as int
    ||| (op.kind matches OperationKind::CreateClass { elements, .. } && runs_static_initialization(elements@) && x
        == op.results@[0] as int)
    ||| (op.kind is Debugger || is_direct_eval(module, module.functions@[function], op)) && is_local_binding_node(
        module,
        function,
        x,
    )
    ||| (stored_binding(op.kind) matches Some(b) && x == values + b && (!is_local_binding(module, function, b as int)
        || is_exported(module, b as int)))
}

/// Whether operation `op` of function `function` makes node `c` escape whenever node `a` does.
pub open spec fn escape_op_edge(module: ModuleIr, function: int, op: Operation, a: int, c: int) -> bool {
    let values = module.functions@[function].value_count as int;
    ||| carries_captures(op.kind) && !op.invoked && op.results@.len() > 0 && a == op.results@[0] as int && values <= c
        && captured_by_operation(module, function, op, c - values)
    ||| (op.kind matches OperationKind::CreateClass { self_binding: Some(b), .. } && a == values + b && c
        == op.results@[0] as int)
    ||| op.kind is LoadArguments && a == op.results@[0] as int && values <= c && is_local_binding(
        module,
        function,
        c - values,
    ) && module.bindings@[c - values].kind == BindingKind::Parameter
    ||| (stored_binding(op.kind) matches Some(b) && a == values + b && c == op.operands@[0] as int)
    ||| (op.kind matches OperationKind::LoadBinding { binding } && a == op.results@[0] as int && c == values
        + binding)
}

/// The number of nodes of the escape graph of function `function`.
pub open spec fn escape_node_count(module: ModuleIr, function: int) -> int {
    module.functions@[function].value_count + module.bindings@.len()
}

/// Adds the edge from `a` to `c`.
fn add_edge(graph: &mut EscapeGraph, a: usize, c: usize)
    requires
        old(graph).wf(),
        a < old(graph).spec_node_count(),
        c < old(graph).spec_node_count(),
    ensures
        final(graph).wf(),
        final(graph).spec_node_count() == old(graph).spec_node_count(),
        final(graph).spec_seeds() == old(graph).spec_seeds(),
        forall|x: int, y: int|
            #![trigger list_step(final(graph).spec_dependencies())(x, y)]
            list_step(final(graph).spec_dependencies())(x, y) <==> (list_step(old(graph).spec_dependencies())(x, y) || (x
                == a as int && y == c as int)),
{
    let ghost d0 = graph.spec_dependencies();
    proof {
        graph.lemma_wf();
    }
    graph.add_escape_dependency(a, c);
    let ghost d1 = graph.spec_dependencies();
    proof {
        graph.lemma_wf();
        assert forall|x: int, y: int|
            #![trigger list_step(d1)(x, y)]
            list_step(d1)(x, y) <==> (list_step(d0)(x, y) || (x == a as int && y == c as int)) by {
            if 0 <= x < d0.len() && x != a as int {
                assert(d1[x] == d0[x]);
            }
            if x == a as int {
                if list_step(d1)(x, y) {
                    let k = choose|k: int| #![trigger d1[x]@[k]] 0 <= k < d1[x]@.len() && d1[x]@[k] as int == y;
                    assert(d1[x]@.contains(d1[x]@[k]));
                    if d0[x]@.contains(d1[x]@[k]) {
                        let k0 = choose|k0: int| 0 <= k0 < d0[x]@.len() && d0[x]@[k0] == d1[x]@[k];
                        assert(d0[x]@[k0] as int == y);
                    }
                }
                if list_step(d0)(x, y) {
                    let k = choose|k: int| #![trigger d0[x]@[k]] 0 <= k < d0[x]@.len() && d0[x]@[k] as int == y;
                    assert(d0[x]@.contains(d0[x]@[k]));
                    assert(d1[x]@.contains(d0[x]@[k]));
                    let k1 = choose|k1: int| 0 <= k1 < d1[x]@.len() && d1[x]@[k1] == d0[x]@[k];
                    assert(d1[x]@[k1] as int == y);
                }
                if y == c as int {
                    assert(d1[x]@.contains(c));
                    let k1 = choose|k1: int| 0 <= k1 < d1[x]@.len() && d1[x]@[k1] == c;
                    assert(d1[x]@[k1] as int == y);
                }
            }
        }
    }
}

/// Seeds every value in `values`.
fn seed_values(graph: &mut EscapeGraph, values: &Vec<usize>)
    requires
        old(graph).wf(),
        forall|i: int| #![trigger values@[i]] 0 <= i < values@.len() ==> values@[i] < old(graph).spec_node_count(),
    ensures
        final(graph).wf(),
        final(graph).spec_node_count() == old(graph).spec_node_count(),
        final(graph).spec_dependencies() == old(graph).spec_dependencies(),
        final(graph).spec_seeds() == old(graph).spec_seeds().union(
            Set::new(|x: int| exists|k: int| #![trigger values@[k]] 0 <= k < values@.len() && values@[k] as int == x),
        ),
{
    let ghost s0 = graph.spec_seeds();
    let mut i: usize = 0;
    while i < values.len()
        invariant
            graph.wf(),
            i <= values@.len(),
            graph.spec_node_count() == old(graph).spec_node_count(),
            graph.spec_dependencies() == old(graph).spec_dependencies(),
            forall|k: int| #![trigger values@[k]] 0 <= k < values@.len() ==> values@[k] < old(graph).spec_node_count(),
            graph.spec_seeds() == s0.union(
                Set::new(|x: int| exists|k: int| #![trigger values@[k]] 0 <= k < i && values@[k] as int == x),
            ),
        decreases values@.len() - i,
    {
        graph.seed(values[i]);
        proof {
            assert(values@[i as int] == values[i as int]);
            assert(graph.spec_seeds() =~= s0.union(
                Set::new(|x: int| exists|k: int| #![trigger values@[k]] 0 <= k < i + 1 && values@[k] as int == x),
            ));
        }
        i = i + 1;
    }
}

/// Seeds the node of every binding that function `function` declares.
fn seed_local_bindings(graph: &mut EscapeGraph, module: &ModuleIr, function: usize)
    requires
        old(graph).wf(),
        module.wf(),
        function < module.functions@.len(),
        old(graph).spec_node_count() == escape_node_count(*module, function as int),
    ensures
        final(graph).wf(),
        final(graph).spec_node_count() == old(graph).spec_node_count(),
        final(graph).spec_dependencies() == old(graph).spec_dependencies(),
        final(graph).spec_seeds() == old(graph).spec_seeds().union(
            Set::new(|x: int| is_local_binding_node(*module, function as int, x)),
        ),
{
    let ghost s0 = graph.spec_seeds();
    proof {
        graph.lemma_wf();
    }
    let values = module.functions[function].value_count;
    let mut b: usize = 0;
    while b < module.bindings.len()
        invariant
            graph.wf(),
            module.wf(),
            function < module.functions@.len(),
            values == module.functions@[function as int].value_count,
            b <= module.bindings@.len(),
            graph.spec_node_count() == escape_node_count(*module, function as int),
            graph.spec_node_count() <= usize::MAX,
            graph.spec_dependencies() == old(graph).spec_dependencies(),
            graph.spec_seeds() == s0.union(
                Set::new(|x: int| is_local_binding_node(*module, function as int, x) && x < values + b),
            ),
        decreases module.bindings@.len() - b,
    {
        if module.bindings[b].declaring_function == function {
            graph.seed(values + b);
        }
        proof {
            assert(graph.spec_seeds() =~= s0.union(
                Set::new(|x: int| is_local_binding_node(*module, function as int, x) && x < values + b + 1),
            ));
        }
        b = b + 1;
    }
    proof {
        assert(graph.spec_seeds() =~= s0.union(Set::new(|x: int| is_local_binding_node(*module, function as int, x))));
    }
}

/// Whether the module exports binding `b`.
pub fn exports_binding(module: &ModuleIr, b: usize) -> (r: bool)
    ensures
        r == is_exported(*module, b as int),
{
    let mut i: usize = 0;
    while i < module.exports.len()
        invariant
            i <= module.exports@.len(),
            forall|k: int| #![trigger module.exports@[k]] 0 <= k < i ==> !(export_binding(module.exports@[k]) matches Some(x) && x == b),
        decreases module.exports@.len() - i,
    {
        if let ModuleExport::Local { binding, .. } = &module.exports[i] {
            if *binding == b {
                assert(export_binding(module.exports@[i as int]) == Some(b));
                return true;
            }
        }
        i = i + 1;
    }
    false
}

/// Adds an edge from the carrier of `op` to each binding of function
/// `function` that a function `op` references captures.
fn add_captured_edges(graph: &mut EscapeGraph, module: &ModuleIr, function: usize, op: &Operation)
    requires
        old(graph).wf(),
        module.wf(),
        function < module.functions@.len(),
        old(graph).spec_node_count() == escape_node_count(*module, function as int),
        crate::ir::all_below(op.results@, module.functions@[function as int].value_count as int),
    ensures
        final(graph).wf(),
        final(graph).spec_node_count() == old(graph).spec_node_count(),
        final(graph).spec_seeds() == old(graph).spec_seeds(),
        forall|x: int, y: int|
            #![trigger list_step(final(graph).spec_dependencies())(x, y)]
            list_step(final(graph).spec_dependencies())(x, y) <==> (list_step(old(graph).spec_dependencies())(x, y) || (
            !op.invoked && op.results@.len() > 0 && x == op.results@[0] as int && module.functions@[function as int].value_count
                <= y && captured_by_operation(*module, function as int, *op, y - module.functions@[function as int].value_count))),
{
    let ghost d0 = graph.spec_dependencies();
    let values = module.functions[function].value_count;
    proof {
        graph.lemma_wf();
    }
    if op.invoked || op.results.len() == 0 {
        return;
    }
    let carrier = op.results[0];
    let mut i: usize = 0;
    while i < op.referenced_functions.len()
        invariant
            graph.wf(),
            module.wf(),
            function < module.functions@.len(),
            values == module.functions@[function as int].value_count,
            graph.spec_node_count() == escape_node_count(*module, function as int),
            graph.spec_node_count() <= usize::MAX,
            graph.spec_seeds() == old(graph).spec_seeds(),
            carrier == op.results@[0],
            carrier < values,
            i <= op.referenced_functions@.len(),
            forall|x: int, y: int|
                #![trigger list_step(graph.spec_dependencies())(x, y)]
                list_step(graph.spec_dependencies())(x, y) <==> (list_step(d0)(x, y) || (x == carrier as int && values <= y
                    && exists|k: int|
                    #![trigger op.referenced_functions@[k]]
                    0 <= k < i && captured_through(*module, function as int, op.referenced_functions@[k] as int, y - values))),
        decreases op.referenced_functions@.len() - i,
    {
        let root = op.referenced_functions[i];
        let captured = captured_bindings(module, function, root);
        let ghost d1 = graph.spec_dependencies();
        let mut k: usize = 0;
        while k < captured.len()
            invariant
                graph.wf(),
                values == module.functions@[function as int].value_count,
                graph.spec_node_count() == escape_node_count(*module, function as int),
                graph.spec_node_count() <= usize::MAX,
                graph.spec_seeds() == old(graph).spec_seeds(),
                carrier < values,
                k <= captured@.len(),
                forall|j: int| #![trigger captured@[j]] 0 <= j < captured@.len() ==> captured@[j] < module.bindings@.len(),
                forall|x: int, y: int|
                    #![trigger list_step(graph.spec_dependencies())(x, y)]
                    list_step(graph.spec_dependencies())(x, y) <==> (list_step(d1)(x, y) || (x == carrier as int
                        && exists|j: int| #![trigger captured@[j]] 0 <= j < k && y == values + captured@[j])),
            decreases captured@.len() - k,
        {
            let ghost d2 = graph.spec_dependencies();
            add_edge(graph, carrier, values + captured[k]);
            proof {
                graph.lemma_wf();
                assert forall|x: int, y: int|
                    #![trigger list_step(graph.spec_dependencies())(x, y)]
                    list_step(graph.spec_dependencies())(x, y) <==> (list_step(d1)(x, y) || (x == carrier as int
                        && exists|j: int| #![trigger captured@[j]] 0 <= j < k + 1 && y == values + captured@[j])) by {
                    if x == carrier as int && y == values + captured@[k as int] {
                        assert(0 <= k < k + 1 && y == values + captured@[k as int]);
                    }
                    if x == carrier as int && exists|j: int| #![trigger captured@[j]] 0 <= j < k + 1 && y == values + captured@[j] {
                        let j = choose|j: int| #![trigger captured@[j]] 0 <= j < k + 1 && y == values + captured@[j];
                        if j < k {
                            assert(list_step(d2)(x, y));
                        }
                    }
                }
            }
            k = k + 1;
        }
        proof {
            assert forall|x: int, y: int|
                #![trigger list_step(graph.spec_dependencies())(x, y)]
                list_step(graph.spec_dependencies())(x, y) <==> (list_step(d0)(x, y) || (x == carrier as int && values <= y
                    && exists|k2: int|
                    #![trigger op.referenced_functions@[k2]]
                    0 <= k2 < i + 1 && captured_through(*module, function as int, op.referenced_functions@[k2] as int, y - values))) by {
                if x == carrier as int && values <= y {
                    let b = y - values;
                    if exists|j: int| #![trigger captured@[j]] 0 <= j < captured@.len() && y == values + captured@[j] {
                        let j = choose|j: int| #![trigger captured@[j]] 0 <= j < captured@.len() && y == values + captured@[j];
                        assert(captured@.contains(captured@[j]));
                        assert(captured_through(*module, function as int, root as int, b));
                        assert(op.referenced_functions@[i as int] == root);
                    }
                    if captured_through(*module, function as int, root as int, b) {
                        assert(0 <= b < module.bindings@.len());
                        assert(captured@.contains(b as usize));
                        let j = choose|j: int| 0 <= j < captured@.len() && captured@[j] == b as usize;
                        assert(y == values + captured@[j]);
                    }
                    if exists|k2: int|
                        #![trigger op.referenced_functions@[k2]]
                        0 <= k2 < i + 1 && captured_through(*module, function as int, op.referenced_functions@[k2] as int, b) {
                        let k2 = choose|k2: int|
                            #![trigger op.referenced_functions@[k2]]
                            0 <= k2 < i + 1 && captured_through(*module, function as int, op.referenced_functions@[k2] as int, b);
                        if k2 == i {
                            assert(captured_through(*module, function as int, root as int, b));
                        }
                    }
                }
            }
        }
        i = i + 1;
    }
}

/// Adds an edge from `from` to the node of every parameter binding that
/// function `function` declares.
fn add_parameter_edges(graph: &mut EscapeGraph, module: &ModuleIr, function: usize, from: usize)
    requires
        old(graph).wf(),
        module.wf(),
        function < module.functions@.len(),
        old(graph).spec_node_count() == escape_node_count(*module, function as int),
        from < module.functions@[function as int].value_count,
    ensures
        final(graph).wf(),
        final(graph).spec_node_count() == old(graph).spec_node_count(),
        final(graph).spec_seeds() == old(graph).spec_seeds(),
        forall|x: int, y: int|
            #![trigger list_step(final(graph).spec_dependencies())(x, y)]
            list_step(final(graph).spec_dependencies())(x, y) <==> (list_step(old(graph).spec_dependencies())(x, y) || (x
                == from as int && module.functions@[function as int].value_count <= y && is_local_binding(
                *module,
                function as int,
                y - module.functions@[function as int].value_count,
            ) && module.bindings@[y - module.functions@[function as int].value_count].kind == BindingKind::Parameter)),
{
    let ghost d0 = graph.spec_dependencies();
    proof {
        graph.lemma_wf();
    }
    let values = module.functions[function].value_count;
    let mut b: usize = 0;
    while b < module.bindings.len()
        invariant
            graph.wf(),
            module.wf(),
            function < module.functions@.len(),
            values == module.functions@[function as int].value_count,
            from < values,
            b <= module.bindings@.len(),
            graph.spec_node_count() == escape_node_count(*module, function as int),
            graph.spec_node_count() <= usize::MAX,
            graph.spec_seeds() == old(graph).spec_seeds(),
            forall|x: int, y: int|
                #![trigger list_step(graph.spec_dependencies())(x, y)]
                list_step(graph.spec_dependencies())(x, y) <==> (list_step(d0)(x, y) || (x == from as int && values <= y
                    < values + b && is_local_binding(*module, function as int, y - values) && module.bindings@[y
                    - values].kind == BindingKind::Parameter)),
        decreases module.bindings@.len() - b,
    {
        if module.bindings[b].declaring_function == function && module.bindings[b].kind == BindingKind::Parameter {
            add_edge(graph, from, values + b);
            proof {
                graph.lemma_wf();
            }
        }
        b = b + 1;
    }
}

/// Adds the escape edges and seeds of operation `op` of function `function`.
pub fn add_operation_flow(graph: &mut EscapeGraph, module: &ModuleIr, function: usize, op: &Operation)
    requires
        old(graph).wf(),
        module.wf(),
        function < module.functions@.len(),
        old(graph).spec_node_count() == escape_node_count(*module, function as int),
        op.wf(
            module.functions@[function as int].value_count as int,
            module.functions@[function as int].regions@.len() as int,
            module.functions@.len() as int,
            module.bindings@.len() as int,
        ),
        escape_ready(*op),
    ensures
        final(graph).wf(),
        final(graph).spec_node_count() == old(graph).spec_node_count(),
        final(graph).spec_seeds() == old(graph).spec_seeds().union(
            Set::new(|x: int| escape_op_seed(*module, function as int, *op, x)),
        ),
        forall|x: int, y: int|
            #![trigger list_step(final(graph).spec_dependencies())(x, y)]
            list_step(final(graph).spec_dependencies())(x, y) <==> (list_step(old(graph).spec_dependencies())(x, y)
                || escape_op_edge(*module, function as int, *op, x, y)),
{
    let ghost d0 = graph.spec_dependencies();
    let ghost s0 = graph.spec_seeds();
    let ghost m = *module;
    let ghost f = function as int;
    proof {
        graph.lemma_wf();
    }
    let values = module.functions[function].value_count;
    let direct_eval = is_direct_eval_call(module, &module.functions[function], op);
    match &op.kind {
        OperationKind::CreateFunction | OperationKind::ObjectLiteral(_) => {
            add_captured_edges(graph, module, function, op);
            proof {
                assert(graph.spec_seeds() =~= s0.union(Set::new(|x: int| escape_op_seed(m, f, *op, x))));
            }
        },
        OperationKind::CreateClass { self_binding, elements } => {
            let result = op.results[0];
            add_captured_edges(graph, module, function, op);
            let ghost d1 = graph.spec_dependencies();
            proof {
                graph.lemma_wf();
            }
            match self_binding {
                Some(b) => {
                    add_edge(graph, values + *b, result);
                },
                None => {},
            }
            proof {
                graph.lemma_wf();
            }
            if has_static_initialization(elements) {
                graph.seed(result);
            }
            proof {
                assert(graph.spec_seeds() =~= s0.union(Set::new(|x: int| escape_op_seed(m, f, *op, x))));
            }
        },
        OperationKind::LoadArguments => {
            add_parameter_edges(graph, module, function, op.results[0]);
            proof {
                assert(graph.spec_seeds() =~= s0.union(Set::new(|x: int| escape_op_seed(m, f, *op, x))));
            }
        },
        OperationKind::DynamicImport { .. } => {
            seed_values(graph, &op.operands);
            graph.seed(op.results[0]);
            proof {
                assert(graph.spec_seeds() =~= s0.union(Set::new(|x: int| escape_op_seed(m, f, *op, x))));
            }
        },
        OperationKind::Debugger => {
            seed_local_bindings(graph, module, function);
            proof {
                assert(graph.spec_seeds() =~= s0.union(Set::new(|x: int| escape_op_seed(m, f, *op, x))));
            }
        },
        OperationKind::InitializeBinding { binding } | OperationKind::StoreBinding { binding } => {
            let b = *binding;
            add_edge(graph, values + b, op.operands[0]);
            proof {
                graph.lemma_wf();
            }
            if module.bindings[b].declaring_function != function || exports_binding(module, b) {
                graph.seed(values + b);
            }
            proof {
                assert(graph.spec_seeds() =~= s0.union(Set::new(|x: int| escape_op_seed(m, f, *op, x))));
            }
        },
        OperationKind::LoadBinding { binding } => {
            add_edge(graph, op.results[0], values + *binding);
            proof {
                assert(graph.spec_seeds() =~= s0.union(Set::new(|x: int| escape_op_seed(m, f, *op, x))));
            }
        },
        OperationKind::Call { .. } => {
            seed_values(graph, &op.operands);
            if direct_eval {
                seed_local_bindings(graph, module, function);
            }
            proof {
                assert(graph.spec_seeds() =~= s0.union(Set::new(|x: int| escape_op_seed(m, f, *op, x))));
            }
        },
        _ => {
            let retains = match &op.kind {
                OperationKind::DestructureBinding | OperationKind::DestructureAssignment | OperationKind::StoreGlobal
                | OperationKind::LoadSuperProperty | OperationKind::StoreSuperProperty | OperationKind::LoadProperty
                | OperationKind::StoreProperty | OperationKind::Update | OperationKind::Await | OperationKind::Yield
                | OperationKind::SuperCall | OperationKind::Construct | OperationKind::TaggedTemplate { .. }
                | OperationKind::TemplateLiteral | OperationKind::JsxElement | OperationKind::JsxFragment
                | OperationKind::ForIn | OperationKind::ForOf | OperationKind::Return | OperationKind::Throw
                | OperationKind::EnterFinally => true,
                OperationKind::Delete { property } => *property,
                OperationKind::Unary(operator) => !(*operator == UnaryOperator::LogicalNot || *operator
                    == UnaryOperator::Void),
                OperationKind::Binary(operator) => !(*operator == BinaryOperator::StrictEqual || *operator
                    == BinaryOperator::StrictNotEqual),
                _ => false,
            };
            assert(retains == retains_operands(op.kind));
            if retains {
                seed_values(graph, &op.operands);
            }
            proof {
                assert(graph.spec_seeds() =~= s0.union(Set::new(|x: int| escape_op_seed(m, f, *op, x))));
            }
        },
    }
}

/// Whether a successor edge forwards argument `c` to parameter `a`.
pub open spec fn forwards(successor: crate::dependence::DependenceSuccessor, a: int, c: int) -> bool {
    exists|i: int|
        #![trigger successor.forwarded@[i]]
        0 <= i < successor.forwarded@.len() && successor.forwarded@[i].0 as int == a && successor.forwarded@[i].1 as int == c
}

/// Whether a successor edge of `op` forwards argument `c` to parameter `a`.
pub open spec fn op_forwards(op: Operation, a: int, c: int) -> bool {
    exists|k: int| #![trigger op.successors@[k]] 0 <= k < op.successors@.len() && forwards(op.successors@[k], a, c)
}

/// Whether some control-flow edge of `function` forwards argument `c` to parameter `a`.
pub open spec fn function_forwards(function: FunctionIr, a: int, c: int) -> bool {
    exists|j: int|
        #![trigger function.operations@[j]]
        0 <= j < function.operations@.len() && op_forwards(function.operations@[j], a, c)
}

/// Whether region `region` yields value `x`.
pub open spec fn yields(region: Region, x: int) -> bool {
    exists|i: int| #![trigger region.yielded@[i]] 0 <= i < region.yielded@.len() && region.yielded@[i] as int == x
}

/// Whether the values a region with this owner and role yields escape.
pub open spec fn region_values_escape(owner: RegionOwner, role: Option<RegionRole>) -> bool {
    match owner {
        RegionOwner::FunctionBody => false,
        RegionOwner::FunctionParameter | RegionOwner::Detached => true,
        RegionOwner::Operation => match role {
            Some(RegionRole::ContainedBy(_)) | Some(RegionRole::ObservedOnly) => false,
            _ => true,
        },
    }
}

/// The region claims of the operations of `function`, looking through invokes.
pub open spec fn escape_claims(function: FunctionIr) -> Seq<(usize, RegionRole)> {
    function_claims(function.operations@, true)
}

/// Whether region `r` of `function` makes its yielded value `c` escape with its container `a`.
pub open spec fn region_edge_at(function: FunctionIr, r: int, a: int, c: int) -> bool {
    &&& function.regions@[r].owner is Operation
    &&& role_in(escape_claims(function), r) matches Some(RegionRole::ContainedBy(container))
    &&& container as int == a
    &&& yields(function.regions@[r], c)
}

/// Whether region `r` of `function` seeds its yielded value `x`.
pub open spec fn region_seed_at(function: FunctionIr, r: int, x: int) -> bool {
    region_values_escape(function.regions@[r].owner, role_in(escape_claims(function), r)) && yields(function.regions@[r], x)
}

/// Every escape edge of function `function`.
pub open spec fn escape_edges(module: ModuleIr, function: int) -> spec_fn(int, int) -> bool {
    let body = module.functions@[function];
    |a: int, c: int|
        {
            ||| function_forwards(body, a, c)
            ||| exists|j: int|
                #![trigger body.operations@[j]]
                0 <= j < body.operations@.len() && escape_op_edge(module, function, body.operations@[j], a, c)
            ||| exists|r: int| #![trigger body.regions@[r]] 0 <= r < body.regions@.len() && region_edge_at(body, r, a, c)
        }
}

/// Whether function `function` seeds node `x` as escaping.
pub open spec fn escape_seed(module: ModuleIr, function: int, x: int) -> bool {
    let body = module.functions@[function];
    ||| exists|j: int|
        #![trigger body.operations@[j]]
        0 <= j < body.operations@.len() && escape_op_seed(module, function, body.operations@[j], x)
    ||| exists|r: int| #![trigger body.regions@[r]] 0 <= r < body.regions@.len() && region_seed_at(body, r, x)
}

/// A value that the function hands to code outside it leaves the
/// activation: each operand of a `return` or a `throw`, of a call, a
/// construction or a template tag, of a property or global access, of a
/// destructuring, an update, an `await` or a `yield`, of a JSX element or a
/// `for-in`/`for-of` loop, or of an `import()` is an escape seed, so a seed
/// reaches it along the escape edges and the analysis reports it as escaping.
pub proof fn lemma_handed_out_values_escape(module: ModuleIr, function: int, j: int, k: int)
    requires
        0 <= function < module.functions@.len(),
        0 <= j < module.functions@[function].operations@.len(),
        (match module.functions@[function].operations@[j].kind {
            OperationKind::DestructureBinding | OperationKind::DestructureAssignment | OperationKind::StoreGlobal
            | OperationKind::LoadSuperProperty | OperationKind::StoreSuperProperty | OperationKind::LoadProperty
            | OperationKind::StoreProperty | OperationKind::Update | OperationKind::Await | OperationKind::Yield
            | OperationKind::Call { .. } | OperationKind::SuperCall | OperationKind::Construct
            | OperationKind::TaggedTemplate { .. } | OperationKind::TemplateLiteral | OperationKind::JsxElement
            | OperationKind::JsxFragment | OperationKind::ForIn | OperationKind::ForOf | OperationKind::Return
            | OperationKind::Throw | OperationKind::DynamicImport { .. } => true,
            _ => false,
        }),
        0 <= k < module.functions@[function].operations@[j].operands@.len(),
    ensures
        escape_seed(module, function, module.functions@[function].operations@[j].operands@[k] as int),
        exists|s: int|
            #[trigger] escape_seed(module, function, s) && crate::paths::reaches(
                escape_edges(module, function),
                s,
                module.functions@[function].operations@[j].operands@[k] as int,
            ),
{
    let body = module.functions@[function];
    let op = body.operations@[j];
    let x = op.operands@[k] as int;
    assert(names_operand(op, x));
    assert(escape_op_seed(module, function, body.operations@[j], x));
    assert(escape_seed(module, function, x));
    crate::paths::lemma_reaches_self(escape_edges(module, function), x);
}

/// Every container that a claim names is below `n`.
pub open spec fn containers_below(claims: Seq<(usize, RegionRole)>, n: int) -> bool {
    forall|k: int|
        #![trigger claims[k]]
        0 <= k < claims.len() ==> (claims[k].1 matches RegionRole::ContainedBy(c) ==> c < n)
}

proof fn lemma_claims_of_containers<T>(items: Seq<T>, claim: spec_fn(T) -> Seq<(usize, RegionRole)>, i: int, n: int)
    requires
        i <= items.len(),
        forall|t: int| #![trigger items[t]] 0 <= t < i ==> containers_below(claim(items[t]), n),
    ensures
        containers_below(claims_of(items, claim, i), n),
    decreases i,
{
    if i > 0 {
        lemma_claims_of_containers(items, claim, i - 1, n);
        let a = claims_of(items, claim, i - 1);
        let b = claim(items[i - 1]);
        assert(containers_below(b, n));
        assert forall|k: int| #![trigger (a + b)[k]] 0 <= k < (a + b).len() implies ((a + b)[k].1 matches RegionRole::ContainedBy(c) ==> c < n) by {
            if k < a.len() {
                assert((a + b)[k] == a[k]);
            } else {
                assert((a + b)[k] == b[k - a.len()]);
            }
        }
    }
}

proof fn lemma_role_in_member(claims: Seq<(usize, RegionRole)>, x: int)
    requires
        role_in(claims, x) is Some,
    ensures
        exists|k: int| #![trigger claims[k]] 0 <= k < claims.len() && claims[k].1 == role_in(claims, x)->0,
    decreases claims.len(),
{
    if claims.last().0 as int == x {
        assert(claims[claims.len() - 1].1 == role_in(claims, x)->0);
    } else {
        lemma_role_in_member(claims.drop_last(), x);
        let k = choose|k: int| #![trigger claims.drop_last()[k]] 0 <= k < claims.drop_last().len() && claims.drop_last()[k].1 == role_in(claims.drop_last(), x)->0;
        assert(claims[k] == claims.drop_last()[k]);
    }
}

/// The containers of a function's region claims are values of the function.
pub proof fn lemma_claim_containers(function: FunctionIr, functions: int, bindings: int, look_through_invoke: bool)
    requires
        function.wf(functions, bindings),
        claims_ready(function.operations@, function.regions@.len() as int, look_through_invoke),
    ensures
        forall|r: int|
            #![trigger role_in(function_claims(function.operations@, look_through_invoke), r)]
            (role_in(function_claims(function.operations@, look_through_invoke), r) matches Some(
                RegionRole::ContainedBy(c),
            ) ==> c < function.value_count),
{
    let ops = function.operations@;
    let n = function.value_count as int;
    assert forall|j: int| #![trigger ops[j]] 0 <= j < ops.len() implies containers_below(op_claims(ops[j], look_through_invoke), n) by {
        let op = ops[j];
        assert(op.wf(n, function.regions@.len() as int, functions, bindings));
        let escaping = |r: usize| crate::flow::escaping_claim(r);
        if !crate::flow::reads_kind(op, look_through_invoke) {
            assert forall|t: int| #![trigger op.regions@[t]] 0 <= t < op.regions@.len() implies containers_below(escaping(op.regions@[t]), n) by {}
            lemma_claims_of_containers(op.regions@, escaping, op.regions@.len() as int, n);
        } else {
            match op.kind {
                OperationKind::ArrayLiteral(elements) => {
                    let f = |e: crate::ir::ArrayLiteralElement| crate::flow::element_claim(e, op.results@[0]);
                    assert(op.results@[0] < n);
                    assert forall|t: int| #![trigger elements@[t]] 0 <= t < elements@.len() implies containers_below(f(elements@[t]), n) by {}
                    lemma_claims_of_containers(elements@, f, elements@.len() as int, n);
                },
                OperationKind::ObjectLiteral(entries) => {
                    let f = |e: crate::ir::ObjectLiteralEntry| crate::flow::entry_claim(e, op.results@[0]);
                    assert(op.results@[0] < n);
                    assert forall|t: int| #![trigger entries@[t]] 0 <= t < entries@.len() implies containers_below(f(entries@[t]), n) by {}
                    lemma_claims_of_containers(entries@, f, entries@.len() as int, n);
                },
                OperationKind::Switch { case_tests } => {
                    let f = |t: Option<usize>| crate::flow::case_claim(t);
                    assert forall|t: int| #![trigger case_tests@[t]] 0 <= t < case_tests@.len() implies containers_below(f(case_tests@[t]), n) by {}
                    lemma_claims_of_containers(case_tests@, f, case_tests@.len() as int, n);
                },
                _ => {
                    assert forall|t: int| #![trigger op.regions@[t]] 0 <= t < op.regions@.len() implies containers_below(escaping(op.regions@[t]), n) by {}
                    lemma_claims_of_containers(op.regions@, escaping, op.regions@.len() as int, n);
                },
            }
        }
    }
    let g = |op: Operation| op_claims(op, look_through_invoke);
    lemma_claims_of_containers(ops, g, ops.len() as int, n);
    assert forall|r: int|
        #![trigger role_in(function_claims(ops, look_through_invoke), r)]
        (role_in(function_claims(ops, look_through_invoke), r) matches Some(RegionRole::ContainedBy(c)) ==> c < n) by {
        if role_in(function_claims(ops, look_through_invoke), r) is Some {
            lemma_role_in_member(function_claims(ops, look_through_invoke), r);
        }
    }
}

/// Adds an edge from each forwarded parameter of `successor` to its argument.
fn add_successor_flow(graph: &mut EscapeGraph, successor: &crate::dependence::DependenceSuccessor, n: Ghost<int>)
    requires
        old(graph).wf(),
        old(graph).spec_node_count() == n@,
        forall|i: int|
            #![trigger successor.forwarded@[i]]
            0 <= i < successor.forwarded@.len() ==> successor.forwarded@[i].0 < n@ && successor.forwarded@[i].1 < n@,
    ensures
        final(graph).wf(),
        final(graph).spec_node_count() == old(graph).spec_node_count(),
        final(graph).spec_seeds() == old(graph).spec_seeds(),
        forall|x: int, y: int|
            #![trigger list_step(final(graph).spec_dependencies())(x, y)]
            list_step(final(graph).spec_dependencies())(x, y) <==> (list_step(old(graph).spec_dependencies())(x, y)
                || forwards(*successor, x, y)),
{
    let ghost d0 = graph.spec_dependencies();
    let mut i: usize = 0;
    while i < successor.forwarded.len()
        invariant
            graph.wf(),
            graph.spec_node_count() == n@,
            graph.spec_seeds() == old(graph).spec_seeds(),
            i <= successor.forwarded@.len(),
            forall|t: int|
                #![trigger successor.forwarded@[t]]
                0 <= t < successor.forwarded@.len() ==> successor.forwarded@[t].0 < n@ && successor.forwarded@[t].1 < n@,
            forall|x: int, y: int|
                #![trigger list_step(graph.spec_dependencies())(x, y)]
                list_step(graph.spec_dependencies())(x, y) <==> (list_step(d0)(x, y) || exists|t: int|
                    #![trigger successor.forwarded@[t]]
                    0 <= t < i && successor.forwarded@[t].0 as int == x && successor.forwarded@[t].1 as int == y),
        decreases successor.forwarded@.len() - i,
    {
        let (parameter, argument) = successor.forwarded[i];
        let ghost d1 = graph.spec_dependencies();
        add_edge(graph, parameter, argument);
        proof {
            assert(successor.forwarded@[i as int] == (parameter, argument));
            assert forall|x: int, y: int|
                #![trigger list_step(graph.spec_dependencies())(x, y)]
                list_step(graph.spec_dependencies())(x, y) <==> (list_step(d0)(x, y) || exists|t: int|
                    #![trigger successor.forwarded@[t]]
                    0 <= t < i + 1 && successor.forwarded@[t].0 as int == x && successor.forwarded@[t].1 as int == y) by {
                if exists|t: int|
                    #![trigger successor.forwarded@[t]]
                    0 <= t < i + 1 && successor.forwarded@[t].0 as int == x && successor.forwarded@[t].1 as int == y {
                    let t = choose|t: int|
                        #![trigger successor.forwarded@[t]]
                        0 <= t < i + 1 && successor.forwarded@[t].0 as int == x && successor.forwarded@[t].1 as int == y;
                    if t < i {
                        assert(list_step(d1)(x, y));
                    }
                }
            }
        }
        i = i + 1;
    }
}

/// Adds an edge from each forwarded block parameter of `function` to its argument.
pub fn add_block_parameter_flow(graph: &mut EscapeGraph, module: &ModuleIr, function: usize)
    requires
        old(graph).wf(),
        module.wf(),
        function < module.functions@.len(),
        old(graph).spec_node_count() == escape_node_count(*module, function as int),
    ensures
        final(graph).wf(),
        final(graph).spec_node_count() == old(graph).spec_node_count(),
        final(graph).spec_seeds() == old(graph).spec_seeds(),
        forall|x: int, y: int|
            #![trigger list_step(final(graph).spec_dependencies())(x, y)]
            list_step(final(graph).spec_dependencies())(x, y) <==> (list_step(old(graph).spec_dependencies())(x, y)
                || function_forwards(module.functions@[function as int], x, y)),
{
    let ghost d0 = graph.spec_dependencies();
    let body = &module.functions[function];
    let ghost n = escape_node_count(*module, function as int);
    let ghost values = body.value_count as int;
    proof {
        assert(body.wf(module.functions@.len() as int, module.bindings@.len() as int));
    }
    let mut j: usize = 0;
    while j < body.operations.len()
        invariant
            graph.wf(),
            graph.spec_node_count() == n,
            n == values + module.bindings@.len(),
            values == body.value_count,
            *body == module.functions@[function as int],
            body.wf(module.functions@.len() as int, module.bindings@.len() as int),
            graph.spec_seeds() == old(graph).spec_seeds(),
            j <= body.operations@.len(),
            forall|x: int, y: int|
                #![trigger list_step(graph.spec_dependencies())(x, y)]
                list_step(graph.spec_dependencies())(x, y) <==> (list_step(d0)(x, y) || exists|t: int|
                    #![trigger body.operations@[t]]
                    0 <= t < j && op_forwards(body.operations@[t], x, y)),
        decreases body.operations@.len() - j,
    {
        let op = &body.operations[j];
        let ghost d1 = graph.spec_dependencies();
        proof {
            assert(body.operations@[j as int] == *op);
            assert(op.wf(values, body.regions@.len() as int, module.functions@.len() as int, module.bindings@.len() as int));
        }
        let mut k: usize = 0;
        while k < op.successors.len()
            invariant
                graph.wf(),
                graph.spec_node_count() == n,
                n == values + module.bindings@.len(),
                graph.spec_seeds() == old(graph).spec_seeds(),
                op.wf(values, body.regions@.len() as int, module.functions@.len() as int, module.bindings@.len() as int),
                k <= op.successors@.len(),
                forall|x: int, y: int|
                    #![trigger list_step(graph.spec_dependencies())(x, y)]
                    list_step(graph.spec_dependencies())(x, y) <==> (list_step(d1)(x, y) || exists|t: int|
                        #![trigger op.successors@[t]]
                        0 <= t < k && forwards(op.successors@[t], x, y)),
            decreases op.successors@.len() - k,
        {
            let ghost d2 = graph.spec_dependencies();
            proof {
                assert(op.successors@[k as int] == op.successors[k as int]);
            }
            add_successor_flow(graph, &op.successors[k], Ghost(n));
            proof {
                assert forall|x: int, y: int|
                    #![trigger list_step(graph.spec_dependencies())(x, y)]
                    list_step(graph.spec_dependencies())(x, y) <==> (list_step(d1)(x, y) || exists|t: int|
                        #![trigger op.successors@[t]]
                        0 <= t < k + 1 && forwards(op.successors@[t], x, y)) by {
                    if exists|t: int| #![trigger op.successors@[t]] 0 <= t < k + 1 && forwards(op.successors@[t], x, y) {
                        let t = choose|t: int| #![trigger op.successors@[t]] 0 <= t < k + 1 && forwards(op.successors@[t], x, y);
                        if t < k {
                            assert(list_step(d2)(x, y));
                        }
                    }
                }
            }
            k = k + 1;
        }
        proof {
            assert forall|x: int, y: int|
                #![trigger list_step(graph.spec_dependencies())(x, y)]
                list_step(graph.spec_dependencies())(x, y) <==> (list_step(d0)(x, y) || exists|t: int|
                    #![trigger body.operations@[t]]
                    0 <= t < j + 1 && op_forwards(body.operations@[t], x, y)) by {
                if exists|t: int| #![trigger body.operations@[t]] 0 <= t < j + 1 && op_forwards(body.operations@[t], x, y) {
                    let t = choose|t: int| #![trigger body.operations@[t]] 0 <= t < j + 1 && op_forwards(body.operations@[t], x, y);
                    if t < j {
                        assert(list_step(d1)(x, y));
                    }
                }
            }
        }
        j = j + 1;
    }
}

/// Adds the edges and seeds of the values the regions of `function` yield.
pub fn add_region_flow(graph: &mut EscapeGraph, module: &ModuleIr, function: usize)
    requires
        old(graph).wf(),
        module.wf(),
        function < module.functions@.len(),
        old(graph).spec_node_count() == escape_node_count(*module, function as int),
        claims_ready(
            module.functions@[function as int].operations@,
            module.functions@[function as int].regions@.len() as int,
            true,
        ),
        crate::flow::distinct_regions(crate::flow::function_claims(module.functions@[function as int].operations@, true)),
    ensures
        final(graph).wf(),
        final(graph).spec_node_count() == old(graph).spec_node_count(),
        final(graph).spec_seeds() == old(graph).spec_seeds().union(
            Set::new(
                |x: int|
                    exists|r: int|
                        #![trigger module.functions@[function as int].regions@[r]]
                        0 <= r < module.functions@[function as int].regions@.len() && region_seed_at(
                            module.functions@[function as int],
                            r,
                            x,
                        ),
            ),
        ),
        forall|x: int, y: int|
            #![trigger list_step(final(graph).spec_dependencies())(x, y)]
            list_step(final(graph).spec_dependencies())(x, y) <==> (list_step(old(graph).spec_dependencies())(x, y)
                || exists|r: int|
                #![trigger module.functions@[function as int].regions@[r]]
                0 <= r < module.functions@[function as int].regions@.len() && region_edge_at(
                    module.functions@[function as int],
                    r,
                    x,
                    y,
                )),
{
    let ghost d0 = graph.spec_dependencies();
    let ghost s0 = graph.spec_seeds();
    let body = &module.functions[function];
    let ghost n = escape_node_count(*module, function as int);
    let ghost values = body.value_count as int;
    let ghost claims = escape_claims(*body);
    proof {
        assert(body.wf(module.functions@.len() as int, module.bindings@.len() as int));
        lemma_claim_containers(*body, module.functions@.len() as int, module.bindings@.len() as int, true);
    }
    let roles = region_roles(body, true);
    let mut r: usize = 0;
    while r < body.regions.len()
        invariant
            graph.wf(),
            graph.spec_node_count() == n,
            n == values + module.bindings@.len(),
            values == body.value_count,
            *body == module.functions@[function as int],
            body.wf(module.functions@.len() as int, module.bindings@.len() as int),
            claims == escape_claims(*body),
            roles@.len() == body.regions@.len(),
            roles_match(roles@, claims),
            forall|q: int|
                #![trigger role_in(claims, q)]
                (role_in(claims, q) matches Some(RegionRole::ContainedBy(c)) ==> c < values),
            r <= body.regions@.len(),
            graph.spec_seeds() == s0.union(
                Set::new(
                    |x: int|
                        exists|q: int| #![trigger body.regions@[q]] 0 <= q < r && region_seed_at(*body, q, x),
                ),
            ),
            forall|x: int, y: int|
                #![trigger list_step(graph.spec_dependencies())(x, y)]
                list_step(graph.spec_dependencies())(x, y) <==> (list_step(d0)(x, y) || exists|q: int|
                    #![trigger body.regions@[q]]
                    0 <= q < r && region_edge_at(*body, q, x, y)),
        decreases body.regions@.len() - r,
    {
        let region = &body.regions[r];
        let ghost d1 = graph.spec_dependencies();
        let ghost s1 = graph.spec_seeds();
        proof {
            graph.lemma_wf();
            assert(body.regions@[r as int] == *region);
            assert(region.wf(values));
            assert(roles@[r as int] == role_in(claims, r as int));
        }
        let role = roles[r];
        let (contain, escape) = match region.owner {
            RegionOwner::FunctionBody => (None, false),
            RegionOwner::FunctionParameter | RegionOwner::Detached => (None, true),
            RegionOwner::Operation => match role {
                Some(RegionRole::ContainedBy(container)) => (Some(container), false),
                Some(RegionRole::ObservedOnly) => (None, false),
                _ => (None, true),
            },
        };
        if escape {
            seed_values(graph, &region.yielded);
        }
        match contain {
            Some(container) => {
                proof {
                    assert(role_in(claims, r as int) matches Some(RegionRole::ContainedBy(c)) && c == container);
                }
                let mut i: usize = 0;
                while i < region.yielded.len()
                    invariant
                        graph.wf(),
                        graph.spec_node_count() == n,
                        n == values + module.bindings@.len(),
                        container < values,
                        region.wf(values),
                        graph.spec_seeds() == s1,
                        i <= region.yielded@.len(),
                        forall|x: int, y: int|
                            #![trigger list_step(graph.spec_dependencies())(x, y)]
                            list_step(graph.spec_dependencies())(x, y) <==> (list_step(d1)(x, y) || (x == container as int
                                && exists|t: int| #![trigger region.yielded@[t]] 0 <= t < i && region.yielded@[t] as int == y)),
                    decreases region.yielded@.len() - i,
                {
                    let ghost d2 = graph.spec_dependencies();
                    add_edge(graph, container, region.yielded[i]);
                    proof {
                        assert forall|x: int, y: int|
                            #![trigger list_step(graph.spec_dependencies())(x, y)]
                            list_step(graph.spec_dependencies())(x, y) <==> (list_step(d1)(x, y) || (x == container as int
                                && exists|t: int| #![trigger region.yielded@[t]] 0 <= t < i + 1 && region.yielded@[t] as int == y)) by {
                            if x == container as int && y == region.yielded@[i as int] as int {
                                assert(region.yielded@[i as int] as int == y);
                            }
                            if x == container as int && exists|t: int| #![trigger region.yielded@[t]] 0 <= t < i + 1 && region.yielded@[t] as int == y {
                                let t = choose|t: int| #![trigger region.yielded@[t]] 0 <= t < i + 1 && region.yielded@[t] as int == y;
                                if t < i {
                                    assert(list_step(d2)(x, y));
                                }
                            }
                        }
                    }
                    i = i + 1;
                }
            },
            None => {},
        }
        proof {
            assert(graph.spec_seeds() =~= s0.union(
                Set::new(
                    |x: int|
                        exists|q: int| #![trigger body.regions@[q]] 0 <= q < r + 1 && region_seed_at(*body, q, x),
                ),
            )) by {
                assert forall|x: int|
                    (exists|q: int| #![trigger body.regions@[q]] 0 <= q < r + 1 && region_seed_at(*body, q, x)) implies
                    ((exists|q: int| #![trigger body.regions@[q]] 0 <= q < r && region_seed_at(*body, q, x)) || (escape && yields(*region, x))) by {
                    let q = choose|q: int| #![trigger body.regions@[q]] 0 <= q < r + 1 && region_seed_at(*body, q, x);
                    if q == r {
                        let t = choose|t: int| #![trigger body.regions@[q].yielded@[t]] 0 <= t < body.regions@[q].yielded@.len() && body.regions@[q].yielded@[t] as int == x;
                        assert(region.yielded@[t] as int == x);
                    }
                }
                assert forall|x: int| escape && yields(*region, x) implies
                    (exists|q: int| #![trigger body.regions@[q]] 0 <= q < r + 1 && region_seed_at(*body, q, x)) by {
                    assert(region_seed_at(*body, r as int, x));
                }
            }
            assert forall|x: int, y: int|
                #![trigger list_step(graph.spec_dependencies())(x, y)]
                list_step(graph.spec_dependencies())(x, y) <==> (list_step(d0)(x, y) || exists|q: int|
                    #![trigger body.regions@[q]]
                    0 <= q < r + 1 && region_edge_at(*body, q, x, y)) by {
                if exists|q: int| #![trigger body.regions@[q]] 0 <= q < r + 1 && region_edge_at(*body, q, x, y) {
                    let q = choose|q: int| #![trigger body.regions@[q]] 0 <= q < r + 1 && region_edge_at(*body, q, x, y);
                    if q < r {
                        assert(list_step(d1)(x, y));
                    } else {
                        let t = choose|t: int| #![trigger body.regions@[q].yielded@[t]] 0 <= t < body.regions@[q].yielded@.len() && body.regions@[q].yielded@[t] as int == y;
                        assert(region.yielded@[t] as int == y);
                    }
                }
                if contain is Some && x == contain->0 as int && exists|t: int| #![trigger region.yielded@[t]] 0 <= t < region.yielded@.len() && region.yielded@[t] as int == y {
                    assert(region_edge_at(*body, r as int, x, y));
                }
            }
        }
        r = r + 1;
    }
}

/// Whether an operation of this kind creates a fresh object identity.
pub open spec fn is_local_identity(kind: OperationKind) -> bool {
    kind is RegExpLiteral || kind is ArrayLiteral || kind is ObjectLiteral || kind is CreateFunction
        || kind is CreateClass || kind is DynamicImport
}

/// Whether value `v` of `function` is a fresh object identity that one of its operations creates.
pub open spec fn is_local_identity_value(function: FunctionIr, v: int) -> bool {
    exists|j: int|
        #![trigger function.operations@[j]]
        0 <= j < function.operations@.len() && is_local_identity(function.operations@[j].kind)
            && function.operations@[j].results@[0] as int == v
}

/// Whether the escape analysis of function `function` can run: its graph
/// fits in memory, each operation has the results and operands its kind
/// reads, and no region is claimed twice.
pub open spec fn escape_analyzable(module: ModuleIr, function: int) -> bool {
    let body = module.functions@[function];
    &&& escape_node_count(module, function) <= usize::MAX
    &&& forall|j: int| #![trigger body.operations@[j]] 0 <= j < body.operations@.len() ==> escape_ready(body.operations@[j])
    &&& forall|j: int|
        #![trigger body.operations@[j]]
        0 <= j < body.operations@.len() && is_local_identity(body.operations@[j].kind) ==> body.operations@[j].results@.len() == 1
    &&& distinct_regions(escape_claims(body))
}

/// The escape graph of function `function`: its edges and seeds are those
/// its block parameters, operations and regions give.
pub fn escape_graph(module: &ModuleIr, function: usize) -> (graph: EscapeGraph)
    requires
        module.wf(),
        function < module.functions@.len(),
        escape_analyzable(*module, function as int),
    ensures
        graph.wf(),
        graph.spec_node_count() == escape_node_count(*module, function as int),
        graph.spec_seeds() == Set::new(|x: int| escape_seed(*module, function as int, x)),
        forall|x: int, y: int|
            #![trigger list_step(graph.spec_dependencies())(x, y)]
            list_step(graph.spec_dependencies())(x, y) <==> escape_edges(*module, function as int)(x, y),
{
    let body = &module.functions[function];
    let ghost m = *module;
    let ghost f = function as int;
    let ghost values = body.value_count as int;
    let ghost nf = module.functions@.len() as int;
    let ghost nb = module.bindings@.len() as int;
    proof {
        assert(body.wf(nf, nb));
        assert forall|j: int|
            #![trigger body.operations@[j]]
            0 <= j < body.operations@.len() implies {
                &&& crate::ir::all_below(body.operations@[j].regions@, body.regions@.len() as int)
                &&& crate::ir::kind_regions_below(body.operations@[j].kind, body.regions@.len() as int)
                &&& crate::flow::is_region_container(body.operations@[j], true) ==> body.operations@[j].results@.len() > 0
            } by {
            assert(body.operations@[j].wf(values, body.regions@.len() as int, nf, nb));
        }
        assert(claims_ready(body.operations@, body.regions@.len() as int, true));
    }
    let mut graph = EscapeGraph::new(body.value_count + module.bindings.len());
    let ghost d0 = graph.spec_dependencies();
    proof {
        graph.lemma_wf();
        assert forall|x: int, y: int| !#[trigger] list_step(d0)(x, y) by {
            if list_step(d0)(x, y) {
                let k = choose|k: int| #![trigger d0[x]@[k]] 0 <= k < d0[x]@.len() && d0[x]@[k] as int == y;
            }
        }
    }
    add_block_parameter_flow(&mut graph, module, function);
    let ghost d1 = graph.spec_dependencies();
    let mut j: usize = 0;
    while j < body.operations.len()
        invariant
            graph.wf(),
            module.wf(),
            function < module.functions@.len(),
            *body == module.functions@[function as int],
            m == *module,
            f == function as int,
            values == body.value_count,
            nf == module.functions@.len(),
            nb == module.bindings@.len(),
            body.wf(nf, nb),
            escape_analyzable(m, f),
            graph.spec_node_count() == escape_node_count(m, f),
            j <= body.operations@.len(),
            graph.spec_seeds() == Set::new(
                |x: int|
                    exists|t: int| #![trigger body.operations@[t]] 0 <= t < j && escape_op_seed(m, f, body.operations@[t], x),
            ),
            forall|x: int, y: int|
                #![trigger list_step(graph.spec_dependencies())(x, y)]
                list_step(graph.spec_dependencies())(x, y) <==> (list_step(d1)(x, y) || exists|t: int|
                    #![trigger body.operations@[t]]
                    0 <= t < j && escape_op_edge(m, f, body.operations@[t], x, y)),
        decreases body.operations@.len() - j,
    {
        let op = &body.operations[j];
        let ghost d2 = graph.spec_dependencies();
        let ghost s2 = graph.spec_seeds();
        proof {
            assert(body.operations@[j as int] == *op);
            assert(op.wf(values, body.regions@.len() as int, nf, nb));
            assert(escape_ready(*op));
        }
        add_operation_flow(&mut graph, module, function, op);
        proof {
            assert(graph.spec_seeds() =~= Set::new(
                |x: int|
                    exists|t: int| #![trigger body.operations@[t]] 0 <= t < j + 1 && escape_op_seed(m, f, body.operations@[t], x),
            )) by {
                assert forall|x: int|
                    (exists|t: int| #![trigger body.operations@[t]] 0 <= t < j + 1 && escape_op_seed(m, f, body.operations@[t], x))
                    implies #[trigger] graph.spec_seeds().contains(x) by {
                    let t = choose|t: int| #![trigger body.operations@[t]] 0 <= t < j + 1 && escape_op_seed(m, f, body.operations@[t], x);
                    if t < j {
                        assert(s2.contains(x));
                    }
                }
            }
            assert forall|x: int, y: int|
                #![trigger list_step(graph.spec_dependencies())(x, y)]
                list_step(graph.spec_dependencies())(x, y) <==> (list_step(d1)(x, y) || exists|t: int|
                    #![trigger body.operations@[t]]
                    0 <= t < j + 1 && escape_op_edge(m, f, body.operations@[t], x, y)) by {
                if exists|t: int| #![trigger body.operations@[t]] 0 <= t < j + 1 && escape_op_edge(m, f, body.operations@[t], x, y) {
                    let t = choose|t: int| #![trigger body.operations@[t]] 0 <= t < j + 1 && escape_op_edge(m, f, body.operations@[t], x, y);
                    if t < j {
                        assert(list_step(d2)(x, y));
                    }
                }
            }
        }
        j = j + 1;
    }
    let ghost d3 = graph.spec_dependencies();
    let ghost s3 = graph.spec_seeds();
    add_region_flow(&mut graph, module, function);
    proof {
        assert(graph.spec_seeds() =~= Set::new(|x: int| escape_seed(m, f, x)));
        assert forall|x: int, y: int|
            #![trigger list_step(graph.spec_dependencies())(x, y)]
            list_step(graph.spec_dependencies())(x, y) <==> escape_edges(m, f)(x, y) by {
            if list_step(d1)(x, y) {
                assert(!list_step(d0)(x, y));
            }
        }
    }
    graph
}

} // verus!
