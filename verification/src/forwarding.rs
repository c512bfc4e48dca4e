//! Planning the removal of forwarding blocks and the merging of linear
//! blocks.
//!
//! A forwarding block holds no operation but a jump, and its parameters are
//! only passed on by that jump. Every edge that enters it can go straight to
//! the jump's target instead, carrying the arguments the forwarding block
//! would have passed on, composed from the arguments the edge carries.
//!
//! A linear block is entered by one jump from a block that has no other
//! successor; it can be merged into that block, its parameters replaced by
//! the jump's arguments.
//!
//! The planner reads a function through [`FunctionFacts`]: its blocks, the
//! successors of its operations and the uses of its values, each by dense
//! identifier.

use vstd::prelude::*;

use crate::control_flow::ControlFlowEdge;
use crate::control_flow::ControlFlowEdgeId;
use crate::control_flow::RegionControlFlowGraph;

verus! {

/// One parameter of a block: its value and whether an incoming edge
/// forwards an argument to it.
#[derive(Debug, Clone, Copy, PartialEq, Eq, Structural)]
pub struct BlockParameter {
    pub value: usize,
    pub forwarded: bool,
}

/// What the planner reads of one block.
pub struct BlockFacts {
    /// Whether the block has a structural role: a region entry, an exception
    /// handler entry, a labeled statement's body or completion, a loop block
    /// or a structural block of some operation.
    pub boundary: bool,
    /// The number of operations before its terminator.
    pub operation_count: usize,
    /// Its parameters, in order.
    pub parameters: Vec<BlockParameter>,
    /// Its terminator, when it has one.
    pub terminator: Option<u32>,
}

/// One successor of a terminator: its target block, how many leading
/// arguments the edge produces itself, and the arguments it carries.
pub struct SuccessorArguments {
    pub target: usize,
    pub produced_argument_count: usize,
    pub arguments: Vec<usize>,
}

/// What the planner reads of one operation.
pub struct OperationFacts {
    /// Whether the operation is an unconditional jump.
    pub jump: bool,
    /// Its successors, in successor order.
    pub successors: Vec<SuccessorArguments>,
}

/// What the planner reads of a function, each table by dense identifier:
/// `None` where no block, operation or value has that identifier.
pub struct FunctionFacts {
    pub blocks: Vec<Option<BlockFacts>>,
    pub operations: Vec<Option<OperationFacts>>,
    /// The operations that use each value.
    pub value_uses: Vec<Option<Vec<u32>>>,
}

/// One edge redirected past the forwarding block: the successor of
/// `terminator` at `successor_index` now enters the target with `arguments`.
pub struct ThreadedEdge {
    pub terminator: u32,
    pub successor_index: usize,
    pub arguments: Vec<usize>,
}

/// The plan for removing forwarding block `block`: each incoming edge is
/// redirected to `target`.
pub struct ThreadForwardingBlock {
    pub block: usize,
    pub target: usize,
    pub incoming: Vec<ThreadedEdge>,
}

/// A redirected edge as a value.
pub struct ThreadedEdgeView {
    pub terminator: u32,
    pub successor_index: usize,
    pub arguments: Seq<usize>,
}

/// A plan as a value.
pub struct ForwardingPlanView {
    pub block: usize,
    pub target: usize,
    pub incoming: Seq<ThreadedEdgeView>,
}

impl View for ThreadedEdge {
    type V = ThreadedEdgeView;

    open spec fn view(&self) -> ThreadedEdgeView {
        ThreadedEdgeView { terminator: self.terminator, successor_index: self.successor_index, arguments: self.arguments@ }
    }
}

impl View for ThreadForwardingBlock {
    type V = ForwardingPlanView;

    open spec fn view(&self) -> ForwardingPlanView {
        ForwardingPlanView { block: self.block, target: self.target, incoming: self.incoming@.map_values(|e: ThreadedEdge| e@) }
    }
}

/// The plan as a value, if any.
pub open spec fn plan_view(plan: Option<ThreadForwardingBlock>) -> Option<ForwardingPlanView> {
    match plan {
        Some(p) => Some(p@),
        None => None,
    }
}

/// The position of the last parameter whose value is `value`, or -1.
pub open spec fn parameter_slot(parameters: Seq<BlockParameter>, value: usize) -> int
    decreases parameters.len(),
{
    if parameters.len() == 0 {
        -1
    } else if parameters.last().value == value {
        parameters.len() - 1
    } else {
        parameter_slot(parameters.drop_last(), value)
    }
}

/// Whether every use of `value` is by operation `terminator`; false for a
/// value the function does not have.
pub open spec fn used_only_by(function: FunctionFacts, value: usize, terminator: u32) -> bool {
    &&& value < function.value_uses@.len()
    &&& function.value_uses@[value as int] is Some
    &&& forall|u: int|
        0 <= u < function.value_uses@[value as int]->Some_0@.len() ==> #[trigger] function.value_uses@[value as int]->Some_0@[u]
            == terminator
}

/// The successor of operation `terminator` at `index`, if both exist.
pub open spec fn successor_at(function: FunctionFacts, terminator: u32, index: usize) -> Option<SuccessorArguments> {
    if terminator < function.operations@.len() && function.operations@[terminator as int] is Some && index
        < function.operations@[terminator as int]->Some_0.successors@.len() {
        Some(function.operations@[terminator as int]->Some_0.successors@[index as int])
    } else {
        None
    }
}

/// Whether the edge `id` can be redirected: it exists, its successor
/// exists, produces no argument itself and carries one argument per
/// parameter of the forwarding block.
pub open spec fn edge_threadable(function: FunctionFacts, edges: Seq<ControlFlowEdge>, id: ControlFlowEdgeId, parameter_count: int) -> bool {
    &&& id.0 < edges.len()
    &&& successor_at(function, edges[id.0 as int].terminator, edges[id.0 as int].successor_index) matches Some(s)
    &&& s.produced_argument_count == 0
    &&& s.arguments@.len() == parameter_count
}

/// The arguments edge `id` carries to the target: for each argument the
/// jump passes on, the argument the edge gave its parameter.
pub open spec fn threaded_arguments(
    function: FunctionFacts,
    edges: Seq<ControlFlowEdge>,
    id: ControlFlowEdgeId,
    parameters: Seq<BlockParameter>,
    outgoing: Seq<usize>,
) -> Seq<usize> {
    let incoming = successor_at(function, edges[id.0 as int].terminator, edges[id.0 as int].successor_index)->Some_0.arguments@;
    Seq::new(outgoing.len(), |j: int| incoming[parameter_slot(parameters, outgoing[j])])
}

/// Edge `id` redirected.
pub open spec fn threaded_edge(
    function: FunctionFacts,
    edges: Seq<ControlFlowEdge>,
    id: ControlFlowEdgeId,
    parameters: Seq<BlockParameter>,
    outgoing: Seq<usize>,
) -> ThreadedEdgeView {
    ThreadedEdgeView {
        terminator: edges[id.0 as int].terminator,
        successor_index: edges[id.0 as int].successor_index,
        arguments: threaded_arguments(function, edges, id, parameters, outgoing),
    }
}

/// Whether `block` is a forwarding block whose removal the planner can
/// plan, given the jump `jump` that ends it and the edges `incoming` that
/// enter it.
pub open spec fn forwarding_ok(
    function: FunctionFacts,
    edges: Seq<ControlFlowEdge>,
    incoming: Seq<ControlFlowEdgeId>,
    block: usize,
    facts: BlockFacts,
    terminator: u32,
    jump: SuccessorArguments,
) -> bool {
    let parameters = facts.parameters@;
    &&& !facts.boundary
    &&& facts.operation_count == 0
    &&& forall|k: int| 0 <= k < parameters.len() ==> (#[trigger] parameters[k]).forwarded
    &&& jump.target != block
    &&& incoming.len() > 0
    &&& forall|k: int| 0 <= k < parameters.len() ==> used_only_by(function, (#[trigger] parameters[k]).value, terminator)
    &&& forall|j: int| 0 <= j < jump.arguments@.len() ==> parameter_slot(parameters, #[trigger] jump.arguments@[j]) >= 0
    &&& forall|i: int| 0 <= i < incoming.len() ==> edge_threadable(function, edges, #[trigger] incoming[i], parameters.len() as int)
}

/// The plan for `block` in a region with `block_count` blocks, edges
/// `edges`, and edges `incoming` entering the block.
pub open spec fn forwarding_plan(
    function: FunctionFacts,
    edges: Seq<ControlFlowEdge>,
    block_count: nat,
    incoming: Seq<ControlFlowEdgeId>,
    block: usize,
) -> Option<ForwardingPlanView> {
    let blocks = function.blocks@;
    if !(block < blocks.len() && block < block_count) {
        None
    } else {
        match blocks[block as int] {
            None => None,
            Some(facts) => match facts.terminator {
                None => None,
                Some(t) => if t < function.operations@.len() {
                    match function.operations@[t as int] {
                        None => None,
                        Some(op) => if op.jump && op.successors@.len() > 0 && forwarding_ok(
                            function,
                            edges,
                            incoming,
                            block,
                            facts,
                            t,
                            op.successors@[0],
                        ) {
                            Some(
                                ForwardingPlanView {
                                    block,
                                    target: op.successors@[0].target,
                                    incoming: Seq::new(
                                        incoming.len(),
                                        |i: int|
                                            threaded_edge(
                                                function,
                                                edges,
                                                incoming[i],
                                                facts.parameters@,
                                                op.successors@[0].arguments@,
                                            ),
                                    ),
                                },
                            )
                        } else {
                            None
                        },
                    }
                } else {
                    None
                },
            },
        }
    }
}

/// The plan for merging `block` into its only predecessor `predecessor`:
/// each parameter value of the block is replaced by the argument the
/// predecessor's jump passes it, pairs `(parameter, argument)` in parameter
/// order.
pub struct MergeLinearBlock {
    pub predecessor: usize,
    pub block: usize,
    pub substitutions: Vec<(usize, usize)>,
}

/// Whether `block` of the region `control_flow` describes can be merged
/// into its predecessor: it has no structural role and a terminator, one
/// edge enters it, from another block that has no other edge and ends in a
/// jump, whose successor produces no argument and passes one argument per
/// parameter, all parameters are forwarded, and no parameter is passed
/// itself.
pub open spec fn linear_plan(
    function: FunctionFacts,
    control_flow: RegionControlFlowGraph,
    block: usize,
) -> Option<(usize, usize, Seq<(usize, usize)>)> {
    let edges = control_flow.spec_edges();
    let blocks = function.blocks@;
    if !(block < blocks.len() && block < control_flow.spec_block_count()) {
        None
    } else {
        match blocks[block as int] {
            None => None,
            Some(facts) => {
                let incoming = control_flow.spec_predecessor_ids(block as int);
                if facts.boundary || facts.terminator is None || incoming.len() != 1 || incoming[0].0 >= edges.len() {
                    None
                } else {
                    let edge = edges[incoming[0].0 as int];
                    let parameters = facts.parameters@;
                    match successor_at(function, edge.terminator, edge.successor_index) {
                        None => None,
                        Some(successor) => {
                            let arguments = successor.arguments@;
                            if edge.source == block || edge.source >= control_flow.spec_block_count()
                                || control_flow.spec_successor_ids(edge.source as int).len() != 1
                                || !function.operations@[edge.terminator as int]->Some_0.jump
                                || successor.produced_argument_count != 0 || parameters.len() != arguments.len()
                                || (exists|k: int| 0 <= k < parameters.len() && !(#[trigger] parameters[k]).forwarded)
                                || (exists|k: int| 0 <= k < parameters.len() && (#[trigger] parameters[k]).value == arguments[k]) {
                                None
                            } else {
                                Some((edge.source, block, Seq::new(parameters.len(), |k: int| (parameters[k].value, arguments[k]))))
                            }
                        },
                    }
                }
            },
        }
    }
}

/// A merge plan as a value.
pub open spec fn merge_view(plan: Option<MergeLinearBlock>) -> Option<(usize, usize, Seq<(usize, usize)>)> {
    match plan {
        Some(p) => Some((p.predecessor, p.block, p.substitutions@)),
        None => None,
    }
}

/// A slot `parameter_slot` gives is -1 or the position of a parameter with
/// that value.
proof fn lemma_parameter_slot(parameters: Seq<BlockParameter>, value: usize)
    ensures
        -1 <= parameter_slot(parameters, value) < parameters.len(),
        parameter_slot(parameters, value) >= 0 ==> parameters[parameter_slot(parameters, value)].value == value,
    decreases parameters.len(),
{
    if parameters.len() > 0 && parameters.last().value != value {
        lemma_parameter_slot(parameters.drop_last(), value);
    }
}

/// The position of the last parameter whose value is `value`.
fn find_parameter_slot(parameters: &Vec<BlockParameter>, value: usize) -> (r: Option<usize>)
    ensures
        match r {
            Some(k) => k == parameter_slot(parameters@, value),
            None => parameter_slot(parameters@, value) < 0,
        },
{
    let mut k: usize = parameters.len();
    proof {
        assert(parameters@.take(k as int) =~= parameters@);
    }
    while k > 0
        invariant
            k <= parameters@.len(),
            parameter_slot(parameters@, value) == parameter_slot(parameters@.take(k as int), value),
        decreases k,
    {
        let ghost prefix = parameters@.take(k as int);
        proof {
            assert(prefix.drop_last() =~= parameters@.take(k - 1));
            assert(prefix.last() == parameters@[k - 1]);
        }
        if parameters[k - 1].value == value {
            return Some(k - 1);
        }
        k = k - 1;
    }
    None
}

/// Whether every use of `value` is by operation `terminator`.
fn value_used_only_by(function: &FunctionFacts, value: usize, terminator: u32) -> (r: bool)
    ensures
        r == used_only_by(*function, value, terminator),
{
    if value >= function.value_uses.len() {
        return false;
    }
    match &function.value_uses[value] {
        None => false,
        Some(uses) => {
            let mut u: usize = 0;
            while u < uses.len()
                invariant
                    u <= uses@.len(),
                    value < function.value_uses@.len(),
                    function.value_uses@[value as int] == Some(*uses),
                    forall|w: int| 0 <= w < u ==> #[trigger] uses@[w] == terminator,
                decreases uses.len() - u,
            {
                if uses[u] != terminator {
                    assert(function.value_uses@[value as int]->Some_0@[u as int] != terminator);
                    return false;
                }
                u = u + 1;
            }
            true
        },
    }
}

/// The successor of operation `terminator` at `index`, if both exist.
fn successor_of(function: &FunctionFacts, terminator: u32, index: usize) -> (r: Option<&SuccessorArguments>)
    ensures
        match r {
            Some(s) => successor_at(*function, terminator, index) == Some(*s),
            None => successor_at(*function, terminator, index) is None,
        },
{
    let t = terminator as usize;
    if t >= function.operations.len() {
        return None;
    }
    match &function.operations[t] {
        None => None,
        Some(op) => {
            if index < op.successors.len() {
                Some(&op.successors[index])
            } else {
                None
            }
        },
    }
}

/// Plans the removal of `block` when it is a forwarding block of the region
/// whose control flow `control_flow` describes: a block with no structural
/// role, no operation but a jump to another block, parameters that are all
/// forwarded and used by that jump alone, a jump that passes on parameters
/// only, and at least one incoming edge, each of which produces no argument
/// itself and carries one argument per parameter. The plan redirects each
/// incoming edge, in the order the graph lists them, to the jump's target,
/// with the arguments the edge gave the parameters the jump passes on.
#[verifier::loop_isolation(false)]
pub fn plan_forwarding_block(
    function: &FunctionFacts,
    control_flow: &RegionControlFlowGraph,
    block: usize,
) -> (plan: Option<ThreadForwardingBlock>)
    requires
        control_flow.wf(),
    ensures
        plan_view(plan) == forwarding_plan(
            *function,
            control_flow.spec_edges(),
            control_flow.spec_block_count(),
            control_flow.spec_predecessor_ids(block as int),
            block,
        ),
{
    let ghost edges = control_flow.spec_edges();
    if block >= function.blocks.len() {
        return None;
    }
    let facts = match &function.blocks[block] {
        Some(facts) => facts,
        None => return None,
    };
    if facts.boundary || facts.operation_count != 0 {
        return None;
    }
    let parameters = &facts.parameters;
    let mut k: usize = 0;
    while k < parameters.len()
        invariant
            k <= parameters@.len(),
            forall|q: int| 0 <= q < k ==> (#[trigger] parameters@[q]).forwarded,
        decreases parameters.len() - k,
    {
        if !parameters[k].forwarded {
            assert(!facts.parameters@[k as int].forwarded);
            return None;
        }
        k = k + 1;
    }
    let t = match facts.terminator {
        Some(t) => t,
        None => return None,
    };
    let tu = t as usize;
    if tu >= function.operations.len() {
        return None;
    }
    let op = match &function.operations[tu] {
        Some(op) => op,
        None => return None,
    };
    if !op.jump || op.successors.len() == 0 {
        return None;
    }
    let outgoing = &op.successors[0];
    if outgoing.target == block {
        return None;
    }
    let incoming_edges = match control_flow.predecessor_edges(block) {
        Some(ids) => ids,
        None => return None,
    };
    if incoming_edges.len() == 0 {
        return None;
    }
    let mut k: usize = 0;
    while k < parameters.len()
        invariant
            k <= parameters@.len(),
            forall|q: int| 0 <= q < k ==> used_only_by(*function, (#[trigger] parameters@[q]).value, t),
        decreases parameters.len() - k,
    {
        if !value_used_only_by(function, parameters[k].value, t) {
            assert(!used_only_by(*function, facts.parameters@[k as int].value, t));
            return None;
        }
        k = k + 1;
    }
    let outgoing_arguments = &outgoing.arguments;
    let mut j: usize = 0;
    while j < outgoing_arguments.len()
        invariant
            j <= outgoing_arguments@.len(),
            forall|q: int| 0 <= q < j ==> parameter_slot(parameters@, #[trigger] outgoing_arguments@[q]) >= 0,
        decreases outgoing_arguments.len() - j,
    {
        if find_parameter_slot(parameters, outgoing_arguments[j]).is_none() {
            assert(parameter_slot(facts.parameters@, op.successors@[0].arguments@[j as int]) < 0);
            return None;
        }
        j = j + 1;
    }
    let mut incoming: Vec<ThreadedEdge> = Vec::new();
    let mut i: usize = 0;
    while i < incoming_edges.len()
        invariant
            i <= incoming_edges@.len(),
            incoming@.len() == i,
            edges == control_flow.spec_edges(),
            forall|q: int| 0 <= q < outgoing_arguments@.len() ==> parameter_slot(parameters@, #[trigger] outgoing_arguments@[q]) >= 0,
            forall|q: int| 0 <= q < i ==> edge_threadable(*function, edges, #[trigger] incoming_edges@[q], parameters@.len() as int),
            forall|q: int|
                0 <= q < i ==> (#[trigger] incoming@[q])@ == threaded_edge(
                    *function,
                    edges,
                    incoming_edges@[q],
                    parameters@,
                    outgoing_arguments@,
                ),
        decreases incoming_edges.len() - i,
    {
        let id = incoming_edges[i];
        let edge = match control_flow.edge(id) {
            Some(edge) => *edge,
            None => {
                assert(!edge_threadable(*function, edges, incoming_edges@[i as int], parameters@.len() as int));
                return None;
            },
        };
        let successor = match successor_of(function, edge.terminator, edge.successor_index) {
            Some(successor) => successor,
            None => {
                assert(!edge_threadable(*function, edges, incoming_edges@[i as int], parameters@.len() as int));
                return None;
            },
        };
        if successor.produced_argument_count != 0 || successor.arguments.len() != parameters.len() {
            assert(!edge_threadable(*function, edges, incoming_edges@[i as int], parameters@.len() as int));
            return None;
        }
        let mut arguments: Vec<usize> = Vec::new();
        let mut j: usize = 0;
        while j < outgoing_arguments.len()
            invariant
                j <= outgoing_arguments@.len(),
                arguments@.len() == j,
                successor.arguments@.len() == parameters@.len(),
                forall|q: int| 0 <= q < outgoing_arguments@.len() ==> parameter_slot(parameters@, #[trigger] outgoing_arguments@[q]) >= 0,
                forall|q: int|
                    0 <= q < j ==> #[trigger] arguments@[q] == successor.arguments@[parameter_slot(
                        parameters@,
                        outgoing_arguments@[q],
                    )],
            decreases outgoing_arguments.len() - j,
        {
            proof {
                lemma_parameter_slot(parameters@, outgoing_arguments@[j as int]);
            }
            let slot = match find_parameter_slot(parameters, outgoing_arguments[j]) {
                Some(slot) => slot,
                None => return None,
            };
            arguments.push(successor.arguments[slot]);
            j = j + 1;
        }
        proof {
            assert(arguments@ =~= threaded_arguments(*function, edges, id, parameters@, outgoing_arguments@));
        }
        incoming.push(ThreadedEdge { terminator: edge.terminator, successor_index: edge.successor_index, arguments });
        i = i + 1;
    }
    let plan = ThreadForwardingBlock { block, target: outgoing.target, incoming };
    proof {
        assert(plan@.incoming =~= Seq::new(
            incoming_edges@.len(),
            |q: int| threaded_edge(*function, edges, incoming_edges@[q], parameters@, outgoing_arguments@),
        ));
    }
    Some(plan)
}

/// Plans merging `block` into its only predecessor, as `linear_plan` says.
#[verifier::loop_isolation(false)]
pub fn plan_linear_block(
    function: &FunctionFacts,
    control_flow: &RegionControlFlowGraph,
    block: usize,
) -> (plan: Option<MergeLinearBlock>)
    requires
        control_flow.wf(),
    ensures
        merge_view(plan) == linear_plan(*function, *control_flow, block),
{
    if block >= function.blocks.len() {
        return None;
    }
    let facts = match &function.blocks[block] {
        Some(facts) => facts,
        None => return None,
    };
    if facts.boundary || facts.terminator.is_none() {
        return None;
    }
    let incoming_edges = match control_flow.predecessor_edges(block) {
        Some(ids) => ids,
        None => return None,
    };
    if incoming_edges.len() != 1 {
        return None;
    }
    let edge = match control_flow.edge(incoming_edges[0]) {
        Some(edge) => *edge,
        None => return None,
    };
    let predecessor = edge.source;
    if predecessor == block {
        return None;
    }
    match control_flow.successor_edges(predecessor) {
        Some(ids) => {
            if ids.len() != 1 {
                return None;
            }
        },
        None => return None,
    }
    let successor = match successor_of(function, edge.terminator, edge.successor_index) {
        Some(successor) => successor,
        None => return None,
    };
    let jump = match &function.operations[edge.terminator as usize] {
        Some(op) => op.jump,
        None => false,
    };
    let parameters = &facts.parameters;
    let arguments = &successor.arguments;
    if !jump || successor.produced_argument_count != 0 || parameters.len() != arguments.len() {
        return None;
    }
    let mut substitutions: Vec<(usize, usize)> = Vec::new();
    let mut k: usize = 0;
    while k < parameters.len()
        invariant
            k <= parameters@.len(),
            parameters@.len() == arguments@.len(),
            substitutions@.len() == k,
            forall|q: int| 0 <= q < k ==> (#[trigger] parameters@[q]).forwarded,
            forall|q: int| 0 <= q < k ==> (#[trigger] parameters@[q]).value != arguments@[q],
            forall|q: int| 0 <= q < k ==> #[trigger] substitutions@[q] == (parameters@[q].value, arguments@[q]),
        decreases parameters.len() - k,
    {
        let parameter = parameters[k];
        if !parameter.forwarded || parameter.value == arguments[k] {
            assert(!parameters@[k as int].forwarded || parameters@[k as int].value == arguments@[k as int]);
            return None;
        }
        substitutions.push((parameter.value, arguments[k]));
        k = k + 1;
    }
    proof {
        assert(substitutions@ =~= Seq::new(parameters@.len(), |q: int| (parameters@[q].value, arguments@[q])));
    }
    Some(MergeLinearBlock { predecessor, block, substitutions })
}

} // verus!
