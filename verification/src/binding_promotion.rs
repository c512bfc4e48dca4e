//! Which bindings can be replaced by SSA values.
//!
//! A candidate is a function-local `var` binding. It is promotable when every
//! operation that names it lies in the body region of its declaring function
//! and initializes, stores or loads it; when the initialization reaches every
//! store and load first on every path; and when no write could give an
//! anonymous function or class its name.

use vstd::prelude::*;

use crate::control_flow::edge_step;
use crate::control_flow::shape_edges;
use crate::control_flow::shape_valid;
use crate::control_flow::RegionControlFlowGraph;
use crate::control_flow::RegionShape;
use crate::dominance::dominates_in;
use crate::dominator_tree::RegionDominatorTree;
use crate::flow::first_definer;
use crate::flow::find_definer;
use crate::flow::is_descendant;
use crate::flow::is_descendant_of;
use crate::flow::is_eval_name;
use crate::flow::names_eval;
use crate::flow::references_binding;
use crate::ir::export_binding;
use crate::ir::BindingKind;
use crate::ir::FunctionIr;
use crate::ir::ModuleExport;
use crate::ir::ModuleIr;
use crate::ir::Operation;
use crate::ir::OperationKind;
use crate::paths::reaches;

verus! {

/// Where an operation stands in the body region: its block and its position
/// among the block's operations.
#[derive(Debug, Clone, Copy, PartialEq, Eq, Structural)]
pub struct BlockPosition {
    pub block: usize,
    pub index: usize,
}

/// The block structure of one function that promotion reads.
pub struct FunctionLayout {
    /// The function runs without suspending: neither a generator nor async.
    pub normal: bool,
    /// The ordinary control flow of the body region; `None` when the region
    /// transfers control on exceptions that no terminator makes explicit.
    pub body: Option<RegionShape>,
    /// For each operation, its position when it lies in the body region.
    pub positions: Vec<Option<BlockPosition>>,
}

impl FunctionLayout {
    /// One position per operation, each in a block of the body region.
    pub open spec fn wf(&self, function: FunctionIr) -> bool {
        &&& self.positions@.len() == function.operations@.len()
        &&& match self.body {
            Some(shape) => {
                &&& shape_valid(&shape)
                &&& forall|j: int|
                    #![trigger self.positions@[j]]
                    0 <= j < self.positions@.len() && self.positions@[j] is Some
                        ==> self.positions@[j]->Some_0.block < shape.terminators.len()
            },
            None => true,
        }
    }
}

/// How an operation uses one binding.
#[derive(Debug, Clone, Copy, PartialEq, Eq, Structural)]
pub enum BindingUse {
    Initialization,
    Store,
    Load,
    Other,
}

/// How `op` uses binding `b`.
pub open spec fn binding_use(op: Operation, b: usize) -> BindingUse {
    match op.kind {
        OperationKind::InitializeBinding { binding } => if binding == b {
            BindingUse::Initialization
        } else {
            BindingUse::Other
        },
        OperationKind::StoreBinding { binding } => if binding == b {
            BindingUse::Store
        } else {
            BindingUse::Other
        },
        OperationKind::LoadBinding { binding } => if binding == b {
            BindingUse::Load
        } else {
            BindingUse::Other
        },
        _ => BindingUse::Other,
    }
}

/// Operation `j`, once for each of the first `k` entries of `refs` that is `b`.
pub open spec fn references_in(refs: Seq<usize>, b: usize, j: usize, k: int) -> Seq<usize>
    decreases k,
{
    if k <= 0 {
        Seq::empty()
    } else {
        references_in(refs, b, j, k - 1) + if refs[k - 1] == b {
            seq![j]
        } else {
            Seq::<usize>::empty()
        }
    }
}

/// The operations among `ops[..j]` that name binding `b`, in order, once per
/// time they name it.
pub open spec fn references_upto(ops: Seq<Operation>, b: usize, j: int) -> Seq<usize>
    decreases j,
{
    if j <= 0 {
        Seq::empty()
    } else {
        references_upto(ops, b, j - 1) + references_in(
            ops[j - 1].referenced_bindings@,
            b,
            (j - 1) as usize,
            ops[j - 1].referenced_bindings@.len() as int,
        )
    }
}

/// A candidate before any operation was recorded: no initialization, no
/// stores, no loads, not rejected.
pub open spec fn fresh_candidate() -> (Option<usize>, Seq<usize>, Seq<usize>, bool) {
    (None, Seq::empty(), Seq::empty(), true)
}

/// Candidate `c` of binding `b` after recording operation `j`: an operation
/// outside the body region, or one that does more than initialize, store or
/// load `b`, rejects it.
pub open spec fn recorded(
    c: (Option<usize>, Seq<usize>, Seq<usize>, bool),
    function: FunctionIr,
    layout: FunctionLayout,
    j: usize,
    b: usize,
) -> (Option<usize>, Seq<usize>, Seq<usize>, bool) {
    if !(j < layout.positions@.len() && layout.positions@[j as int] is Some) {
        (c.0, c.1, c.2, false)
    } else {
        match binding_use(function.operations@[j as int], b) {
            BindingUse::Initialization => (Some(j), c.1, c.2, c.3),
            BindingUse::Store => (c.0, c.1.push(j), c.2, c.3),
            BindingUse::Load => (c.0, c.1, c.2.push(j), c.3),
            BindingUse::Other => (c.0, c.1, c.2, false),
        }
    }
}

/// Candidate `c` of binding `b` after recording the operations `refs` in order.
pub open spec fn recorded_all(
    c: (Option<usize>, Seq<usize>, Seq<usize>, bool),
    function: FunctionIr,
    layout: FunctionLayout,
    refs: Seq<usize>,
    b: usize,
) -> (Option<usize>, Seq<usize>, Seq<usize>, bool)
    decreases refs.len(),
{
    if refs.len() == 0 {
        c
    } else {
        recorded(recorded_all(c, function, layout, refs.drop_last(), b), function, layout, refs.last(), b)
    }
}

/// Operation `j` lies in a block of the body region that its entry reaches.
pub open spec fn reached(layout: FunctionLayout, shape: RegionShape, j: usize) -> bool {
    &&& j < layout.positions@.len()
    &&& match layout.positions@[j as int] {
        Some(p) => p.block < shape.terminators.len() && reaches(
            edge_step(shape_edges(&shape, shape.terminators.len() as int)),
            shape.entry as int,
            p.block as int,
        ),
        None => false,
    }
}

/// Operation `d` runs before operation `o` on every path through the body
/// region: its block dominates `o`'s, or it comes first in their common block.
pub open spec fn runs_before(layout: FunctionLayout, shape: RegionShape, d: usize, o: usize) -> bool {
    let pd = layout.positions@[d as int]->Some_0;
    let po = layout.positions@[o as int]->Some_0;
    if pd.block != po.block {
        dominates_in(shape_edges(&shape, shape.terminators.len() as int), shape.entry as int, pd.block as int, po.block as int)
    } else {
        pd.index < po.index
    }
}

/// Value `v` is the result of creating a function or a class, which a binding
/// write would name.
pub open spec fn names_anonymous(function: FunctionIr, v: usize) -> bool {
    exists|j: int|
        #![trigger function.operations@[j]]
        first_definer(function.operations@, v, j) && (function.operations@[j].kind is CreateFunction
            || function.operations@[j].kind is CreateClass)
}

/// Operation `w` writes a first operand that needs no name from the binding.
pub open spec fn keeps_names(function: FunctionIr, w: usize) -> bool {
    &&& w < function.operations@.len()
    &&& function.operations@[w as int].operands@.len() > 0
    &&& !names_anonymous(function, function.operations@[w as int].operands@[0])
}

/// What promotion makes of candidate `c`: its initialization, stores and
/// loads when the function runs without suspending, its body region has
/// explicit control flow, the candidate was not rejected, it has an
/// initialization in a reached block that runs before each of its stores and
/// loads, which lie in reached blocks too, and no write needs naming.
pub open spec fn finished(
    function: FunctionIr,
    layout: FunctionLayout,
    c: (Option<usize>, Seq<usize>, Seq<usize>, bool),
) -> Option<(usize, Seq<usize>, Seq<usize>)> {
    if !layout.normal || layout.body is None || !c.3 || c.0 is None {
        None
    } else {
        let shape = layout.body->Some_0;
        let i = c.0->Some_0;
        let accesses = c.1 + c.2;
        if reached(layout, shape, i)
            && (forall|k: int|
            #![trigger accesses[k]]
            0 <= k < accesses.len() ==> reached(layout, shape, accesses[k]) && runs_before(layout, shape, i, accesses[k]))
            && keeps_names(function, i) && (forall|k: int|
            #![trigger c.1[k]]
            0 <= k < c.1.len() ==> keeps_names(function, c.1[k])) {
            Some((i, c.1, c.2))
        } else {
            None
        }
    }
}

/// The operations of one promotable binding that promotion replaces.
pub struct PromotableBinding {
    initialization: usize,
    stores: Vec<usize>,
    loads: Vec<usize>,
}

impl View for PromotableBinding {
    type V = (usize, Seq<usize>, Seq<usize>);

    closed spec fn view(&self) -> (usize, Seq<usize>, Seq<usize>) {
        (self.initialization, self.stores@, self.loads@)
    }
}

impl PromotableBinding {
    /// Returns the binding's unique initialization operation.
    pub fn initialization(&self) -> (r: usize)
        ensures
            r == self@.0,
    {
        self.initialization
    }

    /// Returns the stores to the initialized binding.
    pub fn stores(&self) -> (r: &[usize])
        ensures
            r@ == self@.1,
    {
        self.stores.as_slice()
    }

    /// Returns the loads of the binding.
    pub fn loads(&self) -> (r: &[usize])
        ensures
            r@ == self@.2,
    {
        self.loads.as_slice()
    }

    /// Returns every operation that promotion removes: the initialization,
    /// then the stores, then the loads.
    pub fn operations(&self) -> (r: Vec<usize>)
        ensures
            r@ == seq![self@.0] + self@.1 + self@.2,
    {
        let mut r: Vec<usize> = Vec::new();
        r.push(self.initialization);
        let mut i: usize = 0;
        while i < self.stores.len()
            invariant
                i <= self.stores@.len(),
                r@ == seq![self.initialization] + self.stores@.subrange(0, i as int),
            decreases self.stores@.len() - i,
        {
            r.push(self.stores[i]);
            i = i + 1;
            assert(r@ =~= seq![self.initialization] + self.stores@.subrange(0, i as int));
        }
        assert(self.stores@.subrange(0, self.stores@.len() as int) =~= self.stores@);
        let mut i: usize = 0;
        while i < self.loads.len()
            invariant
                i <= self.loads@.len(),
                r@ == seq![self.initialization] + self.stores@ + self.loads@.subrange(0, i as int),
            decreases self.loads@.len() - i,
        {
            r.push(self.loads[i]);
            i = i + 1;
            assert(r@ =~= seq![self.initialization] + self.stores@ + self.loads@.subrange(0, i as int));
        }
        assert(self.loads@.subrange(0, self.loads@.len() as int) =~= self.loads@);
        r
    }
}

/// The promotable bindings of one function, indexed by binding.
pub struct FunctionBindingPromotion {
    bindings: Vec<Option<PromotableBinding>>,
}

impl FunctionBindingPromotion {
    /// What promotion makes of binding `b`: its initialization, stores and
    /// loads when it is promotable.
    pub closed spec fn spec_binding(&self, b: int) -> Option<(usize, Seq<usize>, Seq<usize>)> {
        if 0 <= b < self.bindings@.len() {
            match self.bindings@[b] {
                Some(p) => Some(p@),
                None => None,
            }
        } else {
            None
        }
    }

    /// No binding is promotable.
    fn empty() -> (r: Self)
        ensures
            forall|b: int| r.spec_binding(b) is None,
    {
        FunctionBindingPromotion { bindings: Vec::new() }
    }

    /// Returns whether no binding of this function is promotable.
    pub fn is_empty(&self) -> (r: bool)
        ensures
            r == forall|b: int| self.spec_binding(b) is None,
    {
        let mut i: usize = 0;
        while i < self.bindings.len()
            invariant
                i <= self.bindings@.len(),
                forall|b: int| 0 <= b < i ==> self.spec_binding(b) is None,
            decreases self.bindings@.len() - i,
        {
            if self.bindings[i].is_some() {
                assert(self.spec_binding(i as int) is Some);
                return false;
            }
            i = i + 1;
        }
        true
    }

    /// Returns whether binding `binding` is promotable.
    pub fn is_promotable(&self, binding: usize) -> (r: bool)
        ensures
            r == self.spec_binding(binding as int) is Some,
    {
        binding < self.bindings.len() && self.bindings[binding].is_some()
    }

    /// Returns the promotable bindings in increasing order.
    pub fn promotable_bindings(&self) -> (r: Vec<usize>)
        ensures
            forall|i: int, j: int| 0 <= i < j < r@.len() ==> r@[i] < r@[j],
            forall|b: usize| r@.contains(b) <==> self.spec_binding(b as int) is Some,
    {
        let mut r: Vec<usize> = Vec::new();
        let mut i: usize = 0;
        while i < self.bindings.len()
            invariant
                i <= self.bindings@.len(),
                forall|x: int, y: int| 0 <= x < y < r@.len() ==> r@[x] < r@[y],
                forall|x: int| 0 <= x < r@.len() ==> r@[x] < i,
                forall|b: usize| r@.contains(b) <==> (b < i && self.spec_binding(b as int) is Some),
            decreases self.bindings@.len() - i,
        {
            let ghost before = r@;
            let some = self.bindings[i].is_some();
            if some {
                r.push(i);
            }
            proof {
                assert forall|b: usize| r@.contains(b) <==> (b < i + 1 && self.spec_binding(b as int) is Some) by {
                    assert(self.spec_binding(i as int) is Some <==> some);
                    if some {
                        assert(r@ == before.push(i));
                        if r@.contains(b) {
                            let k = choose|k: int| 0 <= k < r@.len() && r@[k] == b;
                            if k < before.len() {
                                assert(before[k] == b);
                                assert(before.contains(b));
                            }
                        }
                        if before.contains(b) {
                            let k = choose|k: int| 0 <= k < before.len() && before[k] == b;
                            assert(r@[k] == b);
                        }
                        if b == i {
                            assert(r@[before.len() as int] == b);
                        }
                    }
                }
            }
            i = i + 1;
        }
        r
    }

    /// Returns the promotion data of one promotable binding.
    pub fn promotable_binding(&self, binding: usize) -> (r: Option<&PromotableBinding>)
        ensures
            match r {
                Some(p) => self.spec_binding(binding as int) == Some(p@),
                None => self.spec_binding(binding as int) is None,
            },
    {
        if binding < self.bindings.len() {
            match &self.bindings[binding] {
                Some(p) => Some(p),
                None => None,
            }
        } else {
            None
        }
    }
}

impl Default for FunctionBindingPromotion {
    /// No binding is promotable.
    fn default() -> (r: Self)
        ensures
            forall|b: int| r.spec_binding(b) is None,
    {
        FunctionBindingPromotion::empty()
    }
}

impl Default for FunctionBindingPromotionBuilder {
    /// A builder without candidates.
    fn default() -> (builder: Self)
        ensures
            forall|b: int| builder.spec_candidate(b) is None,
    {
        FunctionBindingPromotionBuilder::new()
    }
}

/// One candidate binding of a function while its references are recorded.
struct BindingCandidate {
    initialization: Option<usize>,
    stores: Vec<usize>,
    loads: Vec<usize>,
    valid: bool,
}

impl View for BindingCandidate {
    type V = (Option<usize>, Seq<usize>, Seq<usize>, bool);

    closed spec fn view(&self) -> (Option<usize>, Seq<usize>, Seq<usize>, bool) {
        (self.initialization, self.stores@, self.loads@, self.valid)
    }
}

/// Collects the candidate bindings of one function and the operations that
/// name them, then decides which are promotable.
pub struct FunctionBindingPromotionBuilder {
    candidates: Vec<Option<BindingCandidate>>,
}

impl FunctionBindingPromotionBuilder {
    /// The recorded state of binding `b`, when it is a candidate.
    pub closed spec fn spec_candidate(&self, b: int) -> Option<(Option<usize>, Seq<usize>, Seq<usize>, bool)> {
        if 0 <= b < self.candidates@.len() {
            match self.candidates@[b] {
                Some(c) => Some(c@),
                None => None,
            }
        } else {
            None
        }
    }

    /// A builder without candidates.
    pub fn new() -> (builder: Self)
        ensures
            forall|b: int| builder.spec_candidate(b) is None,
    {
        FunctionBindingPromotionBuilder { candidates: Vec::new() }
    }

    /// Adds a candidate binding, which may not be a candidate yet.
    pub fn add_candidate(&mut self, binding: usize)
        requires
            old(self).spec_candidate(binding as int) is None,
            binding < usize::MAX,
        ensures
            final(self).spec_candidate(binding as int) == Some(fresh_candidate()),
            forall|b: int| b != binding ==> final(self).spec_candidate(b) == old(self).spec_candidate(b),
    {
        let ghost before = *old(self);
        while self.candidates.len() <= binding
            invariant
                binding < usize::MAX,
                before.candidates@.len() <= self.candidates@.len(),
                self.candidates@.len() <= binding + 1 || self.candidates@.len() == before.candidates@.len(),
                forall|b: int| 0 <= b < before.candidates@.len() ==> self.candidates@[b] == before.candidates@[b],
                forall|b: int| before.candidates@.len() <= b < self.candidates@.len() ==> self.candidates@[b] is None,
            decreases binding + 1 - self.candidates@.len(),
        {
            self.candidates.push(None);
        }
        let ghost grown = self.candidates@;
        self.candidates.set(
            binding,
            Some(BindingCandidate { initialization: None, stores: Vec::new(), loads: Vec::new(), valid: true }),
        );
        proof {
            assert forall|b: int| b != binding implies self.spec_candidate(b) == before.spec_candidate(b) by {
                if 0 <= b < self.candidates@.len() {
                    assert(self.candidates@[b] == grown[b]);
                }
            }
            assert(self.candidates@[binding as int]->Some_0@ =~= fresh_candidate());
        }
    }

    /// Rejects candidate `binding`, if it is one.
    pub fn reject(&mut self, binding: usize)
        ensures
            final(self).spec_candidate(binding as int) == match old(self).spec_candidate(binding as int) {
                Some(c) => Some((c.0, c.1, c.2, false)),
                None => None,
            },
            forall|b: int| b != binding ==> final(self).spec_candidate(b) == old(self).spec_candidate(b),
    {
        if binding < self.candidates.len() {
            match &mut self.candidates[binding] {
                Some(c) => {
                    c.valid = false;
                },
                None => {},
            }
        }
    }

    /// Rejects every candidate.
    pub fn reject_all(&mut self)
        ensures
            forall|b: int|
                #[trigger] final(self).spec_candidate(b) == match old(self).spec_candidate(b) {
                    Some(c) => Some((c.0, c.1, c.2, false)),
                    None => None,
                },
    {
        let ghost before = *old(self);
        let n = self.candidates.len();
        let mut i: usize = 0;
        while i < n
            invariant
                n == before.candidates@.len(),
                i <= n,
                forall|b: int|
                    #![trigger self.spec_candidate(b)]
                    0 <= b < i ==> self.spec_candidate(b) == match before.spec_candidate(b) {
                        Some(c) => Some((c.0, c.1, c.2, false)),
                        None => None,
                    },
                forall|b: int| #![trigger self.spec_candidate(b)] b < 0 || b >= i ==> self.spec_candidate(b) == before.spec_candidate(b),
            decreases n - i,
        {
            self.reject(i);
            i = i + 1;
        }
    }

    /// Records that operation `operation` of `function` names candidate
    /// `binding`; a binding that is no candidate is left alone.
    pub fn record_reference(&mut self, function: &FunctionIr, layout: &FunctionLayout, operation: usize, binding: usize)
        requires
            operation < function.operations@.len(),
        ensures
            final(self).spec_candidate(binding as int) == match old(self).spec_candidate(binding as int) {
                Some(c) => Some(recorded(c, *function, *layout, operation, binding)),
                None => None,
            },
            forall|b: int| b != binding ==> final(self).spec_candidate(b) == old(self).spec_candidate(b),
    {
        if binding >= self.candidates.len() {
            return;
        }
        let placed = operation < layout.positions.len() && layout.positions[operation].is_some();
        let usage = binding_use_of(&function.operations[operation], binding);
        match &mut self.candidates[binding] {
            Some(c) => {
                if !placed {
                    c.valid = false;
                } else {
                    match usage {
                        BindingUse::Initialization => {
                            c.initialization = Some(operation);
                        },
                        BindingUse::Store => {
                            c.stores.push(operation);
                        },
                        BindingUse::Load => {
                            c.loads.push(operation);
                        },
                        BindingUse::Other => {
                            c.valid = false;
                        },
                    }
                }
            },
            None => {},
        }
    }

    /// Decides which candidates are promotable.
    pub fn finish(self, function: &FunctionIr, layout: &FunctionLayout) -> (promotion: FunctionBindingPromotion)
        requires
            layout.wf(*function),
        ensures
            forall|b: int|
                #[trigger] promotion.spec_binding(b) == match self.spec_candidate(b) {
                    Some(c) => finished(*function, *layout, c),
                    None => None,
                },
    {
        if !layout.normal {
            return FunctionBindingPromotion::empty();
        }
        let shape = match &layout.body {
            Some(s) => s,
            None => return FunctionBindingPromotion::empty(),
        };
        let graph = RegionControlFlowGraph::compute(shape);
        let dominance = RegionDominatorTree::compute(&graph);
        let mut bindings: Vec<Option<PromotableBinding>> = Vec::new();
        let mut b: usize = 0;
        while b < self.candidates.len()
            invariant
                layout.wf(*function),
                layout.normal,
                layout.body == Some(*shape),
                graph.wf(),
                graph.spec_entry() == shape.entry,
                graph.spec_block_count() == shape.terminators.len(),
                graph.spec_edges() == shape_edges(shape, shape.terminators.len() as int),
                dominance.spec_entry() == shape.entry,
                dominance.spec_edges() == shape_edges(shape, shape.terminators.len() as int),
                b <= self.candidates@.len(),
                bindings@.len() == b,
                forall|x: int|
                    0 <= x < b ==> (match #[trigger] bindings@[x] {
                        Some(p) => Some(p@),
                        None => None,
                    }) == match self.spec_candidate(x) {
                        Some(c) => finished(*function, *layout, c),
                        None => None,
                    },
            decreases self.candidates@.len() - b,
        {
            let r = match &self.candidates[b] {
                Some(c) => finish_candidate(function, layout, shape, &graph, &dominance, c),
                None => None,
            };
            bindings.push(r);
            b = b + 1;
        }
        let promotion = FunctionBindingPromotion { bindings };
        proof {
            assert forall|x: int|
                #[trigger] promotion.spec_binding(x) == match self.spec_candidate(x) {
                    Some(c) => finished(*function, *layout, c),
                    None => None,
                } by {
                if 0 <= x < b {
                    assert(promotion.bindings@[x] == bindings@[x]);
                }
            }
        }
        promotion
    }
}

/// Some export declaration exposes binding `b`.
pub open spec fn exported(module: ModuleIr, b: usize) -> bool {
    exists|i: int|
        #![trigger module.exports@[i]]
        0 <= i < module.exports@.len() && export_binding(module.exports@[i]) == Some(b)
}

/// Binding `b` is a candidate of function `f`: a `var` that `f`, which is not
/// the module entry, declares and that no export exposes.
pub open spec fn is_candidate_of(module: ModuleIr, f: int, b: int) -> bool {
    &&& 0 <= b < module.bindings@.len()
    &&& module.bindings@[b].kind == BindingKind::Var
    &&& module.bindings@[b].declaring_function == f
    &&& f != 0
    &&& !exported(module, b as usize)
}

/// A function other than the one declaring binding `b` names it.
pub open spec fn referenced_outside(module: ModuleIr, b: int) -> bool {
    exists|g: int|
        #![trigger module.functions@[g]]
        0 <= g < module.functions@.len() && g != module.bindings@[b].declaring_function && references_binding(
            module.functions@[g],
            b,
        )
}

/// Some operation of `function` loads the global `eval`.
pub open spec fn loads_global_eval(function: FunctionIr) -> bool {
    exists|j: int|
        #![trigger function.operations@[j]]
        0 <= j < function.operations@.len() && (function.operations@[j].kind matches OperationKind::LoadGlobal {
            name,
        } && names_eval(name@))
}

/// A function that loads the global `eval` is `f` or lies inside it, so a
/// direct eval there could see the bindings of `f`.
pub open spec fn sees_eval(module: ModuleIr, f: int) -> bool {
    exists|e: int|
        #![trigger module.functions@[e]]
        0 <= e < module.functions@.len() && loads_global_eval(module.functions@[e]) && is_descendant(module, e, f)
}

/// Candidate `b` of function `f` after recording every operation of `f`
/// that names it, in order.
pub open spec fn recorded_in(module: ModuleIr, layouts: Seq<FunctionLayout>, f: int, b: int) -> (
    Option<usize>,
    Seq<usize>,
    Seq<usize>,
    bool,
) {
    let function = module.functions@[f];
    recorded_all(
        fresh_candidate(),
        function,
        layouts[f],
        references_upto(function.operations@, b as usize, function.operations@.len() as int),
        b as usize,
    )
}

/// Candidate `b` of function `f` once the whole module was seen: also
/// rejected when another function names it or a direct eval could see it.
pub open spec fn candidate_in(module: ModuleIr, layouts: Seq<FunctionLayout>, f: int, b: int) -> (
    Option<usize>,
    Seq<usize>,
    Seq<usize>,
    bool,
) {
    let c = recorded_in(module, layouts, f, b);
    (c.0, c.1, c.2, c.3 && !referenced_outside(module, b) && !sees_eval(module, f))
}

/// What promotion makes of binding `b` in function `f`.
pub open spec fn module_promotion(module: ModuleIr, layouts: Seq<FunctionLayout>, f: int, b: int) -> Option<
    (usize, Seq<usize>, Seq<usize>),
> {
    if is_candidate_of(module, f, b) {
        finished(module.functions@[f], layouts[f], candidate_in(module, layouts, f, b))
    } else {
        None
    }
}

/// Recording keeps every initialization, store and load of a candidate an
/// operation that initializes, stores or loads its binding, as its kind says.
pub proof fn lemma_recorded_uses(
    c: (Option<usize>, Seq<usize>, Seq<usize>, bool),
    function: FunctionIr,
    layout: FunctionLayout,
    refs: Seq<usize>,
    b: usize,
)
    requires
        c.0 matches Some(i) ==> binding_use(function.operations@[i as int], b) == BindingUse::Initialization,
        forall|k: int| #![trigger c.1[k]] 0 <= k < c.1.len() ==> binding_use(function.operations@[c.1[k] as int], b) == BindingUse::Store,
        forall|k: int| #![trigger c.2[k]] 0 <= k < c.2.len() ==> binding_use(function.operations@[c.2[k] as int], b) == BindingUse::Load,
    ensures
        ({
            let r = recorded_all(c, function, layout, refs, b);
            &&& r.0 matches Some(i) ==> binding_use(function.operations@[i as int], b) == BindingUse::Initialization
            &&& forall|k: int| #![trigger r.1[k]] 0 <= k < r.1.len() ==> binding_use(function.operations@[r.1[k] as int], b) == BindingUse::Store
            &&& forall|k: int| #![trigger r.2[k]] 0 <= k < r.2.len() ==> binding_use(function.operations@[r.2[k] as int], b) == BindingUse::Load
        }),
    decreases refs.len(),
{
    if refs.len() > 0 {
        lemma_recorded_uses(c, function, layout, refs.drop_last(), b);
        let prev = recorded_all(c, function, layout, refs.drop_last(), b);
        let r = recorded_all(c, function, layout, refs, b);
        assert forall|k: int| #![trigger r.1[k]] 0 <= k < r.1.len() implies binding_use(function.operations@[r.1[k] as int], b) == BindingUse::Store by {
            if k < prev.1.len() {
                assert(r.1[k] == prev.1[k]);
            }
        }
        assert forall|k: int| #![trigger r.2[k]] 0 <= k < r.2.len() implies binding_use(function.operations@[r.2[k] as int], b) == BindingUse::Load by {
            if k < prev.2.len() {
                assert(r.2[k] == prev.2[k]);
            }
        }
    }
}

/// A promotable binding is a `var` that a function other than the module
/// entry declares, that no export exposes, that no other function names and
/// that no direct eval can see.
pub proof fn lemma_promotable_is_local(module: ModuleIr, layouts: Seq<FunctionLayout>, f: int, b: int)
    requires
        module_promotion(module, layouts, f, b) is Some,
    ensures
        0 <= b < module.bindings@.len(),
        module.bindings@[b].kind == BindingKind::Var,
        module.bindings@[b].declaring_function == f,
        f != 0,
        !exported(module, b as usize),
        !referenced_outside(module, b),
        !sees_eval(module, f),
{
}

/// The initialization of a promotable binding initializes it and lies in a
/// reached block of the body region of a function that does not suspend; it
/// runs before each store and load on every path, each store stores the
/// binding and each load loads it.
pub proof fn lemma_promoted_operations(module: ModuleIr, layouts: Seq<FunctionLayout>, f: int, b: int)
    requires
        module_promotion(module, layouts, f, b) is Some,
    ensures
        ({
            let (i, stores, loads) = module_promotion(module, layouts, f, b)->Some_0;
            let function = module.functions@[f];
            let layout = layouts[f];
            let shape = layout.body->Some_0;
            &&& layout.normal
            &&& layout.body is Some
            &&& binding_use(function.operations@[i as int], b as usize) == BindingUse::Initialization
            &&& reached(layout, shape, i)
            &&& forall|k: int|
                #![trigger stores[k]]
                0 <= k < stores.len() ==> binding_use(function.operations@[stores[k] as int], b as usize) == BindingUse::Store
                    && reached(layout, shape, stores[k]) && runs_before(layout, shape, i, stores[k])
            &&& forall|k: int|
                #![trigger loads[k]]
                0 <= k < loads.len() ==> binding_use(function.operations@[loads[k] as int], b as usize) == BindingUse::Load
                    && reached(layout, shape, loads[k]) && runs_before(layout, shape, i, loads[k])
        }),
{
    let function = module.functions@[f];
    let layout = layouts[f];
    let refs = references_upto(function.operations@, b as usize, function.operations@.len() as int);
    lemma_recorded_uses(fresh_candidate(), function, layout, refs, b as usize);
    let c = candidate_in(module, layouts, f, b);
    let accesses = c.1 + c.2;
    assert forall|k: int| #![trigger c.1[k]] 0 <= k < c.1.len() implies reached(layout, layout.body->Some_0, c.1[k])
        && runs_before(layout, layout.body->Some_0, c.0->Some_0, c.1[k]) by {
        assert(accesses[k] == c.1[k]);
    }
    assert forall|k: int| #![trigger c.2[k]] 0 <= k < c.2.len() implies reached(layout, layout.body->Some_0, c.2[k])
        && runs_before(layout, layout.body->Some_0, c.0->Some_0, c.2[k]) by {
        assert(accesses[c.1.len() + k] == c.2[k]);
    }
}

/// Every layout describes its function.
pub open spec fn layouts_fit(module: ModuleIr, layouts: Seq<FunctionLayout>) -> bool {
    &&& layouts.len() == module.functions@.len()
    &&& forall|f: int| #![trigger layouts[f]] 0 <= f < layouts.len() ==> layouts[f].wf(module.functions@[f])
}

/// Binding-promotion eligibility for every function of one module.
pub struct ModuleBindingPromotion {
    functions: Vec<FunctionBindingPromotion>,
}

impl ModuleBindingPromotion {
    /// The number of functions.
    pub closed spec fn spec_function_count(&self) -> nat {
        self.functions@.len()
    }

    /// What promotion makes of binding `b` in function `f`.
    pub closed spec fn spec_promotion(&self, f: int, b: int) -> Option<(usize, Seq<usize>, Seq<usize>)> {
        self.functions@[f].spec_binding(b)
    }

    /// Decides, for every function, which of its bindings are promotable.
    pub fn compute(module: &ModuleIr, layouts: &Vec<FunctionLayout>) -> (promotion: Self)
        requires
            module.wf(),
            layouts_fit(*module, layouts@),
        ensures
            promotion.spec_function_count() == module.functions@.len(),
            forall|f: int, b: int|
                0 <= f < module.functions@.len() ==> #[trigger] promotion.spec_promotion(f, b) == module_promotion(
                    *module,
                    layouts@,
                    f,
                    b,
                ),
    {
        let n = module.functions.len();
        let mut evals: Vec<bool> = Vec::new();
        let mut e: usize = 0;
        while e < n
            invariant
                n == module.functions@.len(),
                e <= n,
                evals@.len() == e,
                forall|x: int| 0 <= x < e ==> #[trigger] evals@[x] == loads_global_eval(module.functions@[x]),
            decreases n - e,
        {
            evals.push(loads_global_eval_of(&module.functions[e]));
            e = e + 1;
        }
        let mut functions: Vec<FunctionBindingPromotion> = Vec::new();
        let mut f: usize = 0;
        while f < n
            invariant
                module.wf(),
                layouts_fit(*module, layouts@),
                n == module.functions@.len(),
                evals@.len() == n,
                forall|x: int| 0 <= x < n ==> #[trigger] evals@[x] == loads_global_eval(module.functions@[x]),
                f <= n,
                functions@.len() == f,
                forall|g: int, b: int|
                    0 <= g < f ==> #[trigger] functions@[g].spec_binding(b) == module_promotion(*module, layouts@, g, b),
            decreases n - f,
        {
            let promotion = promote_function(module, layouts, &evals, f);
            functions.push(promotion);
            f = f + 1;
        }
        ModuleBindingPromotion { functions }
    }

    /// Returns the promotion eligibility of function `function`.
    pub fn function(&self, function: usize) -> (r: Option<&FunctionBindingPromotion>)
        ensures
            match r {
                Some(p) => function < self.spec_function_count() && forall|b: int|
                    #[trigger] p.spec_binding(b) == self.spec_promotion(function as int, b),
                None => function >= self.spec_function_count(),
            },
    {
        if function < self.functions.len() {
            Some(&self.functions[function])
        } else {
            None
        }
    }

    /// Returns the promotion eligibility of every function, indexed by function.
    pub fn functions(&self) -> (r: &[FunctionBindingPromotion])
        ensures
            r@.len() == self.spec_function_count(),
            forall|f: int, b: int| 0 <= f < r@.len() ==> #[trigger] r@[f].spec_binding(b) == self.spec_promotion(f, b),
    {
        self.functions.as_slice()
    }
}

/// The promotable bindings of function `f`.
fn promote_function(module: &ModuleIr, layouts: &Vec<FunctionLayout>, evals: &Vec<bool>, f: usize) -> (promotion:
    FunctionBindingPromotion)
    requires
        module.wf(),
        layouts_fit(*module, layouts@),
        f < module.functions@.len(),
        evals@.len() == module.functions@.len(),
        forall|x: int| 0 <= x < evals@.len() ==> #[trigger] evals@[x] == loads_global_eval(module.functions@[x]),
    ensures
        forall|b: int| #[trigger] promotion.spec_binding(b) == module_promotion(*module, layouts@, f as int, b),
{
    let function = &module.functions[f];
    let layout = &layouts[f];
    assert(layout.wf(*function));
    let ghost ops = function.operations@;
    let mut builder = FunctionBindingPromotionBuilder::new();
    let nb = module.bindings.len();
    let mut b: usize = 0;
    while b < nb
        invariant
            nb == module.bindings@.len(),
            b <= nb,
            forall|x: int|
                #[trigger] builder.spec_candidate(x) == if 0 <= x < b && is_candidate_of(*module, f as int, x) {
                    Some(fresh_candidate())
                } else {
                    None
                },
        decreases nb - b,
    {
        let data = &module.bindings[b];
        if f != 0 && data.kind == BindingKind::Var && data.declaring_function == f && !is_exported(module, b) {
            builder.add_candidate(b);
        }
        b = b + 1;
    }
    let mut j: usize = 0;
    while j < function.operations.len()
        invariant
            ops == function.operations@,
            nb == module.bindings@.len(),
            j <= ops.len(),
            forall|x: int|
                #[trigger] builder.spec_candidate(x) == if is_candidate_of(*module, f as int, x) {
                    Some(recorded_all(fresh_candidate(), *function, *layout, references_upto(ops, x as usize, j as int), x as usize))
                } else {
                    None
                },
        decreases ops.len() - j,
    {
        let op = &function.operations[j];
        let ghost refs = op.referenced_bindings@;
        let mut k: usize = 0;
        while k < op.referenced_bindings.len()
            invariant
                ops == function.operations@,
                nb == module.bindings@.len(),
                j < ops.len(),
                ops[j as int] == *op,
                refs == op.referenced_bindings@,
                k <= refs.len(),
                forall|x: int|
                    #[trigger] builder.spec_candidate(x) == if is_candidate_of(*module, f as int, x) {
                        Some(
                            recorded_all(
                                fresh_candidate(),
                                *function,
                                *layout,
                                references_upto(ops, x as usize, j as int) + references_in(refs, x as usize, j, k as int),
                                x as usize,
                            ),
                        )
                    } else {
                        None
                    },
            decreases refs.len() - k,
        {
            let x = op.referenced_bindings[k];
            let ghost before = builder;
            builder.record_reference(function, layout, j, x);
            proof {
                assert forall|y: int|
                    #[trigger] builder.spec_candidate(y) == if is_candidate_of(*module, f as int, y) {
                        Some(
                            recorded_all(
                                fresh_candidate(),
                                *function,
                                *layout,
                                references_upto(ops, y as usize, j as int) + references_in(refs, y as usize, j, k + 1),
                                y as usize,
                            ),
                        )
                    } else {
                        None
                    } by {
                    let prefix = references_upto(ops, y as usize, j as int) + references_in(refs, y as usize, j, k as int);
                    let next = references_upto(ops, y as usize, j as int) + references_in(refs, y as usize, j, k + 1);
                    assert(before.spec_candidate(y) == if is_candidate_of(*module, f as int, y) {
                        Some(recorded_all(fresh_candidate(), *function, *layout, prefix, y as usize))
                    } else {
                        None
                    });
                    if is_candidate_of(*module, f as int, y) {
                        if y == x as int {
                            assert(next =~= prefix.push(j));
                            assert(next.drop_last() =~= prefix);
                        } else {
                            assert(y as usize != x);
                            assert(next =~= prefix);
                        }
                    }
                }
            }
            k = k + 1;
        }
        proof {
            assert forall|x: int|
                #[trigger] builder.spec_candidate(x) == if is_candidate_of(*module, f as int, x) {
                    Some(recorded_all(fresh_candidate(), *function, *layout, references_upto(ops, x as usize, j + 1), x as usize))
                } else {
                    None
                } by {
                assert(references_upto(ops, x as usize, j + 1) == references_upto(ops, x as usize, j as int) + references_in(
                    refs,
                    x as usize,
                    j,
                    refs.len() as int,
                ));
            }
        }
        j = j + 1;
    }
    let mut b: usize = 0;
    while b < nb
        invariant
            nb == module.bindings@.len(),
            module.wf(),
            b <= nb,
            forall|x: int|
                #[trigger] builder.spec_candidate(x) == if is_candidate_of(*module, f as int, x) {
                    let c = recorded_in(*module, layouts@, f as int, x);
                    Some((c.0, c.1, c.2, c.3 && !(x < b && referenced_outside(*module, x))))
                } else {
                    None
                },
        decreases nb - b,
    {
        if referenced_outside_of(module, b) {
            builder.reject(b);
        }
        b = b + 1;
    }
    if sees_eval_of(module, evals, f) {
        builder.reject_all();
    }
    proof {
        assert forall|x: int|
            #[trigger] builder.spec_candidate(x) == if is_candidate_of(*module, f as int, x) {
                Some(candidate_in(*module, layouts@, f as int, x))
            } else {
                None
            } by {}
    }
    builder.finish(function, layout)
}

/// Whether some export declaration exposes binding `b`.
pub(crate) fn is_exported(module: &ModuleIr, b: usize) -> (r: bool)
    ensures
        r == exported(*module, b),
{
    let mut i: usize = 0;
    while i < module.exports.len()
        invariant
            i <= module.exports@.len(),
            forall|x: int| #![trigger module.exports@[x]] 0 <= x < i ==> export_binding(module.exports@[x]) != Some(b),
        decreases module.exports@.len() - i,
    {
        let exposes = match &module.exports[i] {
            ModuleExport::Local { binding, .. } => *binding == b,
            _ => false,
        };
        if exposes {
            assert(export_binding(module.exports@[i as int]) == Some(b));
            return true;
        }
        i = i + 1;
    }
    false
}

/// Whether some operation of `function` names binding `b`.
fn references_anywhere(function: &FunctionIr, b: usize) -> (r: bool)
    ensures
        r == references_binding(*function, b as int),
{
    let ghost ops = function.operations@;
    let mut j: usize = 0;
    while j < function.operations.len()
        invariant
            ops == function.operations@,
            j <= ops.len(),
            forall|j2: int, k2: int|
                #![trigger ops[j2].referenced_bindings@[k2]]
                0 <= j2 < j && 0 <= k2 < ops[j2].referenced_bindings@.len() ==> ops[j2].referenced_bindings@[k2] != b,
        decreases ops.len() - j,
    {
        let op = &function.operations[j];
        let mut k: usize = 0;
        while k < op.referenced_bindings.len()
            invariant
                ops == function.operations@,
                j < ops.len(),
                ops[j as int] == *op,
                k <= op.referenced_bindings@.len(),
                forall|j2: int, k2: int|
                    #![trigger ops[j2].referenced_bindings@[k2]]
                    0 <= j2 < j && 0 <= k2 < ops[j2].referenced_bindings@.len() ==> ops[j2].referenced_bindings@[k2] != b,
                forall|k2: int| 0 <= k2 < k ==> op.referenced_bindings@[k2] != b,
            decreases op.referenced_bindings@.len() - k,
        {
            if op.referenced_bindings[k] == b {
                assert(ops[j as int].referenced_bindings@[k as int] == b);
                return true;
            }
            k = k + 1;
        }
        j = j + 1;
    }
    false
}

/// Whether a function other than the one declaring binding `b` names it.
fn referenced_outside_of(module: &ModuleIr, b: usize) -> (r: bool)
    requires
        module.wf(),
        b < module.bindings@.len(),
    ensures
        r == referenced_outside(*module, b as int),
{
    let owner = module.bindings[b].declaring_function;
    let mut g: usize = 0;
    while g < module.functions.len()
        invariant
            owner == module.bindings@[b as int].declaring_function,
            g <= module.functions@.len(),
            forall|x: int|
                #![trigger module.functions@[x]]
                0 <= x < g ==> !(x != owner && references_binding(module.functions@[x], b as int)),
        decreases module.functions@.len() - g,
    {
        if g != owner && references_anywhere(&module.functions[g], b) {
            return true;
        }
        g = g + 1;
    }
    false
}

/// Whether some operation of `function` loads the global `eval`.
pub(crate) fn loads_global_eval_of(function: &FunctionIr) -> (r: bool)
    ensures
        r == loads_global_eval(*function),
{
    let mut j: usize = 0;
    while j < function.operations.len()
        invariant
            j <= function.operations@.len(),
            forall|x: int|
                #![trigger function.operations@[x]]
                0 <= x < j ==> !(function.operations@[x].kind matches OperationKind::LoadGlobal { name } && names_eval(
                    name@,
                )),
        decreases function.operations@.len() - j,
    {
        let found = match &function.operations[j].kind {
            OperationKind::LoadGlobal { name } => is_eval_name(name),
            _ => false,
        };
        if found {
            assert(function.operations@[j as int].kind matches OperationKind::LoadGlobal { name } && names_eval(name@));
            return true;
        }
        j = j + 1;
    }
    false
}

/// Whether a function that loads the global `eval` is `f` or lies inside it.
fn sees_eval_of(module: &ModuleIr, evals: &Vec<bool>, f: usize) -> (r: bool)
    requires
        module.wf(),
        evals@.len() == module.functions@.len(),
        forall|x: int| 0 <= x < evals@.len() ==> #[trigger] evals@[x] == loads_global_eval(module.functions@[x]),
    ensures
        r == sees_eval(*module, f as int),
{
    let mut e: usize = 0;
    while e < evals.len()
        invariant
            module.wf(),
            evals@.len() == module.functions@.len(),
            forall|x: int| 0 <= x < evals@.len() ==> #[trigger] evals@[x] == loads_global_eval(module.functions@[x]),
            e <= evals@.len(),
            forall|x: int|
                #![trigger module.functions@[x]]
                0 <= x < e ==> !(loads_global_eval(module.functions@[x]) && is_descendant(*module, x, f as int)),
        decreases evals@.len() - e,
    {
        if evals[e] && is_descendant_of(module, e, f) {
            assert(loads_global_eval(module.functions@[e as int]));
            return true;
        }
        e = e + 1;
    }
    false
}

/// Decides candidate `c` against the body region's control flow and
/// dominance.
fn finish_candidate(
    function: &FunctionIr,
    layout: &FunctionLayout,
    shape: &RegionShape,
    graph: &RegionControlFlowGraph,
    dominance: &RegionDominatorTree,
    c: &BindingCandidate,
) -> (r: Option<PromotableBinding>)
    requires
        layout.wf(*function),
        layout.normal,
        layout.body == Some(*shape),
        graph.wf(),
        graph.spec_entry() == shape.entry,
        graph.spec_block_count() == shape.terminators.len(),
        graph.spec_edges() == shape_edges(shape, shape.terminators.len() as int),
        dominance.spec_entry() == shape.entry,
        dominance.spec_edges() == shape_edges(shape, shape.terminators.len() as int),
    ensures
        match r {
            Some(p) => finished(*function, *layout, c@) == Some(p@),
            None => finished(*function, *layout, c@) is None,
        },
{
    if !c.valid {
        return None;
    }
    let i = match c.initialization {
        Some(i) => i,
        None => return None,
    };
    let pi = match reached_position(layout, shape, graph, i) {
        Some(p) => p,
        None => return None,
    };
    let ghost accesses = c.stores@ + c.loads@;
    let mut k: usize = 0;
    while k < c.stores.len()
        invariant
            c.initialization == Some(i),
            c.valid,
            layout.normal,
            layout.body == Some(*shape),
            i < layout.positions@.len(),
            layout.positions@[i as int] == Some(pi),
            accesses == c.stores@ + c.loads@,
            k <= c.stores@.len(),
            graph.wf(),
            graph.spec_entry() == shape.entry,
            graph.spec_block_count() == shape.terminators.len(),
            graph.spec_edges() == shape_edges(shape, shape.terminators.len() as int),
            dominance.spec_entry() == shape.entry,
            dominance.spec_edges() == shape_edges(shape, shape.terminators.len() as int),
            forall|q: int|
                #![trigger accesses[q]]
                0 <= q < k ==> reached(*layout, *shape, accesses[q]) && runs_before(*layout, *shape, i, accesses[q]),
        decreases c.stores@.len() - k,
    {
        let o = c.stores[k];
        assert(accesses[k as int] == o);
        let po = match reached_position(layout, shape, graph, o) {
            Some(p) => p,
            None => return None,
        };
        let first = if pi.block != po.block {
            dominance.dominates(pi.block, po.block)
        } else {
            pi.index < po.index
        };
        if !first {
            return None;
        }
        k = k + 1;
    }
    let mut k: usize = 0;
    while k < c.loads.len()
        invariant
            c.initialization == Some(i),
            c.valid,
            layout.normal,
            layout.body == Some(*shape),
            i < layout.positions@.len(),
            layout.positions@[i as int] == Some(pi),
            accesses == c.stores@ + c.loads@,
            k <= c.loads@.len(),
            graph.wf(),
            graph.spec_entry() == shape.entry,
            graph.spec_block_count() == shape.terminators.len(),
            graph.spec_edges() == shape_edges(shape, shape.terminators.len() as int),
            dominance.spec_entry() == shape.entry,
            dominance.spec_edges() == shape_edges(shape, shape.terminators.len() as int),
            forall|q: int|
                #![trigger accesses[q]]
                0 <= q < c.stores@.len() + k ==> reached(*layout, *shape, accesses[q]) && runs_before(
                    *layout,
                    *shape,
                    i,
                    accesses[q],
                ),
        decreases c.loads@.len() - k,
    {
        let o = c.loads[k];
        assert(accesses[c.stores@.len() + k] == o);
        let po = match reached_position(layout, shape, graph, o) {
            Some(p) => p,
            None => return None,
        };
        let first = if pi.block != po.block {
            dominance.dominates(pi.block, po.block)
        } else {
            pi.index < po.index
        };
        if !first {
            return None;
        }
        k = k + 1;
    }
    if !keeps_names_of(function, i) {
        return None;
    }
    let mut k: usize = 0;
    while k < c.stores.len()
        invariant
            k <= c.stores@.len(),
            forall|q: int| #![trigger c.stores@[q]] 0 <= q < k ==> keeps_names(*function, c.stores@[q]),
        decreases c.stores@.len() - k,
    {
        if !keeps_names_of(function, c.stores[k]) {
            return None;
        }
        k = k + 1;
    }
    Some(PromotableBinding { initialization: i, stores: copy_of(&c.stores), loads: copy_of(&c.loads) })
}

/// The position of operation `j` when it lies in a reached block of the body
/// region.
fn reached_position(
    layout: &FunctionLayout,
    shape: &RegionShape,
    graph: &RegionControlFlowGraph,
    j: usize,
) -> (p: Option<BlockPosition>)
    requires
        graph.wf(),
        graph.spec_entry() == shape.entry,
        graph.spec_block_count() == shape.terminators.len(),
        graph.spec_edges() == shape_edges(shape, shape.terminators.len() as int),
    ensures
        p is Some <==> reached(*layout, *shape, j),
        p matches Some(q) ==> layout.positions@[j as int] == Some(q),
{
    if j >= layout.positions.len() {
        return None;
    }
    match layout.positions[j] {
        Some(q) => if graph.is_reachable(q.block) {
            Some(q)
        } else {
            None
        },
        None => None,
    }
}

/// Two operations that are each the first to define `v` are the same.
proof fn lemma_first_definer_unique(ops: Seq<Operation>, v: usize, i: int, j: int)
    requires
        first_definer(ops, v, i),
        first_definer(ops, v, j),
    ensures
        i == j,
{
    if i < j {
        assert(!crate::flow::defines(ops[i], v));
    } else if j < i {
        assert(!crate::flow::defines(ops[j], v));
    }
}

/// Whether operation `w` writes a first operand that needs no name.
fn keeps_names_of(function: &FunctionIr, w: usize) -> (r: bool)
    ensures
        r == keeps_names(*function, w),
{
    if w >= function.operations.len() {
        return false;
    }
    let op = &function.operations[w];
    if op.operands.len() == 0 {
        return false;
    }
    let v = op.operands[0];
    match find_definer(function, v) {
        None => true,
        Some(j) => {
            let anonymous = match &function.operations[j].kind {
                OperationKind::CreateFunction => true,
                OperationKind::CreateClass { .. } => true,
                _ => false,
            };
            proof {
                if names_anonymous(*function, v) {
                    let j2 = choose|j2: int|
                        #![trigger function.operations@[j2]]
                        first_definer(function.operations@, v, j2) && (function.operations@[j2].kind is CreateFunction
                            || function.operations@[j2].kind is CreateClass);
                    lemma_first_definer_unique(function.operations@, v, j as int, j2);
                }
                if anonymous {
                    assert(function.operations@[j as int].kind is CreateFunction
                        || function.operations@[j as int].kind is CreateClass);
                }
            }
            !anonymous
        },
    }
}

/// A copy of `v`.
fn copy_of(v: &Vec<usize>) -> (r: Vec<usize>)
    ensures
        r@ == v@,
{
    let mut r: Vec<usize> = Vec::new();
    let mut i: usize = 0;
    while i < v.len()
        invariant
            i <= v@.len(),
            r@ == v@.subrange(0, i as int),
        decreases v@.len() - i,
    {
        r.push(v[i]);
        i = i + 1;
        assert(r@ =~= v@.subrange(0, i as int));
    }
    assert(v@.subrange(0, v@.len() as int) =~= v@);
    r
}

/// How `op` uses binding `b`.
fn binding_use_of(op: &Operation, b: usize) -> (u: BindingUse)
    ensures
        u == binding_use(*op, b),
{
    match &op.kind {
        OperationKind::InitializeBinding { binding } => if *binding == b {
            BindingUse::Initialization
        } else {
            BindingUse::Other
        },
        OperationKind::StoreBinding { binding } => if *binding == b {
            BindingUse::Store
        } else {
            BindingUse::Other
        },
        OperationKind::LoadBinding { binding } => if *binding == b {
            BindingUse::Load
        } else {
            BindingUse::Other
        },
        _ => BindingUse::Other,
    }
}

} // verus!
