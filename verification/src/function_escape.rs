//! Function-local escape analysis for JavaScript values.
//!
//! Nodes stand for values and bindings. An edge from `escaping` to
//! `dependency` says that when `escaping` becomes reachable outside the
//! function activation, so does `dependency`.

use std::collections::VecDeque;

use vstd::prelude::*;

use crate::control_flow::count_unvisited;
use crate::control_flow::lemma_count_unvisited_mark;
use crate::paths::lemma_closed_set_contains_reachable;
use crate::paths::lemma_reaches_self;
use crate::paths::lemma_reaches_step;
use crate::paths::reaches;
use crate::pointer_solver::escapes_from;
use crate::pointer_solver::list_step;
use crate::escape_flow::escape_analyzable;
use crate::escape_flow::escape_edges;
use crate::escape_flow::escape_graph;
use crate::escape_flow::escape_seed;
use crate::escape_flow::is_local_identity_value;
use crate::ir::ModuleIr;
use crate::ir::OperationKind;

verus! {

/// Whether a value may become reachable outside its function activation.
#[derive(Debug, Clone, Copy, PartialEq, Eq, Structural, Hash)]
pub enum ValueEscape {
    DoesNotEscape,
    MayEscape,
}

/// Escape dependencies between nodes, and the nodes seeded as escaping.
#[derive(Debug)]
pub struct EscapeGraph {
    escape_dependencies: Vec<Vec<usize>>,
    escaping: Vec<bool>,
    worklist: VecDeque<usize>,
}

impl EscapeGraph {
    /// The number of nodes.
    pub closed spec fn spec_node_count(&self) -> nat {
        self.escape_dependencies@.len()
    }

    /// For each node, the nodes that escape when it escapes.
    pub closed spec fn spec_dependencies(&self) -> Seq<Vec<usize>> {
        self.escape_dependencies@
    }

    /// The nodes seeded as escaping.
    pub closed spec fn spec_seeds(&self) -> Set<int> {
        Set::new(|x: int| 0 <= x < self.escaping@.len() && self.escaping@[x])
    }

    /// The graph is consistent and every seed still waits to be propagated.
    pub closed spec fn wf(&self) -> bool {
        let n = self.escape_dependencies@.len() as int;
        &&& self.escaping@.len() == n
        &&& n <= usize::MAX
        &&& forall|s: int, k: int|
            #![trigger self.escape_dependencies@[s]@[k]]
            0 <= s < n && 0 <= k < self.escape_dependencies@[s]@.len()
                ==> self.escape_dependencies@[s]@[k] < n
        &&& forall|x: int|
            #![trigger self.escaping@[x]]
            0 <= x < n ==> (self.escaping@[x] <==> self.worklist@.contains(x as usize))
        &&& self.worklist@.no_duplicates()
        &&& forall|j: int| #![trigger self.worklist@[j]] 0 <= j < self.worklist@.len() ==> self.worklist@[j] < n
    }

    /// A well-formed graph has one dependency list per node, its size fits a
    /// `usize`, and its edges and seeds stay among its nodes.
    pub proof fn lemma_wf(&self)
        requires
            self.wf(),
        ensures
            self.spec_dependencies().len() == self.spec_node_count(),
            self.spec_node_count() <= usize::MAX,
            forall|x: int, y: int|
                #[trigger] list_step(self.spec_dependencies())(x, y) ==> 0 <= x < self.spec_node_count() && 0 <= y
                    < self.spec_node_count(),
            forall|x: int| #[trigger] self.spec_seeds().contains(x) ==> 0 <= x < self.spec_node_count(),
    {
        assert forall|x: int, y: int| #[trigger] list_step(self.spec_dependencies())(x, y) implies 0 <= x < self.spec_node_count() && 0 <= y
            < self.spec_node_count() by {
            let k = choose|k: int|
                #![trigger self.escape_dependencies@[x]@[k]]
                0 <= k < self.escape_dependencies@[x]@.len() && self.escape_dependencies@[x]@[k] as int == y;
        }
    }

    /// A graph of `node_count` nodes without edges or seeds.
    pub fn new(node_count: usize) -> (graph: Self)
        ensures
            graph.wf(),
            graph.spec_node_count() == node_count,
            forall|x: int|
                #![trigger graph.spec_dependencies()[x]]
                0 <= x < node_count ==> graph.spec_dependencies()[x]@.len() == 0,
            graph.spec_seeds() == Set::<int>::empty(),
    {
        let mut escape_dependencies: Vec<Vec<usize>> = Vec::new();
        let mut escaping: Vec<bool> = Vec::new();
        let mut k: usize = 0;
        while k < node_count
            invariant
                k <= node_count,
                escape_dependencies@.len() == k,
                escaping@.len() == k,
                forall|x: int|
                    #![trigger escape_dependencies@[x]]
                    0 <= x < k ==> escape_dependencies@[x]@.len() == 0,
                forall|x: int| #![trigger escaping@[x]] 0 <= x < k ==> !escaping@[x],
            decreases node_count - k,
        {
            escape_dependencies.push(Vec::new());
            escaping.push(false);
            k = k + 1;
        }
        let graph = EscapeGraph { escape_dependencies, escaping, worklist: VecDeque::new() };
        assert(graph.spec_seeds() =~= Set::<int>::empty());
        graph
    }

    /// Records that `dependency` escapes whenever `escaping` does.
    pub fn add_escape_dependency(&mut self, escaping: usize, dependency: usize)
        requires
            old(self).wf(),
            escaping < old(self).spec_node_count(),
            dependency < old(self).spec_node_count(),
        ensures
            final(self).wf(),
            final(self).spec_node_count() == old(self).spec_node_count(),
            final(self).spec_seeds() == old(self).spec_seeds(),
            forall|x: int|
                #![trigger final(self).spec_dependencies()[x]]
                0 <= x < old(self).spec_node_count() && x != escaping ==> final(self).spec_dependencies()[x] == old(self).spec_dependencies()[x],
            forall|v: usize|
                #![trigger final(self).spec_dependencies()[escaping as int]@.contains(v)]
                final(self).spec_dependencies()[escaping as int]@.contains(v) <==> (old(self).spec_dependencies()[escaping as int]@.contains(v) || v == dependency),
    {
        let ghost before = self.escape_dependencies@[escaping as int]@;
        let mut k: usize = 0;
        let mut found = false;
        while k < self.escape_dependencies[escaping].len()
            invariant
                self == old(self),
                escaping < self.escape_dependencies@.len(),
                before == self.escape_dependencies@[escaping as int]@,
                k <= before.len(),
                found <==> exists|j: int| 0 <= j < k && before[j] == dependency,
            decreases before.len() - k,
        {
            if self.escape_dependencies[escaping][k] == dependency {
                found = true;
            }
            k = k + 1;
        }
        if !found {
            self.escape_dependencies[escaping].push(dependency);
            proof {
                let l = self.escape_dependencies@[escaping as int]@;
                assert(l == before.push(dependency));
                assert forall|v: usize| #![trigger l.contains(v)] l.contains(v) <==> (before.contains(v) || v == dependency) by {
                    if l.contains(v) && v != dependency {
                        let j = choose|j: int| 0 <= j < l.len() && l[j] == v;
                        assert(before[j] == v);
                    }
                    if before.contains(v) {
                        let j = choose|j: int| 0 <= j < before.len() && before[j] == v;
                        assert(l[j] == v);
                    }
                    if v == dependency {
                        assert(l[before.len() as int] == v);
                    }
                }
                let d = self.escape_dependencies@;
                assert forall|s: int, j: int|
                    #![trigger d[s]@[j]]
                    0 <= s < d.len() && 0 <= j < d[s]@.len() implies d[s]@[j] < d.len() by {
                    if s != escaping as int {
                        assert(d[s] == old(self).escape_dependencies@[s]);
                    } else if j < before.len() {
                        assert(d[s]@[j] == before[j]);
                        assert(old(self).escape_dependencies@[s]@[j] == before[j]);
                    }
                }
                assert(self.spec_seeds() =~= old(self).spec_seeds());
            }
        }
    }

    /// Seeds `node` as escaping.
    pub fn seed(&mut self, node: usize)
        requires
            old(self).wf(),
            node < old(self).spec_node_count(),
        ensures
            final(self).wf(),
            final(self).spec_node_count() == old(self).spec_node_count(),
            final(self).spec_dependencies() == old(self).spec_dependencies(),
            final(self).spec_seeds() == old(self).spec_seeds().insert(node as int),
    {
        if !self.escaping[node] {
            let ghost before = self.worklist@;
            self.escaping.set(node, true);
            self.worklist.push_back(node);
            proof {
                assert forall|x: int|
                    #![trigger self.escaping@[x]]
                    0 <= x < self.escaping@.len() implies (self.escaping@[x]
                        <==> self.worklist@.contains(x as usize)) by {
                    if x == node as int {
                        assert(self.worklist@[self.worklist@.len() - 1] == node);
                    } else {
                        assert(old(self).escaping@[x] == self.escaping@[x]);
                        if self.worklist@.contains(x as usize) {
                            let j = choose|j: int| 0 <= j < self.worklist@.len() && self.worklist@[j] == x as usize;
                            if j < before.len() {
                                assert(before[j] == x as usize);
                            }
                        }
                        if before.contains(x as usize) {
                            let j = choose|j: int| 0 <= j < before.len() && before[j] == x as usize;
                            assert(self.worklist@[j] == x as usize);
                        }
                    }
                }
                assert forall|j: int| #![trigger self.worklist@[j]] 0 <= j < self.worklist@.len() implies self.worklist@[j] < self.escaping@.len() by {
                    if j < before.len() {
                        assert(before[j] == self.worklist@[j]);
                    }
                }
            }
        }
        assert(self.spec_seeds() =~= old(self).spec_seeds().insert(node as int));
    }

    /// Spreads escape from the seeds along the dependency edges, and returns
    /// for each node whether it escapes.
    pub fn propagate(self) -> (escaping: Vec<bool>)
        requires
            self.wf(),
        ensures
            escaping@.len() == self.spec_node_count(),
            forall|x: int|
                #![trigger escaping@[x]]
                0 <= x < self.spec_node_count() ==> (escaping@[x] <==> escapes_from(
                    self.spec_dependencies(),
                    self.spec_seeds(),
                    x,
                )),
    {
        let ghost deps = self.escape_dependencies@;
        let ghost seeds = self.spec_seeds();
        let ghost step = list_step(deps);
        let ghost n = deps.len() as int;
        let EscapeGraph { escape_dependencies, mut escaping, mut worklist } = self;
        proof {
            assert forall|x: int| #![trigger escaping@[x]] 0 <= x < n && escaping@[x] implies escapes_from(deps, seeds, x) by {
                assert(seeds.contains(x));
                lemma_reaches_self(step, x);
            }
        }
        while worklist.len() > 0
            invariant
                deps == escape_dependencies@,
                step == list_step(deps),
                n == deps.len(),
                n <= usize::MAX,
                escaping@.len() == n,
                forall|s: int, k: int|
                    #![trigger deps[s]@[k]]
                    0 <= s < n && 0 <= k < deps[s]@.len() ==> deps[s]@[k] < n,
                worklist@.no_duplicates(),
                forall|j: int|
                    #![trigger worklist@[j]]
                    0 <= j < worklist@.len() ==> worklist@[j] < n && escaping@[worklist@[j] as int],
                forall|x: int|
                    #![trigger escaping@[x]]
                    0 <= x < n && escaping@[x] ==> escapes_from(deps, seeds, x),
                forall|x: int| #![trigger escaping@[x]] 0 <= x < n && seeds.contains(x) ==> escaping@[x],
                forall|x: int, k: int|
                    #![trigger deps[x]@[k]]
                    0 <= x < n && 0 <= k < deps[x]@.len() && escaping@[x] && !worklist@.contains(
                        x as usize,
                    ) ==> escaping@[deps[x]@[k] as int],
            decreases count_unvisited(escaping@), worklist@.len(),
        {
            let ghost before = worklist@;
            let node = match worklist.pop_front() {
                Some(node) => node,
                None => {
                    return escaping;
                },
            };
            let ghost w0 = worklist@.len();
            let ghost unvisited0 = count_unvisited(escaping@);
            proof {
                assert(before[0] == node);
                assert(!worklist@.contains(node)) by {
                    if worklist@.contains(node) {
                        let j = choose|j: int| 0 <= j < worklist@.len() && worklist@[j] == node;
                        assert(before[j + 1] == before[0]);
                    }
                }
                assert(worklist@.no_duplicates()) by {
                    assert forall|a: int, b: int| 0 <= a < b < worklist@.len() implies worklist@[a] != worklist@[b] by {
                        assert(before[a + 1] == worklist@[a] && before[b + 1] == worklist@[b]);
                    }
                }
                assert forall|j: int| #![trigger worklist@[j]] 0 <= j < worklist@.len() implies worklist@[j] < n
                    && escaping@[worklist@[j] as int] by {
                    assert(before[j + 1] == worklist@[j]);
                }
                assert forall|x: int| 0 <= x < n && before.contains(x as usize) && x != node as int implies #[trigger] worklist@.contains(x as usize) by {
                    let j = choose|j: int| 0 <= j < before.len() && before[j] == x as usize;
                    assert(worklist@[j - 1] == x as usize);
                }
            }
            let mut k: usize = 0;
            while k < escape_dependencies[node].len()
                invariant
                    deps == escape_dependencies@,
                    step == list_step(deps),
                    n == deps.len(),
                    n <= usize::MAX,
                    escaping@.len() == n,
                    forall|s: int, j: int|
                        #![trigger deps[s]@[j]]
                        0 <= s < n && 0 <= j < deps[s]@.len() ==> deps[s]@[j] < n,
                    node < n,
                    escaping@[node as int],
                    !worklist@.contains(node),
                    k <= deps[node as int]@.len(),
                    worklist@.no_duplicates(),
                    forall|j: int|
                        #![trigger worklist@[j]]
                        0 <= j < worklist@.len() ==> worklist@[j] < n && escaping@[worklist@[j] as int],
                    forall|x: int|
                        #![trigger escaping@[x]]
                        0 <= x < n && escaping@[x] ==> escapes_from(deps, seeds, x),
                    forall|x: int| #![trigger escaping@[x]] 0 <= x < n && seeds.contains(x) ==> escaping@[x],
                    forall|x: int, j: int|
                        #![trigger deps[x]@[j]]
                        0 <= x < n && 0 <= j < deps[x]@.len() && escaping@[x] && x != node as int
                            && !worklist@.contains(x as usize) ==> escaping@[deps[x]@[j] as int],
                    forall|j: int| #![trigger deps[node as int]@[j]] 0 <= j < k ==> escaping@[deps[node as int]@[j] as int],
                    count_unvisited(escaping@) <= unvisited0,
                    count_unvisited(escaping@) == unvisited0 ==> worklist@.len() == w0,
                decreases deps[node as int]@.len() - k,
            {
                let dependency = escape_dependencies[node][k];
                proof {
                    assert(deps[node as int]@[k as int] == dependency);
                }
                if !escaping[dependency] {
                    let ghost flags0 = escaping@;
                    let ghost list0 = worklist@;
                    escaping.set(dependency, true);
                    worklist.push_back(dependency);
                    proof {
                        lemma_count_unvisited_mark(flags0, dependency as int);
                        assert(step(node as int, dependency as int));
                        let s0 = choose|s0: int| #[trigger] seeds.contains(s0) && reaches(step, s0, node as int);
                        lemma_reaches_step(step, s0, node as int, dependency as int);
                        assert(escapes_from(deps, seeds, dependency as int));
                        assert(worklist@.no_duplicates()) by {
                            assert forall|a: int, b: int| 0 <= a < b < worklist@.len() implies worklist@[a] != worklist@[b] by {
                                if b == list0.len() {
                                    assert(list0[a] == worklist@[a]);
                                    assert(flags0[list0[a] as int]);
                                } else {
                                    assert(list0[a] == worklist@[a] && list0[b] == worklist@[b]);
                                }
                            }
                        }
                        assert forall|j: int|
                            #![trigger worklist@[j]]
                            0 <= j < worklist@.len() implies worklist@[j] < n
                                && escaping@[worklist@[j] as int] by {
                            if j < list0.len() {
                                assert(list0[j] == worklist@[j]);
                            }
                        }
                        assert(!worklist@.contains(node)) by {
                            if worklist@.contains(node) {
                                let j = choose|j: int| 0 <= j < worklist@.len() && worklist@[j] == node;
                                assert(list0[j] == node);
                            }
                        }
                        assert forall|x: int, j: int|
                            #![trigger deps[x]@[j]]
                            0 <= x < n && 0 <= j < deps[x]@.len() && escaping@[x] && x != node as int
                                && !worklist@.contains(x as usize) implies escaping@[deps[x]@[j] as int] by {
                            if x != dependency as int {
                                assert(flags0[x]);
                                if list0.contains(x as usize) {
                                    let i = choose|i: int| 0 <= i < list0.len() && list0[i] == x as usize;
                                    assert(worklist@[i] == x as usize);
                                }
                            } else {
                                assert(worklist@[list0.len() as int] == dependency);
                            }
                        }
                    }
                }
                k = k + 1;
            }
        }
        proof {
            assert forall|u: int, v: int| #[trigger] step(u, v) && (0 <= u < n && escaping@[u]) implies 0 <= v < n && escaping@[v] by {
                let k = choose|k: int| #![trigger deps[u]@[k]] 0 <= k < deps[u]@.len() && deps[u]@[k] as int == v;
                assert(deps[u]@[k] < n);
            }
            assert forall|x: int|
                #![trigger escaping@[x]]
                0 <= x < n implies (escaping@[x] <==> escapes_from(deps, seeds, x)) by {
                if escapes_from(deps, seeds, x) {
                    let s0 = choose|s0: int| #[trigger] seeds.contains(s0) && reaches(step, s0, x);
                    let holds = |y: int| 0 <= y < n && escaping@[y];
                    lemma_closed_set_contains_reachable(step, holds, s0, x);
                }
            }
        }
        escaping
    }
}

/// Conservative escape facts for function-local JavaScript identities.
///
/// The analysis answers only whether a value, or a value reachable through a
/// local container, may leave the current function activation. It is
/// flow-insensitive, and must be recomputed after the function changes.
#[derive(Debug)]
pub struct FunctionEscapeAnalysis {
    function: usize,
    local_values: Vec<bool>,
    escaping: Vec<bool>,
}

impl FunctionEscapeAnalysis {
    #[verifier::type_invariant]
    spec fn well_formed(self) -> bool {
        self.local_values@.len() == self.escaping@.len()
    }

    /// The analyzed function.
    pub closed spec fn spec_function(&self) -> usize {
        self.function
    }

    /// The number of values.
    pub closed spec fn spec_value_count(&self) -> nat {
        self.local_values@.len()
    }

    /// Whether value `value` is a function-local identity.
    pub closed spec fn spec_local(&self, value: int) -> bool {
        0 <= value < self.local_values@.len() && self.local_values@[value]
    }

    /// Whether value `value` escapes.
    pub closed spec fn spec_escaping(&self, value: int) -> bool {
        0 <= value < self.escaping@.len() && self.escaping@[value]
    }

    /// The escape facts of `function`, whose values are the first
    /// `value_count` nodes of `graph`, and whose local identities are `locals`.
    pub fn from_graph(function: usize, value_count: usize, locals: &[usize], graph: EscapeGraph) -> (analysis: Self)
        requires
            graph.wf(),
            value_count <= graph.spec_node_count(),
            forall|j: int| #![trigger locals@[j]] 0 <= j < locals@.len() ==> locals@[j] < value_count,
        ensures
            analysis.spec_function() == function,
            analysis.spec_value_count() == value_count,
            forall|v: int|
                #![trigger analysis.spec_local(v)]
                analysis.spec_local(v) <==> (0 <= v < value_count && locals@.contains(v as usize)),
            forall|v: int|
                #![trigger analysis.spec_escaping(v)]
                0 <= v < value_count ==> (analysis.spec_escaping(v) <==> escapes_from(
                    graph.spec_dependencies(),
                    graph.spec_seeds(),
                    v,
                )),
    {
        let ghost deps = graph.spec_dependencies();
        let ghost seeds = graph.spec_seeds();
        let all = graph.propagate();
        let mut escaping: Vec<bool> = Vec::new();
        let mut local_values: Vec<bool> = Vec::new();
        let mut v: usize = 0;
        while v < value_count
            invariant
                v <= value_count,
                value_count <= all@.len(),
                escaping@.len() == v,
                local_values@.len() == v,
                forall|x: int| #![trigger escaping@[x]] 0 <= x < v ==> escaping@[x] == all@[x],
                forall|x: int| #![trigger local_values@[x]] 0 <= x < v ==> !local_values@[x],
            decreases value_count - v,
        {
            escaping.push(all[v]);
            local_values.push(false);
            v = v + 1;
        }
        let mut j: usize = 0;
        while j < locals.len()
            invariant
                j <= locals@.len(),
                local_values@.len() == value_count,
                forall|i: int| #![trigger locals@[i]] 0 <= i < locals@.len() ==> locals@[i] < value_count,
                forall|x: int|
                    #![trigger local_values@[x]]
                    0 <= x < value_count ==> (local_values@[x] <==> exists|i: int|
                        0 <= i < j && locals@[i] == x as usize),
            decreases locals@.len() - j,
        {
            let ghost before = local_values@;
            local_values.set(locals[j], true);
            proof {
                assert forall|x: int|
                    #![trigger local_values@[x]]
                    0 <= x < value_count implies (local_values@[x] <==> exists|i: int|
                        0 <= i < j + 1 && locals@[i] == x as usize) by {
                    if x == locals@[j as int] as int {
                        assert(locals@[j as int] == x as usize);
                    } else {
                        assert(local_values@[x] == before[x]);
                        if exists|i: int| 0 <= i < j + 1 && locals@[i] == x as usize {
                            let i = choose|i: int| 0 <= i < j + 1 && locals@[i] == x as usize;
                            assert(i < j);
                        }
                    }
                }
            }
            j = j + 1;
        }
        let analysis = FunctionEscapeAnalysis { function, local_values, escaping };
        proof {
            assert forall|v: int| #![trigger analysis.spec_local(v)] analysis.spec_local(v) <==> (0 <= v < value_count && locals@.contains(v as usize)) by {
                if 0 <= v < value_count && locals@.contains(v as usize) {
                    let i = choose|i: int| 0 <= i < locals@.len() && locals@[i] == v as usize;
                    assert(analysis.local_values@[v]);
                }
            }
        }
        analysis
    }

    /// Analyzes the escape facts of function `function` of `module`; `None`
    /// for a function the module lacks.
    ///
    /// The local identities are the results of the operations that create a
    /// fresh object. A value escapes when some seed reaches it along the
    /// escape edges of the function's block parameters, operations and regions.
    pub fn analyze(module: &ModuleIr, function: usize) -> (analysis: Option<Self>)
        requires
            module.wf(),
            function < module.functions@.len() ==> escape_analyzable(*module, function as int),
        ensures
            match analysis {
                None => function >= module.functions@.len(),
                Some(analysis) => {
                    let body = module.functions@[function as int];
                    &&& function < module.functions@.len()
                    &&& analysis.spec_function() == function
                    &&& analysis.spec_value_count() == body.value_count
                    &&& forall|v: int|
                        #![trigger analysis.spec_local(v)]
                        analysis.spec_local(v) <==> (0 <= v < body.value_count && is_local_identity_value(body, v))
                    &&& forall|v: int|
                        #![trigger analysis.spec_escaping(v)]
                        0 <= v < body.value_count ==> (analysis.spec_escaping(v) <==> exists|s: int|
                            #[trigger] escape_seed(*module, function as int, s) && reaches(
                                escape_edges(*module, function as int),
                                s,
                                v,
                            ))
                },
            },
    {
        if function >= module.functions.len() {
            return None;
        }
        let body = &module.functions[function];
        let ghost ops = body.operations@;
        let mut locals: Vec<usize> = Vec::new();
        let mut j: usize = 0;
        proof {
            assert(body.wf(module.functions@.len() as int, module.bindings@.len() as int));
        }
        while j < body.operations.len()
            invariant
                *body == module.functions@[function as int],
                ops == body.operations@,
                body.wf(module.functions@.len() as int, module.bindings@.len() as int),
                escape_analyzable(*module, function as int),
                j <= ops.len(),
                forall|i: int| #![trigger locals@[i]] 0 <= i < locals@.len() ==> locals@[i] < body.value_count,
                forall|v: usize|
                    #![trigger locals@.contains(v)]
                    locals@.contains(v) <==> exists|t: int|
                        #![trigger ops[t]]
                        0 <= t < j && crate::escape_flow::is_local_identity(ops[t].kind) && ops[t].results@[0] == v,
            decreases ops.len() - j,
        {
            let op = &body.operations[j];
            proof {
                assert(ops[j as int] == *op);
                assert(op.wf(body.value_count as int, body.regions@.len() as int, module.functions@.len() as int, module.bindings@.len() as int));
            }
            let local = match &op.kind {
                OperationKind::RegExpLiteral | OperationKind::ArrayLiteral(_) | OperationKind::ObjectLiteral(_)
                | OperationKind::CreateFunction | OperationKind::CreateClass { .. } | OperationKind::DynamicImport { .. } => true,
                _ => false,
            };
            let ghost before = locals@;
            if local {
                locals.push(op.results[0]);
                proof {
                    assert(locals@[before.len() as int] == op.results@[0]);
                }
            }
            proof {
                assert forall|v: usize|
                    #![trigger locals@.contains(v)]
                    locals@.contains(v) <==> exists|t: int|
                        #![trigger ops[t]]
                        0 <= t < j + 1 && crate::escape_flow::is_local_identity(ops[t].kind) && ops[t].results@[0] == v by {
                    if locals@.contains(v) {
                        let i = choose|i: int| 0 <= i < locals@.len() && locals@[i] == v;
                        if i < before.len() {
                            assert(before[i] == v);
                            assert(before.contains(v));
                        }
                    }
                    if exists|t: int|
                        #![trigger ops[t]]
                        0 <= t < j + 1 && crate::escape_flow::is_local_identity(ops[t].kind) && ops[t].results@[0] == v {
                        let t = choose|t: int|
                            #![trigger ops[t]]
                            0 <= t < j + 1 && crate::escape_flow::is_local_identity(ops[t].kind) && ops[t].results@[0] == v;
                        if t < j {
                            assert(before.contains(v));
                            let i = choose|i: int| 0 <= i < before.len() && before[i] == v;
                            assert(locals@[i] == v);
                        }
                    }
                }
            }
            j = j + 1;
        }
        let graph = escape_graph(module, function);
        let ghost deps = graph.spec_dependencies();
        let ghost seeds = graph.spec_seeds();
        proof {
            graph.lemma_wf();
            assert(list_step(deps) =~= escape_edges(*module, function as int));
        }
        let analysis = Self::from_graph(function, body.value_count, locals.as_slice(), graph);
        proof {
            assert forall|v: int|
                #![trigger analysis.spec_local(v)]
                analysis.spec_local(v) <==> (0 <= v < body.value_count && is_local_identity_value(*body, v)) by {
                if 0 <= v < body.value_count && is_local_identity_value(*body, v) {
                    let t = choose|t: int|
                        #![trigger body.operations@[t]]
                        0 <= t < body.operations@.len() && crate::escape_flow::is_local_identity(body.operations@[t].kind)
                            && body.operations@[t].results@[0] as int == v;
                    assert(locals@.contains(v as usize));
                }
                if analysis.spec_local(v) {
                    assert(locals@.contains(v as usize));
                }
            }
            assert forall|v: int|
                #![trigger analysis.spec_escaping(v)]
                0 <= v < body.value_count implies (analysis.spec_escaping(v) <==> exists|s: int|
                    #[trigger] escape_seed(*module, function as int, s) && reaches(escape_edges(*module, function as int), s, v)) by {
                if analysis.spec_escaping(v) {
                    let s0 = choose|s0: int| #[trigger] seeds.contains(s0) && reaches(list_step(deps), s0, v);
                    assert(escape_seed(*module, function as int, s0));
                }
                if exists|s: int| #[trigger] escape_seed(*module, function as int, s) && reaches(escape_edges(*module, function as int), s, v) {
                    let s0 = choose|s0: int| #[trigger] escape_seed(*module, function as int, s0) && reaches(escape_edges(*module, function as int), s0, v);
                    assert(seeds.contains(s0));
                }
            }
        }
        Some(analysis)
    }

    /// The analyzed function.
    pub fn function(&self) -> (function: usize)
        ensures
            function == self.spec_function(),
    {
        self.function
    }

    /// The escape result of a function-local identity; `None` for a value not
    /// known to originate locally.
    pub fn escape_result(&self, value: usize) -> (result: Option<ValueEscape>)
        ensures
            result == (if self.spec_local(value as int) {
                Some(
                    if self.spec_escaping(value as int) {
                        ValueEscape::MayEscape
                    } else {
                        ValueEscape::DoesNotEscape
                    },
                )
            } else {
                None
            }),
    {
        proof {
            use_type_invariant(self);
        }
        if value < self.local_values.len() && self.local_values[value] {
            if self.escaping[value] {
                Some(ValueEscape::MayEscape)
            } else {
                Some(ValueEscape::DoesNotEscape)
            }
        } else {
            None
        }
    }

    /// Whether a value may escape; values without a local origin may.
    pub fn may_escape(&self, value: usize) -> (r: bool)
        ensures
            r == (!self.spec_local(value as int) || self.spec_escaping(value as int)),
    {
        match self.escape_result(value) {
            Some(ValueEscape::DoesNotEscape) => false,
            _ => true,
        }
    }
}

} // verus!
