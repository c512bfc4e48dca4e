//! Dominance-frontier analysis for one IR region.

use vstd::prelude::*;

use crate::control_flow::count_unvisited;
use crate::control_flow::edge_step;
use crate::control_flow::edges_have;
use crate::control_flow::ids_exact;
use crate::control_flow::lemma_count_unvisited_mark;
use crate::control_flow::ControlFlowEdge;
use crate::control_flow::ControlFlowEdgeId;
use crate::control_flow::RegionControlFlowGraph;
use crate::dominance::dominates_in;
use crate::dominance::is_immediate_dominator_in;
use crate::dominance::lemma_dominates_immediate_dominator;
use crate::dominance::lemma_dominates_self;
use crate::dominance::lemma_dominates_transitive;
use crate::dominance::lemma_dominator_reachable;
use crate::dominance::lemma_entry_dominates;
use crate::dominance::lemma_only_entry_dominates_entry;
use crate::dominance::lemma_reachable_bounded;
use crate::dominance::lemma_segment_step;
use crate::dominance::lemma_strict_dominator_dominates_predecessor;
use crate::dominance::lemma_strict_dominator_precedes;
use crate::dominance::rpo_facts;
use crate::dominance::strictly_dominates_in;
use crate::dominator_tree::RegionDominatorTree;
use crate::paths::lemma_closed_set_contains_reachable;
use crate::paths::lemma_reaches_self;
use crate::paths::lemma_reaches_step;
use crate::paths::reaches;

verus! {

/// Number of edges among `ids` whose source is reachable.
pub open spec fn reachable_source_count(edges: Seq<ControlFlowEdge>, entry: int, ids: Seq<ControlFlowEdgeId>) -> nat
    decreases ids.len(),
{
    if ids.len() == 0 {
        0
    } else {
        reachable_source_count(edges, entry, ids.drop_last()) + if reaches(
            edge_step(edges),
            entry,
            edges[ids.last().0 as int].source as int,
        ) {
            1nat
        } else {
            0nat
        }
    }
}

/// `b` lies in the dominance frontier of `x`: `b` is a reachable join (at
/// least two predecessor edges from reachable blocks), `x` dominates one of
/// its reachable predecessors, and `x` does not strictly dominate `b`. A
/// backedge into the entry does not place the entry in its own frontier.
pub open spec fn in_frontier(
    edges: Seq<ControlFlowEdge>,
    entry: int,
    preds: Seq<ControlFlowEdgeId>,
    x: int,
    b: int,
) -> bool {
    &&& reaches(edge_step(edges), entry, b)
    &&& reachable_source_count(edges, entry, preds) >= 2
    &&& exists|p: int|
        #![trigger dominates_in(edges, entry, x, p)]
        edges_have(edges, p, b) && reaches(edge_step(edges), entry, p) && dominates_in(edges, entry, x, p)
    &&& !strictly_dominates_in(edges, entry, x, b)
    &&& !(b == entry && x == entry)
}

/// `v` lies in the dominance frontier of `u`, for the frontier relation of
/// `edges` with per-block predecessor lists `preds`.
pub open spec fn frontier_step(
    edges: Seq<ControlFlowEdge>,
    entry: int,
    preds: Seq<Seq<ControlFlowEdgeId>>,
) -> spec_fn(int, int) -> bool {
    |u: int, v: int| 0 <= v < preds.len() && in_frontier(edges, entry, preds[v], u, v)
}

/// `y` is reached from some definition by one or more frontier steps.
pub open spec fn iterated_frontier_member(
    edges: Seq<ControlFlowEdge>,
    entry: int,
    preds: Seq<Seq<ControlFlowEdgeId>>,
    definitions: Seq<usize>,
    y: int,
) -> bool {
    exists|i: int, u: int|
        #![trigger reaches(frontier_step(edges, entry, preds), definitions[i] as int, u)]
        0 <= i < definitions.len() && reaches(frontier_step(edges, entry, preds), definitions[i] as int, u)
            && frontier_step(edges, entry, preds)(u, y)
}


/// Some definition reaches `x` by zero or more frontier steps.
#[verifier::opaque]
pub open spec fn from_definitions(
    edges: Seq<ControlFlowEdge>,
    entry: int,
    preds: Seq<Seq<ControlFlowEdgeId>>,
    definitions: Seq<usize>,
    x: int,
) -> bool {
    exists|i: int| 0 <= i < definitions.len() && reaches(frontier_step(edges, entry, preds), #[trigger] definitions[i] as int, x)
}

proof fn lemma_definition_is_source(
    edges: Seq<ControlFlowEdge>,
    entry: int,
    preds: Seq<Seq<ControlFlowEdgeId>>,
    definitions: Seq<usize>,
    q: int,
)
    requires
        0 <= q < definitions.len(),
    ensures
        from_definitions(edges, entry, preds, definitions, definitions[q] as int),
{
    reveal(from_definitions);
    lemma_reaches_self(frontier_step(edges, entry, preds), definitions[q] as int);
}

proof fn lemma_frontier_extends(
    edges: Seq<ControlFlowEdge>,
    entry: int,
    preds: Seq<Seq<ControlFlowEdgeId>>,
    definitions: Seq<usize>,
    u: int,
    y: int,
)
    requires
        from_definitions(edges, entry, preds, definitions, u),
        frontier_step(edges, entry, preds)(u, y),
    ensures
        from_definitions(edges, entry, preds, definitions, y),
        iterated_frontier_member(edges, entry, preds, definitions, y),
{
    reveal(from_definitions);
    let fstep = frontier_step(edges, entry, preds);
    let i = choose|i: int| 0 <= i < definitions.len() && reaches(fstep, #[trigger] definitions[i] as int, u);
    lemma_reaches_step(fstep, definitions[i] as int, u, y);
    assert(reaches(fstep, definitions[i] as int, y));
    assert(reaches(frontier_step(edges, entry, preds), definitions[i] as int, u));
}

proof fn lemma_push_keeps_contains(s: Seq<usize>, x: usize)
    ensures
        forall|y: usize| s.contains(y) ==> #[trigger] s.push(x).contains(y),
        s.push(x).contains(x),
{
    assert(s.push(x)[s.len() as int] == x);
    assert forall|y: usize| s.contains(y) implies #[trigger] s.push(x).contains(y) by {
        let w = choose|w: int| 0 <= w < s.len() && s[w] == y;
        assert(s.push(x)[w] == y);
    }
}

proof fn lemma_push_contains_other(s: Seq<usize>, x: usize, y: usize)
    requires
        y != x,
    ensures
        s.push(x).contains(y) == s.contains(y),
{
    lemma_push_keeps_contains(s, x);
    if s.push(x).contains(y) {
        let w = choose|w: int| 0 <= w < s.len() + 1 && s.push(x)[w] == y;
        assert(s[w] == y);
    }
}

proof fn lemma_closed_queue_holds_member(
    frontiers: Seq<Vec<usize>>,
    n: int,
    edges: Seq<ControlFlowEdge>,
    entry: int,
    preds: Seq<Seq<ControlFlowEdgeId>>,
    definitions: Seq<usize>,
    queue: Seq<usize>,
    result: Seq<usize>,
    y: usize,
)
    requires
        frontiers.len() == n,
        preds.len() == n,
        forall|x: int, z: usize|
            0 <= x < n ==> (#[trigger] frontiers[x]@.contains(z) <==> (z < n && in_frontier(
                edges,
                entry,
                preds[z as int],
                x,
                z as int,
            ))),
        forall|q: int| 0 <= q < definitions.len() ==> queue.contains(#[trigger] definitions[q]),
        forall|q: int| 0 <= q < queue.len() ==> #[trigger] queue[q] < n,
        forall|c: usize| #[trigger] result.contains(c) ==> queue.contains(c),
        forall|q: int, z: usize| 0 <= q < queue.len() && #[trigger] frontiers[queue[q] as int]@.contains(z) ==> result.contains(z),
        iterated_frontier_member(edges, entry, preds, definitions, y as int),
    ensures
        result.contains(y),
{
    let fstep = frontier_step(edges, entry, preds);
    let (i, u) = choose|i: int, u: int|
        #![trigger reaches(frontier_step(edges, entry, preds), definitions[i] as int, u)]
        0 <= i < definitions.len() && reaches(frontier_step(edges, entry, preds), definitions[i] as int, u)
            && frontier_step(edges, entry, preds)(u, y as int);
    let s = |x: int| 0 <= x && queue.contains(x as usize);
    assert forall|a: int, c: int| #[trigger] fstep(a, c) && s(a) implies s(c) by {
        let q = choose|q: int| 0 <= q < queue.len() && queue[q] == a as usize;
        assert(frontiers[queue[q] as int]@.contains(c as usize));
        assert(result.contains(c as usize));
    }
    assert(queue.contains(definitions[i]));
    lemma_closed_set_contains_reachable(fstep, s, definitions[i] as int, u);
    let q = choose|q: int| 0 <= q < queue.len() && queue[q] == u as usize;
    assert(frontiers[queue[q] as int]@.contains(y));
}

fn vec_contains(list: &Vec<usize>, value: usize) -> (r: bool)
    ensures
        r == list@.contains(value),
{
    let mut i: usize = 0;
    while i < list.len()
        invariant
            i <= list.len(),
            forall|j: int| 0 <= j < i ==> list@[j] != value,
        decreases list.len() - i,
    {
        if list[i] == value {
            return true;
        }
        i = i + 1;
    }
    false
}

/// One step of the worklist that discovers an iterated frontier. The state
/// is the queue of blocks, the position of the block being scanned, the
/// position in its frontier list, and the blocks found so far. A block not
/// found before is reported, and queued unless it is a definition; once a
/// list is scanned the next queued block is taken.
pub open spec fn worklist_step(
    lists: Seq<Seq<usize>>,
    defs: Seq<usize>,
    s: (Seq<usize>, nat, nat, Seq<usize>),
) -> (Seq<usize>, nat, nat, Seq<usize>) {
    let (queue, head, t, result) = s;
    if head >= queue.len() {
        s
    } else {
        let list = lists[queue[head as int] as int];
        if t < list.len() {
            let y = list[t as int];
            if result.contains(y) {
                (queue, head, t + 1, result)
            } else if defs.contains(y) {
                (queue, head, t + 1, result.push(y))
            } else {
                (queue.push(y), head, t + 1, result.push(y))
            }
        } else {
            (queue, head + 1, 0, result)
        }
    }
}

/// The worklist after `fuel` steps, starting with the definitions queued
/// in order and nothing found.
pub open spec fn worklist_run(lists: Seq<Seq<usize>>, defs: Seq<usize>, fuel: nat) -> (Seq<usize>, nat, nat, Seq<usize>)
    decreases fuel,
{
    if fuel == 0 {
        (defs, 0, 0, Seq::empty())
    } else {
        worklist_step(lists, defs, worklist_run(lists, defs, (fuel - 1) as nat))
    }
}

/// Blocks where separately dominated control-flow paths meet.
pub struct RegionDominanceFrontier {
    frontiers: Vec<Vec<usize>>,
    members: Vec<bool>,
    edges: Ghost<Seq<ControlFlowEdge>>,
    entry: Ghost<int>,
    preds: Ghost<Seq<Seq<ControlFlowEdgeId>>>,
}

impl RegionDominanceFrontier {
    /// Edges of the analyzed graph.
    pub closed spec fn spec_edges(&self) -> Seq<ControlFlowEdge> {
        self.edges@
    }

    /// Entry of the analyzed graph.
    pub closed spec fn spec_entry(&self) -> int {
        self.entry@
    }

    /// Predecessor edge IDs of each block of the analyzed graph.
    pub closed spec fn spec_preds(&self) -> Seq<Seq<ControlFlowEdgeId>> {
        self.preds@
    }

    /// The frontier list of each block, in the order `frontier` returns it.
    pub closed spec fn spec_lists(&self) -> Seq<Seq<usize>> {
        Seq::new(self.frontiers@.len(), |b: int| self.frontiers@[b]@)
    }

    /// `b` is in the dominance frontier of `x`.
    pub open spec fn spec_in_frontier(&self, x: int, b: int) -> bool {
        0 <= b < self.spec_preds().len() && in_frontier(
            self.spec_edges(),
            self.spec_entry(),
            self.spec_preds()[b],
            x,
            b,
        )
    }

    #[verifier::type_invariant]
    closed spec fn inv(self) -> bool {
        let n = self.frontiers@.len();
        let edges = self.edges@;
        let entry = self.entry@;
        &&& self.members@.len() == n
        &&& self.preds@.len() == n
        &&& 0 <= entry < n
        &&& forall|e: int| #![trigger edges[e]] 0 <= e < edges.len() ==> edges[e].source < n && edges[e].target < n
        &&& forall|b: int| 0 <= b < n ==> (#[trigger] self.members@[b] <==> reaches(edge_step(edges), entry, b))
        &&& forall|x: int, y: usize|
            0 <= x < n ==> (#[trigger] self.frontiers@[x]@.contains(y) <==> (y < n && in_frontier(
                edges,
                entry,
                self.preds@[y as int],
                x,
                y as int,
            )))
        &&& forall|x: int| 0 <= x < n ==> (#[trigger] self.frontiers@[x]@).no_duplicates()
    }


    /// Returns the dominance frontier of a reachable block.
    pub fn frontier(&self, block: usize) -> (r: Option<&[usize]>)
        ensures
            !reaches(edge_step(self.spec_edges()), self.spec_entry(), block as int) ==> r is None,
            reaches(edge_step(self.spec_edges()), self.spec_entry(), block as int) ==> (r matches Some(list)
                && list@.no_duplicates() && forall|y: usize|
                #[trigger] list@.contains(y) <==> self.spec_in_frontier(block as int, y as int)),
            r matches Some(list) ==> block < self.spec_lists().len() && list@ == self.spec_lists()[block as int],
    {
        proof {
            use_type_invariant(self);
            if reaches(edge_step(self.edges@), self.entry@, block as int) {
                lemma_reachable_bounded(self.edges@, self.entry@, self.frontiers@.len() as int, block as int);
            }
        }
        if block >= self.members.len() || !self.members[block] {
            return None;
        }
        let list = self.frontiers[block].as_slice();
        Some(list)
    }

    /// Computes the iterated dominance frontier of definition blocks.
    ///
    /// This gives the merge blocks required for ordinary, non-pruned SSA
    /// construction. Blocks are reported in the order a first-in first-out
    /// worklist discovers them, the definitions queued first in order.
    #[verifier::spinoff_prover]
    #[verifier::rlimit(60)]
    pub fn iterated_frontier(&self, definitions: &[usize]) -> (result: Vec<usize>)
        requires
            forall|i: int|
                0 <= i < definitions@.len() ==> reaches(
                    edge_step(self.spec_edges()),
                    self.spec_entry(),
                    #[trigger] definitions@[i] as int,
                ),
        ensures
            result@.no_duplicates(),
            forall|y: usize|
                #[trigger] result@.contains(y) <==> iterated_frontier_member(
                    self.spec_edges(),
                    self.spec_entry(),
                    self.spec_preds(),
                    definitions@,
                    y as int,
                ),
            exists|fuel: nat|
                {
                    let state = #[trigger] worklist_run(self.spec_lists(), definitions@, fuel);
                    &&& state.1 == state.0.len()
                    &&& result@ == state.3
                },
    {
        proof {
            use_type_invariant(self);
        }
        let ghost edges = self.edges@;
        let ghost ent = self.entry@;
        let ghost preds = self.preds@;
        let ghost defs = definitions@;
        let n = self.frontiers.len();
        let mut is_definition: Vec<bool> = Vec::new();
        let mut inserted: Vec<bool> = Vec::new();
        let mut b: usize = 0;
        while b < n
            invariant
                b <= n,
                is_definition.len() == b,
                inserted.len() == b,
                forall|c: int| 0 <= c < b ==> !(#[trigger] is_definition@[c]),
                forall|c: int| 0 <= c < b ==> !(#[trigger] inserted@[c]),
            decreases n - b,
        {
            is_definition.push(false);
            inserted.push(false);
            b = b + 1;
        }
        let mut queue: Vec<usize> = Vec::new();
        let mut i: usize = 0;
        while i < definitions.len()
            invariant
                self.inv(),
                n == self.frontiers@.len(),
                edges == self.edges@,
                ent == self.entry@,
                preds == self.preds@,
                defs == definitions@,
                forall|q: int| 0 <= q < defs.len() ==> reaches(edge_step(edges), ent, #[trigger] defs[q] as int),
                i <= definitions.len(),
                is_definition.len() == n,
                inserted.len() == n,
                forall|c: int| 0 <= c < n ==> !(#[trigger] inserted@[c]),
                queue@ == defs.take(i as int),
                forall|c: int| 0 <= c < n ==> (#[trigger] is_definition@[c] <==> defs.take(i as int).contains(c as usize)),
                forall|q: int| 0 <= q < queue.len() ==> #[trigger] queue@[q] < n,
            decreases definitions.len() - i,
        {
            let definition = definitions[i];
            proof {
                lemma_reachable_bounded(edges, ent, n as int, definition as int);
            }
            let ghost old_def = is_definition@;
            is_definition.set(definition, true);
            queue.push(definition);
            proof {
                assert(defs.take(i as int + 1) =~= defs.take(i as int).push(definition));
                assert forall|c: int| 0 <= c < n implies (#[trigger] is_definition@[c] <==> defs.take(i as int + 1).contains(c as usize)) by {
                    if c != definition as int {
                        assert(is_definition@[c] == old_def[c]);
                        if defs.take(i as int + 1).contains(c as usize) {
                            let q = choose|q: int| 0 <= q < i + 1 && #[trigger] defs.take(i as int + 1)[q] == c as usize;
                            assert(defs.take(i as int)[q] == c as usize);
                        }
                    } else {
                        assert(defs.take(i as int + 1)[i as int] == c as usize);
                    }
                }
            }
            i = i + 1;
        }
        proof {
            assert(defs.take(defs.len() as int) =~= defs);
            assert forall|q: int| 0 <= q < queue.len() implies from_definitions(edges, ent, preds, defs, #[trigger] queue@[q] as int) by {
                lemma_definition_is_source(edges, ent, preds, defs, q);
            }
        }
        let mut result: Vec<usize> = Vec::new();
        let mut head: usize = 0;
        let ghost lists = self.spec_lists();
        let ghost mut fuel: nat = 0;
        proof {
            assert(worklist_run(lists, defs, 0) == (queue@, 0nat, 0nat, result@));
        }
        while head < queue.len()
            invariant
                lists == self.spec_lists(),
                worklist_run(lists, defs, fuel) == (queue@, head as nat, 0nat, result@),
                self.inv(),
                n == self.frontiers@.len(),
                edges == self.edges@,
                ent == self.entry@,
                preds == self.preds@,
                defs == definitions@,
                is_definition.len() == n,
                inserted.len() == n,
                head <= queue.len(),
                forall|c: int| 0 <= c < n ==> (#[trigger] is_definition@[c] <==> defs.contains(c as usize)),
                forall|q: int| 0 <= q < defs.len() ==> queue@.contains(#[trigger] defs[q]),
                forall|q: int| 0 <= q < queue.len() ==> #[trigger] queue@[q] < n,
                forall|q: int| 0 <= q < queue.len() ==> from_definitions(edges, ent, preds, defs, #[trigger] queue@[q] as int),
                result@.no_duplicates(),
                forall|c: int| 0 <= c < n ==> (#[trigger] inserted@[c] <==> result@.contains(c as usize)),
                forall|q: int| 0 <= q < result.len() ==> #[trigger] result@[q] < n,
                forall|c: int| 0 <= c < n && #[trigger] inserted@[c] ==> queue@.contains(c as usize),
                forall|y: usize| #[trigger] result@.contains(y) ==> iterated_frontier_member(edges, ent, preds, defs, y as int),
                forall|q: int, y: usize| 0 <= q < head && #[trigger] self.frontiers@[queue@[q] as int]@.contains(y) ==> result@.contains(y),
            decreases queue.len() - head + 2 * count_unvisited(inserted@),
        {
            let block = queue[head];
            let frontier = &self.frontiers[block];
            let ghost measure = queue.len() - head + 2 * count_unvisited(inserted@);
            let mut t: usize = 0;
            while t < frontier.len()
                invariant
                    lists == self.spec_lists(),
                    worklist_run(lists, defs, fuel) == (queue@, head as nat, t as nat, result@),
                    self.inv(),
                    n == self.frontiers@.len(),
                    edges == self.edges@,
                    ent == self.entry@,
                    preds == self.preds@,
                    defs == definitions@,
                    block < n,
                    *frontier == self.frontiers@[block as int],
                    t <= frontier.len(),
                    head < queue.len(),
                    queue@[head as int] == block,
                    from_definitions(edges, ent, preds, defs, block as int),
                    queue.len() - head + 2 * count_unvisited(inserted@) <= measure,
                    is_definition.len() == n,
                    inserted.len() == n,
                    forall|c: int| 0 <= c < n ==> (#[trigger] is_definition@[c] <==> defs.contains(c as usize)),
                    forall|q: int| 0 <= q < defs.len() ==> queue@.contains(#[trigger] defs[q]),
                    forall|q: int| 0 <= q < queue.len() ==> #[trigger] queue@[q] < n,
                    forall|q: int| 0 <= q < queue.len() ==> from_definitions(edges, ent, preds, defs, #[trigger] queue@[q] as int),
                    result@.no_duplicates(),
                    forall|c: int| 0 <= c < n ==> (#[trigger] inserted@[c] <==> result@.contains(c as usize)),
                    forall|q: int| 0 <= q < result.len() ==> #[trigger] result@[q] < n,
                    forall|c: int| 0 <= c < n && #[trigger] inserted@[c] ==> queue@.contains(c as usize),
                    forall|y: usize| #[trigger] result@.contains(y) ==> iterated_frontier_member(edges, ent, preds, defs, y as int),
                    forall|q: int, y: usize| 0 <= q < head && #[trigger] self.frontiers@[queue@[q] as int]@.contains(y) ==> result@.contains(y),
                    forall|w: int| 0 <= w < t ==> result@.contains(#[trigger] frontier@[w]),
                decreases frontier.len() - t,
            {
                let target = frontier[t];
                let ghost before = (queue@, head as nat, t as nat, result@);
                proof {
                    assert(lists[block as int] == frontier@);
                    assert(lists[queue@[head as int] as int] == frontier@);
                    assert(target == frontier@[t as int]);
                }
                proof {
                    assert(self.frontiers@[block as int]@.contains(target));
                    assert(target < n);
                    lemma_frontier_extends(edges, ent, preds, defs, block as int, target as int);
                }
                if !inserted[target] {
                    let ghost old_inserted = inserted@;
                    let ghost old_result = result@;
                    let ghost old_queue = queue@;
                    inserted.set(target, true);
                    result.push(target);
                    if !is_definition[target] {
                        queue.push(target);
                    }
                    proof {
                        lemma_count_unvisited_mark(old_inserted, target as int);
                        lemma_push_keeps_contains(old_result, target);
                        lemma_push_keeps_contains(old_queue, target);
                        assert(result@ == old_result.push(target));
                        assert(!is_definition@[target as int] ==> queue@ == old_queue.push(target));
                        assert(is_definition@[target as int] ==> queue@ == old_queue);
                        assert forall|c: int| 0 <= c < n implies (#[trigger] inserted@[c] <==> result@.contains(c as usize)) by {
                            if c != target as int {
                                lemma_push_contains_other(old_result, target, c as usize);
                            }
                        }
                        assert forall|c: int| 0 <= c < n && #[trigger] inserted@[c] implies queue@.contains(c as usize) by {
                            if c == target as int && is_definition@[c] {
                                let q = choose|q: int| 0 <= q < defs.len() && defs[q] == c as usize;
                                assert(queue@.contains(defs[q]));
                            }
                        }
                        assert forall|y: usize| #[trigger] result@.contains(y) implies iterated_frontier_member(edges, ent, preds, defs, y as int) by {
                            if y != target {
                                lemma_push_contains_other(old_result, target, y);
                            }
                        }
                        assert forall|q: int| 0 <= q < queue.len() implies from_definitions(edges, ent, preds, defs, #[trigger] queue@[q] as int) by {
                            if q < old_queue.len() {
                                assert(queue@[q] == old_queue[q]);
                            }
                        }
                    }
                }
                proof {
                    assert(inserted@[target as int] <==> result@.contains(target));
                    if before.3.contains(target) {
                        assert(worklist_step(lists, defs, before) == (queue@, head as nat, (t + 1) as nat, result@));
                    } else if defs.contains(target) {
                        assert(worklist_step(lists, defs, before) == (queue@, head as nat, (t + 1) as nat, result@));
                    } else {
                        assert(worklist_step(lists, defs, before) == (queue@, head as nat, (t + 1) as nat, result@));
                    }
                    fuel = fuel + 1;
                }
                t = t + 1;
            }
            proof {
                assert(lists[queue@[head as int] as int] == frontier@);
                assert(worklist_step(lists, defs, (queue@, head as nat, t as nat, result@)) == (queue@, (head + 1) as nat, 0nat, result@));
                fuel = fuel + 1;
            }
            proof {
                assert forall|q: int, y: usize| 0 <= q < head + 1 && #[trigger] self.frontiers@[queue@[q] as int]@.contains(y) implies result@.contains(y) by {
                    if q == head {
                        let w = choose|w: int| 0 <= w < frontier@.len() && frontier@[w] == y;
                        assert(result@.contains(frontier@[w]));
                    }
                }
            }
            head = head + 1;
        }
        proof {
            assert forall|c: usize| #[trigger] result@.contains(c) implies queue@.contains(c) by {
                let w = choose|w: int| 0 <= w < result@.len() && result@[w] == c;
                assert(result@[w] < n);
                assert(inserted@[c as int]);
            }
            assert forall|y: usize| iterated_frontier_member(edges, ent, preds, defs, y as int) implies #[trigger] result@.contains(y) by {
                lemma_closed_queue_holds_member(self.frontiers@, n as int, edges, ent, preds, defs, queue@, result@, y);
            }
            assert(worklist_run(lists, defs, fuel).1 == worklist_run(lists, defs, fuel).0.len());
        }
        result
    }

    /// Computes dominance frontiers for reachable blocks in one region.
    #[verifier::rlimit(60)]
    pub fn compute(graph: &RegionControlFlowGraph, dominance: &RegionDominatorTree) -> (result: Self)
        requires
            graph.wf(),
            dominance.spec_edges() == graph.spec_edges(),
            dominance.spec_entry() == graph.spec_entry(),
        ensures
            result.spec_edges() == graph.spec_edges(),
            result.spec_entry() == graph.spec_entry() as int,
            result.spec_preds().len() == graph.spec_block_count(),
            forall|b: int|
                0 <= b < graph.spec_block_count() ==> #[trigger] result.spec_preds()[b]
                    == graph.spec_predecessor_ids(b),
    {
        let n = graph.blocks().len();
        let entry = graph.entry();
        let rpo = graph.reverse_postorder();
        let count = rpo.len();
        let ghost edges = graph.spec_edges();
        let ghost ent = entry as int;
        let ghost step = edge_step(edges);
        let ghost preds = Seq::new(n as nat, |b: int| graph.spec_predecessor_ids(b));

        let mut frontiers: Vec<Vec<usize>> = Vec::new();
        let mut members: Vec<bool> = Vec::new();
        let mut b: usize = 0;
        while b < n
            invariant
                graph.wf(),
                n == graph.spec_block_count(),
                entry == graph.spec_entry(),
                ent == entry as int,
                edges == graph.spec_edges(),
                b <= n,
                frontiers.len() == b,
                members.len() == b,
                forall|c: int| 0 <= c < b ==> (#[trigger] frontiers@[c])@.len() == 0,
                forall|c: int| 0 <= c < b ==> (#[trigger] members@[c] <==> reaches(edge_step(edges), ent, c)),
            decreases n - b,
        {
            let reachable = graph.is_reachable(b);
            let ghost old_members = members@;
            frontiers.push(Vec::new());
            members.push(reachable);
            proof {
                assert forall|c: int| 0 <= c < b + 1 implies (#[trigger] members@[c] <==> reaches(edge_step(edges), ent, c)) by {
                    if c < b {
                        assert(members@[c] == old_members[c]);
                    }
                }
            }
            b = b + 1;
        }

        proof {
            assert(rpo_facts(edges, ent, rpo@));
        }

        let mut k: usize = 0;
        while k < count
            invariant
                graph.wf(),
                dominance.spec_edges() == edges,
                dominance.spec_entry() == entry,
                n == graph.spec_block_count(),
                entry == graph.spec_entry(),
                ent == entry as int,
                edges == graph.spec_edges(),
                step == edge_step(edges),
                preds.len() == n,
                forall|c: int| 0 <= c < n ==> #[trigger] preds[c] == graph.spec_predecessor_ids(c),
                count == rpo@.len(),
                rpo@ == graph.spec_rpo(),
                rpo_facts(edges, ent, rpo@),
                k <= count,
                frontiers.len() == n,
                forall|x: int, y: usize|
                    0 <= x < n ==> (#[trigger] frontiers@[x]@.contains(y) <==> ((exists|j: int| 0 <= j < k && rpo@[j] == y)
                        && in_frontier(edges, ent, preds[y as int], x, y as int))),
                forall|x: int| 0 <= x < n ==> (#[trigger] frontiers@[x]@).no_duplicates(),
            decreases count - k,
        {
            let block = rpo[k];
            proof {
                assert(graph.spec_rpo()[k as int] < n);
                assert(graph.spec_reachable(block as int));
            }
            let ids = graph.predecessor_edges(block).unwrap();
            let mut predecessors: Vec<usize> = Vec::new();
            let mut t: usize = 0;
            while t < ids.len()
                invariant
                    graph.wf(),
                    n == graph.spec_block_count(),
                    entry == graph.spec_entry(),
                    ent == entry as int,
                    edges == graph.spec_edges(),
                    block < n,
                    ids@ == graph.spec_predecessor_ids(block as int),
                    t <= ids.len(),
                    predecessors.len() == reachable_source_count(edges, ent, ids@.take(t as int)),
                    forall|q: int|
                        0 <= q < predecessors.len() ==> #[trigger] predecessors@[q] < n && reaches(
                            edge_step(edges),
                            ent,
                            predecessors@[q] as int,
                        ) && edges_have(edges, predecessors@[q] as int, block as int),
                    forall|q: int|
                        0 <= q < t && reaches(edge_step(edges), ent, edges[(#[trigger] ids@[q]).0 as int].source as int)
                            ==> predecessors@.contains(edges[ids@[q].0 as int].source),
                decreases ids.len() - t,
            {
                proof {
                    assert(ids_exact(graph.spec_predecessor_ids(block as int), edges.len() as int, |e: int| edges[e].target == block));
                }
                let id = ids[t];
                let edge = graph.edge(id).unwrap();
                let source = edge.source;
                let reachable = graph.is_reachable(source);
                let ghost old_preds = predecessors@;
                if reachable {
                    predecessors.push(source);
                }
                proof {
                    assert(ids@.take(t as int + 1).drop_last() =~= ids@.take(t as int));
                    assert(ids@.take(t as int + 1).last() == id);
                    assert(edges[id.0 as int].target == block);
                    assert(edges_have(edges, source as int, block as int));
                    assert forall|q: int|
                        0 <= q < t + 1 && reaches(edge_step(edges), ent, edges[(#[trigger] ids@[q]).0 as int].source as int)
                            implies predecessors@.contains(edges[ids@[q].0 as int].source) by {
                        if q < t {
                            let w = choose|w: int| 0 <= w < old_preds.len() && old_preds[w] == edges[ids@[q].0 as int].source;
                            assert(predecessors@[w] == old_preds[w]);
                        } else {
                            assert(predecessors@[predecessors.len() - 1] == source);
                        }
                    }
                }
                t = t + 1;
            }
            proof {
                assert(ids@.take(ids.len() as int) =~= ids@);
                assert(preds[block as int] == ids@);
                assert forall|p: int|
                    edges_have(edges, p, block as int) && reaches(edge_step(edges), ent, p) implies predecessors@.contains(p as usize) by {
                    let e = choose|e: int| #![trigger edges[e]] 0 <= e < edges.len() && edges[e].source == p && edges[e].target == block as int;
                    assert(ids_exact(graph.spec_predecessor_ids(block as int), edges.len() as int, |e: int| edges[e].target == block));
                    assert((|e: int| edges[e].target == block)(e));
                    let q = choose|q: int| 0 <= q < ids@.len() && ids@[q].0 == e;
                    assert(edges[(ids@[q]).0 as int].source == p);
                }
            }
            if predecessors.len() >= 2 {
                let top = match dominance.immediate_dominator(block) {
                    Some(i) => i,
                    None => block,
                };
                proof {
                    assert(dominance.spec_reachable(block as int));
                    if block as int != ent {
                        assert(is_immediate_dominator_in(edges, ent, top as int, block as int));
                    } else {
                        assert(top == block);
                    }
                }
                let mut j: usize = 0;
                let ghost before = frontiers@;
                while j < predecessors.len()
                    invariant
                        graph.wf(),
                        dominance.spec_edges() == edges,
                        dominance.spec_entry() == entry,
                        n == graph.spec_block_count(),
                        entry == graph.spec_entry(),
                        ent == entry as int,
                        edges == graph.spec_edges(),
                        rpo@ == graph.spec_rpo(),
                        rpo_facts(edges, ent, rpo@),
                        block < n,
                        reaches(edge_step(edges), ent, block as int),
                        block as int != ent ==> is_immediate_dominator_in(edges, ent, top as int, block as int),
                        block as int == ent ==> top == block,
                        j <= predecessors.len(),
                        forall|q: int|
                            0 <= q < predecessors.len() ==> #[trigger] predecessors@[q] < n && reaches(
                                edge_step(edges),
                                ent,
                                predecessors@[q] as int,
                            ) && edges_have(edges, predecessors@[q] as int, block as int),
                        frontiers.len() == n,
                        before.len() == n,
                        forall|x: int| 0 <= x < n ==> (#[trigger] frontiers@[x]@).no_duplicates(),
                        forall|x: int, y: usize|
                            0 <= x < n ==> (#[trigger] frontiers@[x]@.contains(y) <==> (before[x]@.contains(y) || (y == block
                                && exists|q: int|
                                0 <= q < j && dominates_in(edges, ent, x, #[trigger] predecessors@[q] as int)
                                    && !dominates_in(edges, ent, x, top as int)))),
                    decreases predecessors.len() - j,
                {
                    let predecessor = predecessors[j];
                    let mut runner = predecessor;
                    let ghost mid = frontiers@;
                    proof {
                        lemma_dominates_self(edges, ent, predecessor as int);
                        if block as int != ent {
                            lemma_strict_dominator_dominates_predecessor(edges, ent, top as int, block as int, predecessor as int);
                        } else {
                            lemma_entry_dominates(edges, ent, predecessor as int);
                        }
                    }
                    while runner != top
                        invariant
                            graph.wf(),
                            dominance.spec_edges() == edges,
                            dominance.spec_entry() == entry,
                            n == graph.spec_block_count(),
                            entry == graph.spec_entry(),
                            ent == entry as int,
                            edges == graph.spec_edges(),
                            rpo@ == graph.spec_rpo(),
                            rpo_facts(edges, ent, rpo@),
                            block < n,
                            top < n,
                            runner < n,
                            predecessor < n,
                            reaches(edge_step(edges), ent, runner as int),
                            dominates_in(edges, ent, runner as int, predecessor as int),
                            dominates_in(edges, ent, top as int, runner as int),
                            frontiers.len() == n,
                            mid.len() == n,
                            forall|x: int| 0 <= x < n ==> (#[trigger] frontiers@[x]@).no_duplicates(),
                            forall|x: int, y: usize|
                                0 <= x < n ==> (#[trigger] frontiers@[x]@.contains(y) <==> (mid[x]@.contains(y) || (y == block
                                    && dominates_in(edges, ent, x, predecessor as int)
                                    && !dominates_in(edges, ent, x, runner as int)))),
                        decreases graph.rpo_index(runner as int),
                    {
                        let ghost old_frontiers = frontiers@;
                        if !vec_contains(&frontiers[runner], block) {
                            frontiers[runner].push(block);
                        }
                        proof {
                            assert(runner as int != ent) by {
                                if runner as int == ent {
                                    lemma_only_entry_dominates_entry(edges, ent, top as int);
                                }
                            }
                        }
                        let next = dominance.immediate_dominator(runner).unwrap();
                        proof {
                            assert(dominance.spec_reachable(runner as int));
                            assert(is_immediate_dominator_in(edges, ent, next as int, runner as int));
                            lemma_dominates_transitive(edges, ent, next as int, runner as int, predecessor as int);
                            lemma_dominator_reachable(edges, ent, next as int, runner as int);
                            lemma_reachable_bounded(edges, ent, n as int, next as int);
                            assert(strictly_dominates_in(edges, ent, top as int, runner as int));
                            assert(dominates_in(edges, ent, top as int, next as int));
                            assert forall|x: int, y: usize|
                                0 <= x < n implies (#[trigger] frontiers@[x]@.contains(y) <==> (mid[x]@.contains(y) || (y
                                    == block && dominates_in(edges, ent, x, predecessor as int)
                                    && !dominates_in(edges, ent, x, next as int)))) by {
                                lemma_segment_step(edges, ent, predecessor as int, runner as int, next as int, x);
                                if x == runner as int {
                                    assert(frontiers@[x]@.contains(block)) by {
                                        if old_frontiers[x]@.contains(block) {
                                            let w = choose|w: int| 0 <= w < old_frontiers[x]@.len() && old_frontiers[x]@[w] == block;
                                            assert(frontiers@[x]@[w] == block);
                                        } else {
                                            assert(frontiers@[x]@ == old_frontiers[x]@.push(block));
                                            assert(frontiers@[x]@[frontiers@[x]@.len() - 1] == block);
                                        }
                                    }
                                    if frontiers@[x]@.contains(y) && y != block {
                                        if old_frontiers[x]@.contains(block) {
                                            assert(frontiers@[x] == old_frontiers[x]);
                                        } else {
                                            let w = choose|w: int| 0 <= w < frontiers@[x]@.len() && frontiers@[x]@[w] == y;
                                            assert(frontiers@[x]@ == old_frontiers[x]@.push(block));
                                            assert(old_frontiers[x]@[w] == y);
                                        }
                                    }
                                    if old_frontiers[x]@.contains(y) {
                                        let w = choose|w: int| 0 <= w < old_frontiers[x]@.len() && old_frontiers[x]@[w] == y;
                                        assert(frontiers@[x]@[w] == y);
                                    }
                                } else {
                                    assert(frontiers@[x] == old_frontiers[x]);
                                }
                            }
                            assert forall|x: int| 0 <= x < n implies (#[trigger] frontiers@[x]@).no_duplicates() by {
                                if x != runner as int {
                                    assert(frontiers@[x] == old_frontiers[x]);
                                }
                            }
                            assert(rpo@.contains(runner)) by {
                                assert(graph.spec_reachable(runner as int));
                            }
                            assert(rpo@.contains(next)) by {
                                assert(graph.spec_reachable(next as int));
                            }
                            let kr = graph.rpo_index(runner as int);
                            let kn = graph.rpo_index(next as int);
                            lemma_strict_dominator_precedes(edges, ent, rpo@, next as int, runner as int, kn, kr);
                        }
                        runner = next;
                    }
                    proof {
                        assert forall|x: int, y: usize|
                            0 <= x < n implies (#[trigger] frontiers@[x]@.contains(y) <==> (before[x]@.contains(y) || (y == block
                                && exists|q: int|
                                0 <= q < j + 1 && dominates_in(edges, ent, x, #[trigger] predecessors@[q] as int)
                                    && !dominates_in(edges, ent, x, top as int)))) by {
                            if y == block && dominates_in(edges, ent, x, predecessor as int) && !dominates_in(edges, ent, x, top as int) {
                                assert(dominates_in(edges, ent, x, predecessors@[j as int] as int));
                            }
                            if exists|q: int|
                                0 <= q < j + 1 && dominates_in(edges, ent, x, #[trigger] predecessors@[q] as int)
                                    && !dominates_in(edges, ent, x, top as int) {
                                let q = choose|q: int|
                                    0 <= q < j + 1 && dominates_in(edges, ent, x, #[trigger] predecessors@[q] as int)
                                        && !dominates_in(edges, ent, x, top as int);
                                if q == j {
                                    assert(predecessors@[q] == predecessor);
                                }
                            }
                        }
                    }
                    j = j + 1;
                }
                proof {
                    assert forall|x: int, y: usize|
                        0 <= x < n implies (#[trigger] frontiers@[x]@.contains(y) <==> ((exists|jj: int| 0 <= jj < k + 1 && rpo@[jj] == y)
                            && in_frontier(edges, ent, preds[y as int], x, y as int))) by {
                        assert(before[x] == before[x]);
                        if y == block {
                            assert(rpo@[k as int] == y);
                            assert(!before[x]@.contains(y)) by {
                                if before[x]@.contains(y) {
                                    let jj = choose|jj: int| 0 <= jj < k && rpo@[jj] == y;
                                    assert(rpo@[jj] == rpo@[k as int]);
                                }
                            }
                            // top-of-segment characterization
                            if block as int != ent {
                                lemma_dominates_immediate_dominator(edges, ent, top as int, block as int, x);
                            } else {
                                if dominates_in(edges, ent, x, top as int) {
                                    lemma_only_entry_dominates_entry(edges, ent, x);
                                }
                                if x == ent {
                                    lemma_dominates_self(edges, ent, ent);
                                }
                            }
                            if exists|q: int|
                                0 <= q < predecessors.len() && dominates_in(edges, ent, x, #[trigger] predecessors@[q] as int) {
                                let q = choose|q: int|
                                    0 <= q < predecessors.len() && dominates_in(edges, ent, x, #[trigger] predecessors@[q] as int);
                                let p = predecessors@[q] as int;
                                assert(dominates_in(edges, ent, x, p));
                            }
                            if in_frontier(edges, ent, preds[y as int], x, y as int) {
                                let p = choose|p: int|
                                    #![trigger dominates_in(edges, ent, x, p)]
                                    edges_have(edges, p, block as int) && reaches(edge_step(edges), ent, p) && dominates_in(edges, ent, x, p);
                                assert(predecessors@.contains(p as usize));
                                let q = choose|q: int| 0 <= q < predecessors.len() && predecessors@[q] == p as usize;
                                assert(dominates_in(edges, ent, x, predecessors@[q] as int));
                            }
                        } else {
                            if exists|jj: int| 0 <= jj < k + 1 && rpo@[jj] == y {
                                let jj = choose|jj: int| 0 <= jj < k + 1 && rpo@[jj] == y;
                                assert(jj != k);
                            }
                        }
                    }
                }
            } else {
                proof {
                    assert forall|x: int, y: usize|
                        0 <= x < n implies (#[trigger] frontiers@[x]@.contains(y) <==> ((exists|jj: int| 0 <= jj < k + 1 && rpo@[jj] == y)
                            && in_frontier(edges, ent, preds[y as int], x, y as int))) by {
                        if exists|jj: int| 0 <= jj < k + 1 && rpo@[jj] == y {
                            let jj = choose|jj: int| 0 <= jj < k + 1 && rpo@[jj] == y;
                            if jj == k {
                                assert(!in_frontier(edges, ent, preds[y as int], x, y as int));
                            }
                        }
                    }
                }
            }
            k = k + 1;
        }

        proof {
            assert forall|x: int, y: usize|
                0 <= x < n implies (#[trigger] frontiers@[x]@.contains(y) <==> (y < n && in_frontier(
                    edges,
                    ent,
                    preds[y as int],
                    x,
                    y as int,
                ))) by {
                if frontiers@[x]@.contains(y) {
                    let jj = choose|jj: int| 0 <= jj < count && rpo@[jj] == y;
                    assert(graph.spec_rpo()[jj] < n);
                }
                if y < n && in_frontier(edges, ent, preds[y as int], x, y as int) {
                    assert(graph.spec_reachable(y as int));
                    assert(rpo@.contains(y));
                }
            }
            assert forall|e: int| #![trigger edges[e]] 0 <= e < edges.len() implies edges[e].source < n && edges[e].target < n by {
                assert(graph.spec_edges()[e].source < n);
            }
        }

        RegionDominanceFrontier {
            frontiers,
            members,
            edges: Ghost(edges),
            entry: Ghost(ent),
            preds: Ghost(preds),
        }
    }
}

} // verus!
