//! Dominance analysis for one IR region.

use vstd::prelude::*;

use crate::control_flow::count_unvisited;
use crate::control_flow::edge_step;
use crate::control_flow::edges_have;
use crate::control_flow::ids_exact;
use crate::control_flow::lemma_count_unvisited_mark;
use crate::control_flow::ControlFlowEdge;
use crate::control_flow::RegionControlFlowGraph;
use crate::dominance::avoid_step;
use crate::dominance::dominates_in;
use crate::dominance::lemma_dominator_reachable;
use crate::dominance::lemma_immediate_dominator_unique;
use crate::dominance::lemma_reachable_bounded;
use crate::dominance::is_immediate_dominator_in;
use crate::dominance::lemma_dominates_iff_unreachable_avoiding;
use crate::dominance::lemma_dominates_self;
use crate::dominance::lemma_dominates_transitive;
use crate::dominance::lemma_dominators_ordered;
use crate::dominance::lemma_entry_dominates;
use crate::dominance::lemma_only_entry_dominates_entry;
use crate::dominance::lemma_strict_dominator_precedes;
use crate::dominance::rpo_facts;
use crate::dominance::strictly_dominates_in;
use crate::paths::lemma_closed_set_contains_reachable;
use crate::paths::lemma_reaches_self;
use crate::paths::lemma_reaches_step;
use crate::paths::reaches;

verus! {

/// Blocks reachable from the entry without passing through `avoided`.
fn reach_avoiding(graph: &RegionControlFlowGraph, avoided: usize) -> (visited: Vec<bool>)
    requires
        graph.wf(),
        avoided != graph.spec_entry(),
    ensures
        visited.len() == graph.spec_block_count(),
        forall|b: int|
            0 <= b < graph.spec_block_count() ==> (#[trigger] visited@[b] <==> reaches(
                avoid_step(graph.spec_edges(), avoided as int),
                graph.spec_entry() as int,
                b,
            )),
{
    let n = graph.blocks().len();
    let entry = graph.entry();
    let ghost edges = graph.spec_edges();
    let ghost step = avoid_step(edges, avoided as int);
    let mut visited: Vec<bool> = Vec::new();
    let mut k: usize = 0;
    while k < n
        invariant
            k <= n,
            visited.len() == k,
            forall|i: int| 0 <= i < k ==> !(#[trigger] visited@[i]),
        decreases n - k,
    {
        visited.push(false);
        k = k + 1;
    }
    visited.set(entry, true);
    let mut stack: Vec<usize> = Vec::new();
    stack.push(entry);
    proof {
        lemma_reaches_self(step, entry as int);
        assert(stack@[0] == entry);
        assert forall|b: int| 0 <= b < n && #[trigger] visited@[b] implies b == entry as int by {}
    }
    while stack.len() > 0
        invariant
            graph.wf(),
            n == graph.spec_block_count(),
            entry == graph.spec_entry(),
            edges == graph.spec_edges(),
            step == avoid_step(edges, avoided as int),
            avoided != entry,
            visited.len() == n,
            avoided < n ==> !visited@[avoided as int],
            visited@[entry as int],
            forall|k: int| 0 <= k < stack.len() ==> #[trigger] stack@[k] < n && visited@[stack@[k] as int],
            forall|b: int| 0 <= b < n && #[trigger] visited@[b] ==> reaches(step, entry as int, b),
            forall|b: int, e: int|
    #![trigger visited@[b], edges[e]]
                0 <= b < n && visited@[b] && !stack@.contains(b as usize) && 0 <= e < edges.len()
                    && edges[e].source == b && edges[e].target != avoided ==> visited@[edges[e].target as int],
        decreases 2 * count_unvisited(visited@) + stack.len(),
    {
        let ghost pre_stack = stack@;
        let block = stack.pop().unwrap();
        proof {
            assert(stack@ =~= pre_stack.drop_last());
            assert(pre_stack[pre_stack.len() - 1] == block);
            assert forall|b: int| 0 <= b < n && b != block && !stack@.contains(b as usize) implies !#[trigger] pre_stack.contains(b as usize) by {
                if pre_stack.contains(b as usize) {
                    let k = choose|k: int| 0 <= k < pre_stack.len() && pre_stack[k] == b as usize;
                    assert(stack@[k] == pre_stack[k]);
                }
            }
        }
        let ghost measure = 2 * count_unvisited(visited@) + stack.len() + 1;
        let successors = graph.successor_edges(block).unwrap();
        let count = successors.len();
        let mut i: usize = 0;
        while i < count
            invariant
                graph.wf(),
                n == graph.spec_block_count(),
                entry == graph.spec_entry(),
                edges == graph.spec_edges(),
                step == avoid_step(edges, avoided as int),
                avoided != entry,
                visited.len() == n,
                block < n,
                visited@[block as int],
                count == successors@.len(),
                successors@ == graph.spec_successor_ids(block as int),
                i <= count,
                avoided < n ==> !visited@[avoided as int],
                visited@[entry as int],
                2 * count_unvisited(visited@) + stack.len() < measure,
                forall|k: int| 0 <= k < stack.len() ==> #[trigger] stack@[k] < n && visited@[stack@[k] as int],
                forall|b: int| 0 <= b < n && #[trigger] visited@[b] ==> reaches(step, entry as int, b),
                forall|j: int|
                    0 <= j < i && edges[(#[trigger] successors@[j]).0 as int].target != avoided ==> visited@[edges[successors@[j].0 as int].target as int],
                forall|b: int, e: int|
    #![trigger visited@[b], edges[e]]
                    0 <= b < n && b != block && visited@[b] && !stack@.contains(b as usize) && 0 <= e
                        < edges.len() && edges[e].source == b && edges[e].target != avoided
                        ==> visited@[edges[e].target as int],
            decreases count - i,
        {
            let id = successors[i];
            let edge = graph.edge(id).unwrap();
            let target = edge.target;
            proof {
                assert(ids_exact(graph.spec_successor_ids(block as int), edges.len() as int, |e: int| edges[e].source == block));
                assert(successors@[i as int] == id);
                assert(edges[id.0 as int].source == block);
            }
            if target != avoided && !visited[target] {
                let ghost old_visited = visited@;
                let ghost old_stack = stack@;
                visited.set(target, true);
                stack.push(target);
                proof {
                    lemma_count_unvisited_mark(old_visited, target as int);
                    assert(edges_have(edges, block as int, target as int));
                    lemma_reaches_step(step, entry as int, block as int, target as int);
                    assert forall|b: int, e: int|
    #![trigger visited@[b], edges[e]]
                        0 <= b < n && b != block && visited@[b] && !stack@.contains(b as usize) && 0 <= e
                            < edges.len() && edges[e].source == b && edges[e].target != avoided
                            implies visited@[edges[e].target as int] by {
                        assert(stack@[stack.len() - 1] == target);
                        assert(b != target);
                        if old_stack.contains(b as usize) {
                            let k = choose|k: int| 0 <= k < old_stack.len() && old_stack[k] == b as usize;
                            assert(stack@[k] == old_stack[k]);
                        }
                    }
                }
            }
            i = i + 1;
        }
        proof {
            assert forall|b: int, e: int|
    #![trigger visited@[b], edges[e]]
                0 <= b < n && visited@[b] && !stack@.contains(b as usize) && 0 <= e < edges.len()
                    && edges[e].source == b && edges[e].target != avoided implies visited@[edges[e].target as int] by {
                if b == block {
                    assert((|e: int| edges[e].source == block)(e));
                    let j = choose|j: int| 0 <= j < count && successors@[j].0 == e;
                    assert(edges[(successors@[j]).0 as int].target != avoided);
                }
            }
        }
    }
    proof {
        let s = |b: int| 0 <= b < n && visited@[b];
        assert forall|u: int, v: int| #[trigger] step(u, v) && s(u) implies s(v) by {
            let e = choose|e: int| #![trigger edges[e]] 0 <= e < edges.len() && edges[e].source == u && edges[e].target == v;
            assert(edges[e].source == u);
        }
        assert forall|b: int| 0 <= b < n && reaches(step, entry as int, b) implies #[trigger] visited@[b] by {
            lemma_closed_set_contains_reachable(step, s, entry as int, b);
        }
    }
    visited
}

/// Dominance relationships among reachable blocks in one region.
pub struct RegionDominatorTree {
    entry: usize,
    immediate_dominators: Vec<Option<usize>>,
    children: Vec<Vec<usize>>,
    edges: Ghost<Seq<ControlFlowEdge>>,
    rpo: Ghost<Seq<usize>>,
}

impl RegionDominatorTree {
    /// The region entry block.
    pub closed spec fn spec_entry(&self) -> usize {
        self.entry
    }

    /// The number of blocks in the region.
    pub closed spec fn spec_block_count(&self) -> nat {
        self.immediate_dominators@.len()
    }

    /// The edges of the analyzed control-flow graph.
    pub closed spec fn spec_edges(&self) -> Seq<ControlFlowEdge> {
        self.edges@
    }

    /// `d` dominates `b` in the analyzed graph.
    pub open spec fn spec_dominates(&self, d: int, b: int) -> bool {
        dominates_in(self.spec_edges(), self.spec_entry() as int, d, b)
    }

    /// `b` is reachable from the entry in the analyzed graph.
    pub open spec fn spec_reachable(&self, b: int) -> bool {
        reaches(edge_step(self.spec_edges()), self.spec_entry() as int, b)
    }

    /// The immediate dominator recorded for block `b`.
    pub closed spec fn spec_idom(&self, b: int) -> Option<usize> {
        self.immediate_dominators@[b]
    }

    /// The block `k` steps up the immediate-dominator chain from reachable
    /// block `b`: `b` itself for `k == 0`, and `None` once the chain has
    /// passed the entry.
    pub open spec fn chain_at(&self, b: int, k: nat) -> Option<int>
        decreases k,
    {
        if k == 0 {
            if self.spec_reachable(b) {
                Some(b)
            } else {
                None
            }
        } else {
            match self.chain_at(b, (k - 1) as nat) {
                Some(x) => if x == self.spec_entry() as int {
                    None
                } else {
                    match self.spec_idom(x) {
                        Some(i) => Some(i as int),
                        None => None,
                    }
                },
                None => None,
            }
        }
    }

    /// Every block on the chain of `b` lies in the region and dominates `b`.
    proof fn lemma_chain_sound(&self, b: int, k: nat)
        requires
            self.inv(),
        ensures
            self.chain_at(b, k) matches Some(x) ==> 0 <= x < self.immediate_dominators@.len() && dominates_in(
                self.edges@,
                self.entry as int,
                x,
                b,
            ),
        decreases k,
    {
        let edges = self.edges@;
        let ent = self.entry as int;
        let n = self.immediate_dominators@.len() as int;
        if k == 0 {
            if self.spec_reachable(b) {
                lemma_dominates_self(edges, ent, b);
                lemma_reachable_bounded(edges, ent, n, b);
            }
        } else {
            self.lemma_chain_sound(b, (k - 1) as nat);
            if let Some(x) = self.chain_at(b, (k - 1) as nat) {
                if x != ent {
                    lemma_dominator_reachable(edges, ent, x, b);
                    if let Some(i) = self.immediate_dominators@[x] {
                        assert(is_immediate_dominator_in(edges, ent, i as int, x));
                        lemma_dominates_transitive(edges, ent, i as int, x, b);
                    }
                }
            }
        }
    }

    /// The chain of `b` continues with the chain of its immediate dominator.
    proof fn lemma_chain_shift(&self, b: int, i: usize, k: nat)
        requires
            self.inv(),
            0 <= b < self.immediate_dominators@.len(),
            self.spec_reachable(b),
            b != self.entry as int,
            self.immediate_dominators@[b] == Some(i),
        ensures
            self.chain_at(b, k + 1) == self.chain_at(i as int, k),
        decreases k,
    {
        if k == 0 {
            assert(is_immediate_dominator_in(self.edges@, self.entry as int, i as int, b));
            lemma_dominator_reachable(self.edges@, self.entry as int, i as int, b);
        } else {
            self.lemma_chain_shift(b, i, (k - 1) as nat);
        }
    }

    /// A block that another block strictly dominates is a reachable block of
    /// the region other than the entry, with an immediate dominator.
    #[verifier::spinoff_prover]
    proof fn lemma_chain_step(&self, a: int, b: int)
        requires
            self.inv(),
            dominates_in(self.edges@, self.entry as int, a, b),
            a != b,
        ensures
            0 <= b < self.immediate_dominators@.len(),
            self.spec_reachable(b),
            b != self.entry as int,
            self.immediate_dominators@[b] is Some,
            is_immediate_dominator_in(self.edges@, self.entry as int, self.immediate_dominators@[b]->Some_0 as int, b),
    {
        let edges = self.edges@;
        let ent = self.entry as int;
        let n = self.immediate_dominators@.len() as int;
        lemma_dominator_reachable(edges, ent, a, b);
        lemma_reachable_bounded(edges, ent, n, b);
        if b == ent {
            lemma_only_entry_dominates_entry(edges, ent, a);
        }
    }

    /// Every dominator of `b`, which stands at position `kb` of the reverse
    /// postorder, lies on its chain.
    proof fn lemma_chain_complete(&self, a: int, b: int, kb: int)
        requires
            self.inv(),
            dominates_in(self.edges@, self.entry as int, a, b),
            0 <= kb < self.rpo@.len(),
            self.rpo@[kb] == b,
        ensures
            exists|k: nat| self.chain_at(b, k) == Some(a),
        decreases kb,
    {
        lemma_dominator_reachable(self.edges@, self.entry as int, a, b);
        assert(self.chain_at(b, 0) == Some(b));
        if a != b {
            self.lemma_chain_step(a, b);
            let i = self.immediate_dominators@[b]->Some_0;
            assert(i < self.immediate_dominators@.len());
            crate::dominance::lemma_dominates_immediate_dominator(self.edges@, self.entry as int, i as int, b, a);
            lemma_dominator_reachable(self.edges@, self.entry as int, i as int, b);
            assert(self.rpo@.contains(i));
            let ki = choose|k: int| 0 <= k < self.rpo@.len() && self.rpo@[k] == i as int;
            assert(ki < kb) by {
                lemma_strict_dominator_precedes(self.edges@, self.entry as int, self.rpo@, i as int, b, ki, kb);
            }
            self.lemma_chain_complete(a, i as int, ki);
            let k = choose|k: nat| self.chain_at(i as int, k) == Some(a);
            self.lemma_chain_shift(b, i, k);
            assert(self.chain_at(b, k + 1) == Some(a));
        }
    }

    #[verifier::type_invariant]
    closed spec fn inv(self) -> bool {
        let n = self.immediate_dominators@.len();
        let edges = self.edges@;
        let entry = self.entry as int;
        let rpo = self.rpo@;
        &&& self.children@.len() == n
        &&& self.entry < n
        &&& forall|e: int| #![trigger edges[e]] 0 <= e < edges.len() ==> edges[e].source < n && edges[e].target < n
        &&& rpo_facts(edges, entry, rpo)
        &&& forall|k: int| 0 <= k < rpo.len() ==> #[trigger] rpo[k] < n
        &&& forall|b: int| 0 <= b < n ==> (#[trigger] self.immediate_dominators@[b] is Some <==> reaches(edge_step(edges), entry, b))
        &&& forall|b: int| 0 <= b < n && #[trigger] reaches(edge_step(edges), entry, b) ==> rpo.contains(b as usize)
        &&& self.immediate_dominators@[entry] == Some(self.entry)
        &&& forall|b: int|
            0 <= b < n && b != entry && #[trigger] self.immediate_dominators@[b] is Some ==> self.immediate_dominators@[b]->Some_0
                < n && is_immediate_dominator_in(edges, entry, self.immediate_dominators@[b]->Some_0 as int, b)
        &&& forall|x: int, c: int|
            0 <= x < n && 0 <= c < n ==> (#[trigger] self.children@[x]@.contains(c as usize) <==> (c != entry
                && #[trigger] self.immediate_dominators@[c] == Some(x as usize)))
        &&& forall|x: int| 0 <= x < n ==> (#[trigger] self.children@[x]@).no_duplicates()
        &&& forall|x: int, q: int| 0 <= x < n && 0 <= q < self.children@[x]@.len() ==> #[trigger] self.children@[x]@[q] < n
    }


    /// Position of `x` in the reverse postorder of the analyzed graph.
    closed spec fn rank(self, x: int) -> nat {
        (choose|k: int| 0 <= k < self.rpo@.len() && self.rpo@[k] == x) as nat
    }

    /// Returns the region entry block.
    pub fn entry(&self) -> (r: usize)
        ensures
            r == self.spec_entry(),
    {
        self.entry
    }

    /// Returns the immediate dominator of a reachable non-entry block.
    ///
    /// The entry has no immediate dominator.
    pub fn immediate_dominator(&self, block: usize) -> (r: Option<usize>)
        ensures
            (block == self.spec_entry() || !self.spec_reachable(block as int)) ==> r is None,
            block != self.spec_entry() && self.spec_reachable(block as int) ==> (r matches Some(i)
                && is_immediate_dominator_in(self.spec_edges(), self.spec_entry() as int, i as int, block as int)),
            block != self.spec_entry() && self.spec_reachable(block as int) ==> r == self.spec_idom(block as int),
    {
        proof {
            use_type_invariant(self);
            if self.spec_reachable(block as int) {
                lemma_reachable_bounded(self.edges@, self.entry as int, self.immediate_dominators@.len() as int, block as int);
            }
        }
        if block == self.entry || block >= self.immediate_dominators.len() {
            return None;
        }
        self.immediate_dominators[block]
    }

    /// Returns the blocks immediately dominated by `block`.
    pub fn children(&self, block: usize) -> (r: Option<&[usize]>)
        ensures
            !self.spec_reachable(block as int) ==> r is None,
            self.spec_reachable(block as int) ==> (r matches Some(list) && list@.no_duplicates() && forall|c: usize|
                (#[trigger] list@.contains(c) <==> (c != self.spec_entry() && self.spec_reachable(c as int)
                    && is_immediate_dominator_in(
                    self.spec_edges(),
                    self.spec_entry() as int,
                    block as int,
                    c as int,
                )))),
    {
        proof {
            use_type_invariant(self);
            if self.spec_reachable(block as int) {
                lemma_reachable_bounded(self.edges@, self.entry as int, self.immediate_dominators@.len() as int, block as int);
            }
        }
        if block >= self.immediate_dominators.len() || self.immediate_dominators[block].is_none() {
            return None;
        }
        let list = self.children[block].as_slice();
        proof {
            let n = self.immediate_dominators@.len() as int;
            let edges = self.edges@;
            let ent = self.entry as int;
            assert forall|c: usize|
                (#[trigger] list@.contains(c) <==> (c != ent && self.spec_reachable(c as int)
                    && is_immediate_dominator_in(edges, ent, block as int, c as int))) by {
                if list@.contains(c) {
                    let q = choose|q: int| 0 <= q < list@.len() && list@[q] == c;
                    assert(c < n);
                    assert(self.children@[block as int]@.contains(c));
                    assert(self.children@[block as int]@.contains((c as int) as usize));
                    assert(c as int != ent && self.immediate_dominators@[c as int] == Some(block));
                    assert(self.immediate_dominators@[c as int] is Some);
                    assert(is_immediate_dominator_in(edges, ent, self.immediate_dominators@[c as int]->Some_0 as int, c as int));
                }
                if c != ent && self.spec_reachable(c as int) && is_immediate_dominator_in(edges, ent, block as int, c as int) {
                    lemma_reachable_bounded(edges, ent, n, c as int);
                    assert(self.immediate_dominators@[c as int] is Some);
                    let i = self.immediate_dominators@[c as int]->Some_0;
                    lemma_immediate_dominator_unique(edges, ent, i as int, block as int, c as int);
                    assert(self.children@[block as int]@.contains(c));
                }
            }
        }
        Some(list)
    }

    /// Returns whether `dominator` dominates `block`: whether it lies on the
    /// immediate-dominator chain from `block` up to the entry.
    ///
    /// A reachable block dominates itself. Unreachable blocks are not part of
    /// this dominator tree.
    #[verifier::rlimit(40)]
    pub fn dominates(&self, dominator: usize, block: usize) -> (r: bool)
        ensures
            r == self.spec_dominates(dominator as int, block as int),
            r == exists|k: nat| self.chain_at(block as int, k) == Some(dominator as int),
    {
        proof {
            use_type_invariant(self);
            if exists|k: nat| self.chain_at(block as int, k) == Some(dominator as int) {
                let k = choose|k: nat| self.chain_at(block as int, k) == Some(dominator as int);
                self.lemma_chain_sound(block as int, k);
            }
            if dominates_in(self.edges@, self.entry as int, dominator as int, block as int) {
                lemma_dominator_reachable(self.edges@, self.entry as int, dominator as int, block as int);
                lemma_reachable_bounded(self.edges@, self.entry as int, self.immediate_dominators@.len() as int, block as int);
                assert(self.rpo@.contains(block));
                let kb = choose|k: int| 0 <= k < self.rpo@.len() && self.rpo@[k] == block as int;
                self.lemma_chain_complete(dominator as int, block as int, kb);
            }
        }
        let ghost on_chain = exists|k: nat| self.chain_at(block as int, k) == Some(dominator as int);
        assert(on_chain == dominates_in(self.edges@, self.entry as int, dominator as int, block as int));
        let ghost edges = self.edges@;
        let ghost ent = self.entry as int;
        let ghost n = self.immediate_dominators@.len() as int;
        if dominator >= self.immediate_dominators.len() || block >= self.immediate_dominators.len()
            || self.immediate_dominators[dominator].is_none()
            || self.immediate_dominators[block].is_none() {
            proof {
                if dominates_in(edges, ent, dominator as int, block as int) {
                    lemma_dominator_reachable(edges, ent, dominator as int, block as int);
                    lemma_reachable_bounded(edges, ent, n, dominator as int);
                    lemma_reachable_bounded(edges, ent, n, block as int);
                }
            }
            return false;
        }
        let mut current = block;
        let ghost mut passed: Set<int> = Set::empty();
        proof {
            lemma_dominates_self(edges, ent, block as int);
        }
        loop
            invariant
                self.inv(),
                edges == self.edges@,
                ent == self.entry as int,
                n == self.immediate_dominators@.len(),
                current < n,
                self.immediate_dominators@[current as int] is Some,
                dominates_in(edges, ent, current as int, block as int),
                forall|x: int| #[trigger] dominates_in(edges, ent, x, block as int) ==> passed.contains(x) || dominates_in(edges, ent, x, current as int),
                !passed.contains(dominator as int),
                on_chain == dominates_in(edges, ent, dominator as int, block as int),
                on_chain == exists|k: nat| self.chain_at(block as int, k) == Some(dominator as int),
            decreases self.rank(current as int),
        {
            if current == dominator {
                return true;
            }
            let parent = self.immediate_dominators[current].unwrap();
            if parent == current {
                proof {
                    assert(current as int == ent) by {
                        if current as int != ent {
                            assert(is_immediate_dominator_in(edges, ent, parent as int, current as int));
                        }
                    }
                    if dominates_in(edges, ent, dominator as int, block as int) {
                        lemma_only_entry_dominates_entry(edges, ent, dominator as int);
                    }
                }
                return false;
            }
            proof {
                assert(current as int != ent);
                assert(is_immediate_dominator_in(edges, ent, parent as int, current as int));
                lemma_dominates_transitive(edges, ent, parent as int, current as int, block as int);
                lemma_dominator_reachable(edges, ent, parent as int, block as int);
                assert(self.immediate_dominators@[parent as int] is Some);
                assert forall|x: int| #[trigger] dominates_in(edges, ent, x, block as int) implies passed.insert(current as int).contains(x)
                    || dominates_in(edges, ent, x, parent as int) by {
                    if !passed.contains(x) && x != current as int {
                        assert(strictly_dominates_in(edges, ent, x, current as int));
                    }
                }
                lemma_dominator_reachable(edges, ent, current as int, block as int);
                assert(self.rpo@.contains(current));
                assert(self.rpo@.contains(parent));
                let kc = choose|k: int| 0 <= k < self.rpo@.len() && self.rpo@[k] == current as int;
                let kp = choose|k: int| 0 <= k < self.rpo@.len() && self.rpo@[k] == parent as int;
                lemma_strict_dominator_precedes(edges, ent, self.rpo@, parent as int, current as int, kp, kc);
                passed = passed.insert(current as int);
            }
            current = parent;
        }
    }

    /// Computes dominance over the reachable portion of a reachable CFG.
    pub fn compute(graph: &RegionControlFlowGraph) -> (tree: Self)
        requires
            graph.wf(),
        ensures
            tree.spec_entry() == graph.spec_entry(),
            tree.spec_edges() == graph.spec_edges(),
            tree.spec_block_count() == graph.spec_block_count(),
    {
        let n = graph.blocks().len();
        let entry = graph.entry();
        let rpo = graph.reverse_postorder();
        let ghost edges = graph.spec_edges();
        let ghost step = edge_step(edges);
        let ghost ent = entry as int;
        let count = rpo.len();

        let mut idom: Vec<Option<usize>> = Vec::new();
        let mut b: usize = 0;
        while b < n
            invariant
                graph.wf(),
                n == graph.spec_block_count(),
                entry == graph.spec_entry(),
                edges == graph.spec_edges(),
                b <= n,
                ent == entry as int,
                idom.len() == b,
                forall|c: int| 0 <= c < b ==> (#[trigger] idom@[c] is Some <==> reaches(edge_step(edges), ent, c)),
                forall|c: int| 0 <= c < b && #[trigger] idom@[c] is Some ==> idom@[c]->Some_0 == entry,
            decreases n - b,
        {
            proof {
                assert(graph.spec_reachable(b as int) <==> graph.reaches_block(b as int));
            }
            let ghost old_idom = idom@;
            let reachable = graph.is_reachable(b);
            assert(reachable == reaches(edge_step(edges), ent, b as int));
            if reachable {
                idom.push(Some(entry));
            } else {
                idom.push(None);
            }
            proof {
                assert forall|c: int| 0 <= c < b + 1 implies (#[trigger] idom@[c] is Some <==> reaches(edge_step(edges), ent, c)) by {
                    if c < b {
                        assert(idom@[c] == old_idom[c]);
                    }
                }
                assert forall|c: int| 0 <= c < b + 1 && #[trigger] idom@[c] is Some implies idom@[c]->Some_0 == entry by {
                    if c < b {
                        assert(idom@[c] == old_idom[c]);
                    }
                }
            }
            b = b + 1;
        }

        proof {
            assert(rpo_facts(edges, ent, rpo@));
            assert forall|c: int| 0 <= c < n && c != ent && #[trigger] idom@[c] is Some implies strictly_dominates_in(edges, ent, ent, c) by {
                lemma_entry_dominates(edges, ent, c);
            }
        }

        let mut i: usize = 1;
        while i < count
            invariant
                graph.wf(),
                n == graph.spec_block_count(),
                entry == graph.spec_entry(),
                ent == entry as int,
                edges == graph.spec_edges(),
                count == rpo@.len(),
                rpo@ == graph.spec_rpo(),
                rpo_facts(edges, ent, rpo@),
                1 <= i <= count,
                idom.len() == n,
                forall|c: int| 0 <= c < n ==> (#[trigger] idom@[c] is Some <==> reaches(edge_step(edges), ent, c)),
                idom@[ent] == Some(entry),
                forall|c: int|
                    0 <= c < n && c != ent && #[trigger] idom@[c] is Some ==> exists|k: int|
                        0 <= k < i && rpo@[k] == idom@[c]->Some_0 && strictly_dominates_in(edges, ent, rpo@[k] as int, c)
                            && forall|k2: int|
                            0 <= k2 < i && strictly_dominates_in(edges, ent, #[trigger] rpo@[k2] as int, c)
                                ==> k2 <= k,
            decreases count - i,
        {
            let d = rpo[i];
            proof {
                assert(rpo@[i as int] != rpo@[0]);
            }
            let visited = reach_avoiding(graph, d);
            let ghost before = idom@;
            let mut c: usize = 0;
            while c < n
                invariant
                    graph.wf(),
                    n == graph.spec_block_count(),
                    entry == graph.spec_entry(),
                    ent == entry as int,
                    edges == graph.spec_edges(),
                    count == rpo@.len(),
                    rpo@ == graph.spec_rpo(),
                    rpo_facts(edges, ent, rpo@),
                    1 <= i < count,
                    d == rpo@[i as int],
                    d != entry,
                    c <= n,
                    visited.len() == n,
                    forall|x: int|
                        0 <= x < n ==> (#[trigger] visited@[x] <==> reaches(avoid_step(edges, d as int), ent, x)),
                    idom.len() == n,
                    before.len() == n,
                    forall|x: int| 0 <= x < n ==> (#[trigger] before[x] is Some <==> reaches(edge_step(edges), ent, x)),
                    before[ent] == Some(entry),
                    forall|x: int|
                        0 <= x < n && x != ent && #[trigger] before[x] is Some ==> exists|k: int|
                            0 <= k < i && rpo@[k] == before[x]->Some_0 && strictly_dominates_in(edges, ent, rpo@[k] as int, x)
                                && forall|k2: int|
                                0 <= k2 < i && strictly_dominates_in(edges, ent, #[trigger] rpo@[k2] as int, x)
                                    ==> k2 <= k,
                    forall|x: int| c <= x < n ==> #[trigger] idom@[x] == before[x],
                    forall|x: int| 0 <= x < c ==> (#[trigger] idom@[x] is Some <==> before[x] is Some),
                    forall|x: int|
                        0 <= x < c && x != ent && #[trigger] idom@[x] is Some ==> exists|k: int|
                            0 <= k <= i && rpo@[k] == idom@[x]->Some_0 && strictly_dominates_in(edges, ent, rpo@[k] as int, x)
                                && forall|k2: int|
                                0 <= k2 <= i && strictly_dominates_in(edges, ent, #[trigger] rpo@[k2] as int, x)
                                    ==> k2 <= k,
                    c > ent ==> idom@[ent] == Some(entry),
                decreases n - c,
            {
                proof {
                    assert(graph.spec_reachable(c as int) <==> graph.reaches_block(c as int));
                }
                if graph.is_reachable(c) && c != d && !visited[c] {
                    proof {
                        lemma_dominates_iff_unreachable_avoiding(edges, ent, d as int, c as int);
                        if c as int == ent {
                            lemma_reaches_self(avoid_step(edges, d as int), ent);
                        }
                    }
                    idom.set(c, Some(d));
                    proof {
                        assert(strictly_dominates_in(edges, ent, rpo@[i as int] as int, c as int));
                    }
                } else {
                    proof {
                        if graph.reaches_block(c as int) && c as int != ent {
                            assert(before[c as int] is Some);
                            if c != d {
                                lemma_dominates_iff_unreachable_avoiding(edges, ent, d as int, c as int);
                            }
                            assert(!strictly_dominates_in(edges, ent, rpo@[i as int] as int, c as int));
                            let k = choose|k: int|
                                0 <= k < i && rpo@[k] == before[c as int]->Some_0 && strictly_dominates_in(edges, ent, rpo@[k] as int, c as int)
                                    && forall|k2: int|
                                    0 <= k2 < i && strictly_dominates_in(edges, ent, #[trigger] rpo@[k2] as int, c as int)
                                        ==> k2 <= k;
                            assert forall|k2: int|
                                0 <= k2 <= i && strictly_dominates_in(edges, ent, #[trigger] rpo@[k2] as int, c as int)
                                    implies k2 <= k by {
                                if k2 == i {
                                    assert(false);
                                }
                            }
                        }
                    }
                }
                c = c + 1;
            }
            i = i + 1;
        }

        proof {
            assert forall|c: int|
                0 <= c < n && c != ent && #[trigger] idom@[c] is Some implies idom@[c]->Some_0 < n
                    && is_immediate_dominator_in(edges, ent, idom@[c]->Some_0 as int, c) by {
                let k = choose|k: int|
                    0 <= k < count && rpo@[k] == idom@[c]->Some_0 && strictly_dominates_in(edges, ent, rpo@[k] as int, c)
                        && forall|k2: int|
                        0 <= k2 < count && strictly_dominates_in(edges, ent, #[trigger] rpo@[k2] as int, c)
                            ==> k2 <= k;
                let x = rpo@[k] as int;
                assert(graph.spec_rpo()[k] < n);
                assert forall|dd: int| #[trigger] strictly_dominates_in(edges, ent, dd, c) implies dominates_in(edges, ent, dd, x) by {
                    lemma_dominators_ordered(edges, ent, dd, x, c);
                    if dd == x {
                        lemma_dominates_self(edges, ent, x);
                    } else if dominates_in(edges, ent, x, dd) {
                        let p = choose|p: Seq<int>| #[trigger] crate::paths::is_path_between(step, p, ent, c);
                        assert(p.contains(dd));
                        let m = choose|m: int| 0 <= m < p.len() && p[m] == dd;
                        crate::dominance::lemma_on_path_reachable(edges, ent, p, c, m);
                        assert(0 <= dd < n) by {
                            if dd != ent {
                                assert(graph.reaches_block(dd));
                                let q = choose|q: Seq<int>| #[trigger] crate::paths::is_path_between(step, q, ent, dd);
                                assert(step(q[q.len() - 2], q[q.len() - 1]));
                                let e = choose|e: int| #![trigger edges[e]] 0 <= e < edges.len() && edges[e].source == q[q.len() - 2] && edges[e].target == q[q.len() - 1];
                                assert(edges[e].target < n);
                            }
                        }
                        assert(graph.spec_reachable(dd));
                        assert(rpo@.contains(dd as usize));
                        let kd = choose|kd: int| 0 <= kd < rpo@.len() && rpo@[kd] == dd as usize;
                        lemma_strict_dominator_precedes(edges, ent, rpo@, x, dd, k, kd);
                        assert(strictly_dominates_in(edges, ent, rpo@[kd] as int, c));
                        assert(false);
                    }
                }
            }
        }

        let mut children: Vec<Vec<usize>> = Vec::new();
        let mut x: usize = 0;
        while x < n
            invariant
                x <= n,
                children.len() == x,
                forall|y: int| 0 <= y < x ==> (#[trigger] children@[y])@.len() == 0,
            decreases n - x,
        {
            children.push(Vec::new());
            x = x + 1;
        }

        let mut k: usize = 1;
        while k < count
            invariant
                graph.wf(),
                n == graph.spec_block_count(),
                entry == graph.spec_entry(),
                ent == entry as int,
                edges == graph.spec_edges(),
                count == rpo@.len(),
                rpo@ == graph.spec_rpo(),
                rpo_facts(edges, ent, rpo@),
                1 <= k <= count,
                idom.len() == n,
                children.len() == n,
                forall|c: int| 0 <= c < n ==> (#[trigger] idom@[c] is Some <==> reaches(edge_step(edges), ent, c)),
                idom@[ent] == Some(entry),
                forall|c: int|
                    0 <= c < n && c != ent && #[trigger] idom@[c] is Some ==> idom@[c]->Some_0 < n,
                forall|y: int, c: int|
                    0 <= y < n && 0 <= c < n ==> (#[trigger] children@[y]@.contains(c as usize) <==> (c != ent
                        && #[trigger] idom@[c] == Some(y as usize) && exists|j: int| 1 <= j < k && rpo@[j] == c)),
                forall|y: int| 0 <= y < n ==> (#[trigger] children@[y]@).no_duplicates(),
                forall|y: int, q: int| 0 <= y < n && 0 <= q < children@[y]@.len() ==> #[trigger] children@[y]@[q] < n,
            decreases count - k,
        {
            let block = rpo[k];
            proof {
                assert(graph.spec_rpo()[k as int] < n);
                assert(graph.spec_reachable(block as int));
                assert(rpo@[k as int] != rpo@[0]);
            }
            let parent = idom[block].unwrap();
            let ghost old_children = children@;
            children[parent].push(block);
            proof {
                assert forall|y: int, c: int|
                    0 <= y < n && 0 <= c < n implies (#[trigger] children@[y]@.contains(c as usize) <==> (c != ent
                        && #[trigger] idom@[c] == Some(y as usize) && exists|j: int| 1 <= j < k + 1 && rpo@[j] == c)) by {
                    if y == parent as int {
                        assert(children@[y]@ == old_children[y]@.push(block));
                        if c == block as int {
                            assert(rpo@[k as int] == c);
                            assert(children@[y]@[children@[y]@.len() - 1] == block);
                            assert(children@[y]@.contains(c as usize));
                        } else {
                            if exists|j: int| 1 <= j < k + 1 && rpo@[j] == c {
                                let j = choose|j: int| 1 <= j < k + 1 && rpo@[j] == c;
                                assert(j != k);
                            }
                            if children@[y]@.contains(c as usize) {
                                let q = choose|q: int| 0 <= q < children@[y]@.len() && children@[y]@[q] == c as usize;
                                assert(q < old_children[y]@.len());
                                assert(old_children[y]@[q] == c as usize);
                                assert(old_children[y]@.contains(c as usize));
                            }
                            if old_children[y]@.contains(c as usize) {
                                let q = choose|q: int| 0 <= q < old_children[y]@.len() && old_children[y]@[q] == c as usize;
                                assert(children@[y]@[q] == c as usize);
                            }
                        }
                    } else {
                        assert(children@[y] == old_children[y]);
                        if exists|j: int| 1 <= j < k + 1 && rpo@[j] == c {
                            let j = choose|j: int| 1 <= j < k + 1 && rpo@[j] == c;
                            if j == k {
                                assert(idom@[c] == Some(parent));
                            }
                        }
                    }
                }
                assert forall|y: int, q: int| 0 <= y < n && 0 <= q < children@[y]@.len() implies #[trigger] children@[y]@[q] < n by {
                    if y == parent as int {
                        assert(children@[y]@ == old_children[y]@.push(block));
                        if q < old_children[y]@.len() {
                            assert(children@[y]@[q] == old_children[y]@[q]);
                        }
                    } else {
                        assert(children@[y] == old_children[y]);
                    }
                }
                assert forall|y: int| 0 <= y < n implies (#[trigger] children@[y]@).no_duplicates() by {
                    if y == parent as int {
                        assert(!old_children[y]@.contains(block)) by {
                            if old_children[y]@.contains(block) {
                                let j = choose|j: int| 1 <= j < k && rpo@[j] == block as int;
                                assert(rpo@[j] == rpo@[k as int]);
                            }
                        }
                        assert(children@[y]@ == old_children[y]@.push(block));
                    } else {
                        assert(children@[y] == old_children[y]);
                    }
                }
            }
            k = k + 1;
        }

        proof {
            assert forall|y: int, c: int|
                0 <= y < n && 0 <= c < n implies (#[trigger] children@[y]@.contains(c as usize) <==> (c != ent
                    && #[trigger] idom@[c] == Some(y as usize))) by {
                if c != ent && idom@[c] == Some(y as usize) {
                    assert(graph.spec_reachable(c));
                    assert(rpo@.contains(c as usize));
                    let j = choose|j: int| 0 <= j < rpo@.len() && rpo@[j] == c as usize;
                    assert(j != 0);
                }
            }
            assert forall|c: int| 0 <= c < n && #[trigger] reaches(edge_step(edges), ent, c) implies rpo@.contains(c as usize) by {
                assert(graph.spec_reachable(c));
            }
            assert forall|q: int| 0 <= q < rpo@.len() implies #[trigger] rpo@[q] < n by {
                assert(graph.spec_rpo()[q] < n);
            }
        }

        RegionDominatorTree {
            entry,
            immediate_dominators: idom,
            children,
            edges: Ghost(edges),
            rpo: Ghost(rpo@),
        }
    }
}

} // verus!
