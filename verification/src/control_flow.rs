//! Ordinary control flow within one IR region.
//!
//! Blocks of a region are numbered densely in layout order. A region is
//! described by a [`RegionShape`]: the entry block and, for each block, its
//! terminator (the operation that ends the block and the targets of its
//! successors in successor order).

use vstd::prelude::*;

use crate::paths::is_path_between;
use crate::paths::lemma_closed_set_contains_reachable;
use crate::paths::lemma_reaches_self;
use crate::paths::lemma_reaches_step;
use crate::paths::reaches;

verus! {

/// Identifies one executable edge in a regional CFG: its position in the
/// graph's edge list.
#[derive(Debug, Clone, Copy, PartialEq, Eq, Hash, Structural)]
pub struct ControlFlowEdgeId(pub usize);

/// One terminator successor in a regional CFG.
///
/// The successor index is retained because different successors may target the
/// same block while carrying different arguments.
#[derive(Debug, Clone, Copy, PartialEq, Eq, Hash, Structural)]
pub struct ControlFlowEdge {
    pub source: usize,
    pub target: usize,
    pub terminator: u32,
    pub successor_index: usize,
}

impl ControlFlowEdge {
    /// Returns the block transferring control.
    pub fn source(self) -> (r: usize)
        ensures
            r == self.source,
    {
        self.source
    }

    /// Returns the block receiving control.
    pub fn target(self) -> (r: usize)
        ensures
            r == self.target,
    {
        self.target
    }

    /// Returns the terminator owning this successor.
    pub fn terminator(self) -> (r: u32)
        ensures
            r == self.terminator,
    {
        self.terminator
    }

    /// Returns this edge's position in the terminator's successor list.
    pub fn successor_index(self) -> (r: usize)
        ensures
            r == self.successor_index,
    {
        self.successor_index
    }
}

/// The terminator of one block: its operation and the target block of each
/// successor, in successor order.
pub struct TerminatorShape {
    pub operation: u32,
    pub successors: Vec<usize>,
}

/// The blocks of one region, numbered `0..terminators.len()` in layout order.
pub struct RegionShape {
    pub region: u32,
    pub entry: usize,
    pub terminators: Vec<Option<TerminatorShape>>,
}

/// The edges contributed by block `b`, in successor order.
pub open spec fn shape_block_edges(shape: &RegionShape, b: int) -> Seq<ControlFlowEdge> {
    match shape.terminators@[b] {
        None => Seq::empty(),
        Some(t) => Seq::new(
            t.successors@.len(),
            |i: int|
                ControlFlowEdge {
                    source: b as usize,
                    target: t.successors@[i],
                    terminator: t.operation,
                    successor_index: i as usize,
                },
        ),
    }
}

/// The edges of blocks `0..k`, block by block in layout order.
pub open spec fn shape_edges(shape: &RegionShape, k: int) -> Seq<ControlFlowEdge>
    decreases k,
{
    if k <= 0 {
        Seq::empty()
    } else {
        shape_edges(shape, k - 1) + shape_block_edges(shape, k - 1)
    }
}

/// The entry and every successor target are blocks of the region.
pub open spec fn shape_valid(shape: &RegionShape) -> bool {
    &&& shape.entry < shape.terminators.len()
    &&& forall|b: int, i: int|
        #![trigger shape.terminators@[b], shape.terminators@[b]->Some_0.successors@[i]]
        0 <= b < shape.terminators.len() && shape.terminators@[b] is Some && 0 <= i
            < shape.terminators@[b]->Some_0.successors@.len()
            ==> shape.terminators@[b]->Some_0.successors@[i] < shape.terminators.len()
}

/// Some edge of `edges` leaves `u` and enters `v`.
pub open spec fn edges_have(edges: Seq<ControlFlowEdge>, u: int, v: int) -> bool {
    exists|e: int|
        #![trigger edges[e]]
        0 <= e < edges.len() && edges[e].source == u && edges[e].target == v
}

/// The edge relation of `edges`.
pub open spec fn edge_step(edges: Seq<ControlFlowEdge>) -> spec_fn(int, int) -> bool {
    |u: int, v: int| edges_have(edges, u, v)
}

/// `ids` lists, in strictly increasing order, exactly the edge IDs below
/// `edge_count` that satisfy `member`.
pub open spec fn ids_exact(
    ids: Seq<ControlFlowEdgeId>,
    edge_count: int,
    member: spec_fn(int) -> bool,
) -> bool {
    &&& forall|i: int, j: int| 0 <= i < j < ids.len() ==> ids[i].0 < ids[j].0
    &&& forall|i: int| 0 <= i < ids.len() ==> 0 <= #[trigger] ids[i].0 < edge_count && member(ids[i].0 as int)
    &&& forall|e: int|
        0 <= e < edge_count && #[trigger] member(e) ==> exists|i: int| 0 <= i < ids.len() && ids[i].0 == e
}

/// The stack frame for some DFS entry holds `b`.
pub open spec fn on_stack(stack: Seq<(usize, usize)>, b: int) -> bool {
    exists|k: int| 0 <= k < stack.len() && #[trigger] stack[k].0 == b
}

/// Number of `false` entries.
pub open spec fn count_unvisited(s: Seq<bool>) -> nat
    decreases s.len(),
{
    if s.len() == 0 {
        0
    } else {
        count_unvisited(s.drop_last()) + if s.last() {
            0nat
        } else {
            1nat
        }
    }
}

pub proof fn lemma_count_unvisited_mark(s: Seq<bool>, i: int)
    requires
        0 <= i < s.len(),
        !s[i],
    ensures
        count_unvisited(s.update(i, true)) + 1 == count_unvisited(s),
    decreases s.len(),
{
    let t = s.update(i, true);
    if i < s.len() - 1 {
        assert(t.drop_last() =~= s.drop_last().update(i, true));
        lemma_count_unvisited_mark(s.drop_last(), i);
    } else {
        assert(t.drop_last() =~= s.drop_last());
    }
}

/// Remaining DFS work recorded on the stack: unexplored successors plus one
/// per frame.
pub open spec fn stack_measure(successors: Seq<Vec<ControlFlowEdgeId>>, s: Seq<(usize, usize)>) -> nat
    decreases s.len(),
{
    if s.len() == 0 {
        0
    } else {
        let frame = s.last();
        let len = successors[frame.0 as int].len();
        stack_measure(successors, s.drop_last()) + (if frame.1 <= len {
            (len - frame.1) as nat
        } else {
            0nat
        }) + 1
    }
}

/// Ordinary executable control flow within one region.
///
/// This graph deliberately excludes structured ownership. Locally handled
/// exceptions are ordinary explicit terminator successors.
pub struct RegionControlFlowGraph {
    region: u32,
    entry: usize,
    blocks: Vec<usize>,
    edges: Vec<ControlFlowEdge>,
    predecessor_edges: Vec<Vec<ControlFlowEdgeId>>,
    successor_edges: Vec<Vec<ControlFlowEdgeId>>,
    reachable: Vec<bool>,
    reverse_postorder: Vec<usize>,
}

impl RegionControlFlowGraph {
    /// The represented region.
    pub closed spec fn spec_region(&self) -> u32 {
        self.region
    }

    /// The region entry block.
    pub closed spec fn spec_entry(&self) -> usize {
        self.entry
    }

    /// The number of blocks in the region.
    pub closed spec fn spec_block_count(&self) -> nat {
        self.blocks@.len()
    }

    /// Blocks in layout order.
    pub closed spec fn spec_blocks(&self) -> Seq<usize> {
        self.blocks@
    }

    /// Edges in construction order.
    pub closed spec fn spec_edges(&self) -> Seq<ControlFlowEdge> {
        self.edges@
    }

    /// IDs of the edges leaving block `b`.
    pub closed spec fn spec_successor_ids(&self, b: int) -> Seq<ControlFlowEdgeId> {
        self.successor_edges@[b]@
    }

    /// IDs of the edges entering block `b`.
    pub closed spec fn spec_predecessor_ids(&self, b: int) -> Seq<ControlFlowEdgeId> {
        self.predecessor_edges@[b]@
    }

    /// Whether block `b` was found reachable.
    pub closed spec fn spec_reachable(&self, b: int) -> bool {
        self.reachable@[b]
    }

    /// Reachable blocks in reverse postorder.
    pub closed spec fn spec_rpo(&self) -> Seq<usize> {
        self.reverse_postorder@
    }

    /// Internal layout: one entry per block in each per-block table.
    pub closed spec fn wf_layout(&self) -> bool {
        &&& self.successor_edges@.len() == self.blocks@.len()
        &&& self.predecessor_edges@.len() == self.blocks@.len()
        &&& self.reachable@.len() == self.blocks@.len()
    }

    /// Some edge leaves `u` and enters `v`.
    pub open spec fn has_edge(&self, u: int, v: int) -> bool {
        edges_have(self.spec_edges(), u, v)
    }

    /// The entry reaches `b` along edges.
    pub open spec fn reaches_block(&self, b: int) -> bool {
        reaches(edge_step(self.spec_edges()), self.spec_entry() as int, b)
    }

    /// Position of a reachable block in reverse postorder.
    pub open spec fn rpo_index(&self, b: int) -> int {
        choose|i: int| 0 <= i < self.spec_rpo().len() && self.spec_rpo()[i] == b
    }

    /// Well-formedness established by [`Self::compute`]: the edge lists and
    /// reachability are exact, and the reachable blocks stand in reverse
    /// postorder: the entry first, every later block entered from an earlier
    /// one, and every edge that leads back to the same or an earlier block
    /// closing a cycle.
    pub open spec fn wf(&self) -> bool {
        let n = self.spec_block_count();
        let edges = self.spec_edges();
        let rpo = self.spec_rpo();
        &&& self.wf_layout()
        &&& self.spec_entry() < n
        &&& forall|i: int| 0 <= i < n ==> #[trigger] self.spec_blocks()[i] == i
        &&& forall|e: int| #![trigger edges[e]] 0 <= e < edges.len() ==> edges[e].source < n && edges[e].target < n
        &&& forall|b: int|
            0 <= b < n ==> ids_exact(
                #[trigger] self.spec_successor_ids(b),
                edges.len() as int,
                |e: int| edges[e].source == b,
            )
        &&& forall|b: int|
            0 <= b < n ==> ids_exact(
                #[trigger] self.spec_predecessor_ids(b),
                edges.len() as int,
                |e: int| edges[e].target == b,
            )
        &&& forall|b: int| 0 <= b < n ==> (#[trigger] self.spec_reachable(b) <==> self.reaches_block(b))
        &&& rpo.no_duplicates()
        &&& rpo.len() > 0
        &&& rpo[0] == self.spec_entry()
        &&& forall|i: int| 0 <= i < rpo.len() ==> #[trigger] rpo[i] < n && self.spec_reachable(rpo[i] as int)
        &&& forall|b: int| 0 <= b < n && #[trigger] self.spec_reachable(b) ==> rpo.contains(b as usize)
        &&& forall|i: int|
            #![trigger rpo[i]]
            0 < i < rpo.len() ==> exists|j: int| 0 <= j < i && self.has_edge(#[trigger] rpo[j] as int, rpo[i] as int)
        &&& forall|i: int, j: int|
            #![trigger rpo[i], rpo[j]]
            0 <= j <= i < rpo.len() && self.has_edge(rpo[i] as int, rpo[j] as int) ==> reaches(
                edge_step(edges),
                rpo[j] as int,
                rpo[i] as int,
            )
    }

    /// Returns the represented region.
    pub fn region(&self) -> (r: u32)
        ensures
            r == self.spec_region(),
    {
        self.region
    }

    /// Returns the region entry block.
    pub fn entry(&self) -> (r: usize)
        ensures
            r == self.spec_entry(),
    {
        self.entry
    }

    /// Returns blocks in deterministic region layout order.
    pub fn blocks(&self) -> (r: &[usize])
        ensures
            r@ == self.spec_blocks(),
            r@.len() == self.spec_block_count(),
    {
        self.blocks.as_slice()
    }

    /// Returns executable edges in deterministic construction order.
    pub fn edges(&self) -> (r: &[ControlFlowEdge])
        ensures
            r@ == self.spec_edges(),
    {
        self.edges.as_slice()
    }

    /// Returns an edge by ID.
    pub fn edge(&self, edge: ControlFlowEdgeId) -> (r: Option<&ControlFlowEdge>)
        ensures
            edge.0 < self.spec_edges().len() ==> r == Some(&self.spec_edges()[edge.0 as int]),
            edge.0 >= self.spec_edges().len() ==> r is None,
    {
        if edge.0 < self.edges.len() {
            Some(&self.edges[edge.0])
        } else {
            None
        }
    }

    /// Returns edges entering a block.
    pub fn predecessor_edges(&self, block: usize) -> (r: Option<&[ControlFlowEdgeId]>)
        requires
            self.wf(),
        ensures
            block < self.spec_block_count() ==> (r matches Some(ids) && ids@ == self.spec_predecessor_ids(
                block as int,
            )),
            block >= self.spec_block_count() ==> r is None,
    {
        if block < self.predecessor_edges.len() {
            Some(self.predecessor_edges[block].as_slice())
        } else {
            None
        }
    }

    /// Returns edges leaving a block.
    pub fn successor_edges(&self, block: usize) -> (r: Option<&[ControlFlowEdgeId]>)
        requires
            self.wf(),
        ensures
            block < self.spec_block_count() ==> (r matches Some(ids) && ids@ == self.spec_successor_ids(
                block as int,
            )),
            block >= self.spec_block_count() ==> r is None,
    {
        if block < self.successor_edges.len() {
            Some(self.successor_edges[block].as_slice())
        } else {
            None
        }
    }

    /// Returns whether the entry block can reach this block.
    pub fn is_reachable(&self, block: usize) -> (r: bool)
        requires
            self.wf(),
        ensures
            r == (block < self.spec_block_count() && self.reaches_block(block as int)),
    {
        proof {
            if block < self.reachable.len() {
                assert(self.spec_reachable(block as int) == self.reachable@[block as int]);
            }
        }
        block < self.reachable.len() && self.reachable[block]
    }

    /// Returns reachable blocks in reverse postorder.
    pub fn reverse_postorder(&self) -> (r: &[usize])
        ensures
            r@ == self.spec_rpo(),
    {
        self.reverse_postorder.as_slice()
    }

    /// Returns blocks not reachable from the region entry, in layout order.
    pub fn unreachable_blocks(&self) -> (r: Vec<usize>)
        requires
            self.wf(),
        ensures
            forall|i: int, j: int| 0 <= i < j < r.len() ==> r[i] < r[j],
            forall|i: int| 0 <= i < r.len() ==> #[trigger] r[i] < self.spec_block_count() && !self.reaches_block(r[i] as int),
            forall|b: int|
                0 <= b < self.spec_block_count() && !self.reaches_block(b) ==> #[trigger] r@.contains(b as usize),
    {
        let mut result: Vec<usize> = Vec::new();
        let n = self.blocks.len();
        let mut b: usize = 0;
        while b < n
            invariant
                self.wf(),
                b <= n,
                n == self.spec_block_count(),
                forall|i: int, j: int| 0 <= i < j < result.len() ==> result[i] < result[j],
                forall|i: int| 0 <= i < result.len() ==> #[trigger] result[i] < b && !self.reaches_block(result[i] as int),
                forall|c: int| 0 <= c < b && !self.reaches_block(c) ==> #[trigger] result@.contains(c as usize),
            decreases n - b,
        {
            let block = self.blocks[b];
            assert(self.spec_blocks()[b as int] == b);
            if !self.reachable[block] {
                let ghost old_res = result@;
                result.push(block);
                proof {
                    assert(!self.spec_reachable(b as int));
                    assert(result@[result.len() - 1] == b);
                    assert forall|c: int| 0 <= c < b + 1 && !self.reaches_block(c) implies #[trigger] result@.contains(c as usize) by {
                        if c < b {
                            assert(old_res.contains(c as usize));
                            let k = choose|k: int| 0 <= k < old_res.len() && old_res[k] == c as usize;
                            assert(result@[k] == old_res[k]);
                        }
                    }
                }
            } else {
                proof {
                    assert(self.spec_reachable(b as int));
                }
            }
            b = b + 1;
        }
        result
    }

    /// Computes ordinary control flow for one region.
    pub fn compute(shape: &RegionShape) -> (graph: Self)
        requires
            shape_valid(shape),
        ensures
            graph.wf(),
            graph.spec_region() == shape.region,
            graph.spec_entry() == shape.entry,
            graph.spec_block_count() == shape.terminators.len(),
            graph.spec_edges() == shape_edges(shape, shape.terminators.len() as int),
    {
        let n = shape.terminators.len();
        let entry = shape.entry;
        let mut blocks: Vec<usize> = Vec::new();
        let mut edges: Vec<ControlFlowEdge> = Vec::new();
        let mut predecessor_edges: Vec<Vec<ControlFlowEdgeId>> = Vec::new();
        let mut successor_edges: Vec<Vec<ControlFlowEdgeId>> = Vec::new();

        let mut b: usize = 0;
        while b < n
            invariant
                b <= n,
                n == shape.terminators.len(),
                blocks.len() == b,
                predecessor_edges.len() == b,
                forall|i: int| 0 <= i < b ==> #[trigger] blocks[i] == i,
                forall|i: int| 0 <= i < b ==> (#[trigger] predecessor_edges[i])@.len() == 0,
            decreases n - b,
        {
            blocks.push(b);
            predecessor_edges.push(Vec::new());
            b = b + 1;
        }

        let mut source: usize = 0;
        while source < n
            invariant
                source <= n,
                n == shape.terminators.len(),
                shape_valid(shape),
                blocks.len() == n,
                predecessor_edges.len() == n,
                successor_edges.len() == source,
                edges@ == shape_edges(shape, source as int),
                forall|e: int| 0 <= e < edges.len() ==> #[trigger] edges[e].source < source && edges[e].target < n,
                forall|v: int|
                    0 <= v < source ==> ids_exact(
                        #[trigger] successor_edges@[v]@,
                        edges.len() as int,
                        |e: int| edges@[e].source == v,
                    ),
                forall|v: int|
                    0 <= v < n ==> ids_exact(
                        #[trigger] predecessor_edges@[v]@,
                        edges.len() as int,
                        |e: int| edges@[e].target == v,
                    ),
            decreases n - source,
        {
            let ghost start = edges.len();
            let mut outgoing: Vec<ControlFlowEdgeId> = Vec::new();
            match &shape.terminators[source] {
                None => {},
                Some(terminator) => {
                    let count = terminator.successors.len();
                    let mut successor_index: usize = 0;
                    while successor_index < count
                        invariant
                            successor_index <= count,
                            count == terminator.successors.len(),
                            shape.terminators@[source as int] == Some(*terminator),
                            source < n,
                            n == shape.terminators.len(),
                            shape_valid(shape),
                            predecessor_edges.len() == n,
                            start == shape_edges(shape, source as int).len(),
                            edges@ == shape_edges(shape, source as int) + shape_block_edges(
                                shape,
                                source as int,
                            ).take(successor_index as int),
                            forall|e: int|
                                0 <= e < edges.len() ==> #[trigger] edges[e].source <= source
                                    && edges[e].target < n,
                            forall|e: int|
                                0 <= e < start ==> #[trigger] edges[e].source < source,
                            forall|e: int|
                                start <= e < edges.len() ==> #[trigger] edges[e].source == source,
                            ids_exact(outgoing@, edges.len() as int, |e: int| edges@[e].source == source),
                            forall|v: int|
                                0 <= v < source ==> ids_exact(
                                    #[trigger] successor_edges@[v]@,
                                    edges.len() as int,
                                    |e: int| edges@[e].source == v,
                                ),
                            forall|v: int|
                                0 <= v < n ==> ids_exact(
                                    #[trigger] predecessor_edges@[v]@,
                                    edges.len() as int,
                                    |e: int| edges@[e].target == v,
                                ),
                        decreases count - successor_index,
                    {
                        let target = terminator.successors[successor_index];
                        assert(shape.terminators@[source as int]->Some_0.successors@[successor_index as int]
                            == target);
                        let id = ControlFlowEdgeId(edges.len());
                        let ghost old_edges = edges@;
                        let ghost old_preds = predecessor_edges@;
                        let ghost old_outgoing = outgoing@;
                        let edge = ControlFlowEdge {
                            source,
                            target,
                            terminator: terminator.operation,
                            successor_index,
                        };
                        edges.push(edge);
                        outgoing.push(id);
                        predecessor_edges[target].push(id);
                        proof {
                            let block = shape_block_edges(shape, source as int);
                            assert(block[successor_index as int] == edge);
                            assert(block.take(successor_index as int + 1) =~= block.take(
                                successor_index as int,
                            ).push(edge));
                            assert(edges@ =~= shape_edges(shape, source as int) + block.take(
                                successor_index as int + 1,
                            ));
                            assert forall|v: int|
                                0 <= v < source implies ids_exact(
                                    #[trigger] successor_edges@[v]@,
                                    edges.len() as int,
                                    |e: int| edges@[e].source == v,
                                ) by {
                                assert(ids_exact(
                                    successor_edges@[v]@,
                                    old_edges.len() as int,
                                    |e: int| old_edges[e].source == v,
                                ));
                                assert forall|e: int|
                                    0 <= e < edges.len() && #[trigger] edges@[e].source == v implies exists|
                                        i: int,
                                    |
                                        0 <= i < successor_edges@[v]@.len()
                                            && successor_edges@[v]@[i].0 == e by {
                                    if e < old_edges.len() {
                                        assert(old_edges[e] == edges@[e]);
                                        assert((|e: int| old_edges[e].source == v)(e));
                                    } else {
                                        assert(edges@[e] == edge);
                                    }
                                }
                                assert forall|i: int|
                                    0 <= i < successor_edges@[v]@.len() implies 0 <= #[trigger] successor_edges@[v]@[i].0
                                        < edges.len() && edges@[successor_edges@[v]@[i].0 as int].source == v by {
                                    assert(old_edges[successor_edges@[v]@[i].0 as int]
                                        == edges@[successor_edges@[v]@[i].0 as int]);
                                }
                            }
                            assert(ids_exact(outgoing@, edges.len() as int, |e: int| edges@[e].source == source)) by {
                                assert forall|i: int|
                                    0 <= i < outgoing@.len() implies 0 <= #[trigger] outgoing@[i].0
                                        < edges.len() && edges@[outgoing@[i].0 as int].source == source by {
                                    if i < old_outgoing.len() {
                                        assert(old_edges[outgoing@[i].0 as int]
                                            == edges@[outgoing@[i].0 as int]);
                                    }
                                }
                                assert forall|e: int|
                                    0 <= e < edges.len() && #[trigger] edges@[e].source == source implies exists|
                                        i: int,
                                    | 0 <= i < outgoing@.len() && outgoing@[i].0 == e by {
                                    if e < old_edges.len() {
                                        assert(old_edges[e] == edges@[e]);
                                        assert((|e: int| old_edges[e].source == source)(e));
                                        let i = choose|i: int|
                                            0 <= i < old_outgoing.len() && old_outgoing[i].0 == e;
                                        assert(outgoing@[i] == old_outgoing[i]);
                                    } else {
                                        assert(outgoing@[old_outgoing.len() as int].0 == e);
                                    }
                                }
                            }
                            assert forall|v: int|
                                0 <= v < n implies ids_exact(
                                    #[trigger] predecessor_edges@[v]@,
                                    edges.len() as int,
                                    |e: int| edges@[e].target == v,
                                ) by {
                                let old_list = old_preds[v]@;
                                let list = predecessor_edges@[v]@;
                                assert(ids_exact(
                                    old_list,
                                    old_edges.len() as int,
                                    |e: int| old_edges[e].target == v,
                                ));
                                if v == target {
                                    assert(list =~= old_list.push(id));
                                } else {
                                    assert(list == old_list);
                                }
                                assert forall|i: int|
                                    0 <= i < list.len() implies 0 <= #[trigger] list[i].0 < edges.len()
                                        && edges@[list[i].0 as int].target == v by {
                                    if i < old_list.len() {
                                        assert(old_edges[list[i].0 as int] == edges@[list[i].0 as int]);
                                    }
                                }
                                assert forall|e: int|
                                    0 <= e < edges.len() && #[trigger] edges@[e].target == v implies exists|
                                        i: int,
                                    | 0 <= i < list.len() && list[i].0 == e by {
                                    if e < old_edges.len() {
                                        assert(old_edges[e] == edges@[e]);
                                        assert((|e: int| old_edges[e].target == v)(e));
                                        let i = choose|i: int|
                                            0 <= i < old_list.len() && old_list[i].0 == e;
                                        assert(list[i] == old_list[i]);
                                    } else {
                                        assert(list[old_list.len() as int].0 == e);
                                    }
                                }
                            }
                        }
                        successor_index = successor_index + 1;
                    }
                    proof {
                        assert(shape_block_edges(shape, source as int).take(count as int)
                            =~= shape_block_edges(shape, source as int));
                    }
                },
            }
            proof {
                if shape.terminators@[source as int] is None {
                    assert(shape_block_edges(shape, source as int) =~= Seq::<ControlFlowEdge>::empty());
                    assert(edges@ =~= shape_edges(shape, source as int) + shape_block_edges(
                        shape,
                        source as int,
                    ));
                }
            }
            proof {
                assert forall|e: int| 0 <= e < edges.len() implies #[trigger] edges[e].source < source + 1 && edges[e].target < n by {
                    if e >= start {
                        assert(edges@ == shape_edges(shape, source as int) + shape_block_edges(shape, source as int));
                    }
                }
            }
            successor_edges.push(outgoing);
            source = source + 1;
        }

        let (reachable, reverse_postorder) = compute_reverse_postorder(entry, &edges, &successor_edges);

        RegionControlFlowGraph {
            region: shape.region,
            entry,
            blocks,
            edges,
            predecessor_edges,
            successor_edges,
            reachable,
            reverse_postorder,
        }
    }
}

fn compute_reverse_postorder(
    entry: usize,
    edges: &Vec<ControlFlowEdge>,
    successors: &Vec<Vec<ControlFlowEdgeId>>,
) -> (result: (Vec<bool>, Vec<usize>))
    requires
        entry < successors.len(),
        forall|e: int|
            0 <= e < edges.len() ==> #[trigger] edges[e].source < successors.len() && edges[e].target
                < successors.len(),
        forall|b: int|
            0 <= b < successors.len() ==> ids_exact(
                #[trigger] successors@[b]@,
                edges.len() as int,
                |e: int| edges@[e].source == b,
            ),
    ensures
        result.0.len() == successors.len(),
        forall|b: int|
            0 <= b < successors.len() ==> (#[trigger] result.0@[b] <==> reaches(
                edge_step(edges@),
                entry as int,
                b,
            )),
        result.1@.no_duplicates(),
        result.1.len() > 0,
        result.1@[0] == entry,
        forall|i: int| 0 <= i < result.1.len() ==> #[trigger] result.1@[i] < successors.len() && result.0@[result.1@[i] as int],
        forall|b: int| 0 <= b < successors.len() && #[trigger] result.0@[b] ==> result.1@.contains(b as usize),
        forall|i: int|
            #![trigger result.1@[i]]
            0 < i < result.1.len() ==> exists|j: int|
                0 <= j < i && edges_have(edges@, #[trigger] result.1@[j] as int, result.1@[i] as int),
        forall|i: int, j: int|
            #![trigger result.1@[i], result.1@[j]]
            0 <= j <= i < result.1.len() && edges_have(edges@, result.1@[i] as int, result.1@[j] as int) ==> reaches(
                edge_step(edges@),
                result.1@[j] as int,
                result.1@[i] as int,
            ),
{
    let n = successors.len();
    let ghost step = edge_step(edges@);
    let mut visited: Vec<bool> = Vec::new();
    let mut k: usize = 0;
    while k < n
        invariant
            k <= n,
            visited.len() == k,
            forall|i: int| 0 <= i < k ==> !(#[trigger] visited@[i]),
        decreases n - k,
    {
        visited.push(false);
        k = k + 1;
    }

    let mut postorder: Vec<usize> = Vec::new();
    let mut stack: Vec<(usize, usize)> = Vec::new();
    visited.set(entry, true);
    stack.push((entry, 0));
    let ghost mut parent: Map<int, int> = Map::empty();
    proof {
        lemma_reaches_self(step, entry as int);
        assert(stack@[0].0 == entry);
    }

    while stack.len() > 0
        invariant
            n == successors.len(),
            step == edge_step(edges@),
            visited.len() == n,
            entry < n,
            forall|e: int|
                0 <= e < edges.len() ==> #[trigger] edges[e].source < n && edges[e].target < n,
            forall|b: int|
                0 <= b < n ==> ids_exact(
                    #[trigger] successors@[b]@,
                    edges.len() as int,
                    |e: int| edges@[e].source == b,
                ),
            forall|k: int|
                0 <= k < stack.len() ==> #[trigger] stack@[k].0 < n && stack@[k].1
                    <= successors@[stack@[k].0 as int].len(),
            forall|k1: int, k2: int|
                0 <= k1 < k2 < stack.len() ==> #[trigger] stack@[k1].0 != #[trigger] stack@[k2].0,
            postorder@.no_duplicates(),
            forall|j: int| 0 <= j < postorder.len() ==> #[trigger] postorder@[j] < n,
            forall|j: int, k: int|
                0 <= j < postorder.len() && 0 <= k < stack.len() ==> #[trigger] postorder@[j]
                    != #[trigger] stack@[k].0,
            forall|b: int|
                0 <= b < n ==> (#[trigger] visited@[b] <==> (on_stack(stack@, b)
                    || postorder@.contains(b as usize))),
            forall|b: int| 0 <= b < n && #[trigger] visited@[b] ==> reaches(step, entry as int, b),
            forall|j: int, i: int|
                0 <= j < postorder.len() && 0 <= i < successors@[postorder@[j] as int]@.len()
                    ==> visited@[edges@[(#[trigger] successors@[postorder@[j] as int]@[i]).0 as int].target as int],
            forall|k: int, i: int|
                0 <= k < stack.len() && 0 <= i < stack@[k].1 ==> visited@[edges@[(
                #[trigger] successors@[stack@[k].0 as int]@[i]).0 as int].target as int],
            stack.len() > 0 ==> stack@[0].0 == entry,
            stack.len() == 0 ==> postorder.len() > 0 && postorder@.last() == entry,
            forall|b: int|
                0 <= b < n && #[trigger] visited@[b] && b != entry ==> parent.dom().contains(b)
                    && 0 <= parent[b] < n && edges_have(edges@, parent[b], b) && visited@[parent[b]],
            forall|k: int| 0 < k < stack.len() ==> parent[#[trigger] stack@[k].0 as int] == stack@[k - 1].0,
            forall|j: int|
                0 <= j < postorder.len() && #[trigger] postorder@[j] != entry ==> (on_stack(
                    stack@,
                    parent[postorder@[j] as int],
                ) || exists|j2: int|
                    j < j2 < postorder.len() && postorder@[j2] == parent[postorder@[j] as int]),
            forall|k1: int, k2: int|
                #![trigger stack@[k1], stack@[k2]]
                0 <= k1 < k2 < stack.len() ==> reaches(step, stack@[k1].0 as int, stack@[k2].0 as int),
            forall|j: int, i: int|
                0 <= j < postorder.len() && 0 <= i < successors@[postorder@[j] as int]@.len() ==> {
                    let v = edges@[(#[trigger] successors@[postorder@[j] as int]@[i]).0 as int].target;
                    (exists|j2: int| 0 <= j2 < j && postorder@[j2] == v) || reaches(step, v as int, postorder@[j] as int)
                },
        decreases count_unvisited(visited@), stack_measure(successors@, stack@),
    {
        let top = stack.len() - 1;
        let (block, next) = stack[top];
        let ghost old_stack = stack@;
        let ghost old_post = postorder@;
        let ghost old_visited = visited@;
        if next >= successors[block].len() {
            stack.pop();
            postorder.push(block);
            proof {
                assert(stack@ =~= old_stack.drop_last());
                assert(old_stack.drop_last() == stack@);
                assert forall|b: int|
                    0 <= b < n implies (#[trigger] visited@[b] <==> (on_stack(stack@, b)
                        || postorder@.contains(b as usize))) by {
                    if on_stack(old_stack, b) {
                        let k = choose|k: int| 0 <= k < old_stack.len() && #[trigger] old_stack[k].0 == b;
                        if k < top {
                            assert(stack@[k] == old_stack[k]);
                        } else {
                            assert(postorder@[old_post.len() as int] == b);
                        }
                    }
                    if old_post.contains(b as usize) {
                        let j = choose|j: int| 0 <= j < old_post.len() && old_post[j] == b as usize;
                        assert(postorder@[j] == old_post[j]);
                    }
                    if on_stack(stack@, b) {
                        let k = choose|k: int| 0 <= k < stack@.len() && #[trigger] stack@[k].0 == b;
                        assert(old_stack[k] == stack@[k]);
                    }
                    if postorder@.contains(b as usize) {
                        let j = choose|j: int| 0 <= j < postorder@.len() && postorder@[j] == b as usize;
                        if j < old_post.len() {
                            assert(old_post[j] == postorder@[j]);
                        } else {
                            assert(old_stack[top as int].0 == b);
                        }
                    }
                }
                assert(postorder@.no_duplicates()) by {
                    assert forall|i: int, j: int|
                        0 <= i < j < postorder@.len() implies postorder@[i] != postorder@[j] by {
                        if j < old_post.len() {
                            assert(old_post[i] == postorder@[i]);
                            assert(old_post[j] == postorder@[j]);
                        } else {
                            assert(old_post[i] == postorder@[i]);
                        }
                    }
                }
                assert forall|j: int, i: int|
                    0 <= j < postorder.len() && 0 <= i < successors@[postorder@[j] as int]@.len()
                        implies visited@[edges@[(#[trigger] successors@[postorder@[j] as int]@[i]).0 as int].target as int] by {
                    if j < old_post.len() {
                        assert(old_post[j] == postorder@[j]);
                    } else {
                        assert(postorder@[j] == old_stack[top as int].0);
                    }
                }
                assert forall|j: int|
                    0 <= j < postorder.len() && #[trigger] postorder@[j] != entry implies (on_stack(
                        stack@,
                        parent[postorder@[j] as int],
                    ) || exists|j2: int|
                        j < j2 < postorder.len() && postorder@[j2] == parent[postorder@[j] as int]) by {
                    if j < old_post.len() {
                        assert(old_post[j] == postorder@[j]);
                        let p = parent[postorder@[j] as int];
                        if on_stack(old_stack, p) {
                            let k = choose|k: int| 0 <= k < old_stack.len() && #[trigger] old_stack[k].0 == p;
                            if k < top {
                                assert(stack@[k] == old_stack[k]);
                            } else {
                                assert(postorder@[old_post.len() as int] == p);
                            }
                        } else {
                            let j2 = choose|j2: int| j < j2 < old_post.len() && old_post[j2] == p;
                            assert(postorder@[j2] == old_post[j2]);
                        }
                    } else {
                        assert(postorder@[j] == block);
                        if top > 0 {
                            assert(parent[old_stack[top as int].0 as int] == old_stack[top - 1].0);
                            assert(stack@[top - 1] == old_stack[top - 1]);
                        } else {
                            assert(block == entry);
                        }
                    }
                }
                if top == 0 {
                    assert(block == entry);
                }
                assert forall|k1: int, k2: int|
                    #![trigger stack@[k1], stack@[k2]]
                    0 <= k1 < k2 < stack.len() implies reaches(step, stack@[k1].0 as int, stack@[k2].0 as int) by {
                    assert(stack@[k1] == old_stack[k1] && stack@[k2] == old_stack[k2]);
                }
                assert forall|j: int, i: int|
                    0 <= j < postorder.len() && 0 <= i < successors@[postorder@[j] as int]@.len() implies {
                        let v = edges@[(#[trigger] successors@[postorder@[j] as int]@[i]).0 as int].target;
                        (exists|j2: int| 0 <= j2 < j && postorder@[j2] == v) || reaches(step, v as int, postorder@[j] as int)
                    } by {
                    let v = edges@[successors@[postorder@[j] as int]@[i].0 as int].target;
                    if j < old_post.len() {
                        assert(old_post[j] == postorder@[j]);
                        if exists|j2: int| 0 <= j2 < j && old_post[j2] == v {
                            let j2 = choose|j2: int| 0 <= j2 < j && old_post[j2] == v;
                            assert(postorder@[j2] == old_post[j2]);
                        }
                    } else {
                        assert(postorder@[j] == block);
                        assert(old_stack[top as int].0 == block);
                        assert(old_visited[v as int]);
                        if old_post.contains(v) {
                            let j2 = choose|j2: int| 0 <= j2 < old_post.len() && old_post[j2] == v;
                            assert(postorder@[j2] == old_post[j2]);
                        } else {
                            assert(on_stack(old_stack, v as int));
                            let k = choose|k: int| 0 <= k < old_stack.len() && #[trigger] old_stack[k].0 == v;
                            if k < top {
                                assert(reaches(step, old_stack[k].0 as int, old_stack[top as int].0 as int));
                            } else {
                                lemma_reaches_self(step, v as int);
                            }
                        }
                    }
                }
                assert(stack_measure(successors@, old_stack) == stack_measure(successors@, stack@) + 1);
            }
        } else {
            stack.set(top, (block, next + 1));
            let edge = successors[block][next];
            let target = edges[edge.0].target;
            proof {
                assert(successors@[block as int]@[next as int] == edge);
                assert(edges_have(edges@, block as int, target as int));
                assert(stack@.drop_last() =~= old_stack.drop_last());
                assert(stack_measure(successors@, old_stack) == stack_measure(successors@, stack@) + 1);
                assert forall|k1: int, k2: int|
                    #![trigger stack@[k1], stack@[k2]]
                    0 <= k1 < k2 < stack.len() implies reaches(step, stack@[k1].0 as int, stack@[k2].0 as int) by {
                    assert(stack@[k1].0 == old_stack[k1].0 && stack@[k2].0 == old_stack[k2].0);
                }
                assert forall|b: int| 0 <= b < n implies on_stack(stack@, b) == on_stack(old_stack, b) by {
                    if on_stack(old_stack, b) {
                        let k = choose|k: int| 0 <= k < old_stack.len() && #[trigger] old_stack[k].0 == b;
                        assert(stack@[k].0 == old_stack[k].0);
                    }
                    if on_stack(stack@, b) {
                        let k = choose|k: int| 0 <= k < stack@.len() && #[trigger] stack@[k].0 == b;
                        assert(stack@[k].0 == old_stack[k].0);
                    }
                }
            }
            proof {
                assert(old_stack[top as int].0 == block);
                assert(on_stack(old_stack, block as int));
                assert(old_visited[block as int]);
            }
            if !visited[target] {
                let ghost mid_stack = stack@;
                visited.set(target, true);
                stack.push((target, 0));
                proof {
                    lemma_count_unvisited_mark(old_visited, target as int);
                    lemma_reaches_step(step, entry as int, block as int, target as int);
                    parent = parent.insert(target as int, block as int);
                    assert(stack@.drop_last() == mid_stack);
                    assert forall|b: int|
                        0 <= b < n implies (#[trigger] visited@[b] <==> (on_stack(stack@, b)
                            || postorder@.contains(b as usize))) by {
                        if on_stack(mid_stack, b) {
                            let k = choose|k: int| 0 <= k < mid_stack.len() && #[trigger] mid_stack[k].0 == b;
                            assert(stack@[k] == mid_stack[k]);
                        }
                        if b == target {
                            assert(stack@[stack@.len() - 1].0 == b);
                        }
                        if on_stack(stack@, b) {
                            let k = choose|k: int| 0 <= k < stack@.len() && #[trigger] stack@[k].0 == b;
                            if k < mid_stack.len() {
                                assert(mid_stack[k] == stack@[k]);
                            }
                        }
                    }
                    assert forall|j: int|
                        0 <= j < postorder.len() && #[trigger] postorder@[j] != entry implies (on_stack(
                            stack@,
                            parent[postorder@[j] as int],
                        ) || exists|j2: int|
                            j < j2 < postorder.len() && postorder@[j2] == parent[postorder@[j] as int]) by {
                        let p = parent[postorder@[j] as int];
                        if on_stack(mid_stack, p) {
                            let k = choose|k: int| 0 <= k < mid_stack.len() && #[trigger] mid_stack[k].0 == p;
                            assert(stack@[k] == mid_stack[k]);
                        }
                    }
                    assert forall|k1: int, k2: int|
                        #![trigger stack@[k1], stack@[k2]]
                        0 <= k1 < k2 < stack.len() implies reaches(step, stack@[k1].0 as int, stack@[k2].0 as int) by {
                        if k2 == stack.len() - 1 {
                            assert(mid_stack[k1] == stack@[k1]);
                            assert(mid_stack[top as int].0 == block);
                            if k1 < top {
                                assert(reaches(step, mid_stack[k1].0 as int, mid_stack[top as int].0 as int));
                            } else {
                                lemma_reaches_self(step, block as int);
                            }
                            lemma_reaches_step(step, stack@[k1].0 as int, block as int, target as int);
                        } else {
                            assert(mid_stack[k1] == stack@[k1]);
                            assert(mid_stack[k2] == stack@[k2]);
                        }
                    }
                    assert forall|k1: int, k2: int|
                        0 <= k1 < k2 < stack.len() implies #[trigger] stack@[k1].0 != #[trigger] stack@[k2].0 by {
                        if k2 == stack.len() - 1 {
                            assert(mid_stack[k1] == stack@[k1]);
                            assert(on_stack(mid_stack, stack@[k1].0 as int));
                        } else {
                            assert(mid_stack[k1] == stack@[k1]);
                            assert(mid_stack[k2] == stack@[k2]);
                        }
                    }
                }
            }
        }
    }

    proof {
        let s = |b: int| 0 <= b < n && visited@[b];
        assert forall|u: int, v: int| #[trigger] step(u, v) && s(u) implies s(v) by {
            let e = choose|e: int|
                0 <= e < edges.len() && edges@[e].source == u && edges@[e].target == v;
            assert(edges_have(edges@, u, v));
            assert(postorder@.contains(u as usize));
            let j = choose|j: int| 0 <= j < postorder@.len() && postorder@[j] == u as usize;
            assert((|e: int| edges@[e].source == u)(e));
            let i = choose|i: int|
                0 <= i < successors@[u]@.len() && successors@[u]@[i].0 == e;
            assert(successors@[postorder@[j] as int]@[i] == successors@[u]@[i]);
        }
        assert forall|b: int| 0 <= b < n && reaches(step, entry as int, b) implies #[trigger] visited@[b] by {
            lemma_closed_set_contains_reachable(step, s, entry as int, b);
        }
    }

    let count = postorder.len();
    let mut reverse_postorder: Vec<usize> = Vec::new();
    let mut i: usize = 0;
    while i < count
        invariant
            i <= count,
            count == postorder.len(),
            reverse_postorder.len() == i,
            forall|k: int| 0 <= k < i ==> #[trigger] reverse_postorder@[k] == postorder@[count - 1 - k],
        decreases count - i,
    {
        reverse_postorder.push(postorder[count - 1 - i]);
        i = i + 1;
    }

    proof {
        let rpo = reverse_postorder@;
        assert(rpo.no_duplicates()) by {
            assert forall|a: int, b: int| 0 <= a < b < rpo.len() implies rpo[a] != rpo[b] by {
                assert(rpo[a] == postorder@[count - 1 - a]);
                assert(rpo[b] == postorder@[count - 1 - b]);
            }
        }
        assert(rpo[0] == entry);
        assert forall|i: int| 0 <= i < rpo.len() implies #[trigger] rpo[i] < n && visited@[rpo[i] as int] by {
            assert(rpo[i] == postorder@[count - 1 - i]);
            assert(postorder@.contains(rpo[i]));
        }
        assert forall|b: int| 0 <= b < n && #[trigger] visited@[b] implies rpo.contains(b as usize) by {
            let j = choose|j: int| 0 <= j < postorder@.len() && postorder@[j] == b as usize;
            assert(rpo[count - 1 - j] == postorder@[j]);
        }
        assert forall|i: int| #![trigger rpo[i]] 0 < i < rpo.len() implies exists|j: int|
            0 <= j < i && edges_have(edges@, #[trigger] rpo[j] as int, rpo[i] as int) by {
            let jp = count - 1 - i;
            assert(rpo[i] == postorder@[jp]);
            assert(postorder@[jp] != entry) by {
                assert(postorder@[count - 1] == entry);
            }
            let p = parent[postorder@[jp] as int];
            assert(!on_stack(stack@, p));
            let j2 = choose|j2: int| jp < j2 < postorder.len() && postorder@[j2] == p;
            assert(rpo[count - 1 - j2] == postorder@[j2]);
            assert(visited@[postorder@[jp] as int]);
            assert(edges_have(edges@, rpo[count - 1 - j2] as int, rpo[i] as int));
        }
        assert forall|i: int, j: int|
            #![trigger rpo[i], rpo[j]]
            0 <= j <= i < rpo.len() && edges_have(edges@, rpo[i] as int, rpo[j] as int) implies reaches(
                step,
                rpo[j] as int,
                rpo[i] as int,
            ) by {
            let ju = count - 1 - i;
            let jv = count - 1 - j;
            assert(rpo[i] == postorder@[ju]);
            assert(rpo[j] == postorder@[jv]);
            let u = rpo[i] as int;
            let v = rpo[j];
            let e = choose|e: int| #![trigger edges@[e]] 0 <= e < edges.len() && edges@[e].source == u && edges@[e].target == v;
            assert((|e: int| edges@[e].source == u)(e));
            let q = choose|q: int| 0 <= q < successors@[u]@.len() && successors@[u]@[q].0 == e;
            assert(successors@[postorder@[ju] as int]@[q] == successors@[u]@[q]);
            if exists|j2: int| 0 <= j2 < ju && postorder@[j2] == v {
                let j2 = choose|j2: int| 0 <= j2 < ju && postorder@[j2] == v;
                assert(postorder@[j2] == postorder@[jv]);
            }
        }
    }

    (visited, reverse_postorder)
}

} // verus!
