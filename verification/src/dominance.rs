//! Dominance over a control-flow edge list: definitions and their theory.
//!
//! A block `d` dominates a reachable block `b` when every walk from the entry
//! to `b` passes through `d`.

use vstd::prelude::*;

use crate::control_flow::edge_step;
use crate::control_flow::edges_have;
use crate::control_flow::ControlFlowEdge;
use crate::paths::is_path;
use crate::paths::is_path_between;
use crate::paths::lemma_path_prefix;
use crate::paths::lemma_path_splice;
use crate::paths::reaches;

verus! {

/// Every walk from `entry` to the reachable block `b` passes through `d`.
pub open spec fn dominates_in(edges: Seq<ControlFlowEdge>, entry: int, d: int, b: int) -> bool {
    &&& reaches(edge_step(edges), entry, b)
    &&& forall|p: Seq<int>| #[trigger] is_path_between(edge_step(edges), p, entry, b) ==> p.contains(d)
}

/// `d` dominates `b` and is a different block.
pub open spec fn strictly_dominates_in(edges: Seq<ControlFlowEdge>, entry: int, d: int, b: int) -> bool {
    d != b && dominates_in(edges, entry, d, b)
}

/// `i` strictly dominates `b`, and every strict dominator of `b` dominates `i`.
pub open spec fn is_immediate_dominator_in(
    edges: Seq<ControlFlowEdge>,
    entry: int,
    i: int,
    b: int,
) -> bool {
    &&& strictly_dominates_in(edges, entry, i, b)
    &&& forall|d: int| #[trigger] strictly_dominates_in(edges, entry, d, b) ==> dominates_in(edges, entry, d, i)
}

/// The edge relation with block `avoided` removed.
pub open spec fn avoid_step(edges: Seq<ControlFlowEdge>, avoided: int) -> spec_fn(int, int) -> bool {
    |u: int, v: int| edges_have(edges, u, v) && u != avoided && v != avoided
}

/// Facts about a reverse postorder that dominance proofs rely on.
pub open spec fn rpo_facts(edges: Seq<ControlFlowEdge>, entry: int, rpo: Seq<usize>) -> bool {
    &&& rpo.no_duplicates()
    &&& rpo.len() > 0
    &&& rpo[0] == entry
    &&& forall|i: int|
        #![trigger rpo[i]]
        0 < i < rpo.len() ==> exists|j: int| 0 <= j < i && edges_have(edges, #[trigger] rpo[j] as int, rpo[i] as int)
}

/// A reachable block dominates itself.
pub proof fn lemma_dominates_self(edges: Seq<ControlFlowEdge>, entry: int, b: int)
    requires
        reaches(edge_step(edges), entry, b),
    ensures
        dominates_in(edges, entry, b, b),
{
    assert forall|p: Seq<int>| #[trigger] is_path_between(edge_step(edges), p, entry, b) implies p.contains(b) by {
        assert(p[p.len() - 1] == b);
    }
}

/// The entry dominates every reachable block.
pub proof fn lemma_entry_dominates(edges: Seq<ControlFlowEdge>, entry: int, b: int)
    requires
        reaches(edge_step(edges), entry, b),
    ensures
        dominates_in(edges, entry, entry, b),
{
    assert forall|p: Seq<int>| #[trigger] is_path_between(edge_step(edges), p, entry, b) implies p.contains(entry) by {
        assert(p[0] == entry);
    }
}

/// Only the entry dominates the entry.
pub proof fn lemma_only_entry_dominates_entry(edges: Seq<ControlFlowEdge>, entry: int, d: int)
    requires
        dominates_in(edges, entry, d, entry),
    ensures
        d == entry,
{
    let p = seq![entry];
    assert(is_path_between(edge_step(edges), p, entry, entry));
    assert(p.contains(d));
}

/// A block on a walk to a reachable block is itself reachable.
pub proof fn lemma_on_path_reachable(edges: Seq<ControlFlowEdge>, entry: int, p: Seq<int>, b: int, m: int)
    requires
        is_path_between(edge_step(edges), p, entry, b),
        0 <= m < p.len(),
    ensures
        reaches(edge_step(edges), entry, p[m]),
{
    lemma_path_prefix(edge_step(edges), p, m);
    assert(is_path_between(edge_step(edges), p.subrange(0, m + 1), entry, p[m]));
}

/// Dominance is transitive.
pub proof fn lemma_dominates_transitive(edges: Seq<ControlFlowEdge>, entry: int, a: int, b: int, c: int)
    requires
        dominates_in(edges, entry, a, b),
        dominates_in(edges, entry, b, c),
    ensures
        dominates_in(edges, entry, a, c),
{
    assert forall|p: Seq<int>| #[trigger] is_path_between(edge_step(edges), p, entry, c) implies p.contains(a) by {
        assert(p.contains(b));
        let k = choose|k: int| 0 <= k < p.len() && p[k] == b;
        lemma_path_prefix(edge_step(edges), p, k);
        let q = p.subrange(0, k + 1);
        assert(is_path_between(edge_step(edges), q, entry, b));
        assert(q.contains(a));
        let j = choose|j: int| 0 <= j < q.len() && q[j] == a;
        assert(p[j] == a);
    }
}

/// A strict dominator of `b` dominates every reachable predecessor of `b`.
pub proof fn lemma_strict_dominator_dominates_predecessor(
    edges: Seq<ControlFlowEdge>,
    entry: int,
    d: int,
    b: int,
    p: int,
)
    requires
        strictly_dominates_in(edges, entry, d, b),
        edges_have(edges, p, b),
        reaches(edge_step(edges), entry, p),
    ensures
        dominates_in(edges, entry, d, p),
{
    let step = edge_step(edges);
    assert forall|q: Seq<int>| #[trigger] is_path_between(step, q, entry, p) implies q.contains(d) by {
        let r = q.push(b);
        assert forall|i: int| #![trigger r[i]] 0 <= i < r.len() - 1 implies step(r[i], r[i + 1]) by {
            if i < q.len() - 1 {
                assert(r[i] == q[i] && r[i + 1] == q[i + 1]);
            } else {
                assert(r[i] == p && r[i + 1] == b);
            }
        }
        assert(is_path_between(step, r, entry, b));
        assert(r.contains(d));
        let k = choose|k: int| 0 <= k < r.len() && r[k] == d;
        assert(k < q.len());
        assert(q[k] == d);
    }
}

/// For an avoided block other than the entry, `d` dominates reachable `b`
/// exactly when `b` cannot be reached while avoiding `d`.
pub proof fn lemma_dominates_iff_unreachable_avoiding(
    edges: Seq<ControlFlowEdge>,
    entry: int,
    d: int,
    b: int,
)
    requires
        d != entry,
        reaches(edge_step(edges), entry, b),
    ensures
        dominates_in(edges, entry, d, b) <==> !reaches(avoid_step(edges, d), entry, b),
{
    let step = edge_step(edges);
    let avoid = avoid_step(edges, d);
    if reaches(avoid, entry, b) {
        let p = choose|p: Seq<int>| is_path_between(avoid, p, entry, b);
        assert forall|i: int| #![trigger p[i]] 0 <= i < p.len() - 1 implies step(p[i], p[i + 1]) by {
            assert(avoid(p[i], p[i + 1]));
        }
        assert(is_path_between(step, p, entry, b));
        assert(!p.contains(d)) by {
            if p.contains(d) {
                let k = choose|k: int| 0 <= k < p.len() && p[k] == d;
                if k < p.len() - 1 {
                    assert(avoid(p[k], p[k + 1]));
                } else if k > 0 {
                    assert(avoid(p[k - 1], p[k]));
                } else {
                    assert(p[0] == entry);
                }
            }
        }
    }
    if !dominates_in(edges, entry, d, b) {
        let p = choose|p: Seq<int>| #[trigger] is_path_between(step, p, entry, b) && !p.contains(d);
        assert forall|i: int| #![trigger p[i]] 0 <= i < p.len() - 1 implies avoid(p[i], p[i + 1]) by {
            assert(step(p[i], p[i + 1]));
            assert(p[i] != d);
            assert(p[i + 1] != d);
        }
        assert(is_path_between(avoid, p, entry, b));
    }
}

/// Walk from the entry to `rpo[i]` through blocks of smaller RPO position.
proof fn lemma_rpo_path(edges: Seq<ControlFlowEdge>, entry: int, rpo: Seq<usize>, i: int) -> (p: Seq<int>)
    requires
        rpo_facts(edges, entry, rpo),
        0 <= i < rpo.len(),
    ensures
        is_path_between(edge_step(edges), p, entry, rpo[i] as int),
        forall|m: int| 0 <= m < p.len() - 1 ==> exists|k: int| 0 <= k < i && rpo[k] == #[trigger] p[m],
    decreases i,
{
    let step = edge_step(edges);
    if i == 0 {
        let p = seq![entry];
        assert(is_path_between(step, p, entry, rpo[0] as int));
        p
    } else {
        assert(rpo[i] == rpo[i]);
        let j = choose|j: int| 0 <= j < i && edges_have(edges, #[trigger] rpo[j] as int, rpo[i] as int);
        let q = lemma_rpo_path(edges, entry, rpo, j);
        let p = q.push(rpo[i] as int);
        assert forall|m: int| #![trigger p[m]] 0 <= m < p.len() - 1 implies step(p[m], p[m + 1]) by {
            if m < q.len() - 1 {
                assert(p[m] == q[m] && p[m + 1] == q[m + 1]);
            } else {
                assert(p[m] == rpo[j] && p[m + 1] == rpo[i]);
            }
        }
        assert forall|m: int| 0 <= m < p.len() - 1 implies exists|k: int| 0 <= k < i && rpo[k] == #[trigger] p[m] by {
            if m < q.len() - 1 {
                assert(p[m] == q[m]);
                let k = choose|k: int| 0 <= k < j && rpo[k] == #[trigger] q[m];
                assert(rpo[k] == p[m]);
            } else {
                assert(p[m] == rpo[j]);
            }
        }
        p
    }
}

/// A strict dominator comes earlier in reverse postorder.
pub proof fn lemma_strict_dominator_precedes(
    edges: Seq<ControlFlowEdge>,
    entry: int,
    rpo: Seq<usize>,
    d: int,
    x: int,
    kd: int,
    kx: int,
)
    requires
        rpo_facts(edges, entry, rpo),
        strictly_dominates_in(edges, entry, d, x),
        0 <= kd < rpo.len(),
        0 <= kx < rpo.len(),
        rpo[kd] == d,
        rpo[kx] == x,
    ensures
        kd < kx,
{
    let p = lemma_rpo_path(edges, entry, rpo, kx);
    assert(p.contains(d));
    let m = choose|m: int| 0 <= m < p.len() && p[m] == d;
    assert(m < p.len() - 1);
    let k = choose|k: int| 0 <= k < kx && rpo[k] == #[trigger] p[m];
    assert(k == kd) by {
        if k != kd {
            assert(rpo[k] != rpo[kd]);
        }
    }
}

/// Index of the last element of `p[..hi]` that equals `a` or `b`.
proof fn lemma_last_of_two(p: Seq<int>, a: int, b: int, hi: int) -> (k: int)
    requires
        0 <= hi <= p.len(),
        exists|i: int| 0 <= i < hi && (p[i] == a || p[i] == b),
    ensures
        0 <= k < hi,
        p[k] == a || p[k] == b,
        forall|i: int| k < i < hi ==> p[i] != a && p[i] != b,
    decreases hi,
{
    if p[hi - 1] == a || p[hi - 1] == b {
        hi - 1
    } else {
        let i = choose|i: int| 0 <= i < hi && (p[i] == a || p[i] == b);
        assert(i < hi - 1);
        lemma_last_of_two(p, a, b, hi - 1)
    }
}

/// Two dominators of the same block are ordered by dominance.
pub proof fn lemma_dominators_ordered(edges: Seq<ControlFlowEdge>, entry: int, d1: int, d2: int, b: int)
    requires
        dominates_in(edges, entry, d1, b),
        dominates_in(edges, entry, d2, b),
    ensures
        dominates_in(edges, entry, d1, d2) || dominates_in(edges, entry, d2, d1),
{
    let step = edge_step(edges);
    let p = choose|p: Seq<int>| #[trigger] is_path_between(step, p, entry, b);
    assert(p.contains(d1));
    assert(p.contains(d2));
    let m1 = choose|m: int| 0 <= m < p.len() && p[m] == d1;
    let m2 = choose|m: int| 0 <= m < p.len() && p[m] == d2;
    lemma_on_path_reachable(edges, entry, p, b, m1);
    lemma_on_path_reachable(edges, entry, p, b, m2);
    if !dominates_in(edges, entry, d1, d2) && !dominates_in(edges, entry, d2, d1) {
        let q1 = choose|q: Seq<int>| #[trigger] is_path_between(step, q, entry, d2) && !q.contains(d1);
        let q2 = choose|q: Seq<int>| #[trigger] is_path_between(step, q, entry, d1) && !q.contains(d2);
        let k = lemma_last_of_two(p, d1, d2, p.len() as int);
        if p[k] == d2 {
            lemma_path_splice(step, q1, p, k);
            let r = q1 + p.subrange(k + 1, p.len() as int);
            assert(is_path_between(step, r, entry, b));
            assert(!r.contains(d1));
        } else {
            lemma_path_splice(step, q2, p, k);
            let r = q2 + p.subrange(k + 1, p.len() as int);
            assert(is_path_between(step, r, entry, b));
            assert(!r.contains(d2));
        }
    }
}


/// Every reachable block is a block of the graph.
pub proof fn lemma_reachable_bounded(edges: Seq<ControlFlowEdge>, entry: int, n: int, b: int)
    requires
        0 <= entry < n,
        forall|e: int| #![trigger edges[e]] 0 <= e < edges.len() ==> edges[e].target < n,
        reaches(edge_step(edges), entry, b),
    ensures
        0 <= b < n,
{
    let p = choose|p: Seq<int>| #[trigger] is_path_between(edge_step(edges), p, entry, b);
    if p.len() > 1 {
        assert(edge_step(edges)(p[p.len() - 2], p[p.len() - 1]));
        let e = choose|e: int|
            #![trigger edges[e]]
            0 <= e < edges.len() && edges[e].source == p[p.len() - 2] && edges[e].target == p[p.len() - 1];
    }
}

/// A dominator of a reachable block is reachable.
pub proof fn lemma_dominator_reachable(edges: Seq<ControlFlowEdge>, entry: int, d: int, b: int)
    requires
        dominates_in(edges, entry, d, b),
    ensures
        reaches(edge_step(edges), entry, d),
{
    let p = choose|p: Seq<int>| #[trigger] is_path_between(edge_step(edges), p, entry, b);
    assert(p.contains(d));
    let m = choose|m: int| 0 <= m < p.len() && p[m] == d;
    lemma_on_path_reachable(edges, entry, p, b, m);
}

proof fn lemma_no_mutual_domination_path(edges: Seq<ControlFlowEdge>, entry: int, a: int, b: int, p: Seq<int>)
    requires
        dominates_in(edges, entry, a, b),
        dominates_in(edges, entry, b, a),
        is_path_between(edge_step(edges), p, entry, a),
    ensures
        a == b,
    decreases p.len(),
{
    if a == b {
        return;
    }
    let step = edge_step(edges);
    assert(p.contains(b));
    let k = choose|k: int| 0 <= k < p.len() && p[k] == b;
    lemma_path_prefix(step, p, k);
    let q = p.subrange(0, k + 1);
    assert(is_path_between(step, q, entry, b));
    assert(q.contains(a));
    let j = choose|j: int| 0 <= j < q.len() && q[j] == a;
    assert(j < k);
    lemma_path_prefix(step, q, j);
    let r = q.subrange(0, j + 1);
    assert(is_path_between(step, r, entry, a));
    lemma_no_mutual_domination_path(edges, entry, a, b, r);
}

/// Dominance is antisymmetric.
pub proof fn lemma_dominates_antisymmetric(edges: Seq<ControlFlowEdge>, entry: int, a: int, b: int)
    requires
        dominates_in(edges, entry, a, b),
        dominates_in(edges, entry, b, a),
    ensures
        a == b,
{
    let p = choose|p: Seq<int>| #[trigger] is_path_between(edge_step(edges), p, entry, a);
    lemma_no_mutual_domination_path(edges, entry, a, b, p);
}

/// A block has at most one immediate dominator.
pub proof fn lemma_immediate_dominator_unique(edges: Seq<ControlFlowEdge>, entry: int, i1: int, i2: int, b: int)
    requires
        is_immediate_dominator_in(edges, entry, i1, b),
        is_immediate_dominator_in(edges, entry, i2, b),
    ensures
        i1 == i2,
{
    assert(strictly_dominates_in(edges, entry, i1, b));
    assert(strictly_dominates_in(edges, entry, i2, b));
    lemma_dominates_antisymmetric(edges, entry, i1, i2);
}


/// Climbing from `r` to its immediate dominator `i` extends the segment of
/// dominators of `p` strictly below the current block by exactly `r`.
pub proof fn lemma_segment_step(edges: Seq<ControlFlowEdge>, entry: int, p: int, r: int, i: int, x: int)
    requires
        dominates_in(edges, entry, r, p),
        is_immediate_dominator_in(edges, entry, i, r),
    ensures
        (dominates_in(edges, entry, x, p) && !dominates_in(edges, entry, x, i)) <==> ((dominates_in(
            edges,
            entry,
            x,
            p,
        ) && !dominates_in(edges, entry, x, r)) || x == r),
{
    if x == r {
        if dominates_in(edges, entry, r, i) {
            lemma_dominates_antisymmetric(edges, entry, r, i);
        }
    } else {
        if dominates_in(edges, entry, x, i) {
            lemma_dominates_transitive(edges, entry, x, i, r);
        }
        if dominates_in(edges, entry, x, r) {
            assert(strictly_dominates_in(edges, entry, x, r));
        }
    }
}

/// Dominating the immediate dominator of `b` is strictly dominating `b`.
pub proof fn lemma_dominates_immediate_dominator(edges: Seq<ControlFlowEdge>, entry: int, i: int, b: int, x: int)
    requires
        is_immediate_dominator_in(edges, entry, i, b),
    ensures
        dominates_in(edges, entry, x, i) <==> strictly_dominates_in(edges, entry, x, b),
{
    if dominates_in(edges, entry, x, i) {
        lemma_dominates_transitive(edges, entry, x, i, b);
        if x == b {
            lemma_dominates_antisymmetric(edges, entry, i, b);
        }
    }
}

} // verus!
