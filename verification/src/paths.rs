//! Paths through a directed graph given as an edge relation.

use vstd::prelude::*;

verus! {

/// `p` is a nonempty walk along `step` edges.
pub open spec fn is_path(step: spec_fn(int, int) -> bool, p: Seq<int>) -> bool {
    &&& p.len() > 0
    &&& forall|i: int| #![trigger p[i]] 0 <= i < p.len() - 1 ==> step(p[i], p[i + 1])
}

/// `p` is a walk from `from` to `to`.
pub open spec fn is_path_between(step: spec_fn(int, int) -> bool, p: Seq<int>, from: int, to: int) -> bool {
    &&& is_path(step, p)
    &&& p[0] == from
    &&& p.last() == to
}

/// `to` can be reached from `from` along zero or more `step` edges.
pub open spec fn reaches(step: spec_fn(int, int) -> bool, from: int, to: int) -> bool {
    exists|p: Seq<int>| #[trigger] is_path_between(step, p, from, to)
}

/// Every node reaches itself.
pub proof fn lemma_reaches_self(step: spec_fn(int, int) -> bool, node: int)
    ensures
        reaches(step, node, node),
{
    let p = seq![node];
    assert(is_path_between(step, p, node, node));
}

/// A walk extended by one edge is a walk.
pub proof fn lemma_reaches_step(step: spec_fn(int, int) -> bool, from: int, mid: int, to: int)
    requires
        reaches(step, from, mid),
        step(mid, to),
    ensures
        reaches(step, from, to),
{
    let p = choose|p: Seq<int>| is_path_between(step, p, from, mid);
    let q = p.push(to);
    assert forall|i: int| #![trigger q[i]] 0 <= i < q.len() - 1 implies step(q[i], q[i + 1]) by {
        if i < p.len() - 1 {
            assert(p[i] == q[i] && p[i + 1] == q[i + 1]);
        } else {
            assert(q[i] == mid && q[i + 1] == to);
        }
    }
    assert(is_path_between(step, q, from, to));
}

/// A set that holds `from` and is closed under `step` holds every node on a
/// walk that starts at `from`.
pub proof fn lemma_closed_set_contains_path(
    step: spec_fn(int, int) -> bool,
    set: spec_fn(int) -> bool,
    p: Seq<int>,
)
    requires
        is_path(step, p),
        set(p[0]),
        forall|u: int, v: int| #[trigger] step(u, v) && set(u) ==> set(v),
    ensures
        forall|i: int| 0 <= i < p.len() ==> set(#[trigger] p[i]),
    decreases p.len(),
{
    if p.len() > 1 {
        let q = p.drop_last();
        assert forall|i: int| #![trigger q[i]] 0 <= i < q.len() - 1 implies step(q[i], q[i + 1]) by {
            assert(q[i] == p[i] && q[i + 1] == p[i + 1]);
        }
        lemma_closed_set_contains_path(step, set, q);
        assert forall|i: int| 0 <= i < p.len() implies set(#[trigger] p[i]) by {
            if i < p.len() - 1 {
                assert(q[i] == p[i]);
            } else {
                assert(q[i - 1] == p[i - 1]);
                assert(step(p[i - 1], p[i]));
            }
        }
    }
}

/// A set that holds `from` and is closed under `step` holds every node
/// reachable from `from`.
pub proof fn lemma_closed_set_contains_reachable(
    step: spec_fn(int, int) -> bool,
    set: spec_fn(int) -> bool,
    from: int,
    to: int,
)
    requires
        reaches(step, from, to),
        set(from),
        forall|u: int, v: int| #[trigger] step(u, v) && set(u) ==> set(v),
    ensures
        set(to),
{
    let p = choose|p: Seq<int>| is_path_between(step, p, from, to);
    lemma_closed_set_contains_path(step, set, p);
    assert(set(p[p.len() - 1]));
}


/// A nonempty prefix of a walk is a walk.
pub proof fn lemma_path_prefix(step: spec_fn(int, int) -> bool, p: Seq<int>, k: int)
    requires
        is_path(step, p),
        0 <= k < p.len(),
    ensures
        is_path(step, p.subrange(0, k + 1)),
        p.subrange(0, k + 1)[0] == p[0],
        p.subrange(0, k + 1).last() == p[k],
{
    let q = p.subrange(0, k + 1);
    assert forall|i: int| #![trigger q[i]] 0 <= i < q.len() - 1 implies step(q[i], q[i + 1]) by {
        assert(q[i] == p[i] && q[i + 1] == p[i + 1]);
    }
}

/// A walk ending at `p[k]` followed by the rest of `p` after `k` is a walk.
pub proof fn lemma_path_splice(step: spec_fn(int, int) -> bool, q: Seq<int>, p: Seq<int>, k: int)
    requires
        is_path(step, q),
        is_path(step, p),
        0 <= k < p.len(),
        q.last() == p[k],
    ensures
        is_path(step, q + p.subrange(k + 1, p.len() as int)),
        (q + p.subrange(k + 1, p.len() as int))[0] == q[0],
        (q + p.subrange(k + 1, p.len() as int)).last() == p.last(),
        forall|x: int|
            (q + p.subrange(k + 1, p.len() as int)).contains(x) ==> q.contains(x) || exists|i: int|
                k < i < p.len() && p[i] == x,
{
    let tail = p.subrange(k + 1, p.len() as int);
    let r = q + tail;
    assert forall|i: int| #![trigger r[i]] 0 <= i < r.len() - 1 implies step(r[i], r[i + 1]) by {
        if i < q.len() - 1 {
            assert(r[i] == q[i] && r[i + 1] == q[i + 1]);
        } else if i == q.len() - 1 {
            assert(r[i] == p[k]);
            assert(r[i + 1] == p[k + 1]);
            assert(step(p[k], p[k + 1]));
        } else {
            let j = i - q.len() + k + 1;
            assert(r[i] == p[j] && r[i + 1] == p[j + 1]);
        }
    }
    if tail.len() == 0 {
        assert(r =~= q);
    } else {
        assert(r.last() == tail.last());
    }
    assert forall|x: int| r.contains(x) implies q.contains(x) || exists|i: int| k < i < p.len() && p[i] == x by {
        let i = choose|i: int| 0 <= i < r.len() && r[i] == x;
        if i < q.len() {
            assert(q[i] == x);
        } else {
            assert(p[i - q.len() + k + 1] == x);
        }
    }
}

} // verus!
