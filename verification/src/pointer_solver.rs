//! The constraint solver behind the function-local pointer analysis.
//!
//! Nodes stand for SSA values and bindings. Facts flow along copy edges until
//! nothing changes; escape then spreads from the seeded nodes along the
//! dependency edges, and the objects of every escaping node escape.

use std::collections::VecDeque;

use vstd::prelude::*;

use crate::control_flow::count_unvisited;
use crate::control_flow::lemma_count_unvisited_mark;
use crate::paths::lemma_closed_set_contains_reachable;
use crate::paths::lemma_reaches_self;
use crate::paths::lemma_reaches_step;
use crate::paths::reaches;
use crate::points_to::AbstractObject;
use crate::points_to::AbstractObjectId;
use crate::points_to::AbstractObjectKind;
use crate::points_to::AnalysisOwner;
use crate::points_to::PointsToSet;
use crate::sparse_bitset::SparseBitSet;

verus! {

/// Adjacency lists as a step relation: `s` steps to `t` when `t` is listed under `s`.
pub open spec fn list_step(lists: Seq<Vec<usize>>) -> spec_fn(int, int) -> bool {
    |s: int, t: int|
        0 <= s < lists.len() && exists|k: int|
            #![trigger lists[s]@[k]]
            0 <= k < lists[s]@.len() && lists[s]@[k] as int == t
}

/// The known objects that reach node `n` from the initial facts along the lists.
pub open spec fn reaching_known(lists: Seq<Vec<usize>>, init: Seq<PointsToSet>, n: int) -> Set<nat> {
    Set::new(
        |i: nat|
            exists|m: int|
                #![trigger init[m]]
                0 <= m < init.len() && reaches(list_step(lists), m, n) && init[m].known().contains(
                    i,
                ),
    )
}

/// Whether an unknown object reaches node `n` from the initial facts.
pub open spec fn reaching_unknown(lists: Seq<Vec<usize>>, init: Seq<PointsToSet>, n: int) -> bool {
    exists|m: int|
        #![trigger init[m]]
        0 <= m < init.len() && reaches(list_step(lists), m, n) && init[m].spec_unknown_object()
}

/// Whether a primitive reaches node `n` from the initial facts.
pub open spec fn reaching_primitive(lists: Seq<Vec<usize>>, init: Seq<PointsToSet>, n: int) -> bool {
    exists|m: int|
        #![trigger init[m]]
        0 <= m < init.len() && reaches(list_step(lists), m, n) && init[m].spec_primitive()
}

/// Whether `fact` is exactly what reaches node `n`.
pub open spec fn is_reaching_fact(
    fact: PointsToSet,
    lists: Seq<Vec<usize>>,
    init: Seq<PointsToSet>,
    n: int,
) -> bool {
    &&& fact.known() == reaching_known(lists, init, n)
    &&& fact.spec_unknown_object() == reaching_unknown(lists, init, n)
    &&& fact.spec_primitive() == reaching_primitive(lists, init, n)
}

/// `a` holds no more than `b`.
pub open spec fn fact_le(a: PointsToSet, b: PointsToSet) -> bool {
    &&& a.known().subset_of(b.known())
    &&& a.spec_unknown_object() ==> b.spec_unknown_object()
    &&& a.spec_primitive() ==> b.spec_primitive()
}

/// `a` and `b` hold the same facts.
pub open spec fn fact_same(a: PointsToSet, b: PointsToSet) -> bool {
    &&& a.known() == b.known()
    &&& a.spec_unknown_object() == b.spec_unknown_object()
    &&& a.spec_primitive() == b.spec_primitive()
}

/// What `a` holds beyond `p` is held by `b`.
pub open spec fn fact_le_beyond(a: PointsToSet, p: PointsToSet, b: PointsToSet) -> bool {
    &&& a.known().difference(p.known()).subset_of(b.known())
    &&& (a.spec_unknown_object() && !p.spec_unknown_object()) ==> b.spec_unknown_object()
    &&& (a.spec_primitive() && !p.spec_primitive()) ==> b.spec_primitive()
}

/// Whether `fact` stands for no value.
pub open spec fn fact_is_bottom(fact: PointsToSet) -> bool {
    fact.known() == Set::<nat>::empty() && !fact.spec_unknown_object() && !fact.spec_primitive()
}

/// Whether every known object of every fact is below `bound`.
pub open spec fn known_below(facts: Seq<PointsToSet>, bound: nat) -> bool {
    forall|x: int, i: nat|
        #![trigger facts[x].known().contains(i)]
        0 <= x < facts.len() && facts[x].known().contains(i) ==> i < bound
}

/// How much a fact holds: its known objects and one for each flag.
pub open spec fn fact_size(fact: PointsToSet) -> nat {
    fact.known().len() + (if fact.spec_unknown_object() {
        1nat
    } else {
        0nat
    }) + (if fact.spec_primitive() {
        1nat
    } else {
        0nat
    })
}

/// How much a list of facts holds in all.
pub open spec fn total_size(facts: Seq<PointsToSet>) -> nat
    decreases facts.len(),
{
    if facts.len() == 0 {
        0
    } else {
        total_size(facts.drop_last()) + fact_size(facts.last())
    }
}

/// The naturals below `n`.
pub open spec fn nat_range(n: nat) -> Set<nat> {
    Set::new(|i: nat| i < n)
}

proof fn lemma_nat_range(n: nat)
    ensures
        nat_range(n).finite(),
        nat_range(n).len() == n,
    decreases n,
{
    if n == 0 {
        assert(nat_range(n) =~= Set::<nat>::empty());
    } else {
        lemma_nat_range((n - 1) as nat);
        assert(nat_range((n - 1) as nat).insert((n - 1) as nat) =~= nat_range(n));
    }
}

/// A fact whose known objects are below `bound` holds at most `bound + 2`.
proof fn lemma_fact_size_bound(fact: PointsToSet, bound: nat)
    requires
        forall|i: nat| #[trigger] fact.known().contains(i) ==> i < bound,
    ensures
        fact.known().finite(),
        fact_size(fact) <= bound + 2,
{
    lemma_nat_range(bound);
    vstd::set_lib::lemma_len_subset(fact.known(), nat_range(bound));
}

proof fn lemma_total_update(s: Seq<PointsToSet>, k: int, x: PointsToSet)
    requires
        0 <= k < s.len(),
    ensures
        total_size(s.update(k, x)) + fact_size(s[k]) == total_size(s) + fact_size(x),
    decreases s.len(),
{
    let t = s.update(k, x);
    if k < s.len() - 1 {
        assert(t.drop_last() =~= s.drop_last().update(k, x));
        lemma_total_update(s.drop_last(), k, x);
    } else {
        assert(t.drop_last() =~= s.drop_last());
    }
}

proof fn lemma_total_bound(s: Seq<PointsToSet>, bound: nat)
    requires
        forall|x: int| 0 <= x < s.len() ==> #[trigger] fact_size(s[x]) <= bound,
    ensures
        total_size(s) <= s.len() * bound,
    decreases s.len(),
{
    if s.len() > 0 {
        let t = s.drop_last();
        assert forall|x: int| 0 <= x < t.len() implies #[trigger] fact_size(t[x]) <= bound by {
            assert(t[x] == s[x]);
        }
        lemma_total_bound(t, bound);
        assert(fact_size(s[s.len() - 1]) <= bound);
        assert(t.len() * bound + bound == s.len() * bound) by (nonlinear_arith)
            requires
                t.len() + 1 == s.len(),
        ;
    }
}

/// Joining `add` into `f` grows its size exactly when something in `add` was new.
proof fn lemma_join_size(f: PointsToSet, add: PointsToSet, joined: PointsToSet, bound: nat)
    requires
        forall|i: nat| #[trigger] joined.known().contains(i) ==> i < bound,
        joined.known() == f.known().union(add.known()),
        joined.spec_unknown_object() == (f.spec_unknown_object() || add.spec_unknown_object()),
        joined.spec_primitive() == (f.spec_primitive() || add.spec_primitive()),
    ensures
        fact_size(f) <= fact_size(joined),
        fact_le(add, f) ==> fact_size(f) == fact_size(joined),
        !fact_le(add, f) ==> fact_size(f) < fact_size(joined),
{
    lemma_nat_range(bound);
    vstd::set_lib::lemma_len_subset(joined.known(), nat_range(bound));
    vstd::set_lib::lemma_len_subset(f.known(), joined.known());
    if !add.known().subset_of(f.known()) {
        let i = choose|i: nat| add.known().contains(i) && !f.known().contains(i);
        f.known().lemma_subset_not_in_lt(joined.known(), i);
    }
    if add.known().subset_of(f.known()) {
        assert(joined.known() =~= f.known());
    }
}

/// `f` holds no more than what reaches node `n`.
pub open spec fn le_reaching(f: PointsToSet, lists: Seq<Vec<usize>>, init: Seq<PointsToSet>, n: int) -> bool {
    &&& f.known().subset_of(reaching_known(lists, init, n))
    &&& f.spec_unknown_object() ==> reaching_unknown(lists, init, n)
    &&& f.spec_primitive() ==> reaching_primitive(lists, init, n)
}

/// What reaches `s` also reaches every successor of `s`.
proof fn lemma_reaching_step(lists: Seq<Vec<usize>>, init: Seq<PointsToSet>, s: int, t: int)
    requires
        list_step(lists)(s, t),
    ensures
        reaching_known(lists, init, s).subset_of(reaching_known(lists, init, t)),
        reaching_unknown(lists, init, s) ==> reaching_unknown(lists, init, t),
        reaching_primitive(lists, init, s) ==> reaching_primitive(lists, init, t),
{
    let step = list_step(lists);
    assert forall|i: nat| reaching_known(lists, init, s).contains(i) implies reaching_known(
        lists,
        init,
        t,
    ).contains(i) by {
        let m = choose|m: int|
            #![trigger init[m]]
            0 <= m < init.len() && reaches(step, m, s) && init[m].known().contains(i);
        lemma_reaches_step(step, m, s, t);
    }
    if reaching_unknown(lists, init, s) {
        let m = choose|m: int|
            #![trigger init[m]]
            0 <= m < init.len() && reaches(step, m, s) && init[m].spec_unknown_object();
        lemma_reaches_step(step, m, s, t);
    }
    if reaching_primitive(lists, init, s) {
        let m = choose|m: int|
            #![trigger init[m]]
            0 <= m < init.len() && reaches(step, m, s) && init[m].spec_primitive();
        lemma_reaches_step(step, m, s, t);
    }
}

/// Facts that hold the initial facts and are closed under the lists hold everything that reaches them.
proof fn lemma_closed_facts_cover(lists: Seq<Vec<usize>>, init: Seq<PointsToSet>, facts: Seq<PointsToSet>)
    requires
        facts.len() == init.len(),
        lists.len() == init.len(),
        forall|s: int, k: int|
            #![trigger lists[s]@[k]]
            0 <= s < lists.len() && 0 <= k < lists[s]@.len() ==> lists[s]@[k] < lists.len(),
        forall|s: int, k: int|
            #![trigger lists[s]@[k]]
            0 <= s < lists.len() && 0 <= k < lists[s]@.len() ==> fact_le(
                facts[s],
                facts[lists[s]@[k] as int],
            ),
        forall|x: int| #![trigger facts[x]] 0 <= x < facts.len() ==> fact_le(init[x], facts[x]),
    ensures
        forall|x: int|
            #![trigger facts[x]]
            0 <= x < facts.len() ==> {
                &&& reaching_known(lists, init, x).subset_of(facts[x].known())
                &&& reaching_unknown(lists, init, x) ==> facts[x].spec_unknown_object()
                &&& reaching_primitive(lists, init, x) ==> facts[x].spec_primitive()
            },
{
    let step = list_step(lists);
    let n = facts.len() as int;
    assert forall|u: int, v: int| #[trigger] step(u, v) implies 0 <= v < n && fact_le(facts[u], facts[v]) by {
        let k = choose|k: int| #![trigger lists[u]@[k]] 0 <= k < lists[u]@.len() && lists[u]@[k] as int == v;
        assert(lists[u]@[k] < lists.len());
    }
    assert forall|x: int| #![trigger facts[x]] 0 <= x < n implies {
        &&& reaching_known(lists, init, x).subset_of(facts[x].known())
        &&& reaching_unknown(lists, init, x) ==> facts[x].spec_unknown_object()
        &&& reaching_primitive(lists, init, x) ==> facts[x].spec_primitive()
    } by {
        assert forall|i: nat| reaching_known(lists, init, x).contains(i) implies facts[x].known().contains(i) by {
            let m = choose|m: int|
                #![trigger init[m]]
                0 <= m < init.len() && reaches(step, m, x) && init[m].known().contains(i);
            let holds = |y: int| 0 <= y < n && facts[y].known().contains(i);
            assert(facts[m] == facts[m]);
            lemma_closed_set_contains_reachable(step, holds, m, x);
        }
        if reaching_unknown(lists, init, x) {
            let m = choose|m: int|
                #![trigger init[m]]
                0 <= m < init.len() && reaches(step, m, x) && init[m].spec_unknown_object();
            let holds = |y: int| 0 <= y < n && facts[y].spec_unknown_object();
            assert(facts[m] == facts[m]);
            lemma_closed_set_contains_reachable(step, holds, m, x);
        }
        if reaching_primitive(lists, init, x) {
            let m = choose|m: int|
                #![trigger init[m]]
                0 <= m < init.len() && reaches(step, m, x) && init[m].spec_primitive();
            let holds = |y: int| 0 <= y < n && facts[y].spec_primitive();
            assert(facts[m] == facts[m]);
            lemma_closed_set_contains_reachable(step, holds, m, x);
        }
    }
}

/// Every node's own initial fact reaches it.
proof fn lemma_init_reaches(lists: Seq<Vec<usize>>, init: Seq<PointsToSet>, x: int)
    requires
        0 <= x < init.len(),
    ensures
        le_reaching(init[x], lists, init, x),
{
    lemma_reaches_self(list_step(lists), x);
}

/// Whether node `x` escapes: some seed reaches it along the dependency lists.
pub open spec fn escapes_from(deps: Seq<Vec<usize>>, seeds: Set<int>, x: int) -> bool {
    exists|s: int| #[trigger] seeds.contains(s) && reaches(list_step(deps), s, x)
}

/// The known objects of the escaping nodes.
pub open spec fn escaping_objects_of(
    deps: Seq<Vec<usize>>,
    seeds: Set<int>,
    facts: Seq<PointsToSet>,
) -> Set<nat> {
    Set::new(
        |i: nat|
            exists|x: int|
                #![trigger facts[x]]
                0 <= x < facts.len() && escapes_from(deps, seeds, x) && facts[x].known().contains(i),
    )
}

/// The solution of a pointer problem.
pub struct PointerResult {
    /// The analysis result the facts belong to.
    pub owner: AnalysisOwner,
    /// The fact of every node.
    pub facts: Vec<PointsToSet>,
    /// Every abstract object, indexed by its identity.
    pub objects: Vec<AbstractObject>,
    /// The objects that may escape the analyzed activation.
    pub escaping_objects: SparseBitSet,
}

/// A pointer problem under construction and its solver.
pub struct PointerSolver {
    owner: AnalysisOwner,
    node_count: usize,
    copy_edges: Vec<Vec<usize>>,
    escape_dependencies: Vec<Vec<usize>>,
    facts: Vec<PointsToSet>,
    pending: Vec<PointsToSet>,
    fact_worklist: VecDeque<usize>,
    queued: Vec<bool>,
    escaping: Vec<bool>,
    escape_worklist: VecDeque<usize>,
    objects: Vec<AbstractObject>,
    arguments_object: Option<AbstractObjectId>,
    import_meta_object: Option<AbstractObjectId>,
}

impl PointerSolver {
    /// The analysis result the facts belong to.
    pub closed spec fn spec_owner(&self) -> AnalysisOwner {
        self.owner
    }

    /// The number of nodes.
    pub closed spec fn spec_node_count(&self) -> nat {
        self.node_count as nat
    }

    /// The current fact of every node.
    pub closed spec fn spec_facts(&self) -> Seq<PointsToSet> {
        self.facts@
    }

    /// For each node, the nodes its facts flow to.
    pub closed spec fn spec_copy_edges(&self) -> Seq<Vec<usize>> {
        self.copy_edges@
    }

    /// For each node, the nodes that escape when it escapes.
    pub closed spec fn spec_escape_dependencies(&self) -> Seq<Vec<usize>> {
        self.escape_dependencies@
    }

    /// The nodes seeded as escaping.
    pub closed spec fn spec_seeds(&self) -> Set<int> {
        Set::new(|x: int| 0 <= x < self.escaping@.len() && self.escaping@[x])
    }

    /// The abstract objects allocated so far.
    pub closed spec fn spec_objects(&self) -> Seq<AbstractObject> {
        self.objects@
    }

    /// The function's `arguments` object, once allocated.
    pub closed spec fn spec_arguments_object(&self) -> Option<AbstractObjectId> {
        self.arguments_object
    }

    /// The module's `import.meta` object, once allocated.
    pub closed spec fn spec_import_meta_object(&self) -> Option<AbstractObjectId> {
        self.import_meta_object
    }

    /// The shape every solver state keeps.
    closed spec fn structure(&self) -> bool {
        let n = self.node_count as int;
        &&& self.copy_edges@.len() == n
        &&& self.escape_dependencies@.len() == n
        &&& self.facts@.len() == n
        &&& self.pending@.len() == n
        &&& self.queued@.len() == n
        &&& self.escaping@.len() == n
        &&& forall|s: int, k: int|
            #![trigger self.copy_edges@[s]@[k]]
            0 <= s < n && 0 <= k < self.copy_edges@[s]@.len() ==> self.copy_edges@[s]@[k] < n
        &&& forall|s: int, k: int|
            #![trigger self.escape_dependencies@[s]@[k]]
            0 <= s < n && 0 <= k < self.escape_dependencies@[s]@.len()
                ==> self.escape_dependencies@[s]@[k] < n
        &&& forall|x: int|
            #![trigger self.facts@[x]]
            0 <= x < n ==> self.facts@[x].spec_owner() == self.owner
        &&& forall|x: int|
            #![trigger self.pending@[x]]
            0 <= x < n ==> self.pending@[x].spec_owner() == self.owner
        &&& known_below(self.facts@, self.objects@.len())
        &&& forall|x: int|
            #![trigger self.pending@[x]]
            0 <= x < n ==> fact_le(self.pending@[x], self.facts@[x])
        &&& forall|x: int|
            #![trigger self.pending@[x]]
            0 <= x < n && !fact_is_bottom(self.pending@[x]) ==> self.queued@[x]
        &&& forall|x: int|
            #![trigger self.queued@[x]]
            0 <= x < n ==> (self.queued@[x] <==> self.fact_worklist@.contains(x as usize))
        &&& self.fact_worklist@.no_duplicates()
        &&& forall|j: int|
            #![trigger self.fact_worklist@[j]]
            0 <= j < self.fact_worklist@.len() ==> self.fact_worklist@[j] < n
        &&& forall|k: int|
            #![trigger self.objects@[k]]
            0 <= k < self.objects@.len() ==> self.objects@[k].spec_id().spec_owner() == self.owner
                && self.objects@[k].spec_id().spec_index() == k
        &&& self.objects@.len() <= u32::MAX + 1
        &&& (self.arguments_object matches Some(id) ==> id.spec_owner() == self.owner
            && id.spec_index() < self.objects@.len() && self.objects@[id.spec_index() as int].spec_kind()
            == AbstractObjectKind::ArgumentsObject)
        &&& (self.import_meta_object matches Some(id) ==> id.spec_owner() == self.owner
            && id.spec_index() < self.objects@.len() && self.objects@[id.spec_index() as int].spec_kind()
            == AbstractObjectKind::ImportMeta)
    }

    /// The escape worklist holds exactly the escaping nodes, once each.
    closed spec fn escapes_queued(&self) -> bool {
        &&& forall|x: int|
            #![trigger self.escaping@[x]]
            0 <= x < self.node_count ==> (self.escaping@[x] <==> self.escape_worklist@.contains(
                x as usize,
            ))
        &&& self.escape_worklist@.no_duplicates()
        &&& forall|j: int|
            #![trigger self.escape_worklist@[j]]
            0 <= j < self.escape_worklist@.len() ==> self.escape_worklist@[j] < self.node_count
    }

    /// A problem under construction: nothing has been propagated yet.
    pub closed spec fn wf(&self) -> bool {
        &&& self.structure()
        &&& self.escapes_queued()
        &&& forall|x: int|
            #![trigger self.pending@[x]]
            0 <= x < self.node_count ==> fact_same(self.pending@[x], self.facts@[x])
    }

    /// A problem under construction keeps one fact and two edge lists per
    /// node, facts of its own analysis, and edges and seeds among its nodes.
    pub proof fn lemma_wf(&self)
        requires
            self.wf(),
        ensures
            self.spec_facts().len() == self.spec_node_count(),
            self.spec_copy_edges().len() == self.spec_node_count(),
            self.spec_escape_dependencies().len() == self.spec_node_count(),
            self.spec_objects().len() <= u32::MAX + 1,
            self.spec_node_count() <= usize::MAX,
            forall|x: int|
                #![trigger self.spec_facts()[x]]
                0 <= x < self.spec_node_count() ==> self.spec_facts()[x].spec_owner() == self.spec_owner(),
            forall|x: int, y: int|
                #[trigger] list_step(self.spec_copy_edges())(x, y) ==> 0 <= x < self.spec_node_count() && 0 <= y
                    < self.spec_node_count(),
            forall|x: int, y: int|
                #[trigger] list_step(self.spec_escape_dependencies())(x, y) ==> 0 <= x < self.spec_node_count() && 0
                    <= y < self.spec_node_count(),
            forall|x: int| #[trigger] self.spec_seeds().contains(x) ==> 0 <= x < self.spec_node_count(),
            forall|k: int|
                #![trigger self.spec_objects()[k]]
                0 <= k < self.spec_objects().len() ==> self.spec_objects()[k].spec_id().spec_owner()
                    == self.spec_owner() && self.spec_objects()[k].spec_id().spec_index() == k,
    {
        assert forall|x: int, y: int| #[trigger] list_step(self.spec_copy_edges())(x, y) implies 0 <= x < self.spec_node_count() && 0 <= y
            < self.spec_node_count() by {
            let k = choose|k: int| #![trigger self.copy_edges@[x]@[k]] 0 <= k < self.copy_edges@[x]@.len() && self.copy_edges@[x]@[k] as int == y;
        }
        assert forall|x: int, y: int| #[trigger] list_step(self.spec_escape_dependencies())(x, y) implies 0 <= x < self.spec_node_count() && 0 <= y
            < self.spec_node_count() by {
            let k = choose|k: int|
                #![trigger self.escape_dependencies@[x]@[k]]
                0 <= k < self.escape_dependencies@[x]@.len() && self.escape_dependencies@[x]@[k] as int == y;
        }
    }

    /// The analysis result the facts belong to.
    pub fn owner(&self) -> (owner: AnalysisOwner)
        ensures
            owner == self.spec_owner(),
    {
        self.owner
    }

    /// An empty problem over `node_count` nodes.
    pub fn new(owner: AnalysisOwner, node_count: usize) -> (solver: Self)
        ensures
            solver.wf(),
            solver.spec_owner() == owner,
            solver.spec_node_count() == node_count,
            solver.spec_facts().len() == node_count,
            forall|x: int|
                #![trigger solver.spec_facts()[x]]
                0 <= x < node_count ==> solver.spec_facts()[x].spec_owner() == owner
                    && fact_is_bottom(solver.spec_facts()[x]),
            solver.spec_copy_edges().len() == node_count,
            forall|x: int|
                #![trigger solver.spec_copy_edges()[x]]
                0 <= x < node_count ==> solver.spec_copy_edges()[x]@.len() == 0,
            solver.spec_escape_dependencies().len() == node_count,
            forall|x: int|
                #![trigger solver.spec_escape_dependencies()[x]]
                0 <= x < node_count ==> solver.spec_escape_dependencies()[x]@.len() == 0,
            solver.spec_seeds() == Set::<int>::empty(),
            solver.spec_objects().len() == 0,
            solver.spec_arguments_object() is None,
            solver.spec_import_meta_object() is None,
    {
        let mut copy_edges: Vec<Vec<usize>> = Vec::new();
        let mut escape_dependencies: Vec<Vec<usize>> = Vec::new();
        let mut facts: Vec<PointsToSet> = Vec::new();
        let mut pending: Vec<PointsToSet> = Vec::new();
        let mut queued: Vec<bool> = Vec::new();
        let mut escaping: Vec<bool> = Vec::new();
        let mut k: usize = 0;
        while k < node_count
            invariant
                k <= node_count,
                copy_edges@.len() == k,
                escape_dependencies@.len() == k,
                facts@.len() == k,
                pending@.len() == k,
                queued@.len() == k,
                escaping@.len() == k,
                forall|x: int|
                    #![trigger copy_edges@[x]]
                    0 <= x < k ==> copy_edges@[x]@.len() == 0,
                forall|x: int|
                    #![trigger escape_dependencies@[x]]
                    0 <= x < k ==> escape_dependencies@[x]@.len() == 0,
                forall|x: int|
                    #![trigger facts@[x]]
                    0 <= x < k ==> facts@[x].spec_owner() == owner && fact_is_bottom(facts@[x]),
                forall|x: int|
                    #![trigger pending@[x]]
                    0 <= x < k ==> pending@[x].spec_owner() == owner && fact_is_bottom(
                        pending@[x],
                    ),
                forall|x: int| #![trigger queued@[x]] 0 <= x < k ==> !queued@[x],
                forall|x: int| #![trigger escaping@[x]] 0 <= x < k ==> !escaping@[x],
            decreases node_count - k,
        {
            copy_edges.push(Vec::new());
            escape_dependencies.push(Vec::new());
            facts.push(PointsToSet::bottom(owner));
            pending.push(PointsToSet::bottom(owner));
            queued.push(false);
            escaping.push(false);
            k = k + 1;
        }
        let solver = PointerSolver {
            owner,
            node_count,
            copy_edges,
            escape_dependencies,
            facts,
            pending,
            fact_worklist: VecDeque::new(),
            queued,
            escaping,
            escape_worklist: VecDeque::new(),
            objects: Vec::new(),
            arguments_object: None,
            import_meta_object: None,
        };
        assert(solver.spec_seeds() =~= Set::<int>::empty());
        solver
    }

    /// Joins `fact` into the fact of `node`, records what was new as pending,
    /// and queues `node` when something was new.
    fn join_fact(&mut self, node: usize, fact: &PointsToSet)
        requires
            old(self).structure(),
            node < old(self).node_count,
            fact.spec_owner() == old(self).owner,
            forall|i: nat| #[trigger] fact.known().contains(i) ==> i < old(self).objects@.len(),
        ensures
            final(self).structure(),
            final(self).owner == old(self).owner,
            final(self).node_count == old(self).node_count,
            final(self).copy_edges == old(self).copy_edges,
            final(self).escape_dependencies == old(self).escape_dependencies,
            final(self).escaping == old(self).escaping,
            final(self).escape_worklist == old(self).escape_worklist,
            final(self).objects == old(self).objects,
            final(self).arguments_object == old(self).arguments_object,
            final(self).import_meta_object == old(self).import_meta_object,
            final(self).facts@.len() == old(self).facts@.len(),
            final(self).pending@.len() == old(self).pending@.len(),
            forall|x: int|
                #![trigger final(self).facts@[x]]
                0 <= x < old(self).node_count && x != node ==> final(self).facts@[x] == old(self).facts@[x],
            forall|x: int|
                #![trigger final(self).pending@[x]]
                0 <= x < old(self).node_count && x != node ==> final(self).pending@[x] == old(self).pending@[x],
            final(self).facts@[node as int].known() == old(self).facts@[node as int].known().union(
                fact.known(),
            ),
            final(self).facts@[node as int].spec_unknown_object() == (old(self).facts@[node as int].spec_unknown_object() || fact.spec_unknown_object()),
            final(self).facts@[node as int].spec_primitive() == (old(self).facts@[node as int].spec_primitive() || fact.spec_primitive()),
            final(self).pending@[node as int].known() == old(self).pending@[node as int].known().union(
                fact.known().difference(old(self).facts@[node as int].known()),
            ),
            final(self).pending@[node as int].spec_unknown_object() == (old(self).pending@[node as int].spec_unknown_object() || (fact.spec_unknown_object() && !old(self).facts@[node as int].spec_unknown_object())),
            final(self).pending@[node as int].spec_primitive() == (old(self).pending@[node as int].spec_primitive() || (fact.spec_primitive() && !old(self).facts@[node as int].spec_primitive())),
            fact_le(*fact, old(self).facts@[node as int]) ==> final(self).fact_worklist@ == old(self).fact_worklist@ && total_size(final(self).facts@) == total_size(old(self).facts@),
            !fact_le(*fact, old(self).facts@[node as int]) ==> total_size(final(self).facts@)
                > total_size(old(self).facts@) && final(self).fact_worklist@.len() <= old(self).fact_worklist@.len() + 1,
    {
        let ghost old_facts = self.facts@;
        let ghost old_pending = self.pending@;
        let delta = self.facts[node].join_delta(fact);
        proof {
            let f = old_facts[node as int];
            let joined = self.facts@[node as int];
            assert(forall|x: int|
                #![trigger self.facts@[x]]
                0 <= x < self.node_count && x != node ==> self.facts@[x] == old_facts[x]);
            assert forall|i: nat| #[trigger] joined.known().contains(i) implies i < self.objects@.len() by {
                if f.known().contains(i) {
                    assert(old_facts[node as int].known().contains(i));
                }
            }
            lemma_join_size(f, *fact, joined, self.objects@.len());
            lemma_total_update(old_facts, node as int, joined);
            assert(old_facts.update(node as int, joined) =~= self.facts@);
            assert(known_below(self.facts@, self.objects@.len())) by {
                assert forall|x: int, i: nat|
                    #![trigger self.facts@[x].known().contains(i)]
                    0 <= x < self.facts@.len() && self.facts@[x].known().contains(i) implies i
                        < self.objects@.len() by {
                    if x != node as int {
                        assert(old_facts[x].known().contains(i));
                    }
                }
            }
        }
        if delta.is_bottom() {
            proof {
                assert forall|i: nat| fact.known().contains(i) implies old_facts[node as int].known().contains(i) by {
                    assert(!delta.known().contains(i));
                }
            }
            return;
        }
        proof {
            if fact_le(*fact, old_facts[node as int]) {
                assert(delta.known() =~= Set::<nat>::empty());
            }
        }
        let _ = self.pending[node].join_delta(&delta);
        proof {
            assert(forall|x: int|
                #![trigger self.pending@[x]]
                0 <= x < self.node_count && x != node ==> self.pending@[x] == old_pending[x]);
        }
        self.queue_fact(node);
    }

    /// Joins `fact` into the fact of `node`.
    pub fn add_fact(&mut self, node: usize, fact: PointsToSet)
        requires
            old(self).wf(),
            node < old(self).spec_node_count(),
            fact.spec_owner() == old(self).spec_owner(),
            forall|i: nat|
                #[trigger] fact.known().contains(i) ==> i < old(self).spec_objects().len(),
        ensures
            final(self).wf(),
            final(self).spec_owner() == old(self).spec_owner(),
            final(self).spec_node_count() == old(self).spec_node_count(),
            final(self).spec_copy_edges() == old(self).spec_copy_edges(),
            final(self).spec_escape_dependencies() == old(self).spec_escape_dependencies(),
            final(self).spec_seeds() == old(self).spec_seeds(),
            final(self).spec_objects() == old(self).spec_objects(),
            final(self).spec_arguments_object() == old(self).spec_arguments_object(),
            final(self).spec_import_meta_object() == old(self).spec_import_meta_object(),
            final(self).spec_facts().len() == old(self).spec_facts().len(),
            forall|x: int|
                #![trigger final(self).spec_facts()[x]]
                0 <= x < old(self).spec_node_count() && x != node ==> final(self).spec_facts()[x]
                    == old(self).spec_facts()[x],
            final(self).spec_facts()[node as int].spec_owner() == old(self).spec_owner(),
            final(self).spec_facts()[node as int].known() == old(self).spec_facts()[node as int].known().union(fact.known()),
            final(self).spec_facts()[node as int].spec_unknown_object() == (old(self).spec_facts()[node as int].spec_unknown_object() || fact.spec_unknown_object()),
            final(self).spec_facts()[node as int].spec_primitive() == (old(self).spec_facts()[node as int].spec_primitive() || fact.spec_primitive()),
    {
        self.join_fact(node, &fact);
        proof {
            assert forall|x: int|
                #![trigger self.pending@[x]]
                0 <= x < self.node_count implies fact_same(self.pending@[x], self.facts@[x]) by {
                if x == node as int {
                    assert(self.pending@[x].known() =~= self.facts@[x].known());
                }
            }
        }
    }

    /// Adds `value` to the list `lists[at]` unless it is listed already.
    fn add_to_list(lists: &mut Vec<Vec<usize>>, at: usize, value: usize)
        requires
            at < old(lists)@.len(),
        ensures
            final(lists)@.len() == old(lists)@.len(),
            forall|x: int|
                #![trigger final(lists)@[x]]
                0 <= x < old(lists)@.len() && x != at ==> final(lists)@[x] == old(lists)@[x],
            forall|v: usize|
                #![trigger final(lists)@[at as int]@.contains(v)]
                final(lists)@[at as int]@.contains(v) <==> (old(lists)@[at as int]@.contains(v)
                    || v == value),
            forall|k: int|
                #![trigger final(lists)@[at as int]@[k]]
                0 <= k < final(lists)@[at as int]@.len() ==> old(lists)@[at as int]@.contains(
                    final(lists)@[at as int]@[k],
                ) || final(lists)@[at as int]@[k] == value,
    {
        let mut k: usize = 0;
        let mut found = false;
        while k < lists[at].len()
            invariant
                at < lists@.len(),
                lists == old(lists),
                k <= lists@[at as int]@.len(),
                found <==> exists|j: int| 0 <= j < k && lists@[at as int]@[j] == value,
            decreases lists@[at as int]@.len() - k,
        {
            if lists[at][k] == value {
                found = true;
            }
            k = k + 1;
        }
        if !found {
            lists[at].push(value);
            proof {
                let l = lists@[at as int]@;
                let o = old(lists)@[at as int]@;
                assert(l == o.push(value));
                assert forall|v: usize| #![trigger l.contains(v)] l.contains(v) <==> (o.contains(v) || v == value) by {
                    if l.contains(v) && v != value {
                        let j = choose|j: int| 0 <= j < l.len() && l[j] == v;
                        assert(o[j] == v);
                    }
                    if o.contains(v) {
                        let j = choose|j: int| 0 <= j < o.len() && o[j] == v;
                        assert(l[j] == v);
                    }
                    if v == value {
                        assert(l[o.len() as int] == v);
                    }
                }
                assert forall|k: int| #![trigger l[k]] 0 <= k < l.len() implies o.contains(l[k]) || l[k] == value by {
                    if k < o.len() {
                        assert(o[k] == l[k]);
                    }
                }
            }
        } else {
            proof {
                let o = old(lists)@[at as int]@;
                assert forall|k: int| #![trigger o[k]] 0 <= k < o.len() implies o.contains(o[k]) by {}
            }
        }
    }

    /// Records that `dependency` escapes whenever `escaping` does.
    fn add_escape_dependency(&mut self, escaping: usize, dependency: usize)
        requires
            old(self).wf(),
            escaping < old(self).node_count,
            dependency < old(self).node_count,
        ensures
            final(self).wf(),
            final(self).owner == old(self).owner,
            final(self).node_count == old(self).node_count,
            final(self).copy_edges == old(self).copy_edges,
            final(self).facts == old(self).facts,
            final(self).escaping == old(self).escaping,
            final(self).objects == old(self).objects,
            final(self).arguments_object == old(self).arguments_object,
            final(self).import_meta_object == old(self).import_meta_object,
            final(self).escape_dependencies@.len() == old(self).escape_dependencies@.len(),
            forall|x: int|
                #![trigger final(self).escape_dependencies@[x]]
                0 <= x < old(self).node_count && x != escaping ==> final(self).escape_dependencies@[x] == old(self).escape_dependencies@[x],
            forall|v: usize|
                #![trigger final(self).escape_dependencies@[escaping as int]@.contains(v)]
                final(self).escape_dependencies@[escaping as int]@.contains(v) <==> (old(self).escape_dependencies@[escaping as int]@.contains(v) || v == dependency),
    {
        Self::add_to_list(&mut self.escape_dependencies, escaping, dependency);
        proof {
            let d = self.escape_dependencies@;
            assert forall|s: int, k: int|
                #![trigger d[s]@[k]]
                0 <= s < self.node_count && 0 <= k < d[s]@.len() implies d[s]@[k]
                < self.node_count by {
                if s != escaping as int {
                    assert(d[s] == old(self).escape_dependencies@[s]);
                } else if d[s]@[k] != dependency {
                    let o = old(self).escape_dependencies@[s]@;
                    let j = choose|j: int| 0 <= j < o.len() && o[j] == d[s]@[k];
                    assert(o[j] < self.node_count);
                }
            }
        }
    }

    /// Records that facts flow from `source` to `target`, and that `source`
    /// escapes whenever `target` does.
    pub fn add_copy(&mut self, source: usize, target: usize)
        requires
            old(self).wf(),
            source < old(self).spec_node_count(),
            target < old(self).spec_node_count(),
        ensures
            final(self).wf(),
            final(self).spec_owner() == old(self).spec_owner(),
            final(self).spec_node_count() == old(self).spec_node_count(),
            final(self).spec_facts() == old(self).spec_facts(),
            final(self).spec_seeds() == old(self).spec_seeds(),
            final(self).spec_objects() == old(self).spec_objects(),
            final(self).spec_arguments_object() == old(self).spec_arguments_object(),
            final(self).spec_import_meta_object() == old(self).spec_import_meta_object(),
            final(self).spec_copy_edges().len() == old(self).spec_copy_edges().len(),
            forall|x: int|
                #![trigger final(self).spec_copy_edges()[x]]
                0 <= x < old(self).spec_node_count() && x != source ==> final(self).spec_copy_edges()[x] == old(self).spec_copy_edges()[x],
            forall|v: usize|
                #![trigger final(self).spec_copy_edges()[source as int]@.contains(v)]
                final(self).spec_copy_edges()[source as int]@.contains(v) <==> (old(self).spec_copy_edges()[source as int]@.contains(v) || v == target),
            final(self).spec_escape_dependencies().len() == old(self).spec_escape_dependencies().len(),
            forall|x: int|
                #![trigger final(self).spec_escape_dependencies()[x]]
                0 <= x < old(self).spec_node_count() && x != target ==> final(self).spec_escape_dependencies()[x] == old(self).spec_escape_dependencies()[x],
            forall|v: usize|
                #![trigger final(self).spec_escape_dependencies()[target as int]@.contains(v)]
                final(self).spec_escape_dependencies()[target as int]@.contains(v) <==> (old(self).spec_escape_dependencies()[target as int]@.contains(v) || v == source),
    {
        Self::add_to_list(&mut self.copy_edges, source, target);
        proof {
            let c = self.copy_edges@;
            assert forall|s: int, k: int|
                #![trigger c[s]@[k]]
                0 <= s < self.node_count && 0 <= k < c[s]@.len() implies c[s]@[k]
                < self.node_count by {
                if s != source as int {
                    assert(c[s] == old(self).copy_edges@[s]);
                } else if c[s]@[k] != target {
                    let o = old(self).copy_edges@[s]@;
                    let j = choose|j: int| 0 <= j < o.len() && o[j] == c[s]@[k];
                    assert(o[j] < self.node_count);
                }
            }
        }
        self.add_escape_dependency(target, source);
    }

    /// Records that `contained` escapes whenever `container` does.
    pub fn add_containment(&mut self, container: usize, contained: usize)
        requires
            old(self).wf(),
            container < old(self).spec_node_count(),
            contained < old(self).spec_node_count(),
        ensures
            final(self).wf(),
            final(self).spec_owner() == old(self).spec_owner(),
            final(self).spec_node_count() == old(self).spec_node_count(),
            final(self).spec_facts() == old(self).spec_facts(),
            final(self).spec_copy_edges() == old(self).spec_copy_edges(),
            final(self).spec_seeds() == old(self).spec_seeds(),
            final(self).spec_objects() == old(self).spec_objects(),
            final(self).spec_arguments_object() == old(self).spec_arguments_object(),
            final(self).spec_import_meta_object() == old(self).spec_import_meta_object(),
            final(self).spec_escape_dependencies().len() == old(self).spec_escape_dependencies().len(),
            forall|x: int|
                #![trigger final(self).spec_escape_dependencies()[x]]
                0 <= x < old(self).spec_node_count() && x != container ==> final(self).spec_escape_dependencies()[x] == old(self).spec_escape_dependencies()[x],
            forall|v: usize|
                #![trigger final(self).spec_escape_dependencies()[container as int]@.contains(v)]
                final(self).spec_escape_dependencies()[container as int]@.contains(v) <==> (old(self).spec_escape_dependencies()[container as int]@.contains(v) || v == contained),
    {
        self.add_escape_dependency(container, contained);
    }

    /// Marks `node` escaping and queues it, unless it is marked already.
    fn mark_escaping(flags: &mut Vec<bool>, worklist: &mut VecDeque<usize>, node: usize)
        requires
            node < old(flags)@.len(),
            old(flags)@.len() <= usize::MAX,
            forall|x: int|
                #![trigger old(flags)@[x]]
                0 <= x < old(flags)@.len() ==> (old(flags)@[x] <==> old(worklist)@.contains(
                    x as usize,
                )),
            old(worklist)@.no_duplicates(),
            forall|j: int|
                #![trigger old(worklist)@[j]]
                0 <= j < old(worklist)@.len() ==> old(worklist)@[j] < old(flags)@.len(),
        ensures
            final(flags)@ == old(flags)@.update(node as int, true),
            final(worklist)@ == (if old(flags)@[node as int] {
                old(worklist)@
            } else {
                old(worklist)@.push(node)
            }),
            final(worklist)@.no_duplicates(),
            forall|x: int|
                #![trigger final(flags)@[x]]
                0 <= x < final(flags)@.len() ==> (final(flags)@[x] <==> final(worklist)@.contains(
                    x as usize,
                )),
            forall|j: int|
                #![trigger final(worklist)@[j]]
                0 <= j < final(worklist)@.len() ==> final(worklist)@[j] < final(flags)@.len(),
    {
        if !flags[node] {
            flags.set(node, true);
            worklist.push_back(node);
            proof {
                assert forall|x: int|
                    #![trigger flags@[x]]
                    0 <= x < flags@.len() implies (flags@[x] <==> worklist@.contains(x as usize)) by {
                    if x == node as int {
                        assert(worklist@[worklist@.len() - 1] == node);
                    } else {
                        assert(old(flags)@[x] == flags@[x]);
                        if worklist@.contains(x as usize) {
                            let j = choose|j: int| 0 <= j < worklist@.len() && worklist@[j] == x as usize;
                            if j < old(worklist)@.len() {
                                assert(old(worklist)@[j] == x as usize);
                            }
                        }
                        if old(worklist)@.contains(x as usize) {
                            let j = choose|j: int|
                                0 <= j < old(worklist)@.len() && old(worklist)@[j] == x as usize;
                            assert(worklist@[j] == x as usize);
                        }
                    }
                }
            }
        } else {
            assert(old(flags)@.update(node as int, true) =~= old(flags)@);
        }
    }

    /// Seeds `node` as escaping.
    pub fn seed_escape(&mut self, node: usize)
        requires
            old(self).wf(),
            node < old(self).spec_node_count(),
        ensures
            final(self).wf(),
            final(self).spec_owner() == old(self).spec_owner(),
            final(self).spec_node_count() == old(self).spec_node_count(),
            final(self).spec_facts() == old(self).spec_facts(),
            final(self).spec_copy_edges() == old(self).spec_copy_edges(),
            final(self).spec_escape_dependencies() == old(self).spec_escape_dependencies(),
            final(self).spec_seeds() == old(self).spec_seeds().insert(node as int),
            final(self).spec_objects() == old(self).spec_objects(),
            final(self).spec_arguments_object() == old(self).spec_arguments_object(),
            final(self).spec_import_meta_object() == old(self).spec_import_meta_object(),
    {
        Self::mark_escaping(&mut self.escaping, &mut self.escape_worklist, node);
        assert(self.spec_seeds() =~= old(self).spec_seeds().insert(node as int));
    }

    /// Allocates a new abstract object of origin `kind`.
    pub fn allocate_object(&mut self, kind: AbstractObjectKind) -> (id: AbstractObjectId)
        requires
            old(self).wf(),
            old(self).spec_objects().len() <= u32::MAX,
        ensures
            final(self).wf(),
            final(self).spec_owner() == old(self).spec_owner(),
            final(self).spec_node_count() == old(self).spec_node_count(),
            final(self).spec_facts() == old(self).spec_facts(),
            final(self).spec_copy_edges() == old(self).spec_copy_edges(),
            final(self).spec_escape_dependencies() == old(self).spec_escape_dependencies(),
            final(self).spec_seeds() == old(self).spec_seeds(),
            id.spec_owner() == old(self).spec_owner(),
            id.spec_index() == old(self).spec_objects().len(),
            final(self).spec_objects() == old(self).spec_objects().push(AbstractObject::spec_new(id, kind)),
            final(self).spec_arguments_object() == old(self).spec_arguments_object(),
            final(self).spec_import_meta_object() == old(self).spec_import_meta_object(),
    {
        let id = AbstractObjectId::from_index(self.owner, self.objects.len());
        self.objects.push(AbstractObject::new(id, kind));
        proof {
            assert(self.objects@[id.spec_index() as int] == AbstractObject::spec_new(id, kind));
        }
        id
    }

    /// The function's `arguments` object, allocated on first use.
    pub fn arguments_object(&mut self) -> (id: AbstractObjectId)
        requires
            old(self).wf(),
            old(self).spec_objects().len() <= u32::MAX,
        ensures
            final(self).wf(),
            final(self).spec_owner() == old(self).spec_owner(),
            final(self).spec_node_count() == old(self).spec_node_count(),
            final(self).spec_facts() == old(self).spec_facts(),
            final(self).spec_copy_edges() == old(self).spec_copy_edges(),
            final(self).spec_escape_dependencies() == old(self).spec_escape_dependencies(),
            final(self).spec_seeds() == old(self).spec_seeds(),
            id.spec_owner() == old(self).spec_owner(),
            id.spec_index() < final(self).spec_objects().len(),
            final(self).spec_objects()[id.spec_index() as int].spec_kind()
                == AbstractObjectKind::ArgumentsObject,
            match old(self).spec_arguments_object() {
                Some(existing) => id == existing && final(self).spec_objects() == old(self).spec_objects(),
                None => final(self).spec_objects() == old(self).spec_objects().push(
                    AbstractObject::spec_new(id, AbstractObjectKind::ArgumentsObject),
                ) && id.spec_index() == old(self).spec_objects().len(),
            },
            final(self).spec_arguments_object() == Some(id),
            final(self).spec_import_meta_object() == old(self).spec_import_meta_object(),
    {
        if let Some(object) = self.arguments_object {
            return object;
        }
        let object = self.allocate_object(AbstractObjectKind::ArgumentsObject);
        proof {
            AbstractObject::lemma_new(object, AbstractObjectKind::ArgumentsObject);
            assert(self.objects@[object.spec_index() as int] == AbstractObject::spec_new(
                object,
                AbstractObjectKind::ArgumentsObject,
            ));
        }
        self.arguments_object = Some(object);
        object
    }

    /// The module's `import.meta` object, allocated on first use.
    pub fn import_meta_object(&mut self) -> (id: AbstractObjectId)
        requires
            old(self).wf(),
            old(self).spec_objects().len() <= u32::MAX,
        ensures
            final(self).wf(),
            final(self).spec_owner() == old(self).spec_owner(),
            final(self).spec_node_count() == old(self).spec_node_count(),
            final(self).spec_facts() == old(self).spec_facts(),
            final(self).spec_copy_edges() == old(self).spec_copy_edges(),
            final(self).spec_escape_dependencies() == old(self).spec_escape_dependencies(),
            final(self).spec_seeds() == old(self).spec_seeds(),
            id.spec_owner() == old(self).spec_owner(),
            id.spec_index() < final(self).spec_objects().len(),
            final(self).spec_objects()[id.spec_index() as int].spec_kind()
                == AbstractObjectKind::ImportMeta,
            match old(self).spec_import_meta_object() {
                Some(existing) => id == existing && final(self).spec_objects() == old(self).spec_objects(),
                None => final(self).spec_objects() == old(self).spec_objects().push(
                    AbstractObject::spec_new(id, AbstractObjectKind::ImportMeta),
                ) && id.spec_index() == old(self).spec_objects().len(),
            },
            final(self).spec_import_meta_object() == Some(id),
            final(self).spec_arguments_object() == old(self).spec_arguments_object(),
    {
        if let Some(object) = self.import_meta_object {
            return object;
        }
        let object = self.allocate_object(AbstractObjectKind::ImportMeta);
        proof {
            AbstractObject::lemma_new(object, AbstractObjectKind::ImportMeta);
            assert(self.objects@[object.spec_index() as int] == AbstractObject::spec_new(
                object,
                AbstractObjectKind::ImportMeta,
            ));
        }
        self.import_meta_object = Some(object);
        object
    }

    /// Propagates facts along the copy edges until nothing changes.
    fn solve_points_to(&mut self)
        requires
            old(self).wf(),
        ensures
            final(self).structure(),
            final(self).escapes_queued(),
            final(self).owner == old(self).owner,
            final(self).node_count == old(self).node_count,
            final(self).copy_edges == old(self).copy_edges,
            final(self).escape_dependencies == old(self).escape_dependencies,
            final(self).escaping == old(self).escaping,
            final(self).escape_worklist == old(self).escape_worklist,
            final(self).objects == old(self).objects,
            final(self).arguments_object == old(self).arguments_object,
            final(self).import_meta_object == old(self).import_meta_object,
            forall|x: int|
                #![trigger final(self).facts@[x]]
                0 <= x < old(self).node_count ==> is_reaching_fact(
                    final(self).facts@[x],
                    old(self).copy_edges@,
                    old(self).facts@,
                    x,
                ),
    {
        let ghost init = self.facts@;
        let ghost lists = self.copy_edges@;
        let ghost n = self.node_count as int;
        let ghost bound = self.objects@.len();
        let ghost cap: nat = (self.node_count as nat) * (bound + 2);
        proof {
            assert forall|x: int| 0 <= x < self.facts@.len() implies #[trigger] fact_size(self.facts@[x]) <= bound + 2 by {
                lemma_fact_size_bound(self.facts@[x], bound);
            }
            lemma_total_bound(self.facts@, bound + 2);
            assert forall|x: int| #![trigger self.facts@[x]] 0 <= x < n implies le_reaching(self.facts@[x], lists, init, x) by {
                lemma_init_reaches(lists, init, x);
            }
            assert forall|s: int, k: int|
                #![trigger lists[s]@[k]]
                0 <= s < n && 0 <= k < lists[s]@.len() implies fact_le_beyond(
                    self.facts@[s],
                    self.pending@[s],
                    self.facts@[lists[s]@[k] as int],
                ) by {
                assert(fact_same(self.pending@[s], self.facts@[s]));
                assert(self.facts@[s].known().difference(self.pending@[s].known()) =~= Set::<nat>::empty());
            }
        }
        while self.fact_worklist.len() > 0
            invariant
                self.structure(),
                self.escapes_queued(),
                self.owner == old(self).owner,
                self.node_count == old(self).node_count,
                self.copy_edges == old(self).copy_edges,
                self.escape_dependencies == old(self).escape_dependencies,
                self.escaping == old(self).escaping,
                self.escape_worklist == old(self).escape_worklist,
                self.objects == old(self).objects,
                self.arguments_object == old(self).arguments_object,
                self.import_meta_object == old(self).import_meta_object,
                init == old(self).facts@,
                lists == self.copy_edges@,
                n == self.node_count,
                bound == self.objects@.len(),
                cap == (self.node_count as nat) * (bound + 2),
                forall|s: int, k: int|
                    #![trigger lists[s]@[k]]
                    0 <= s < n && 0 <= k < lists[s]@.len() ==> fact_le_beyond(
                        self.facts@[s],
                        self.pending@[s],
                        self.facts@[lists[s]@[k] as int],
                    ),
                forall|x: int| #![trigger self.facts@[x]] 0 <= x < n ==> fact_le(init[x], self.facts@[x]),
                forall|x: int|
                    #![trigger self.facts@[x]]
                    0 <= x < n ==> le_reaching(self.facts@[x], lists, init, x),
                total_size(self.facts@) <= cap,
            decreases cap - total_size(self.facts@), self.fact_worklist@.len(),
        {
            let ghost before = self.fact_worklist@;
            let ghost total0 = total_size(self.facts@);
            let source = match self.fact_worklist.pop_front() {
                Some(node) => node,
                None => {
                    return;
                },
            };
            proof {
                assert(before[0] == source);
                assert(source < self.node_count);
                assert(!self.fact_worklist@.contains(source)) by {
                    if self.fact_worklist@.contains(source) {
                        let j = choose|j: int| 0 <= j < self.fact_worklist@.len() && self.fact_worklist@[j] == source;
                        assert(before[j + 1] == before[0]);
                    }
                }
                assert forall|x: int| #![trigger self.queued@[x]] 0 <= x < n && x != source implies (self.queued@[x]
                    <==> self.fact_worklist@.contains(x as usize)) by {
                    if before.contains(x as usize) {
                        let j = choose|j: int| 0 <= j < before.len() && before[j] == x as usize;
                        assert(self.fact_worklist@[j - 1] == x as usize);
                    }
                    if self.fact_worklist@.contains(x as usize) {
                        let j = choose|j: int| 0 <= j < self.fact_worklist@.len() && self.fact_worklist@[j] == x as usize;
                        assert(before[j + 1] == x as usize);
                    }
                }
                assert(self.fact_worklist@.no_duplicates()) by {
                    assert forall|a: int, b: int| 0 <= a < b < self.fact_worklist@.len() implies self.fact_worklist@[a] != self.fact_worklist@[b] by {
                        assert(before[a + 1] == self.fact_worklist@[a] && before[b + 1] == self.fact_worklist@[b]);
                    }
                }
                assert forall|j: int| #![trigger self.fact_worklist@[j]] 0 <= j < self.fact_worklist@.len() implies self.fact_worklist@[j] < n by {
                    assert(before[j + 1] == self.fact_worklist@[j]);
                }
            }
            self.queued.set(source, false);
            let delta = self.pending[source].clone();
            self.pending.set(source, PointsToSet::bottom(self.owner));
            let ghost w0 = self.fact_worklist@.len();
            proof {
                assert(fact_le(delta, self.facts@[source as int]));
                assert(le_reaching(delta, lists, init, source as int));
                assert forall|i: nat| #[trigger] delta.known().contains(i) implies i < bound by {
                    assert(self.facts@[source as int].known().contains(i));
                }
                assert(self.structure()) by {
                    assert forall|x: int| #![trigger self.queued@[x]] 0 <= x < n implies (self.queued@[x]
                        <==> self.fact_worklist@.contains(x as usize)) by {
                        if x == source as int {
                        }
                    }
                }
            }
            let mut k: usize = 0;
            while k < self.copy_edges[source].len()
                invariant
                    self.structure(),
                    self.escapes_queued(),
                    self.owner == old(self).owner,
                    self.node_count == old(self).node_count,
                    self.copy_edges == old(self).copy_edges,
                    self.escape_dependencies == old(self).escape_dependencies,
                    self.escaping == old(self).escaping,
                    self.escape_worklist == old(self).escape_worklist,
                    self.objects == old(self).objects,
                    self.arguments_object == old(self).arguments_object,
                    self.import_meta_object == old(self).import_meta_object,
                    init == old(self).facts@,
                    lists == self.copy_edges@,
                    n == self.node_count,
                    bound == self.objects@.len(),
                    cap == (self.node_count as nat) * (bound + 2),
                    source < n,
                    k <= lists[source as int]@.len(),
                    delta.spec_owner() == self.owner,
                    forall|i: nat| #[trigger] delta.known().contains(i) ==> i < bound,
                    fact_is_bottom(self.pending@[source as int]),
                    fact_le(delta, self.facts@[source as int]),
                    le_reaching(delta, lists, init, source as int),
                    forall|s: int, j: int|
                        #![trigger lists[s]@[j]]
                        0 <= s < n && 0 <= j < lists[s]@.len() ==> fact_le_beyond(
                            self.facts@[s],
                            if s == source as int { delta } else { self.pending@[s] },
                            self.facts@[lists[s]@[j] as int],
                        ),
                    forall|j: int|
                        #![trigger lists[source as int]@[j]]
                        0 <= j < k ==> fact_le(delta, self.facts@[lists[source as int]@[j] as int]),
                    forall|x: int| #![trigger self.facts@[x]] 0 <= x < n ==> fact_le(init[x], self.facts@[x]),
                    forall|x: int|
                        #![trigger self.facts@[x]]
                        0 <= x < n ==> le_reaching(self.facts@[x], lists, init, x),
                    total_size(self.facts@) <= cap,
                    total_size(self.facts@) >= total0,
                    total_size(self.facts@) == total0 ==> self.fact_worklist@.len() == w0,
                decreases lists[source as int]@.len() - k,
            {
                let target = self.copy_edges[source][k];
                let ghost facts0 = self.facts@;
                let ghost pending0 = self.pending@;
                proof {
                    assert(lists[source as int]@[k as int] == target);
                    assert(target < n);
                    assert(list_step(lists)(source as int, target as int));
                    lemma_reaching_step(lists, init, source as int, target as int);
                }
                self.join_fact(target, &delta);
                proof {
                    let t = target as int;
                    assert(le_reaching(self.facts@[t], lists, init, t));
                    assert forall|x: int| #![trigger self.facts@[x]] 0 <= x < n implies fact_le(init[x], self.facts@[x]) && le_reaching(self.facts@[x], lists, init, x) by {
                        if x != t {
                            assert(self.facts@[x] == facts0[x]);
                        }
                    }
                    assert(fact_le(delta, self.facts@[source as int]));
                    assert forall|s: int, j: int|
                        #![trigger lists[s]@[j]]
                        0 <= s < n && 0 <= j < lists[s]@.len() implies fact_le_beyond(
                            self.facts@[s],
                            if s == source as int { delta } else { self.pending@[s] },
                            self.facts@[lists[s]@[j] as int],
                        ) by {
                        let u = lists[s]@[j] as int;
                        let p0 = if s == source as int { delta } else { pending0[s] };
                        let p1 = if s == source as int { delta } else { self.pending@[s] };
                        assert(fact_le_beyond(facts0[s], p0, facts0[u]));
                        assert(fact_le(facts0[u], self.facts@[u]));
                        if s == t && s != source as int {
                            assert(self.facts@[s].known().difference(p1.known()).subset_of(
                                facts0[s].known().difference(p0.known()),
                            ));
                        } else if s == t {
                            assert(self.facts@[s].known() =~= facts0[s].known());
                        } else {
                            assert(self.facts@[s] == facts0[s]);
                            assert(p1 == p0);
                        }
                    }
                    assert forall|j: int|
                        #![trigger lists[source as int]@[j]]
                        0 <= j < k + 1 implies fact_le(delta, self.facts@[lists[source as int]@[j] as int]) by {
                        let u = lists[source as int]@[j] as int;
                        assert(fact_le(facts0[u], self.facts@[u]));
                    }
                    if t == source as int {
                        assert(self.pending@[t].known() =~= Set::<nat>::empty());
                    } else {
                        assert(self.pending@[source as int] == pending0[source as int]);
                    }
                    assert forall|x: int| 0 <= x < self.facts@.len() implies #[trigger] fact_size(self.facts@[x]) <= bound + 2 by {
                        lemma_fact_size_bound(self.facts@[x], bound);
                    }
                    lemma_total_bound(self.facts@, bound + 2);
                }
                k = k + 1;
            }
            proof {
                assert forall|s: int, j: int|
                    #![trigger lists[s]@[j]]
                    0 <= s < n && 0 <= j < lists[s]@.len() implies fact_le_beyond(
                        self.facts@[s],
                        self.pending@[s],
                        self.facts@[lists[s]@[j] as int],
                    ) by {
                    if s == source as int {
                        let u = lists[s]@[j] as int;
                        assert(fact_le(delta, self.facts@[u]));
                        assert(fact_le_beyond(self.facts@[s], delta, self.facts@[u]));
                    }
                }
            }
        }
        proof {
            assert forall|x: int| #![trigger self.pending@[x]] 0 <= x < n implies fact_is_bottom(self.pending@[x]) by {
                if !fact_is_bottom(self.pending@[x]) {
                    assert(self.queued@[x]);
                    assert(self.fact_worklist@.contains(x as usize));
                }
            }
            assert forall|s: int, j: int|
                #![trigger lists[s]@[j]]
                0 <= s < n && 0 <= j < lists[s]@.len() implies fact_le(
                    self.facts@[s],
                    self.facts@[lists[s]@[j] as int],
                ) by {
                assert(fact_is_bottom(self.pending@[s]));
                assert(fact_le_beyond(self.facts@[s], self.pending@[s], self.facts@[lists[s]@[j] as int]));
                assert(self.facts@[s].known().difference(self.pending@[s].known()) =~= self.facts@[s].known());
            }
            lemma_closed_facts_cover(lists, init, self.facts@);
            assert forall|x: int|
                #![trigger self.facts@[x]]
                0 <= x < n implies is_reaching_fact(self.facts@[x], lists, init, x) by {
                assert(le_reaching(self.facts@[x], lists, init, x));
                assert(self.facts@[x].known() =~= reaching_known(lists, init, x));
            }
        }
    }

    /// Spreads escape from the seeded nodes along the dependency edges.
    fn propagate_escape(&mut self)
        requires
            old(self).structure(),
            old(self).escapes_queued(),
        ensures
            final(self).structure(),
            final(self).owner == old(self).owner,
            final(self).node_count == old(self).node_count,
            final(self).copy_edges == old(self).copy_edges,
            final(self).escape_dependencies == old(self).escape_dependencies,
            final(self).facts == old(self).facts,
            final(self).objects == old(self).objects,
            final(self).escaping@.len() == old(self).escaping@.len(),
            forall|x: int|
                #![trigger final(self).escaping@[x]]
                0 <= x < old(self).node_count ==> (final(self).escaping@[x] <==> escapes_from(
                    old(self).escape_dependencies@,
                    old(self).spec_seeds(),
                    x,
                )),
    {
        let ghost deps = self.escape_dependencies@;
        let ghost seeds = old(self).spec_seeds();
        let ghost step = list_step(deps);
        let ghost n = self.node_count as int;
        proof {
            assert forall|x: int| #![trigger self.escaping@[x]] 0 <= x < n && self.escaping@[x] implies escapes_from(deps, seeds, x) by {
                assert(seeds.contains(x));
                lemma_reaches_self(step, x);
            }
        }
        while self.escape_worklist.len() > 0
            invariant
                self.structure(),
                self.owner == old(self).owner,
                self.node_count == old(self).node_count,
                self.copy_edges == old(self).copy_edges,
                self.escape_dependencies == old(self).escape_dependencies,
                self.facts == old(self).facts,
                self.objects == old(self).objects,
                deps == self.escape_dependencies@,
                seeds == old(self).spec_seeds(),
                step == list_step(deps),
                n == self.node_count,
                self.escaping@.len() == n,
                self.escape_worklist@.no_duplicates(),
                forall|j: int|
                    #![trigger self.escape_worklist@[j]]
                    0 <= j < self.escape_worklist@.len() ==> self.escape_worklist@[j] < n
                        && self.escaping@[self.escape_worklist@[j] as int],
                forall|x: int|
                    #![trigger self.escaping@[x]]
                    0 <= x < n && self.escaping@[x] ==> escapes_from(deps, seeds, x),
                forall|x: int| #![trigger self.escaping@[x]] 0 <= x < n && seeds.contains(x) ==> self.escaping@[x],
                forall|x: int, k: int|
                    #![trigger deps[x]@[k]]
                    0 <= x < n && 0 <= k < deps[x]@.len() && self.escaping@[x]
                        && !self.escape_worklist@.contains(x as usize) ==> self.escaping@[deps[x]@[k] as int],
            decreases count_unvisited(self.escaping@), self.escape_worklist@.len(),
        {
            let ghost before = self.escape_worklist@;
            let node = match self.escape_worklist.pop_front() {
                Some(node) => node,
                None => {
                    return;
                },
            };
            let ghost w0 = self.escape_worklist@.len();
            let ghost unvisited0 = count_unvisited(self.escaping@);
            proof {
                assert(before[0] == node);
                assert(!self.escape_worklist@.contains(node)) by {
                    if self.escape_worklist@.contains(node) {
                        let j = choose|j: int| 0 <= j < self.escape_worklist@.len() && self.escape_worklist@[j] == node;
                        assert(before[j + 1] == before[0]);
                    }
                }
                assert(self.escape_worklist@.no_duplicates()) by {
                    assert forall|a: int, b: int| 0 <= a < b < self.escape_worklist@.len() implies self.escape_worklist@[a] != self.escape_worklist@[b] by {
                        assert(before[a + 1] == self.escape_worklist@[a] && before[b + 1] == self.escape_worklist@[b]);
                    }
                }
                assert forall|j: int| #![trigger self.escape_worklist@[j]] 0 <= j < self.escape_worklist@.len() implies self.escape_worklist@[j] < n
                    && self.escaping@[self.escape_worklist@[j] as int] by {
                    assert(before[j + 1] == self.escape_worklist@[j]);
                }
                assert forall|x: int| 0 <= x < n && before.contains(x as usize) && x != node as int implies #[trigger] self.escape_worklist@.contains(x as usize) by {
                    let j = choose|j: int| 0 <= j < before.len() && before[j] == x as usize;
                    assert(self.escape_worklist@[j - 1] == x as usize);
                }
            }
            let mut k: usize = 0;
            while k < self.escape_dependencies[node].len()
                invariant
                    self.structure(),
                    self.owner == old(self).owner,
                    self.node_count == old(self).node_count,
                    self.copy_edges == old(self).copy_edges,
                    self.escape_dependencies == old(self).escape_dependencies,
                    self.facts == old(self).facts,
                    self.objects == old(self).objects,
                    deps == self.escape_dependencies@,
                    seeds == old(self).spec_seeds(),
                    step == list_step(deps),
                    n == self.node_count,
                    node < n,
                    self.escaping@[node as int],
                    !self.escape_worklist@.contains(node),
                    k <= deps[node as int]@.len(),
                    self.escaping@.len() == n,
                    self.escape_worklist@.no_duplicates(),
                    forall|j: int|
                        #![trigger self.escape_worklist@[j]]
                        0 <= j < self.escape_worklist@.len() ==> self.escape_worklist@[j] < n
                            && self.escaping@[self.escape_worklist@[j] as int],
                    forall|x: int|
                        #![trigger self.escaping@[x]]
                        0 <= x < n && self.escaping@[x] ==> escapes_from(deps, seeds, x),
                    forall|x: int| #![trigger self.escaping@[x]] 0 <= x < n && seeds.contains(x) ==> self.escaping@[x],
                    forall|x: int, j: int|
                        #![trigger deps[x]@[j]]
                        0 <= x < n && 0 <= j < deps[x]@.len() && self.escaping@[x] && x != node as int
                            && !self.escape_worklist@.contains(x as usize) ==> self.escaping@[deps[x]@[j] as int],
                    forall|j: int| #![trigger deps[node as int]@[j]] 0 <= j < k ==> self.escaping@[deps[node as int]@[j] as int],
                    count_unvisited(self.escaping@) <= unvisited0,
                    count_unvisited(self.escaping@) == unvisited0 ==> self.escape_worklist@.len() == w0,
                decreases deps[node as int]@.len() - k,
            {
                let dependency = self.escape_dependencies[node][k];
                proof {
                    assert(deps[node as int]@[k as int] == dependency);
                    assert(dependency < n);
                }
                if !self.escaping[dependency] {
                    let ghost flags0 = self.escaping@;
                    let ghost list0 = self.escape_worklist@;
                    self.escaping.set(dependency, true);
                    self.escape_worklist.push_back(dependency);
                    proof {
                        lemma_count_unvisited_mark(flags0, dependency as int);
                        assert(step(node as int, dependency as int));
                        let s0 = choose|s0: int| #[trigger] seeds.contains(s0) && reaches(step, s0, node as int);
                        lemma_reaches_step(step, s0, node as int, dependency as int);
                        assert(escapes_from(deps, seeds, dependency as int));
                        assert(self.escape_worklist@.no_duplicates()) by {
                            assert forall|a: int, b: int| 0 <= a < b < self.escape_worklist@.len() implies self.escape_worklist@[a] != self.escape_worklist@[b] by {
                                if b == list0.len() {
                                    assert(list0[a] == self.escape_worklist@[a]);
                                    assert(flags0[list0[a] as int]);
                                } else {
                                    assert(list0[a] == self.escape_worklist@[a] && list0[b] == self.escape_worklist@[b]);
                                }
                            }
                        }
                        assert forall|j: int|
                            #![trigger self.escape_worklist@[j]]
                            0 <= j < self.escape_worklist@.len() implies self.escape_worklist@[j] < n
                                && self.escaping@[self.escape_worklist@[j] as int] by {
                            if j < list0.len() {
                                assert(list0[j] == self.escape_worklist@[j]);
                            }
                        }
                        assert(!self.escape_worklist@.contains(node)) by {
                            if self.escape_worklist@.contains(node) {
                                let j = choose|j: int| 0 <= j < self.escape_worklist@.len() && self.escape_worklist@[j] == node;
                                assert(list0[j] == node);
                            }
                        }
                        assert forall|x: int, j: int|
                            #![trigger deps[x]@[j]]
                            0 <= x < n && 0 <= j < deps[x]@.len() && self.escaping@[x] && x != node as int
                                && !self.escape_worklist@.contains(x as usize) implies self.escaping@[deps[x]@[j] as int] by {
                            if x != dependency as int {
                                assert(flags0[x]);
                                if list0.contains(x as usize) {
                                    let i = choose|i: int| 0 <= i < list0.len() && list0[i] == x as usize;
                                    assert(self.escape_worklist@[i] == x as usize);
                                }
                            } else {
                                assert(self.escape_worklist@[list0.len() as int] == dependency);
                            }
                        }
                    }
                }
                k = k + 1;
            }
        }
        proof {
            assert forall|u: int, v: int| #[trigger] step(u, v) && (0 <= u < n && self.escaping@[u]) implies 0 <= v < n && self.escaping@[v] by {
                let k = choose|k: int| #![trigger deps[u]@[k]] 0 <= k < deps[u]@.len() && deps[u]@[k] as int == v;
                assert(deps[u]@[k] < n);
            }
            assert forall|x: int|
                #![trigger self.escaping@[x]]
                0 <= x < n implies (self.escaping@[x] <==> escapes_from(deps, seeds, x)) by {
                if escapes_from(deps, seeds, x) {
                    let s0 = choose|s0: int| #[trigger] seeds.contains(s0) && reaches(step, s0, x);
                    let holds = |y: int| 0 <= y < n && self.escaping@[y];
                    assert(0 <= s0 < n);
                    lemma_closed_set_contains_reachable(step, holds, s0, x);
                }
            }
        }
    }

    /// Gathers the objects of every escaping node.
    fn finish(self) -> (result: PointerResult)
        requires
            self.structure(),
        ensures
            result.owner == self.owner,
            result.facts@ == self.facts@,
            result.objects@ == self.objects@,
            result.escaping_objects@ == Set::new(
                |i: nat|
                    exists|x: int|
                        #![trigger self.facts@[x]]
                        0 <= x < self.node_count && self.escaping@[x] && self.facts@[x].known().contains(i),
            ),
    {
        let ghost want = Set::new(
            |i: nat|
                exists|x: int|
                    #![trigger self.facts@[x]]
                    0 <= x < self.node_count && self.escaping@[x] && self.facts@[x].known().contains(i),
        );
        let mut escaping_objects = SparseBitSet::new();
        let mut x: usize = 0;
        while x < self.node_count
            invariant
                self.structure(),
                x <= self.node_count,
                escaping_objects@ == Set::new(
                    |i: nat|
                        exists|y: int|
                            #![trigger self.facts@[y]]
                            0 <= y < x && self.escaping@[y] && self.facts@[y].known().contains(i),
                ),
            decreases self.node_count - x,
        {
            let ghost prior = escaping_objects@;
            if self.escaping[x] {
                self.facts[x].union_objects_into(&mut escaping_objects);
            }
            proof {
                let next = Set::new(
                    |i: nat|
                        exists|y: int|
                            #![trigger self.facts@[y]]
                            0 <= y < x + 1 && self.escaping@[y] && self.facts@[y].known().contains(i),
                );
                assert forall|i: nat| escaping_objects@.contains(i) == next.contains(i) by {
                    if next.contains(i) {
                        let y = choose|y: int|
                            #![trigger self.facts@[y]]
                            0 <= y < x + 1 && self.escaping@[y] && self.facts@[y].known().contains(i);
                        if y < x {
                            assert(prior.contains(i));
                        }
                    }
                    if escaping_objects@.contains(i) && !prior.contains(i) {
                        assert(self.facts@[x as int].known().contains(i));
                    }
                }
                assert(escaping_objects@ =~= next);
            }
            x = x + 1;
        }
        proof {
            assert(escaping_objects@ =~= want);
        }
        PointerResult {
            owner: self.owner,
            facts: self.facts,
            objects: self.objects,
            escaping_objects,
        }
    }

    /// Solves the problem: the fact of every node is everything its copy
    /// edges bring to it, and the objects of every node that a seed reaches
    /// along the dependency edges escape.
    pub fn solve(self) -> (result: PointerResult)
        requires
            self.wf(),
        ensures
            result.owner == self.spec_owner(),
            result.objects@ == self.spec_objects(),
            forall|k: int|
                #![trigger result.objects@[k]]
                0 <= k < result.objects@.len() ==> result.objects@[k].spec_id().spec_owner()
                    == self.spec_owner() && result.objects@[k].spec_id().spec_index() == k,
            result.objects@.len() <= u32::MAX + 1,
            result.facts@.len() == self.spec_node_count(),
            forall|x: int|
                #![trigger result.facts@[x]]
                0 <= x < self.spec_node_count() ==> result.facts@[x].spec_owner() == self.spec_owner()
                    && is_reaching_fact(result.facts@[x], self.spec_copy_edges(), self.spec_facts(), x),
            forall|x: int, i: nat|
                #![trigger result.facts@[x].known().contains(i)]
                0 <= x < self.spec_node_count() && result.facts@[x].known().contains(i) ==> i
                    < self.spec_objects().len(),
            result.escaping_objects@ == escaping_objects_of(
                self.spec_escape_dependencies(),
                self.spec_seeds(),
                result.facts@,
            ),
    {
        let ghost deps = self.escape_dependencies@;
        let ghost seeds = self.spec_seeds();
        let mut solver = self;
        solver.solve_points_to();
        solver.propagate_escape();
        let ghost facts = solver.facts@;
        let ghost escaping = solver.escaping@;
        let ghost n = solver.node_count as int;
        let result = solver.finish();
        proof {
            assert forall|i: nat| result.escaping_objects@.contains(i) == escaping_objects_of(deps, seeds, result.facts@).contains(i) by {
                if result.escaping_objects@.contains(i) {
                    let x = choose|x: int|
                        #![trigger facts[x]]
                        0 <= x < n && escaping[x] && facts[x].known().contains(i);
                    assert(result.facts@[x] == facts[x]);
                }
                if escaping_objects_of(deps, seeds, result.facts@).contains(i) {
                    let x = choose|x: int|
                        #![trigger result.facts@[x]]
                        0 <= x < result.facts@.len() && escapes_from(deps, seeds, x) && result.facts@[x].known().contains(i);
                    assert(escaping[x]);
                    assert(facts[x] == result.facts@[x]);
                }
            }
            assert(result.escaping_objects@ =~= escaping_objects_of(deps, seeds, result.facts@));
        }
        result
    }

    /// Queues `node` for propagation unless it is queued already.
    fn queue_fact(&mut self, node: usize)
        requires
            node < old(self).node_count,
            old(self).queued@.len() == old(self).node_count,
            forall|x: int|
                #![trigger old(self).queued@[x]]
                0 <= x < old(self).node_count ==> (old(self).queued@[x]
                    <==> old(self).fact_worklist@.contains(x as usize)),
            old(self).fact_worklist@.no_duplicates(),
        ensures
            final(self).queued@ == old(self).queued@.update(node as int, true),
            final(self).fact_worklist@ == (if old(self).queued@[node as int] {
                old(self).fact_worklist@
            } else {
                old(self).fact_worklist@.push(node)
            }),
            final(self).fact_worklist@.no_duplicates(),
            forall|x: int|
                #![trigger final(self).queued@[x]]
                0 <= x < final(self).node_count ==> (final(self).queued@[x]
                    <==> final(self).fact_worklist@.contains(x as usize)),
            final(self).owner == old(self).owner,
            final(self).node_count == old(self).node_count,
            final(self).copy_edges == old(self).copy_edges,
            final(self).escape_dependencies == old(self).escape_dependencies,
            final(self).facts == old(self).facts,
            final(self).pending == old(self).pending,
            final(self).escaping == old(self).escaping,
            final(self).escape_worklist == old(self).escape_worklist,
            final(self).objects == old(self).objects,
            final(self).arguments_object == old(self).arguments_object,
            final(self).import_meta_object == old(self).import_meta_object,
    {
        if !self.queued[node] {
            self.queued.set(node, true);
            self.fact_worklist.push_back(node);
            proof {
                assert forall|x: int|
                    #![trigger self.queued@[x]]
                    0 <= x < self.node_count implies (self.queued@[x]
                        <==> self.fact_worklist@.contains(x as usize)) by {
                    if x == node as int {
                        assert(self.fact_worklist@[self.fact_worklist@.len() - 1] == node);
                    } else {
                        if self.fact_worklist@.contains(x as usize) {
                            let j = choose|j: int|
                                0 <= j < self.fact_worklist@.len() && self.fact_worklist@[j]
                                    == x as usize;
                            assert(old(self).fact_worklist@[j] == x as usize);
                        }
                        if old(self).fact_worklist@.contains(x as usize) {
                            let j = choose|j: int|
                                0 <= j < old(self).fact_worklist@.len() && old(self).fact_worklist@[j] == x as usize;
                            assert(self.fact_worklist@[j] == x as usize);
                        }
                    }
                }
            }
        } else {
            assert(old(self).queued@.update(node as int, true) =~= old(self).queued@);
        }
    }
}

} // verus!
