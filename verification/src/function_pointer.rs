//! Function-local pointer, alias and escape facts for JavaScript values.

use vstd::prelude::*;

use crate::ir::ModuleIr;
use crate::paths::reaches;
use crate::pointer_flow::escaping_objects;
use crate::pointer_flow::is_pointer_problem;
use crate::pointer_flow::node_escapes;
use crate::pointer_flow::object_plan;
use crate::pointer_flow::pointer_analyzable;
use crate::pointer_flow::pointer_copies;
use crate::pointer_flow::pointer_escape_edges;
use crate::pointer_flow::pointer_problem;
use crate::pointer_flow::pointer_seed;
use crate::pointer_flow::reaching_objects;
use crate::pointer_flow::reaching_primitive;
use crate::pointer_flow::reaching_unknown_object;
use crate::pointer_solver::escapes_from;
use crate::pointer_solver::list_step;
use crate::pointer_solver::PointerResult;
use crate::points_to::AbstractObject;
use crate::points_to::AbstractObjectId;
use crate::points_to::AnalysisOwner;
use crate::points_to::PointsToSet;
use crate::sparse_bitset::SparseBitSet;

verus! {

/// Relationship between the object identities denoted by two SSA values.
#[derive(Debug, Clone, Copy, PartialEq, Eq, Structural, Hash)]
pub enum AliasResult {
    /// The values cannot denote the same runtime object.
    NoAlias,
    /// The values may denote the same runtime object.
    MayAlias,
    /// The values are proven to denote the same runtime object.
    MustAlias,
}

/// Whether a tracked abstract object may leave the analyzed activation.
#[derive(Debug, Clone, Copy, PartialEq, Eq, Structural, Hash)]
pub enum EscapeResult {
    /// The object remains within the analyzed activation.
    DoesNotEscape,
    /// The object may become reachable outside the analyzed activation.
    MayEscape,
}

/// The only known object of a fact without unknown objects, if it has exactly one.
pub open spec fn sole_object(fact: PointsToSet) -> Option<nat> {
    if !fact.spec_unknown_object() && exists|i: nat| fact.known() == set![i] {
        Some(choose|i: nat| fact.known() == set![i])
    } else {
        None
    }
}

/// A fact whose known objects are exactly `{i}`, with no unknown object, has `i` as its sole object.
proof fn lemma_sole_object(fact: PointsToSet, i: nat)
    requires
        !fact.spec_unknown_object(),
        fact.known() == set![i],
    ensures
        sole_object(fact) == Some(i),
{
    assert(exists|j: nat| fact.known() == set![j]);
    let c = choose|j: nat| fact.known() == set![j];
    assert(set![c].contains(c));
    assert(set![i].contains(c));
}

/// Whether two facts share a known object.
pub open spec fn share_known(left: PointsToSet, right: PointsToSet) -> bool {
    exists|i: nat| left.known().contains(i) && right.known().contains(i)
}

/// Whether some known object of `fact` is in `escaping`.
pub open spec fn meets_escaping(fact: PointsToSet, escaping: Set<nat>) -> bool {
    exists|i: nat| fact.known().contains(i) && escaping.contains(i)
}

/// Immutable pointer, alias and escape facts for one function snapshot.
///
/// The analysis is flow-insensitive and allocation-site based. Values are
/// numbered densely from zero; each has one fact.
#[derive(Debug)]
pub struct FunctionPointerAnalysis {
    owner: AnalysisOwner,
    function: u32,
    points_to: Vec<PointsToSet>,
    objects: Vec<AbstractObject>,
    escaping_objects: SparseBitSet,
}

impl FunctionPointerAnalysis {
    #[verifier::type_invariant]
    spec fn well_formed(self) -> bool {
        &&& forall|v: int|
            #![trigger self.points_to@[v]]
            0 <= v < self.points_to@.len() ==> self.points_to@[v].spec_owner() == self.owner
        &&& forall|k: int|
            #![trigger self.objects@[k]]
            0 <= k < self.objects@.len() ==> self.objects@[k].spec_id().spec_owner() == self.owner
                && self.objects@[k].spec_id().spec_index() == k
    }

    /// The analysis result every fact and object belongs to.
    pub closed spec fn spec_owner(&self) -> AnalysisOwner {
        self.owner
    }

    /// The analyzed function.
    pub closed spec fn spec_function(&self) -> u32 {
        self.function
    }

    /// The fact of every value.
    pub closed spec fn spec_points_to(&self) -> Seq<PointsToSet> {
        self.points_to@
    }

    /// Every abstract object, indexed by its identity.
    pub closed spec fn spec_objects(&self) -> Seq<AbstractObject> {
        self.objects@
    }

    /// The indices of the objects that may escape.
    pub closed spec fn spec_escaping(&self) -> Set<nat> {
        self.escaping_objects@
    }

    /// The object named by `object`, if it belongs to this result.
    pub open spec fn spec_object(&self, object: AbstractObjectId) -> Option<AbstractObject> {
        if object.spec_owner() == self.spec_owner() && object.spec_index() < self.spec_objects().len() {
            Some(self.spec_objects()[object.spec_index() as int])
        } else {
            None
        }
    }

    /// Whether the object numbered `index` is tracked and has an origin that
    /// every evaluation in one activation yields anew as the same object.
    pub open spec fn stable_object(&self, index: nat) -> bool {
        index < self.spec_objects().len()
            && self.spec_objects()[index as int].spec_kind().spec_is_stable_contextual_identity()
    }

    /// How the objects denoted by values `left` and `right` relate.
    pub open spec fn spec_alias(&self, left: usize, right: usize) -> AliasResult {
        let n = self.spec_points_to().len();
        if left >= n || right >= n {
            AliasResult::MayAlias
        } else {
            let l = self.spec_points_to()[left as int];
            let r = self.spec_points_to()[right as int];
            if !l.spec_may_be_object() || !r.spec_may_be_object() {
                AliasResult::NoAlias
            } else if left == right && l.spec_is_definitely_object() {
                AliasResult::MustAlias
            } else if l.spec_is_definitely_object() && r.spec_is_definitely_object() && sole_object(
                l,
            ) == sole_object(r) && sole_object(l) is Some && self.stable_object(
                sole_object(l)->0,
            ) {
                AliasResult::MustAlias
            } else if share_known(l, r) || (l.spec_unknown_object() && r.spec_may_be_object()) || (
            r.spec_unknown_object() && l.spec_may_be_object()) {
                AliasResult::MayAlias
            } else {
                AliasResult::NoAlias
            }
        }
    }

    /// The escape result for the known objects of value `value`.
    pub open spec fn spec_escape_result(&self, value: usize) -> Option<EscapeResult> {
        if value >= self.spec_points_to().len() {
            None
        } else {
            let fact = self.spec_points_to()[value as int];
            if fact.known() == Set::<nat>::empty() {
                None
            } else if fact.spec_unknown_object() || meets_escaping(fact, self.spec_escaping()) {
                Some(EscapeResult::MayEscape)
            } else {
                Some(EscapeResult::DoesNotEscape)
            }
        }
    }

    /// Whether an object denoted by value `value` may escape.
    pub open spec fn spec_may_escape(&self, value: usize) -> bool {
        if value >= self.spec_points_to().len() {
            true
        } else {
            let fact = self.spec_points_to()[value as int];
            fact.spec_unknown_object() || meets_escaping(fact, self.spec_escaping())
        }
    }

    /// The facts of a solved pointer problem about `function`, whose first
    /// `value_count` nodes are the function's values.
    pub fn from_solution(function: u32, value_count: usize, result: PointerResult) -> (analysis: Self)
        requires
            value_count <= result.facts@.len(),
            forall|x: int|
                #![trigger result.facts@[x]]
                0 <= x < result.facts@.len() ==> result.facts@[x].spec_owner() == result.owner,
            forall|k: int|
                #![trigger result.objects@[k]]
                0 <= k < result.objects@.len() ==> result.objects@[k].spec_id().spec_owner()
                    == result.owner && result.objects@[k].spec_id().spec_index() == k,
        ensures
            analysis.spec_owner() == result.owner,
            analysis.spec_function() == function,
            analysis.spec_points_to() == result.facts@.subrange(0, value_count as int),
            analysis.spec_objects() == result.objects@,
            analysis.spec_escaping() == result.escaping_objects@,
    {
        let PointerResult { owner, facts, objects, escaping_objects } = result;
        let mut points_to = facts;
        points_to.truncate(value_count);
        FunctionPointerAnalysis { owner, function, points_to, objects, escaping_objects }
    }

    /// Computes the points-to, alias and escape facts of function `function`
    /// of `module`; `None` for a function the module lacks. `generation`
    /// tells this result's objects apart from those of every other result:
    /// the library keeps no global counter, so the caller gives each analysis
    /// of a function a generation that no other analysis of it received,
    /// such as one drawn from an `OwnerGenerations` source shared by all
    /// analyses, and objects of two results are then never mistaken for one
    /// another.
    ///
    /// Each value holds what reaches it along the copy edges from the facts
    /// the function's boundary and operations give; the objects that escape
    /// are those held by a node that a seed reaches along the escape edges.
    pub fn analyze(module: &ModuleIr, function: usize, generation: u64) -> (analysis: Option<Self>)
        requires
            module.wf(),
            function < module.functions@.len() ==> pointer_analyzable(*module, function as int),
        ensures
            match analysis {
                None => function >= module.functions@.len(),
                Some(analysis) => {
                    let body = module.functions@[function as int];
                    let f = function as int;
                    &&& function < module.functions@.len()
                    &&& analysis.spec_function() == function
                    &&& analysis.spec_owner().spec_generation() == generation
                    &&& analysis.spec_owner().spec_function() == function
                    &&& analysis.spec_points_to().len() == body.value_count
                    &&& forall|v: int|
                        #![trigger analysis.spec_points_to()[v]]
                        0 <= v < body.value_count ==> {
                            &&& analysis.spec_points_to()[v].known() == reaching_objects(*module, f, v)
                            &&& analysis.spec_points_to()[v].spec_unknown_object() == reaching_unknown_object(*module, f, v)
                            &&& analysis.spec_points_to()[v].spec_primitive() == reaching_primitive(*module, f, v)
                        }
                    &&& analysis.spec_objects().len() == object_plan(body.operations@, body.operations@.len() as int).0.len()
                    &&& forall|k: int|
                        #![trigger analysis.spec_objects()[k]]
                        0 <= k < analysis.spec_objects().len() ==> analysis.spec_objects()[k].spec_kind() == object_plan(
                            body.operations@,
                            body.operations@.len() as int,
                        ).0[k] && analysis.spec_objects()[k].spec_id().spec_index() == k
                            && analysis.spec_objects()[k].spec_id().spec_owner() == analysis.spec_owner()
                    &&& analysis.spec_escaping() == escaping_objects(*module, f)
                },
            },
    {
        if function >= module.functions.len() {
            return None;
        }
        let owner = AnalysisOwner::new(generation, function as u32);
        let solver = pointer_problem(module, function, owner);
        let ghost copies = solver.spec_copy_edges();
        let ghost deps = solver.spec_escape_dependencies();
        let ghost seeds = solver.spec_seeds();
        let ghost init = solver.spec_facts();
        let ghost m = *module;
        let ghost f = function as int;
        let ghost n = solver.spec_node_count() as int;
        proof {
            solver.lemma_wf();
            assert(list_step(copies) =~= pointer_copies(m, f));
            assert(list_step(deps) =~= pointer_escape_edges(m, f));
        }
        let values = module.functions[function].value_count;
        let result = solver.solve();
        let analysis = Self::from_solution(function as u32, values, result);
        proof {
            let facts = result.facts@;
            assert forall|x: int| 0 <= x < n implies {
                &&& #[trigger] facts[x].known() == reaching_objects(m, f, x)
                &&& facts[x].spec_unknown_object() == reaching_unknown_object(m, f, x)
                &&& facts[x].spec_primitive() == reaching_primitive(m, f, x)
            } by {
                assert(crate::pointer_solver::is_reaching_fact(facts[x], copies, init, x));
                assert forall|i: nat| facts[x].known().contains(i) <==> #[trigger] reaching_objects(m, f, x).contains(i) by {
                    if facts[x].known().contains(i) {
                        let y = choose|y: int| #![trigger init[y]] 0 <= y < init.len() && reaches(list_step(copies), y, x) && init[y].known().contains(i);
                        assert(init[y].known().contains(i));
                        assert(crate::pointer_flow::initial_known(m, f, y).contains(i));
                    }
                    if reaching_objects(m, f, x).contains(i) {
                        let y = choose|y: int|
                            #![trigger crate::pointer_flow::initial_known(m, f, y)]
                            0 <= y < n && reaches(pointer_copies(m, f), y, x) && crate::pointer_flow::initial_known(m, f, y).contains(i);
                        assert(init[y].known().contains(i));
                    }
                }
                assert(facts[x].known() =~= reaching_objects(m, f, x));
                if facts[x].spec_unknown_object() {
                    let y = choose|y: int| #![trigger init[y]] 0 <= y < init.len() && reaches(list_step(copies), y, x) && init[y].spec_unknown_object();
                    assert(crate::pointer_flow::initial_unknown_object(m, f, y));
                }
                if reaching_unknown_object(m, f, x) {
                    let y = choose|y: int|
                        #![trigger crate::pointer_flow::initial_unknown_object(m, f, y)]
                        0 <= y < n && reaches(pointer_copies(m, f), y, x) && crate::pointer_flow::initial_unknown_object(m, f, y);
                    assert(init[y].spec_unknown_object());
                }
                if facts[x].spec_primitive() {
                    let y = choose|y: int| #![trigger init[y]] 0 <= y < init.len() && reaches(list_step(copies), y, x) && init[y].spec_primitive();
                    assert(crate::pointer_flow::initial_primitive(m, f, y));
                }
                if reaching_primitive(m, f, x) {
                    let y = choose|y: int|
                        #![trigger crate::pointer_flow::initial_primitive(m, f, y)]
                        0 <= y < n && reaches(pointer_copies(m, f), y, x) && crate::pointer_flow::initial_primitive(m, f, y);
                    assert(init[y].spec_primitive());
                }
            }
            assert forall|v: int|
                #![trigger analysis.spec_points_to()[v]]
                0 <= v < values implies {
                    &&& analysis.spec_points_to()[v].known() == reaching_objects(m, f, v)
                    &&& analysis.spec_points_to()[v].spec_unknown_object() == reaching_unknown_object(m, f, v)
                    &&& analysis.spec_points_to()[v].spec_primitive() == reaching_primitive(m, f, v)
                } by {
                assert(analysis.spec_points_to()[v] == facts[v]);
                assert(facts[v].known() == reaching_objects(m, f, v));
            }
            assert forall|x: int| 0 <= x < n implies (escapes_from(deps, seeds, x) <==> #[trigger] node_escapes(m, f, x)) by {
                if escapes_from(deps, seeds, x) {
                    let s0 = choose|s0: int| #[trigger] seeds.contains(s0) && reaches(list_step(deps), s0, x);
                    assert(pointer_seed(m, f, s0));
                }
                if node_escapes(m, f, x) {
                    let s0 = choose|s0: int| #[trigger] pointer_seed(m, f, s0) && reaches(pointer_escape_edges(m, f), s0, x);
                    assert(seeds.contains(s0));
                }
            }
            assert forall|i: nat| result.escaping_objects@.contains(i) <==> #[trigger] escaping_objects(m, f).contains(i) by {
                if result.escaping_objects@.contains(i) {
                    let x = choose|x: int|
                        #![trigger facts[x]]
                        0 <= x < facts.len() && escapes_from(deps, seeds, x) && facts[x].known().contains(i);
                    assert(facts[x].known() == reaching_objects(m, f, x));
                    assert(node_escapes(m, f, x));
                }
                if escaping_objects(m, f).contains(i) {
                    let x = choose|x: int|
                        #![trigger reaching_objects(m, f, x)]
                        0 <= x < n && node_escapes(m, f, x) && reaching_objects(m, f, x).contains(i);
                    assert(facts[x].known() == reaching_objects(m, f, x));
                    assert(escapes_from(deps, seeds, x));
                }
            }
            assert(result.escaping_objects@ =~= escaping_objects(m, f));
        }
        Some(analysis)
    }

    /// The analyzed function.
    pub fn function(&self) -> (function: u32)
        ensures
            function == self.spec_function(),
    {
        self.function
    }

    /// The object points-to fact of value `value`, if the function has it.
    pub fn points_to(&self, value: usize) -> (fact: Option<&PointsToSet>)
        ensures
            match fact {
                Some(f) => value < self.spec_points_to().len() && *f == self.spec_points_to()[value as int],
                None => value >= self.spec_points_to().len(),
            },
    {
        if value < self.points_to.len() {
            Some(&self.points_to[value])
        } else {
            None
        }
    }

    /// The metadata of an object tracked by this analysis.
    pub fn object(&self, object: AbstractObjectId) -> (found: Option<&AbstractObject>)
        ensures
            match found {
                Some(o) => self.spec_object(object) == Some(*o),
                None => self.spec_object(object) is None,
            },
    {
        if object.owner() == self.owner && object.index() < self.objects.len() {
            Some(&self.objects[object.index()])
        } else {
            None
        }
    }

    /// Whether the object numbered `index` is tracked and of stable identity.
    fn is_stable_object(&self, object: AbstractObjectId) -> (stable: bool)
        requires
            object.spec_owner() == self.spec_owner(),
        ensures
            stable == self.stable_object(object.spec_index()),
    {
        match self.object(object) {
            Some(found) => found.kind().is_stable_contextual_identity(),
            None => false,
        }
    }

    /// How the objects denoted by values `left` and `right` relate.
    pub fn alias(&self, left: usize, right: usize) -> (result: AliasResult)
        ensures
            result == self.spec_alias(left, right),
    {
        proof {
            use_type_invariant(self);
        }
        let (left_points_to, right_points_to) = match (self.points_to(left), self.points_to(right)) {
            (Some(l), Some(r)) => (l, r),
            _ => {
                return AliasResult::MayAlias;
            },
        };
        if !left_points_to.may_be_object() || !right_points_to.may_be_object() {
            return AliasResult::NoAlias;
        }
        if left == right && left_points_to.is_definitely_object() {
            return AliasResult::MustAlias;
        }
        let left_object = left_points_to.sole_known_object();
        let right_object = right_points_to.sole_known_object();
        let ghost l = *left_points_to;
        let ghost r = *right_points_to;
        proof {
            match left_object {
                Some(o) => {
                    lemma_sole_object(l, o.spec_index());
                },
                None => {
                    assert(sole_object(l) is None);
                },
            }
            match right_object {
                Some(o) => {
                    lemma_sole_object(r, o.spec_index());
                },
                None => {
                    assert(sole_object(r) is None);
                },
            }
        }
        let same_sole = match (left_object, right_object) {
            (Some(a), Some(b)) => {
                proof {
                    a.lemma_eq(b);
                }
                a == b && self.is_stable_object(a)
            },
            _ => false,
        };
        if left_points_to.is_definitely_object() && right_points_to.is_definitely_object()
            && same_sole {
            return AliasResult::MustAlias;
        }
        if left_points_to.known_objects_overlap(right_points_to) || (
        left_points_to.may_point_to_unknown_object() && right_points_to.may_be_object()) || (
        right_points_to.may_point_to_unknown_object() && left_points_to.may_be_object()) {
            AliasResult::MayAlias
        } else {
            AliasResult::NoAlias
        }
    }

    /// Whether values `left` and `right` may denote the same object.
    pub fn may_alias(&self, left: usize, right: usize) -> (r: bool)
        ensures
            r == (self.spec_alias(left, right) != AliasResult::NoAlias),
    {
        let result = self.alias(left, right);
        match result {
            AliasResult::NoAlias => false,
            _ => true,
        }
    }

    /// The escape result of a tracked object, or `None` for an object of another result.
    pub fn object_escape_result(&self, object: AbstractObjectId) -> (result: Option<EscapeResult>)
        ensures
            result == (match self.spec_object(object) {
                Some(_) => Some(
                    if self.spec_escaping().contains(object.spec_index()) {
                        EscapeResult::MayEscape
                    } else {
                        EscapeResult::DoesNotEscape
                    },
                ),
                None => None,
            }),
    {
        match self.object(object) {
            Some(_) => {
                if self.escaping_objects.contains(object.index()) {
                    Some(EscapeResult::MayEscape)
                } else {
                    Some(EscapeResult::DoesNotEscape)
                }
            },
            None => None,
        }
    }

    /// Whether a tracked object may escape; objects of another result may.
    pub fn object_may_escape(&self, object: AbstractObjectId) -> (r: bool)
        ensures
            r == (match self.spec_object(object) {
                Some(_) => self.spec_escaping().contains(object.spec_index()),
                None => true,
            }),
    {
        match self.object_escape_result(object) {
            Some(EscapeResult::DoesNotEscape) => false,
            _ => true,
        }
    }

    /// Whether some known object of `fact` may escape.
    fn any_known_escapes(&self, fact: &PointsToSet) -> (r: bool)
        ensures
            r == meets_escaping(*fact, self.spec_escaping()),
    {
        let objects = fact.objects();
        let mut k: usize = 0;
        while k < objects.len()
            invariant
                k <= objects@.len(),
                forall|x: int|
                    #![trigger objects@[x]]
                    0 <= x < objects@.len() ==> fact.known().contains(objects@[x].spec_index()),
                forall|i: nat|
                    #![trigger fact.known().contains(i)]
                    fact.known().contains(i) ==> exists|x: int|
                        #![trigger objects@[x]]
                        0 <= x < objects@.len() && objects@[x].spec_index() == i,
                forall|x: int|
                    #![trigger objects@[x]]
                    0 <= x < k ==> !self.spec_escaping().contains(objects@[x].spec_index()),
            decreases objects@.len() - k,
        {
            if self.escaping_objects.contains(objects[k].index()) {
                return true;
            }
            k = k + 1;
        }
        proof {
            assert forall|i: nat| !(fact.known().contains(i) && self.spec_escaping().contains(i)) by {
                if fact.known().contains(i) {
                    let x = choose|x: int|
                        #![trigger objects@[x]]
                        0 <= x < objects@.len() && objects@[x].spec_index() == i;
                }
            }
        }
        false
    }

    /// The escape result for the known objects of value `value`; `None` when
    /// the value has no known object.
    pub fn escape_result(&self, value: usize) -> (result: Option<EscapeResult>)
        ensures
            result == self.spec_escape_result(value),
    {
        let points_to = match self.points_to(value) {
            Some(fact) => fact,
            None => {
                return None;
            },
        };
        if !points_to.has_known_objects() {
            return None;
        }
        if points_to.may_point_to_unknown_object() || self.any_known_escapes(points_to) {
            Some(EscapeResult::MayEscape)
        } else {
            Some(EscapeResult::DoesNotEscape)
        }
    }

    /// Whether an object denoted by value `value` may escape.
    pub fn may_escape(&self, value: usize) -> (r: bool)
        ensures
            r == self.spec_may_escape(value),
    {
        let points_to = match self.points_to(value) {
            Some(fact) => fact,
            None => {
                return true;
            },
        };
        points_to.may_point_to_unknown_object() || self.any_known_escapes(points_to)
    }

    /// Aliasing is symmetric.
    pub proof fn lemma_alias_symmetric(&self, left: usize, right: usize)
        ensures
            self.spec_alias(left, right) == self.spec_alias(right, left),
    {
    }

    /// A value that is definitely an object must-aliases itself; a value
    /// that is no object aliases nothing.
    pub proof fn lemma_alias_self(&self, value: usize)
        requires
            value < self.spec_points_to().len(),
        ensures
            self.spec_points_to()[value as int].spec_is_definitely_object() ==> self.spec_alias(
                value,
                value,
            ) == AliasResult::MustAlias,
            !self.spec_points_to()[value as int].spec_may_be_object() ==> forall|other: usize|
                other < self.spec_points_to().len() ==> self.spec_alias(value, other)
                    == AliasResult::NoAlias,
    {
    }

    /// When a value has a known object, its escape result and the
    /// conservative answer agree.
    pub proof fn lemma_escape_answers_agree(&self, value: usize)
        ensures
            self.spec_escape_result(value) is Some ==> (self.spec_may_escape(value) <==> self.spec_escape_result(value) == Some(EscapeResult::MayEscape)),
            self.spec_escape_result(value) is None ==> (self.spec_may_escape(value) <==> (value >= self.spec_points_to().len() || self.spec_points_to()[value as int].spec_unknown_object())),
    {
        if value < self.spec_points_to().len() {
            let fact = self.spec_points_to()[value as int];
            if fact.known() == Set::<nat>::empty() {
                assert(!meets_escaping(fact, self.spec_escaping()));
            }
        }
    }
}

} // verus!
