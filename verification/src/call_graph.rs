//! Call sites, call targets and the conservative target lattice of the
//! program call graph.

use core::cmp::Ordering;
use std::collections::VecDeque;

use vstd::prelude::*;
use vstd::std_specs::cmp::PartialOrdIs;
use vstd::std_specs::cmp::PartialOrdSpecImpl;

use crate::paths::lemma_closed_set_contains_reachable;
use crate::paths::lemma_reaches_self;
use crate::paths::lemma_reaches_step;
use crate::paths::reaches;
use crate::pointer_solver::list_step;

verus! {

/// Dense identifier for one invocation in a call-graph snapshot.
#[derive(Debug, Clone, Copy, PartialEq, Eq, Ord, Structural, Hash)]
pub struct CallSiteId(u32);

impl CallSiteId {
    pub closed spec fn spec_index(self) -> nat {
        self.0 as nat
    }

    /// Returns the call site's stable position in its analysis snapshot.
    pub fn index(self) -> (index: usize)
        ensures
            index as nat == self.spec_index(),
    {
        self.0 as usize
    }

    /// The call site at position `index`.
    pub fn from_index(index: usize) -> (id: Self)
        requires
            index <= u32::MAX,
        ensures
            id.spec_index() == index as nat,
    {
        CallSiteId(index as u32)
    }

    /// Two identifiers are equal exactly when their positions are.
    pub proof fn lemma_eq(self, other: Self)
        ensures
            (self == other) <==> (self.spec_index() == other.spec_index()),
    {
    }

    /// Identifiers are ordered by their positions: comparing two identifiers
    /// compares their positions.
    pub proof fn lemma_order(self, other: Self)
        ensures
            self.is_lt(&other) <==> self.spec_index() < other.spec_index(),
            self.is_le(&other) <==> self.spec_index() <= other.spec_index(),
            self.is_gt(&other) <==> self.spec_index() > other.spec_index(),
            self.is_ge(&other) <==> self.spec_index() >= other.spec_index(),
    {
    }
}

impl PartialOrd for CallSiteId {
    fn partial_cmp(&self, other: &Self) -> (r: Option<Ordering>) {
        if self.0 < other.0 {
            Some(Ordering::Less)
        } else if self.0 > other.0 {
            Some(Ordering::Greater)
        } else {
            Some(Ordering::Equal)
        }
    }
}

impl PartialOrdSpecImpl for CallSiteId {
    open spec fn obeys_partial_cmp_spec() -> bool {
        true
    }

    open spec fn partial_cmp_spec(&self, other: &Self) -> Option<Ordering> {
        if self.spec_index() < other.spec_index() {
            Some(Ordering::Less)
        } else if self.spec_index() > other.spec_index() {
            Some(Ordering::Greater)
        } else {
            Some(Ordering::Equal)
        }
    }
}

/// JavaScript invocation form represented by a call-graph site.
#[derive(Debug, Clone, Copy, PartialEq, Eq, Structural, Hash)]
pub enum CallSiteKind {
    /// An ordinary JavaScript call, including property calls.
    Call,
    /// A JavaScript constructor invocation.
    Construct,
    /// An implicit superclass-constructor invocation.
    SuperCall,
    /// Invocation of a tagged-template function.
    TaggedTemplate,
}

/// Whether a target set accounts for every runtime callee.
#[derive(Debug, Clone, Copy, PartialEq, Eq, Structural, Hash)]
pub enum CallTargetCompleteness {
    /// Every runtime target is represented.
    Complete,
    /// Additional runtime targets may exist.
    Incomplete,
}

/// One function of one module of the program.
#[derive(Debug, Clone, Copy, PartialEq, Eq, PartialOrd, Ord, Structural, Hash)]
pub struct ProgramFunctionId {
    pub module: u32,
    pub function: u32,
}

/// The stable order of program functions: by module, then by function.
pub open spec fn function_lt(a: ProgramFunctionId, b: ProgramFunctionId) -> bool {
    a.module < b.module || (a.module == b.module && a.function < b.function)
}

/// Whether `a` comes before `b` in the stable order of program functions.
pub fn function_before(a: ProgramFunctionId, b: ProgramFunctionId) -> (r: bool)
    ensures
        r == function_lt(a, b),
{
    a.module < b.module || (a.module == b.module && a.function < b.function)
}

/// The functions of `functions`, which is strictly increasing.
pub open spec fn sorted_functions(functions: Seq<ProgramFunctionId>) -> bool {
    forall|a: int, b: int|
        #![trigger functions[a], functions[b]]
        0 <= a < b < functions.len() ==> function_lt(functions[a], functions[b])
}

/// Conservatively resolved program functions for one invocation.
#[derive(Debug, PartialEq, Eq)]
pub struct CallTargetSet {
    functions: Vec<ProgramFunctionId>,
    completeness: CallTargetCompleteness,
}

impl CallTargetSet {
    /// The known targets, in stable order.
    pub closed spec fn spec_functions(&self) -> Seq<ProgramFunctionId> {
        self.functions@
    }

    /// Whether the known targets are every target.
    pub closed spec fn spec_completeness(&self) -> CallTargetCompleteness {
        self.completeness
    }

    /// The target set of `functions`, complete as `completeness` says.
    pub fn new(functions: Vec<ProgramFunctionId>, completeness: CallTargetCompleteness) -> (set: Self)
        ensures
            set.spec_functions() == functions@,
            set.spec_completeness() == completeness,
    {
        CallTargetSet { functions, completeness }
    }

    /// No known target, and maybe some unknown one.
    pub fn unknown() -> (set: Self)
        ensures
            set.spec_functions().len() == 0,
            set.spec_completeness() == CallTargetCompleteness::Incomplete,
    {
        CallTargetSet { functions: Vec::new(), completeness: CallTargetCompleteness::Incomplete }
    }

    /// Returns statically known program functions in stable order.
    pub fn functions(&self) -> (functions: &[ProgramFunctionId])
        ensures
            functions@ == self.spec_functions(),
    {
        self.functions.as_slice()
    }

    /// Returns whether the known target list is exhaustive.
    pub fn completeness(&self) -> (completeness: CallTargetCompleteness)
        ensures
            completeness == self.spec_completeness(),
    {
        self.completeness
    }

    /// Returns the sole target when it is exact and exhaustive.
    pub fn exact_function(&self) -> (exact: Option<ProgramFunctionId>)
        ensures
            exact == (if self.spec_completeness() == CallTargetCompleteness::Complete
                && self.spec_functions().len() == 1 {
                Some(self.spec_functions()[0])
            } else {
                None
            }),
    {
        match self.completeness {
            CallTargetCompleteness::Complete => {
                if self.functions.len() == 1 {
                    Some(self.functions[0])
                } else {
                    None
                }
            },
            CallTargetCompleteness::Incomplete => None,
        }
    }
}

/// What the solver knows of the functions a value or binding may hold.
///
/// Bottom: nothing has reached it yet. Otherwise the known functions, and
/// whether other functions may be held as well.
#[derive(Debug)]
pub struct TargetState {
    known: Option<(Vec<ProgramFunctionId>, CallTargetCompleteness)>,
}

impl TargetState {
    #[verifier::type_invariant]
    spec fn well_formed(self) -> bool {
        match self.known {
            Some((functions, _)) => sorted_functions(functions@),
            None => true,
        }
    }

    /// Whether something has reached the state.
    pub closed spec fn spec_is_known(&self) -> bool {
        self.known is Some
    }

    /// The known functions.
    pub closed spec fn spec_functions(&self) -> Set<ProgramFunctionId> {
        match self.known {
            Some((functions, _)) => functions@.to_set(),
            None => Set::empty(),
        }
    }

    /// Whether functions beyond the known ones may be held.
    pub closed spec fn spec_incomplete(&self) -> bool {
        match self.known {
            Some((_, completeness)) => completeness == CallTargetCompleteness::Incomplete,
            None => false,
        }
    }

    /// The known functions are finitely many, and a bottom state knows none.
    pub proof fn lemma_functions_finite(&self)
        ensures
            self.spec_functions().finite(),
            !self.spec_is_known() ==> self.spec_functions() == Set::<ProgramFunctionId>::empty()
                && !self.spec_incomplete(),
    {
        match self.known {
            Some((functions, _)) => {
                vstd::seq_lib::seq_to_set_is_finite(functions@);
            },
            None => {},
        }
    }

    /// Nothing has reached the state.
    pub fn bottom() -> (state: Self)
        ensures
            !state.spec_is_known(),
            state.spec_functions() == Set::<ProgramFunctionId>::empty(),
            !state.spec_incomplete(),
    {
        TargetState { known: None }
    }

    /// Any function may be held, none known.
    pub fn unknown() -> (state: Self)
        ensures
            state.spec_is_known(),
            state.spec_functions() == Set::<ProgramFunctionId>::empty(),
            state.spec_incomplete(),
    {
        let state = TargetState { known: Some((Vec::new(), CallTargetCompleteness::Incomplete)) };
        assert(state.spec_functions() =~= Set::<ProgramFunctionId>::empty());
        state
    }

    /// Exactly the function `function`.
    pub fn exact(function: ProgramFunctionId) -> (state: Self)
        ensures
            state.spec_is_known(),
            state.spec_functions() == set![function],
            !state.spec_incomplete(),
    {
        let mut functions: Vec<ProgramFunctionId> = Vec::new();
        functions.push(function);
        let state = TargetState { known: Some((functions, CallTargetCompleteness::Complete)) };
        proof {
            assert(functions@ == seq![function]);
            assert forall|f: ProgramFunctionId| state.spec_functions().contains(f) == set![function].contains(f) by {
                if f == function {
                    assert(functions@[0] == function);
                }
            }
            assert(state.spec_functions() =~= set![function]);
        }
        state
    }

    /// A state with the same facts.
    pub fn copy(&self) -> (copy: Self)
        ensures
            copy.spec_is_known() == self.spec_is_known(),
            copy.spec_functions() == self.spec_functions(),
            copy.spec_incomplete() == self.spec_incomplete(),
    {
        proof {
            use_type_invariant(self);
        }
        match &self.known {
            None => TargetState { known: None },
            Some((functions, completeness)) => {
                let mut copy: Vec<ProgramFunctionId> = Vec::new();
                let mut k: usize = 0;
                while k < functions.len()
                    invariant
                        k <= functions@.len(),
                        copy@ == functions@.take(k as int),
                    decreases functions@.len() - k,
                {
                    copy.push(functions[k]);
                    k = k + 1;
                    assert(copy@ =~= functions@.take(k as int));
                }
                assert(copy@ =~= functions@);
                TargetState { known: Some((copy, *completeness)) }
            },
        }
    }

    /// The target set the state stands for: an unknown set for bottom.
    pub fn as_target_set(&self) -> (set: CallTargetSet)
        ensures
            set.spec_functions().to_set() == self.spec_functions(),
            sorted_functions(set.spec_functions()),
            set.spec_completeness() == (if self.spec_is_known() && !self.spec_incomplete() {
                CallTargetCompleteness::Complete
            } else {
                CallTargetCompleteness::Incomplete
            }),
    {
        proof {
            use_type_invariant(self);
        }
        let copy = self.copy();
        proof {
            use_type_invariant(&copy);
        }
        match copy.known {
            None => {
                let set = CallTargetSet::unknown();
                assert(set.spec_functions().to_set() =~= Set::<ProgramFunctionId>::empty());
                set
            },
            Some((functions, completeness)) => CallTargetSet::new(functions, completeness),
        }
    }

    /// Joins `incoming` into the state, and returns whether the state changed.
    pub fn join(&mut self, incoming: &Self) -> (changed: bool)
        ensures
            final(self).spec_is_known() == (old(self).spec_is_known() || incoming.spec_is_known()),
            final(self).spec_functions() == old(self).spec_functions().union(
                incoming.spec_functions(),
            ),
            final(self).spec_incomplete() == (old(self).spec_incomplete()
                || incoming.spec_incomplete()),
            changed == !(final(self).spec_is_known() == old(self).spec_is_known()
                && final(self).spec_functions() == old(self).spec_functions()
                && final(self).spec_incomplete() == old(self).spec_incomplete()),
    {
        proof {
            use_type_invariant(&*self);
            use_type_invariant(incoming);
        }
        let (incoming_functions, incoming_completeness) = match &incoming.known {
            None => {
                return false;
            },
            Some((functions, completeness)) => (functions, *completeness),
        };
        if self.known.is_none() {
            *self = incoming.copy();
            proof {
                assert(old(self).spec_functions().union(incoming.spec_functions()) =~= incoming.spec_functions());
            }
            return true;
        }
        let mut state = TargetState::bottom();
        std::mem::swap(&mut state, self);
        proof {
            use_type_invariant(&state);
        }
        let (mut functions, mut completeness) = match state.known {
            Some(known) => known,
            None => {
                return false;
            },
        };
        let ghost old_functions = functions@;
        let previous_len = functions.len();
        let previous_completeness = completeness;
        let mut k: usize = 0;
        while k < incoming_functions.len()
            invariant
                k <= incoming_functions@.len(),
                sorted_functions(functions@),
                functions@.to_set() == old_functions.to_set().union(
                    incoming_functions@.take(k as int).to_set(),
                ),
            decreases incoming_functions@.len() - k,
        {
            insert_function(&mut functions, incoming_functions[k]);
            proof {
                let prefix = incoming_functions@.take(k as int);
                assert(incoming_functions@.take(k + 1) =~= prefix.push(incoming_functions@[k as int]));
                let e = incoming_functions@[k as int];
                let pushed = prefix.push(e);
                assert forall|f: ProgramFunctionId| pushed.contains(f) == (prefix.contains(f) || f == e) by {
                    if pushed.contains(f) {
                        let j = choose|j: int| 0 <= j < pushed.len() && pushed[j] == f;
                        if j < prefix.len() {
                            assert(prefix[j] == f);
                        }
                    }
                    if prefix.contains(f) {
                        let j = choose|j: int| 0 <= j < prefix.len() && prefix[j] == f;
                        assert(pushed[j] == f);
                    }
                    if f == e {
                        assert(pushed[prefix.len() as int] == f);
                    }
                }
                assert(pushed.to_set() =~= prefix.to_set().insert(e));
            }
            k = k + 1;
        }
        proof {
            assert(incoming_functions@.take(incoming_functions@.len() as int) =~= incoming_functions@);
        }
        if incoming_completeness == CallTargetCompleteness::Incomplete {
            completeness = CallTargetCompleteness::Incomplete;
        }
        let changed = previous_len != functions.len() || !same_completeness(previous_completeness, completeness);
        proof {
            lemma_sorted_no_duplicates(old_functions);
            lemma_sorted_no_duplicates(functions@);
            old_functions.unique_seq_to_set();
            functions@.unique_seq_to_set();
            if functions@.len() == old_functions.len() {
                vstd::set_lib::lemma_subset_equality(old_functions.to_set(), functions@.to_set());
            }
        }
        *self = TargetState { known: Some((functions, completeness)) };
        changed
    }
}

/// Whether the two completeness facts are the same.
fn same_completeness(a: CallTargetCompleteness, b: CallTargetCompleteness) -> (r: bool)
    ensures
        r == (a == b),
{
    match (a, b) {
        (CallTargetCompleteness::Complete, CallTargetCompleteness::Complete) => true,
        (CallTargetCompleteness::Incomplete, CallTargetCompleteness::Incomplete) => true,
        _ => false,
    }
}

/// A strictly increasing list has no duplicates.
proof fn lemma_sorted_no_duplicates(functions: Seq<ProgramFunctionId>)
    requires
        sorted_functions(functions),
    ensures
        functions.no_duplicates(),
{
    assert forall|a: int, b: int| 0 <= a < functions.len() && 0 <= b < functions.len() && a != b implies functions[a] != functions[b] by {
        if a < b {
            assert(function_lt(functions[a], functions[b]));
        } else {
            assert(function_lt(functions[b], functions[a]));
        }
    }
}

/// Adds `function` to the strictly increasing list `functions` unless it is there.
fn insert_function(functions: &mut Vec<ProgramFunctionId>, function: ProgramFunctionId)
    requires
        sorted_functions(old(functions)@),
    ensures
        sorted_functions(final(functions)@),
        final(functions)@.to_set() == old(functions)@.to_set().insert(function),
{
    let mut lo: usize = 0;
    let mut hi: usize = functions.len();
    while lo < hi
        invariant
            functions == old(functions),
            sorted_functions(functions@),
            lo <= hi <= functions@.len(),
            forall|a: int| #![trigger functions@[a]] 0 <= a < lo ==> function_lt(functions@[a], function),
            forall|a: int|
                #![trigger functions@[a]]
                hi <= a < functions@.len() ==> !function_lt(functions@[a], function),
        decreases hi - lo,
    {
        let mid = lo + (hi - lo) / 2;
        if function_before(functions[mid], function) {
            proof {
                assert forall|a: int| #![trigger functions@[a]] 0 <= a <= mid implies function_lt(functions@[a], function) by {
                    if a < mid {
                        assert(function_lt(functions@[a], functions@[mid as int]));
                    }
                }
            }
            lo = mid + 1;
        } else {
            proof {
                assert forall|a: int|
                    #![trigger functions@[a]]
                    mid <= a < functions@.len() implies !function_lt(functions@[a], function) by {
                    if a > mid {
                        assert(function_lt(functions@[mid as int], functions@[a]));
                    }
                }
            }
            hi = mid;
        }
    }
    let p = lo;
    let ghost s = functions@;
    if p < functions.len() && functions[p] == function {
        proof {
            assert(s.to_set().insert(function) =~= s.to_set());
        }
        return;
    }
    functions.insert(p, function);
    proof {
        let t = functions@;
        assert forall|a: int, b: int|
            #![trigger t[a], t[b]]
            0 <= a < b < t.len() implies function_lt(t[a], t[b]) by {
            if b < p {
                assert(t[a] == s[a] && t[b] == s[b]);
            } else if b == p {
                assert(t[a] == s[a]);
            } else if a < p {
                assert(t[a] == s[a] && t[b] == s[b - 1]);
            } else if a == p {
                assert(t[b] == s[b - 1]);
                assert(!function_lt(s[p as int], function));
                assert(s[p as int] != function);
                if b - 1 > p {
                    assert(function_lt(s[p as int], s[b - 1]));
                }
            } else {
                assert(t[a] == s[a - 1] && t[b] == s[b - 1]);
            }
        }
        assert forall|f: ProgramFunctionId| t.to_set().contains(f) == s.to_set().insert(function).contains(f) by {
            if t.contains(f) {
                let j = choose|j: int| 0 <= j < t.len() && t[j] == f;
                if j < p {
                    assert(s[j] == f);
                } else if j > p {
                    assert(s[j - 1] == f);
                }
            }
            if s.contains(f) {
                let j = choose|j: int| 0 <= j < s.len() && s[j] == f;
                if j < p {
                    assert(t[j] == f);
                } else {
                    assert(t[j + 1] == f);
                }
            }
            if f == function {
                assert(t[p as int] == f);
            }
        }
        assert(t.to_set() =~= s.to_set().insert(function));
    }
}

/// `a` holds no more than `b`.
pub open spec fn state_le(a: TargetState, b: TargetState) -> bool {
    &&& a.spec_is_known() ==> b.spec_is_known()
    &&& a.spec_functions().subset_of(b.spec_functions())
    &&& a.spec_incomplete() ==> b.spec_incomplete()
}

/// Whether some initial state that reaches node `n` is known.
pub open spec fn reaching_known_state(lists: Seq<Vec<usize>>, init: Seq<TargetState>, n: int) -> bool {
    exists|m: int|
        #![trigger init[m]]
        0 <= m < init.len() && reaches(list_step(lists), m, n) && init[m].spec_is_known()
}

/// The functions of the initial states that reach node `n`.
pub open spec fn reaching_functions(lists: Seq<Vec<usize>>, init: Seq<TargetState>, n: int) -> Set<ProgramFunctionId> {
    Set::new(
        |f: ProgramFunctionId|
            exists|m: int|
                #![trigger init[m]]
                0 <= m < init.len() && reaches(list_step(lists), m, n) && init[m].spec_functions().contains(f),
    )
}

/// Whether some initial state that reaches node `n` is incomplete.
pub open spec fn reaching_incomplete(lists: Seq<Vec<usize>>, init: Seq<TargetState>, n: int) -> bool {
    exists|m: int|
        #![trigger init[m]]
        0 <= m < init.len() && reaches(list_step(lists), m, n) && init[m].spec_incomplete()
}

/// Whether `state` is exactly the join of the initial states that reach node `n`.
pub open spec fn is_reaching_state(state: TargetState, lists: Seq<Vec<usize>>, init: Seq<TargetState>, n: int) -> bool {
    &&& state.spec_is_known() == reaching_known_state(lists, init, n)
    &&& state.spec_functions() == reaching_functions(lists, init, n)
    &&& state.spec_incomplete() == reaching_incomplete(lists, init, n)
}

/// `state` holds no more than what reaches node `n`.
pub open spec fn le_reaching_state(state: TargetState, lists: Seq<Vec<usize>>, init: Seq<TargetState>, n: int) -> bool {
    &&& state.spec_is_known() ==> reaching_known_state(lists, init, n)
    &&& state.spec_functions().subset_of(reaching_functions(lists, init, n))
    &&& state.spec_incomplete() ==> reaching_incomplete(lists, init, n)
}

/// How much a state holds.
pub open spec fn state_size(state: TargetState) -> nat {
    (if state.spec_is_known() { 1nat } else { 0nat }) + state.spec_functions().len() + (if state.spec_incomplete() {
        1nat
    } else {
        0nat
    })
}

/// How much a list of states holds in all.
pub open spec fn total_state_size(states: Seq<TargetState>) -> nat
    decreases states.len(),
{
    if states.len() == 0 {
        0
    } else {
        total_state_size(states.drop_last()) + state_size(states.last())
    }
}

/// The functions of the first `k` states.
pub open spec fn functions_upto(states: Seq<TargetState>, k: nat) -> Set<ProgramFunctionId>
    decreases k,
{
    if k == 0 {
        Set::empty()
    } else {
        functions_upto(states, (k - 1) as nat).union(states[k - 1].spec_functions())
    }
}

proof fn lemma_functions_upto(states: Seq<TargetState>, k: nat)
    requires
        k <= states.len(),
    ensures
        functions_upto(states, k).finite(),
        forall|f: ProgramFunctionId|
            #[trigger] functions_upto(states, k).contains(f) <==> exists|m: int|
                #![trigger states[m]]
                0 <= m < k && states[m].spec_functions().contains(f),
    decreases k,
{
    if k > 0 {
        lemma_functions_upto(states, (k - 1) as nat);
        states[k - 1].lemma_functions_finite();
        assert forall|f: ProgramFunctionId|
            #[trigger] functions_upto(states, k).contains(f) <==> exists|m: int|
                #![trigger states[m]]
                0 <= m < k && states[m].spec_functions().contains(f) by {
            if exists|m: int| #![trigger states[m]] 0 <= m < k && states[m].spec_functions().contains(f) {
                let m = choose|m: int| #![trigger states[m]] 0 <= m < k && states[m].spec_functions().contains(f);
                if m < k - 1 {
                    assert(functions_upto(states, (k - 1) as nat).contains(f));
                }
            }
        }
    }
}

proof fn lemma_total_state_update(s: Seq<TargetState>, k: int, x: TargetState)
    requires
        0 <= k < s.len(),
    ensures
        total_state_size(s.update(k, x)) + state_size(s[k]) == total_state_size(s) + state_size(x),
    decreases s.len(),
{
    let t = s.update(k, x);
    if k < s.len() - 1 {
        assert(t.drop_last() =~= s.drop_last().update(k, x));
        lemma_total_state_update(s.drop_last(), k, x);
    } else {
        assert(t.drop_last() =~= s.drop_last());
    }
}

proof fn lemma_total_state_bound(s: Seq<TargetState>, bound: nat)
    requires
        forall|x: int| 0 <= x < s.len() ==> #[trigger] state_size(s[x]) <= bound,
    ensures
        total_state_size(s) <= s.len() * bound,
    decreases s.len(),
{
    if s.len() > 0 {
        let t = s.drop_last();
        assert forall|x: int| 0 <= x < t.len() implies #[trigger] state_size(t[x]) <= bound by {
            assert(t[x] == s[x]);
        }
        lemma_total_state_bound(t, bound);
        assert(state_size(s[s.len() - 1]) <= bound);
        assert(t.len() * bound + bound == s.len() * bound) by (nonlinear_arith)
            requires
                t.len() + 1 == s.len(),
        ;
    }
}

/// A state whose functions lie in the finite set `universe` holds at most its size plus two.
proof fn lemma_state_size_bound(state: TargetState, universe: Set<ProgramFunctionId>)
    requires
        universe.finite(),
        state.spec_functions().subset_of(universe),
    ensures
        state_size(state) <= universe.len() + 2,
{
    vstd::set_lib::lemma_len_subset(state.spec_functions(), universe);
}

/// Joining grows the size exactly when the state changes.
proof fn lemma_join_state_size(before: TargetState, after: TargetState, universe: Set<ProgramFunctionId>)
    requires
        universe.finite(),
        after.spec_functions().subset_of(universe),
        state_le(before, after),
    ensures
        state_size(before) <= state_size(after),
        !(after.spec_is_known() == before.spec_is_known() && after.spec_functions()
            == before.spec_functions() && after.spec_incomplete() == before.spec_incomplete())
            ==> state_size(before) < state_size(after),
{
    vstd::set_lib::lemma_len_subset(after.spec_functions(), universe);
    vstd::set_lib::lemma_len_subset(before.spec_functions(), after.spec_functions());
    if before.spec_functions() != after.spec_functions() {
        assert(!(after.spec_functions() =~= before.spec_functions()));
        let f = choose|f: ProgramFunctionId| after.spec_functions().contains(f) && !before.spec_functions().contains(f);
        before.spec_functions().lemma_subset_not_in_lt(after.spec_functions(), f);
    }
}

/// States that hold the initial states and are closed under the lists hold everything that reaches them.
proof fn lemma_closed_states_cover(lists: Seq<Vec<usize>>, init: Seq<TargetState>, states: Seq<TargetState>)
    requires
        states.len() == init.len(),
        lists.len() == init.len(),
        forall|s: int, k: int|
            #![trigger lists[s]@[k]]
            0 <= s < lists.len() && 0 <= k < lists[s]@.len() ==> lists[s]@[k] < lists.len(),
        forall|s: int, k: int|
            #![trigger lists[s]@[k]]
            0 <= s < lists.len() && 0 <= k < lists[s]@.len() ==> state_le(
                states[s],
                states[lists[s]@[k] as int],
            ),
        forall|x: int| #![trigger states[x]] 0 <= x < states.len() ==> state_le(init[x], states[x]),
    ensures
        forall|x: int|
            #![trigger states[x]]
            0 <= x < states.len() ==> {
                &&& reaching_known_state(lists, init, x) ==> states[x].spec_is_known()
                &&& reaching_functions(lists, init, x).subset_of(states[x].spec_functions())
                &&& reaching_incomplete(lists, init, x) ==> states[x].spec_incomplete()
            },
{
    let step = list_step(lists);
    let n = states.len() as int;
    assert forall|u: int, v: int| #[trigger] step(u, v) implies 0 <= v < n && state_le(states[u], states[v]) by {
        let k = choose|k: int| #![trigger lists[u]@[k]] 0 <= k < lists[u]@.len() && lists[u]@[k] as int == v;
        assert(lists[u]@[k] < lists.len());
    }
    assert forall|x: int| #![trigger states[x]] 0 <= x < n implies {
        &&& reaching_known_state(lists, init, x) ==> states[x].spec_is_known()
        &&& reaching_functions(lists, init, x).subset_of(states[x].spec_functions())
        &&& reaching_incomplete(lists, init, x) ==> states[x].spec_incomplete()
    } by {
        if reaching_known_state(lists, init, x) {
            let m = choose|m: int|
                #![trigger init[m]]
                0 <= m < init.len() && reaches(step, m, x) && init[m].spec_is_known();
            let holds = |y: int| 0 <= y < n && states[y].spec_is_known();
            assert(states[m] == states[m]);
            lemma_closed_set_contains_reachable(step, holds, m, x);
        }
        assert forall|f: ProgramFunctionId| reaching_functions(lists, init, x).contains(f) implies states[x].spec_functions().contains(f) by {
            let m = choose|m: int|
                #![trigger init[m]]
                0 <= m < init.len() && reaches(step, m, x) && init[m].spec_functions().contains(f);
            let holds = |y: int| 0 <= y < n && states[y].spec_functions().contains(f);
            assert(states[m] == states[m]);
            lemma_closed_set_contains_reachable(step, holds, m, x);
        }
        if reaching_incomplete(lists, init, x) {
            let m = choose|m: int|
                #![trigger init[m]]
                0 <= m < init.len() && reaches(step, m, x) && init[m].spec_incomplete();
            let holds = |y: int| 0 <= y < n && states[y].spec_incomplete();
            assert(states[m] == states[m]);
            lemma_closed_set_contains_reachable(step, holds, m, x);
        }
    }
}

/// What reaches `s` also reaches every successor of `s`.
proof fn lemma_reaching_state_step(lists: Seq<Vec<usize>>, init: Seq<TargetState>, s: int, t: int)
    requires
        list_step(lists)(s, t),
    ensures
        reaching_known_state(lists, init, s) ==> reaching_known_state(lists, init, t),
        reaching_functions(lists, init, s).subset_of(reaching_functions(lists, init, t)),
        reaching_incomplete(lists, init, s) ==> reaching_incomplete(lists, init, t),
{
    let step = list_step(lists);
    if reaching_known_state(lists, init, s) {
        let m = choose|m: int|
            #![trigger init[m]]
            0 <= m < init.len() && reaches(step, m, s) && init[m].spec_is_known();
        lemma_reaches_step(step, m, s, t);
    }
    assert forall|f: ProgramFunctionId| reaching_functions(lists, init, s).contains(f) implies reaching_functions(lists, init, t).contains(f) by {
        let m = choose|m: int|
            #![trigger init[m]]
            0 <= m < init.len() && reaches(step, m, s) && init[m].spec_functions().contains(f);
        lemma_reaches_step(step, m, s, t);
    }
    if reaching_incomplete(lists, init, s) {
        let m = choose|m: int|
            #![trigger init[m]]
            0 <= m < init.len() && reaches(step, m, s) && init[m].spec_incomplete();
        lemma_reaches_step(step, m, s, t);
    }
}

/// Propagates target states along dependency edges to a fixed point.
#[derive(Debug)]
pub struct TargetSolver {
    states: Vec<TargetState>,
    dependents: Vec<Vec<usize>>,
    work: VecDeque<usize>,
    queued: Vec<bool>,
}

impl TargetSolver {
    /// The state of every node.
    pub closed spec fn spec_states(&self) -> Seq<TargetState> {
        self.states@
    }

    /// For each node, the nodes its state flows to.
    pub closed spec fn spec_dependents(&self) -> Seq<Vec<usize>> {
        self.dependents@
    }

    /// The shape every solver state keeps.
    closed spec fn structure(&self) -> bool {
        let n = self.states@.len();
        &&& n <= usize::MAX
        &&& self.dependents@.len() == n
        &&& self.queued@.len() == n
        &&& forall|s: int, k: int|
            #![trigger self.dependents@[s]@[k]]
            0 <= s < n && 0 <= k < self.dependents@[s]@.len() ==> self.dependents@[s]@[k] < n
        &&& forall|x: int|
            #![trigger self.queued@[x]]
            0 <= x < n ==> (self.queued@[x] <==> self.work@.contains(x as usize))
        &&& self.work@.no_duplicates()
        &&& forall|j: int| #![trigger self.work@[j]] 0 <= j < self.work@.len() ==> self.work@[j] < n
    }

    /// A problem under construction: every node that has a state waits to be propagated.
    pub closed spec fn wf(&self) -> bool {
        &&& self.structure()
        &&& forall|x: int|
            #![trigger self.states@[x]]
            0 <= x < self.states@.len() && self.states@[x].spec_is_known() ==> self.queued@[x]
    }

    /// A problem under construction has one dependent list per node, and its
    /// edges stay among its nodes.
    pub proof fn lemma_wf(&self)
        requires
            self.wf(),
        ensures
            self.spec_dependents().len() == self.spec_states().len(),
            self.spec_states().len() <= usize::MAX,
            forall|x: int, y: int|
                #[trigger] list_step(self.spec_dependents())(x, y) ==> 0 <= x < self.spec_states().len() && 0 <= y
                    < self.spec_states().len(),
    {
        assert forall|x: int, y: int| #[trigger] list_step(self.spec_dependents())(x, y) implies 0 <= x < self.spec_states().len() && 0 <= y
            < self.spec_states().len() by {
            let k = choose|k: int| #![trigger self.dependents@[x]@[k]] 0 <= k < self.dependents@[x]@.len() && self.dependents@[x]@[k] as int == y;
        }
    }

    /// A problem over `node_count` nodes, all bottom, without edges.
    pub fn new(node_count: usize) -> (solver: Self)
        ensures
            solver.wf(),
            solver.spec_states().len() == node_count,
            forall|x: int|
                #![trigger solver.spec_states()[x]]
                0 <= x < node_count ==> !solver.spec_states()[x].spec_is_known()
                    && solver.spec_states()[x].spec_functions() == Set::<ProgramFunctionId>::empty()
                    && !solver.spec_states()[x].spec_incomplete(),
            solver.spec_dependents().len() == node_count,
            forall|x: int|
                #![trigger solver.spec_dependents()[x]]
                0 <= x < node_count ==> solver.spec_dependents()[x]@.len() == 0,
    {
        let mut states: Vec<TargetState> = Vec::new();
        let mut dependents: Vec<Vec<usize>> = Vec::new();
        let mut queued: Vec<bool> = Vec::new();
        let mut k: usize = 0;
        while k < node_count
            invariant
                k <= node_count,
                states@.len() == k,
                dependents@.len() == k,
                queued@.len() == k,
                forall|x: int|
                    #![trigger states@[x]]
                    0 <= x < k ==> !states@[x].spec_is_known() && states@[x].spec_functions()
                        == Set::<ProgramFunctionId>::empty() && !states@[x].spec_incomplete(),
                forall|x: int| #![trigger dependents@[x]] 0 <= x < k ==> dependents@[x]@.len() == 0,
                forall|x: int| #![trigger queued@[x]] 0 <= x < k ==> !queued@[x],
            decreases node_count - k,
        {
            states.push(TargetState::bottom());
            dependents.push(Vec::new());
            queued.push(false);
            k = k + 1;
        }
        TargetSolver { states, dependents, work: VecDeque::new(), queued }
    }

    /// Records that the state of `source` flows to `target`.
    pub fn add_dependency(&mut self, source: usize, target: usize)
        requires
            old(self).wf(),
            source < old(self).spec_states().len(),
            target < old(self).spec_states().len(),
        ensures
            final(self).wf(),
            final(self).spec_states() == old(self).spec_states(),
            final(self).spec_dependents().len() == old(self).spec_dependents().len(),
            forall|x: int|
                #![trigger final(self).spec_dependents()[x]]
                0 <= x < old(self).spec_dependents().len() && x != source ==> final(self).spec_dependents()[x]
                    == old(self).spec_dependents()[x],
            final(self).spec_dependents()[source as int]@ == old(self).spec_dependents()[source as int]@.push(target),
    {
        self.dependents[source].push(target);
        proof {
            let d = self.dependents@;
            assert forall|s: int, k: int|
                #![trigger d[s]@[k]]
                0 <= s < d.len() && 0 <= k < d[s]@.len() implies d[s]@[k] < d.len() by {
                if s != source as int {
                    assert(d[s] == old(self).dependents@[s]);
                } else if k < old(self).dependents@[s]@.len() {
                    assert(d[s]@[k] == old(self).dependents@[s]@[k]);
                }
            }
        }
    }

    /// Queues `node` unless it is queued already.
    fn queue(&mut self, node: usize)
        requires
            old(self).structure(),
            node < old(self).states@.len(),
        ensures
            final(self).structure(),
            final(self).states == old(self).states,
            final(self).dependents == old(self).dependents,
            final(self).queued@ == old(self).queued@.update(node as int, true),
            final(self).work@.len() <= old(self).work@.len() + 1,
    {
        if !self.queued[node] {
            let ghost before = self.work@;
            self.queued.set(node, true);
            self.work.push_back(node);
            proof {
                assert forall|x: int|
                    #![trigger self.queued@[x]]
                    0 <= x < self.states@.len() implies (self.queued@[x] <==> self.work@.contains(x as usize)) by {
                    if x == node as int {
                        assert(self.work@[self.work@.len() - 1] == node);
                    } else {
                        assert(old(self).queued@[x] == self.queued@[x]);
                        if self.work@.contains(x as usize) {
                            let j = choose|j: int| 0 <= j < self.work@.len() && self.work@[j] == x as usize;
                            if j < before.len() {
                                assert(before[j] == x as usize);
                            }
                        }
                        if before.contains(x as usize) {
                            let j = choose|j: int| 0 <= j < before.len() && before[j] == x as usize;
                            assert(self.work@[j] == x as usize);
                        }
                    }
                }
                assert forall|j: int| #![trigger self.work@[j]] 0 <= j < self.work@.len() implies self.work@[j] < self.states@.len() by {
                    if j < before.len() {
                        assert(before[j] == self.work@[j]);
                    }
                }
            }
        } else {
            assert(old(self).queued@.update(node as int, true) =~= old(self).queued@);
        }
    }

    /// Joins `state` into the state of `node`, queueing `node` when it changed.
    pub fn seed(&mut self, node: usize, state: &TargetState)
        requires
            old(self).wf(),
            node < old(self).spec_states().len(),
        ensures
            final(self).wf(),
            final(self).spec_dependents() == old(self).spec_dependents(),
            final(self).spec_states().len() == old(self).spec_states().len(),
            forall|x: int|
                #![trigger final(self).spec_states()[x]]
                0 <= x < old(self).spec_states().len() && x != node ==> final(self).spec_states()[x]
                    == old(self).spec_states()[x],
            final(self).spec_states()[node as int].spec_is_known() == (old(self).spec_states()[node as int].spec_is_known() || state.spec_is_known()),
            final(self).spec_states()[node as int].spec_functions() == old(self).spec_states()[node as int].spec_functions().union(state.spec_functions()),
            final(self).spec_states()[node as int].spec_incomplete() == (old(self).spec_states()[node as int].spec_incomplete() || state.spec_incomplete()),
    {
        let changed = self.states[node].join(state);
        proof {
            assert(forall|x: int|
                #![trigger self.states@[x]]
                0 <= x < self.states@.len() && x != node ==> self.states@[x] == old(self).states@[x]);
        }
        if changed {
            self.queue(node);
        }
        proof {
            assert forall|x: int|
                #![trigger self.states@[x]]
                0 <= x < self.states@.len() && self.states@[x].spec_is_known() implies self.queued@[x] by {
                if x != node as int {
                    assert(old(self).states@[x] == self.states@[x]);
                    assert(old(self).queued@[x]);
                } else if !changed {
                    assert(old(self).states@[x].spec_is_known());
                }
            }
        }
    }

    /// Propagates states along the dependency edges until nothing changes,
    /// and returns the state of every node: the join of the states of every
    /// node that reaches it.
    pub fn solve(self) -> (states: Vec<TargetState>)
        requires
            self.wf(),
        ensures
            states@.len() == self.spec_states().len(),
            forall|x: int|
                #![trigger states@[x]]
                0 <= x < states@.len() ==> is_reaching_state(states@[x], self.spec_dependents(), self.spec_states(), x),
    {
        let ghost init = self.states@;
        let ghost lists = self.dependents@;
        let ghost n = init.len() as int;
        let ghost universe = functions_upto(init, init.len());
        proof {
            lemma_functions_upto(init, init.len());
        }
        let ghost cap: nat = (n as nat) * (universe.len() + 2);
        let mut solver = self;
        proof {
            assert forall|x: int| 0 <= x < n implies #[trigger] state_size(solver.states@[x]) <= universe.len() + 2 by {
                assert forall|f: ProgramFunctionId| solver.states@[x].spec_functions().contains(f) implies universe.contains(f) by {
                    assert(init[x].spec_functions().contains(f));
                }
                lemma_state_size_bound(solver.states@[x], universe);
            }
            lemma_total_state_bound(solver.states@, universe.len() + 2);
            assert forall|x: int| #![trigger solver.states@[x]] 0 <= x < n implies le_reaching_state(solver.states@[x], lists, init, x) by {
                lemma_reaches_self(list_step(lists), x);
            }
        }
        while solver.work.len() > 0
            invariant
                solver.structure(),
                init.len() == solver.states@.len(),
                n == init.len(),
                lists == solver.dependents@,
                universe.finite(),
                forall|f: ProgramFunctionId| #[trigger] universe.contains(f) <==> exists|m: int|
                    #![trigger init[m]]
                    0 <= m < init.len() && init[m].spec_functions().contains(f),
                cap == (n as nat) * (universe.len() + 2),
                forall|s: int, k: int|
                    #![trigger lists[s]@[k]]
                    0 <= s < n && 0 <= k < lists[s]@.len() && !solver.queued@[s] ==> state_le(
                        solver.states@[s],
                        solver.states@[lists[s]@[k] as int],
                    ),
                forall|x: int| #![trigger solver.states@[x]] 0 <= x < n ==> state_le(init[x], solver.states@[x]),
                forall|x: int|
                    #![trigger solver.states@[x]]
                    0 <= x < n ==> le_reaching_state(solver.states@[x], lists, init, x),
                total_state_size(solver.states@) <= cap,
            decreases cap - total_state_size(solver.states@), solver.work@.len(),
        {
            let ghost before = solver.work@;
            let ghost total0 = total_state_size(solver.states@);
            let source = match solver.work.pop_front() {
                Some(node) => node,
                None => {
                    return solver.states;
                },
            };
            proof {
                assert(before[0] == source);
                assert(!solver.work@.contains(source)) by {
                    if solver.work@.contains(source) {
                        let j = choose|j: int| 0 <= j < solver.work@.len() && solver.work@[j] == source;
                        assert(before[j + 1] == before[0]);
                    }
                }
                assert forall|x: int| #![trigger solver.queued@[x]] 0 <= x < n && x != source implies (solver.queued@[x]
                    <==> solver.work@.contains(x as usize)) by {
                    if before.contains(x as usize) {
                        let j = choose|j: int| 0 <= j < before.len() && before[j] == x as usize;
                        assert(solver.work@[j - 1] == x as usize);
                    }
                    if solver.work@.contains(x as usize) {
                        let j = choose|j: int| 0 <= j < solver.work@.len() && solver.work@[j] == x as usize;
                        assert(before[j + 1] == x as usize);
                    }
                }
                assert(solver.work@.no_duplicates()) by {
                    assert forall|a: int, b: int| 0 <= a < b < solver.work@.len() implies solver.work@[a] != solver.work@[b] by {
                        assert(before[a + 1] == solver.work@[a] && before[b + 1] == solver.work@[b]);
                    }
                }
                assert forall|j: int| #![trigger solver.work@[j]] 0 <= j < solver.work@.len() implies solver.work@[j] < n by {
                    assert(before[j + 1] == solver.work@[j]);
                }
            }
            solver.queued.set(source, false);
            let state = solver.states[source].copy();
            let ghost w0 = solver.work@.len();
            let mut k: usize = 0;
            while k < solver.dependents[source].len()
                invariant
                    solver.structure(),
                    init.len() == solver.states@.len(),
                    n == init.len(),
                    lists == solver.dependents@,
                    universe.finite(),
                    forall|f: ProgramFunctionId| #[trigger] universe.contains(f) <==> exists|m: int|
                        #![trigger init[m]]
                        0 <= m < init.len() && init[m].spec_functions().contains(f),
                    cap == (n as nat) * (universe.len() + 2),
                    source < n,
                    !solver.queued@[source as int],
                    k <= lists[source as int]@.len(),
                    state_le(state, solver.states@[source as int]),
                    state_le(solver.states@[source as int], state),
                    le_reaching_state(state, lists, init, source as int),
                    forall|s: int, j: int|
                        #![trigger lists[s]@[j]]
                        0 <= s < n && 0 <= j < lists[s]@.len() && !solver.queued@[s] && s != source ==> state_le(
                            solver.states@[s],
                            solver.states@[lists[s]@[j] as int],
                        ),
                    forall|j: int|
                        #![trigger lists[source as int]@[j]]
                        0 <= j < k ==> state_le(state, solver.states@[lists[source as int]@[j] as int]),
                    forall|x: int| #![trigger solver.states@[x]] 0 <= x < n ==> state_le(init[x], solver.states@[x]),
                    forall|x: int|
                        #![trigger solver.states@[x]]
                        0 <= x < n ==> le_reaching_state(solver.states@[x], lists, init, x),
                    total_state_size(solver.states@) <= cap,
                    total_state_size(solver.states@) >= total0,
                    total_state_size(solver.states@) == total0 ==> solver.work@.len() == w0,
                decreases lists[source as int]@.len() - k,
            {
                let target = solver.dependents[source][k];
                let ghost states0 = solver.states@;
                proof {
                    assert(lists[source as int]@[k as int] == target);
                    assert(list_step(lists)(source as int, target as int));
                    lemma_reaching_state_step(lists, init, source as int, target as int);
                }
                let changed = solver.states[target].join(&state);
                proof {
                    let t = target as int;
                    assert(forall|x: int|
                        #![trigger solver.states@[x]]
                        0 <= x < n && x != t ==> solver.states@[x] == states0[x]);
                    assert(solver.states@ == states0.update(t, solver.states@[t]));
                    assert forall|f: ProgramFunctionId| solver.states@[t].spec_functions().contains(f) implies universe.contains(f) by {
                        if states0[t].spec_functions().contains(f) {
                            let m = choose|m: int|
                                #![trigger init[m]]
                                0 <= m < init.len() && reaches(list_step(lists), m, t) && init[m].spec_functions().contains(f);
                        } else {
                            let m = choose|m: int|
                                #![trigger init[m]]
                                0 <= m < init.len() && reaches(list_step(lists), m, source as int) && init[m].spec_functions().contains(f);
                        }
                    }
                    lemma_join_state_size(states0[t], solver.states@[t], universe);
                    lemma_total_state_update(states0, t, solver.states@[t]);
                    assert forall|x: int| 0 <= x < n implies #[trigger] state_size(solver.states@[x]) <= universe.len() + 2 by {
                        assert forall|f: ProgramFunctionId| solver.states@[x].spec_functions().contains(f) implies universe.contains(f) by {
                            let m = choose|m: int|
                                #![trigger init[m]]
                                0 <= m < init.len() && reaches(list_step(lists), m, x) && init[m].spec_functions().contains(f);
                        }
                        lemma_state_size_bound(solver.states@[x], universe);
                    }
                    lemma_total_state_bound(solver.states@, universe.len() + 2);
                }
                if changed {
                    solver.queue(target);
                }
                proof {
                    let t = target as int;
                    assert forall|s: int, j: int|
                        #![trigger lists[s]@[j]]
                        0 <= s < n && 0 <= j < lists[s]@.len() && !solver.queued@[s] && s != source ==> state_le(
                            solver.states@[s],
                            solver.states@[lists[s]@[j] as int],
                        ) by {
                        if 0 <= s < n && 0 <= j < lists[s]@.len() && !solver.queued@[s] && s != source {
                            let u = lists[s]@[j] as int;
                            assert(state_le(states0[u], solver.states@[u]));
                            if s == t {
                                assert(!changed);
                            }
                        }
                    }
                    assert forall|j: int|
                        #![trigger lists[source as int]@[j]]
                        0 <= j < k + 1 implies state_le(state, solver.states@[lists[source as int]@[j] as int]) by {
                        let u = lists[source as int]@[j] as int;
                        assert(state_le(states0[u], solver.states@[u]));
                    }
                    assert(state_le(states0[source as int], solver.states@[source as int]));
                    if t == source as int {
                        assert(solver.states@[t].spec_functions() =~= states0[t].spec_functions());
                        assert(!changed);
                    }
                }
                k = k + 1;
            }
            proof {
                assert forall|s: int, j: int|
                    #![trigger lists[s]@[j]]
                    0 <= s < n && 0 <= j < lists[s]@.len() && !solver.queued@[s] implies state_le(
                        solver.states@[s],
                        solver.states@[lists[s]@[j] as int],
                    ) by {
                    if s == source as int {
                        assert(state_le(state, solver.states@[lists[s]@[j] as int]));
                    }
                }
            }
        }
        proof {
            assert forall|s: int, j: int|
                #![trigger lists[s]@[j]]
                0 <= s < n && 0 <= j < lists[s]@.len() implies state_le(
                    solver.states@[s],
                    solver.states@[lists[s]@[j] as int],
                ) by {
                if solver.queued@[s] {
                    assert(solver.work@.contains(s as usize));
                }
            }
            lemma_closed_states_cover(lists, init, solver.states@);
            assert forall|x: int|
                #![trigger solver.states@[x]]
                0 <= x < n implies is_reaching_state(solver.states@[x], lists, init, x) by {
                assert(solver.states@[x].spec_functions() =~= reaching_functions(lists, init, x));
            }
        }
        solver.states
    }
}

} // verus!
