//! External facts supplied to a function-value analysis.
//!
//! Boundary facts constrain values entering a function or one of its
//! independently entered regions. Result facts constrain operation results
//! whose semantics were modeled outside the current function; they describe
//! only the value produced when an operation completes normally, and do not
//! make the defining operation non-throwing, removable or free of effects.

use vstd::prelude::*;

use crate::abstract_value::AbstractValue;

verus! {

/// Optional value facts supplied by an enclosing analysis, indexed by value.
pub struct FunctionValueInputs {
    boundary_values: Vec<Option<AbstractValue>>,
    result_values: Vec<Option<AbstractValue>>,
}

/// Entry `v` of `facts`, or `None` past its end.
pub open spec fn fact_at(facts: Seq<Option<AbstractValue>>, v: int) -> Option<AbstractValue> {
    if 0 <= v < facts.len() {
        facts[v]
    } else {
        None
    }
}

/// `facts` with entry `value` set to `fact`, grown with `None` as needed.
fn set_fact(facts: &mut Vec<Option<AbstractValue>>, value: usize, fact: AbstractValue)
    requires
        value < usize::MAX,
    ensures
        fact_at(final(facts)@, value as int) == Some(fact),
        forall|v: int| v != value ==> fact_at(final(facts)@, v) == fact_at(old(facts)@, v),
{
    let ghost before = old(facts)@;
    while facts.len() <= value
        invariant
            value < usize::MAX,
            before.len() <= facts@.len(),
            facts@.len() <= value + 1 || facts@.len() == before.len(),
            forall|v: int| 0 <= v < before.len() ==> facts@[v] == before[v],
            forall|v: int| before.len() <= v < facts@.len() ==> facts@[v] is None,
        decreases value + 1 - facts@.len(),
    {
        facts.push(None);
    }
    let ghost grown = facts@;
    facts.set(value, Some(fact));
    proof {
        assert forall|v: int| v != value implies fact_at(facts@, v) == fact_at(before, v) by {
            if 0 <= v < facts@.len() {
                assert(facts@[v] == grown[v]);
            }
        }
    }
}

/// The supplied entry for `value`.
fn fact_of(facts: &Vec<Option<AbstractValue>>, value: usize) -> (r: Option<&AbstractValue>)
    ensures
        match r {
            Some(f) => fact_at(facts@, value as int) == Some(*f),
            None => fact_at(facts@, value as int) is None,
        },
{
    if value < facts.len() {
        match &facts[value] {
            Some(f) => Some(f),
            None => None,
        }
    } else {
        None
    }
}

/// Whether no entry of `facts` is supplied.
fn none_supplied(facts: &Vec<Option<AbstractValue>>) -> (r: bool)
    ensures
        r == forall|v: int| #[trigger] fact_at(facts@, v) is None,
{
    let mut i: usize = 0;
    while i < facts.len()
        invariant
            i <= facts@.len(),
            forall|v: int| 0 <= v < i ==> facts@[v] is None,
        decreases facts@.len() - i,
    {
        if facts[i].is_some() {
            assert(fact_at(facts@, i as int) is Some);
            return false;
        }
        i = i + 1;
    }
    true
}

impl FunctionValueInputs {
    /// The boundary fact supplied for value `v`.
    pub closed spec fn spec_boundary(&self, v: int) -> Option<AbstractValue> {
        fact_at(self.boundary_values@, v)
    }

    /// The result fact supplied for value `v`.
    pub closed spec fn spec_result(&self, v: int) -> Option<AbstractValue> {
        fact_at(self.result_values@, v)
    }

    /// Creates an empty set of external value facts.
    pub fn new() -> (inputs: Self)
        ensures
            forall|v: int| #[trigger] inputs.spec_boundary(v) is None && inputs.spec_result(v) is None,
    {
        FunctionValueInputs { boundary_values: Vec::new(), result_values: Vec::new() }
    }

    /// Supplies a fact for a function or region boundary value.
    pub fn set_boundary_value(&mut self, value: usize, fact: AbstractValue)
        requires
            value < usize::MAX,
        ensures
            final(self).spec_boundary(value as int) == Some(fact),
            forall|v: int| v != value ==> final(self).spec_boundary(v) == old(self).spec_boundary(v),
            forall|v: int| #[trigger] final(self).spec_result(v) == old(self).spec_result(v),
    {
        set_fact(&mut self.boundary_values, value, fact);
    }

    /// Supplies a fact for an operation result.
    pub fn set_result_value(&mut self, value: usize, fact: AbstractValue)
        requires
            value < usize::MAX,
        ensures
            final(self).spec_result(value as int) == Some(fact),
            forall|v: int| v != value ==> final(self).spec_result(v) == old(self).spec_result(v),
            forall|v: int| #[trigger] final(self).spec_boundary(v) == old(self).spec_boundary(v),
    {
        set_fact(&mut self.result_values, value, fact);
    }

    /// Returns the supplied boundary fact for a value.
    pub fn boundary_value(&self, value: usize) -> (r: Option<&AbstractValue>)
        ensures
            match r {
                Some(f) => self.spec_boundary(value as int) == Some(*f),
                None => self.spec_boundary(value as int) is None,
            },
    {
        fact_of(&self.boundary_values, value)
    }

    /// Returns the supplied operation-result fact for a value.
    pub fn result_value(&self, value: usize) -> (r: Option<&AbstractValue>)
        ensures
            match r {
                Some(f) => self.spec_result(value as int) == Some(*f),
                None => self.spec_result(value as int) is None,
            },
    {
        fact_of(&self.result_values, value)
    }

    /// Returns whether no external facts have been supplied.
    pub fn is_empty(&self) -> (r: bool)
        ensures
            r == forall|v: int| #[trigger] self.spec_boundary(v) is None && self.spec_result(v) is None,
    {
        let boundary = none_supplied(&self.boundary_values);
        let result = none_supplied(&self.result_values);
        proof {
            if !boundary {
                let v = choose|v: int| !(#[trigger] fact_at(self.boundary_values@, v) is None);
                assert(!(self.spec_boundary(v) is None && self.spec_result(v) is None));
            }
            if !result {
                let v = choose|v: int| !(#[trigger] fact_at(self.result_values@, v) is None);
                assert(!(self.spec_boundary(v) is None && self.spec_result(v) is None));
            }
        }
        boundary && result
    }
}

impl Default for FunctionValueInputs {
    /// An empty set of external value facts.
    fn default() -> (inputs: Self)
        ensures
            forall|v: int| #[trigger] inputs.spec_boundary(v) is None && inputs.spec_result(v) is None,
    {
        FunctionValueInputs::new()
    }
}

} // verus!
