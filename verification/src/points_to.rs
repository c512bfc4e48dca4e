//! Abstract objects and the object component of abstract JavaScript values.

use vstd::prelude::*;

use crate::sparse_bitset::SparseBitSet;

verus! {

/// The identity of one pointer-analysis result: a generation number and the analyzed function.
#[derive(Debug, Clone, Copy, PartialEq, Eq, Structural, Hash)]
pub struct AnalysisOwner {
    generation: u64,
    function: u32,
}

impl AnalysisOwner {
    /// The owner for generation `generation` of an analysis of `function`.
    pub fn new(generation: u64, function: u32) -> (owner: Self)
        ensures
            owner.spec_generation() == generation,
            owner.spec_function() == function,
    {
        AnalysisOwner { generation, function }
    }

    pub closed spec fn spec_generation(self) -> u64 {
        self.generation
    }

    pub closed spec fn spec_function(self) -> u32 {
        self.function
    }

    /// Two owners are equal exactly when their generation and function are.
    pub proof fn lemma_eq(self, other: Self)
        ensures
            (self == other) <==> (self.spec_generation() == other.spec_generation()
                && self.spec_function() == other.spec_function()),
    {
    }

    /// The analyzed function.
    pub fn function(self) -> (function: u32)
        ensures
            function == self.spec_function(),
    {
        self.function
    }

    /// The generation number.
    pub fn generation(self) -> (generation: u64)
        ensures
            generation == self.spec_generation(),
    {
        self.generation
    }
}

/// A source of analysis generations: it hands out 1, 2, 3 and so on, each
/// once, so analyses that draw their generations from one source never share
/// one.
pub struct OwnerGenerations {
    next: u64,
}

impl OwnerGenerations {
    /// The generation the source hands out next.
    pub closed spec fn spec_next(self) -> u64 {
        self.next
    }

    /// A source that has handed out nothing yet.
    pub fn new() -> (generations: Self)
        ensures
            generations.spec_next() == 1,
    {
        OwnerGenerations { next: 1 }
    }

    /// Hands out the next generation; every generation handed out before is
    /// smaller, and every one handed out later is larger. The last `u64`
    /// is never handed out, so a source hands out at most `u64::MAX - 1`
    /// generations.
    pub fn fresh(&mut self) -> (generation: u64)
        requires
            old(self).spec_next() < u64::MAX,
        ensures
            generation == old(self).spec_next(),
            final(self).spec_next() == generation + 1,
    {
        let generation = self.next;
        self.next = generation + 1;
        generation
    }
}

/// Dense identity for one abstract object in a function analysis.
///
/// The identity is scoped to one analysis result: identities from another
/// result are rejected, even when both results analyze the same function.
#[derive(Debug, Clone, Copy, PartialEq, Eq, Structural, Hash)]
pub struct AbstractObjectId {
    owner: AnalysisOwner,
    index: u32,
}

impl AbstractObjectId {
    pub closed spec fn spec_owner(self) -> AnalysisOwner {
        self.owner
    }

    pub closed spec fn spec_index(self) -> nat {
        self.index as nat
    }

    /// Two identities are equal exactly when their owner and index are.
    pub proof fn lemma_eq(self, other: Self)
        ensures
            (self == other) <==> (self.spec_owner() == other.spec_owner() && self.spec_index()
                == other.spec_index()),
    {
    }

    /// Every index fits in a `u32`.
    pub proof fn lemma_index_bound(self)
        ensures
            self.spec_index() <= u32::MAX,
    {
    }

    /// The object numbered `index` in the result `owner`.
    pub fn from_index(owner: AnalysisOwner, index: usize) -> (id: Self)
        requires
            index <= u32::MAX,
        ensures
            id.spec_owner() == owner,
            id.spec_index() == index as nat,
    {
        AbstractObjectId { owner, index: index as u32 }
    }

    /// The function whose analysis created this object.
    pub fn function(self) -> (function: u32)
        ensures
            function == self.spec_owner().spec_function(),
    {
        self.owner.function
    }

    /// The analysis result that created this object.
    pub fn owner(self) -> (owner: AnalysisOwner)
        ensures
            owner == self.spec_owner(),
    {
        self.owner
    }

    /// The dense index of this object in its analysis result.
    pub fn index(self) -> (index: usize)
        ensures
            index as nat == self.spec_index(),
    {
        self.index as usize
    }
}

/// Static origin represented by an abstract object.
#[derive(Debug, Clone, Copy, PartialEq, Eq, Structural, Hash)]
pub enum AbstractObjectKind {
    /// An object produced by one allocation operation, named by the operation.
    Allocation(u32),
    /// The analyzed function's implicit `arguments` object.
    ArgumentsObject,
    /// The current module's stable `import.meta` object.
    ImportMeta,
}

impl AbstractObjectKind {
    /// Whether every evaluation in one activation yields the same object.
    pub open spec fn spec_is_stable_contextual_identity(self) -> bool {
        self is ArgumentsObject || self is ImportMeta
    }

    /// Whether every evaluation in one activation yields the same object.
    pub fn is_stable_contextual_identity(self) -> (stable: bool)
        ensures
            stable == self.spec_is_stable_contextual_identity(),
    {
        match self {
            AbstractObjectKind::Allocation(_) => false,
            AbstractObjectKind::ArgumentsObject => true,
            AbstractObjectKind::ImportMeta => true,
        }
    }
}

/// Metadata for one abstract JavaScript object.
///
/// An allocation operation inside a loop can stand for several runtime
/// objects, so equal allocation sites prove possible aliasing only.
#[derive(Debug, Clone, Copy, PartialEq, Eq, Structural, Hash)]
pub struct AbstractObject {
    id: AbstractObjectId,
    kind: AbstractObjectKind,
}

impl AbstractObject {
    pub closed spec fn spec_id(self) -> AbstractObjectId {
        self.id
    }

    pub closed spec fn spec_kind(self) -> AbstractObjectKind {
        self.kind
    }

    /// The parts of a new object are the ones it was made of.
    pub proof fn lemma_new(id: AbstractObjectId, kind: AbstractObjectKind)
        ensures
            Self::spec_new(id, kind).spec_id() == id,
            Self::spec_new(id, kind).spec_kind() == kind,
    {
    }

    /// The object `id` of origin `kind`.
    pub closed spec fn spec_new(id: AbstractObjectId, kind: AbstractObjectKind) -> Self {
        AbstractObject { id, kind }
    }

    /// The object `id` of origin `kind`.
    pub fn new(id: AbstractObjectId, kind: AbstractObjectKind) -> (object: Self)
        ensures
            object == Self::spec_new(id, kind),
            object.spec_id() == id,
            object.spec_kind() == kind,
    {
        AbstractObject { id, kind }
    }

    /// This object's dense analysis-local identity.
    pub fn id(self) -> (id: AbstractObjectId)
        ensures
            id == self.spec_id(),
    {
        self.id
    }

    /// The function whose analysis created this object.
    pub fn function(self) -> (function: u32)
        ensures
            function == self.spec_id().spec_owner().spec_function(),
    {
        self.id.function()
    }

    /// The static origin represented by this object.
    pub fn kind(self) -> (kind: AbstractObjectKind)
        ensures
            kind == self.spec_kind(),
    {
        self.kind
    }
}

/// The object component of an abstract JavaScript value.
///
/// Known objects are kept even after the value is widened to include an
/// unknown object; escape propagation through a merge of local and external
/// values needs them. An empty object set says nothing about primitive types.
#[derive(Debug)]
pub struct PointsToSet {
    owner: AnalysisOwner,
    objects: SparseBitSet,
    may_point_to_unknown_object: bool,
    may_be_primitive: bool,
}

impl Clone for PointsToSet {
    fn clone(&self) -> (copy: Self)
        ensures
            copy.spec_owner() == self.spec_owner(),
            copy.known() == self.known(),
            copy.spec_unknown_object() == self.spec_unknown_object(),
            copy.spec_primitive() == self.spec_primitive(),
    {
        proof {
            use_type_invariant(self);
        }
        PointsToSet {
            owner: self.owner,
            objects: self.objects.clone(),
            may_point_to_unknown_object: self.may_point_to_unknown_object,
            may_be_primitive: self.may_be_primitive,
        }
    }
}

impl PointsToSet {
    #[verifier::type_invariant]
    spec fn well_formed(self) -> bool {
        forall|i: nat| #[trigger] self.objects@.contains(i) ==> i <= u32::MAX
    }

    /// The analysis result this fact belongs to.
    pub closed spec fn spec_owner(&self) -> AnalysisOwner {
        self.owner
    }

    /// The indices of the known abstract objects.
    pub closed spec fn known(&self) -> Set<nat> {
        self.objects@
    }

    /// Whether the value may point to an object the analysis does not model.
    pub closed spec fn spec_unknown_object(&self) -> bool {
        self.may_point_to_unknown_object
    }

    /// Whether the value may be a primitive.
    pub closed spec fn spec_primitive(&self) -> bool {
        self.may_be_primitive
    }

    fn from_flags(owner: AnalysisOwner, unknown_object: bool, primitive: bool) -> (fact: Self)
        ensures
            fact.spec_owner() == owner,
            fact.known() == Set::<nat>::empty(),
            fact.spec_unknown_object() == unknown_object,
            fact.spec_primitive() == primitive,
    {
        PointsToSet {
            owner,
            objects: SparseBitSet::new(),
            may_point_to_unknown_object: unknown_object,
            may_be_primitive: primitive,
        }
    }

    /// No value at all.
    pub fn bottom(owner: AnalysisOwner) -> (fact: Self)
        ensures
            fact.spec_owner() == owner,
            fact.known() == Set::<nat>::empty(),
            !fact.spec_unknown_object(),
            !fact.spec_primitive(),
    {
        Self::from_flags(owner, false, false)
    }

    /// Some primitive value.
    pub fn primitive(owner: AnalysisOwner) -> (fact: Self)
        ensures
            fact.spec_owner() == owner,
            fact.known() == Set::<nat>::empty(),
            !fact.spec_unknown_object(),
            fact.spec_primitive(),
    {
        Self::from_flags(owner, false, true)
    }

    /// Any value: a primitive or an object the analysis does not model.
    pub fn unknown(owner: AnalysisOwner) -> (fact: Self)
        ensures
            fact.spec_owner() == owner,
            fact.known() == Set::<nat>::empty(),
            fact.spec_unknown_object(),
            fact.spec_primitive(),
    {
        Self::from_flags(owner, true, true)
    }

    /// Some object the analysis does not model.
    pub fn unknown_object(owner: AnalysisOwner) -> (fact: Self)
        ensures
            fact.spec_owner() == owner,
            fact.known() == Set::<nat>::empty(),
            fact.spec_unknown_object(),
            !fact.spec_primitive(),
    {
        Self::from_flags(owner, true, false)
    }

    /// Exactly the known object `object`.
    pub fn singleton(object: AbstractObjectId) -> (fact: Self)
        ensures
            fact.spec_owner() == object.spec_owner(),
            fact.known() == set![object.spec_index()],
            !fact.spec_unknown_object(),
            !fact.spec_primitive(),
    {
        let mut objects = SparseBitSet::new();
        objects.insert(object.index());
        proof {
            assert(Set::<nat>::empty().insert(object.spec_index()) =~= set![object.spec_index()]);
        }
        PointsToSet {
            owner: object.owner(),
            objects,
            may_point_to_unknown_object: false,
            may_be_primitive: false,
        }
    }

    /// Every known abstract object, in increasing index order.
    pub fn objects(&self) -> (objects: Vec<AbstractObjectId>)
        ensures
            forall|a: int, b: int|
                #![trigger objects@[a], objects@[b]]
                0 <= a < b < objects.len() ==> objects@[a].spec_index() < objects@[b].spec_index(),
            forall|x: int|
                #![trigger objects@[x]]
                0 <= x < objects.len() ==> objects@[x].spec_owner() == self.spec_owner()
                    && self.known().contains(objects@[x].spec_index()),
            forall|i: nat|
                #![trigger self.known().contains(i)]
                self.known().contains(i) ==> exists|x: int|
                    #![trigger objects@[x]]
                    0 <= x < objects.len() && objects@[x].spec_index() == i,
    {
        proof {
            use_type_invariant(self);
        }
        let indices = self.objects.indices();
        let mut objects: Vec<AbstractObjectId> = Vec::new();
        let mut k: usize = 0;
        while k < indices.len()
            invariant
                k <= indices.len(),
                objects.len() == k,
                forall|i: nat| #[trigger] self.objects@.contains(i) ==> i <= u32::MAX,
                forall|x: int|
                    #![trigger indices@[x]]
                    0 <= x < indices.len() ==> self.objects@.contains(indices@[x] as nat),
                forall|x: int|
                    #![trigger objects@[x]]
                    0 <= x < k ==> objects@[x].spec_owner() == self.owner
                        && objects@[x].spec_index() == indices@[x] as nat,
            decreases indices.len() - k,
        {
            let index = indices[k];
            objects.push(AbstractObjectId::from_index(self.owner, index));
            k = k + 1;
        }
        proof {
            assert forall|i: nat| #![trigger self.known().contains(i)] self.known().contains(i) implies exists|x: int|
                #![trigger objects@[x]]
                0 <= x < objects.len() && objects@[x].spec_index() == i by {
                let x = choose|x: int|
                    #![trigger indices@[x]]
                    0 <= x < indices.len() && indices@[x] as nat == i;
                assert(objects@[x].spec_index() == i);
            }
        }
        objects
    }

    /// Whether the value may point to an object the analysis does not model.
    pub fn may_point_to_unknown_object(&self) -> (r: bool)
        ensures
            r == self.spec_unknown_object(),
    {
        self.may_point_to_unknown_object
    }

    /// Whether this set holds the known object `object`.
    pub fn contains(&self, object: AbstractObjectId) -> (r: bool)
        ensures
            r == (object.spec_owner() == self.spec_owner() && self.known().contains(
                object.spec_index(),
            )),
    {
        object.owner() == self.owner && self.objects.contains(object.index())
    }

    /// The analysis result this fact belongs to.
    pub fn owner(&self) -> (owner: AnalysisOwner)
        ensures
            owner == self.spec_owner(),
    {
        self.owner
    }

    /// Whether at least one known object is held.
    pub fn has_known_objects(&self) -> (r: bool)
        ensures
            r == (self.known() != Set::<nat>::empty()),
    {
        !self.objects.is_empty()
    }

    /// Whether the value may be some object.
    pub open spec fn spec_may_be_object(&self) -> bool {
        self.spec_unknown_object() || self.known() != Set::<nat>::empty()
    }

    /// Whether every value it stands for is an object, and there is one.
    pub open spec fn spec_is_definitely_object(&self) -> bool {
        !self.spec_primitive() && self.spec_may_be_object()
    }

    /// Whether the value may be some object.
    pub fn may_be_object(&self) -> (r: bool)
        ensures
            r == self.spec_may_be_object(),
    {
        self.may_point_to_unknown_object || self.has_known_objects()
    }

    /// Whether every value it stands for is an object, and there is one.
    pub fn is_definitely_object(&self) -> (r: bool)
        ensures
            r == self.spec_is_definitely_object(),
    {
        !self.may_be_primitive && self.may_be_object()
    }

    /// The only object the value may point to, when it points to no unknown object
    /// and to exactly one known object.
    pub fn sole_known_object(&self) -> (r: Option<AbstractObjectId>)
        ensures
            match r {
                Some(object) => !self.spec_unknown_object() && object.spec_owner() == self.spec_owner()
                    && self.known() == set![object.spec_index()],
                None => self.spec_unknown_object() || forall|i: nat| self.known() != set![i],
            },
    {
        proof {
            use_type_invariant(self);
        }
        if self.may_point_to_unknown_object {
            return None;
        }
        match self.objects.sole_index() {
            Some(index) => {
                proof {
                    assert(set![index as nat].contains(index as nat));
                }
                Some(AbstractObjectId::from_index(self.owner, index))
            },
            None => None,
        }
    }

    /// Adds the facts of `other`, and returns only what was new.
    pub fn join_delta(&mut self, other: &Self) -> (delta: Self)
        requires
            old(self).spec_owner() == other.spec_owner(),
        ensures
            final(self).spec_owner() == old(self).spec_owner(),
            final(self).known() == old(self).known().union(other.known()),
            final(self).spec_unknown_object() == (old(self).spec_unknown_object() || other.spec_unknown_object()),
            final(self).spec_primitive() == (old(self).spec_primitive() || other.spec_primitive()),
            delta.spec_owner() == old(self).spec_owner(),
            delta.known() == other.known().difference(old(self).known()),
            delta.spec_unknown_object() == (other.spec_unknown_object() && !old(self).spec_unknown_object()),
            delta.spec_primitive() == (other.spec_primitive() && !old(self).spec_primitive()),
    {
        proof {
            use_type_invariant(&*self);
            use_type_invariant(other);
        }
        let mut delta = Self::bottom(self.owner);
        let mut objects = SparseBitSet::new();
        let mut delta_objects = SparseBitSet::new();
        std::mem::swap(&mut objects, &mut self.objects);
        objects.union_delta(&other.objects, &mut delta_objects);
        self.objects = objects;
        delta.objects = delta_objects;
        if other.may_point_to_unknown_object && !self.may_point_to_unknown_object {
            self.may_point_to_unknown_object = true;
            delta.may_point_to_unknown_object = true;
        }
        if other.may_be_primitive && !self.may_be_primitive {
            self.may_be_primitive = true;
            delta.may_be_primitive = true;
        }
        delta
    }

    /// Whether the two facts belong to one result and share a known object.
    pub fn known_objects_overlap(&self, other: &Self) -> (r: bool)
        ensures
            r == (self.spec_owner() == other.spec_owner() && exists|i: nat|
                self.known().contains(i) && other.known().contains(i)),
    {
        if self.owner == other.owner {
            let r = self.objects.intersects(&other.objects);
            proof {
                if r {
                    let i = choose|i: nat| self.objects@.contains(i) && other.objects@.contains(i);
                    assert(self.known().contains(i) && other.known().contains(i));
                }
            }
            r
        } else {
            false
        }
    }

    /// Adds the known objects to `target`.
    pub fn union_objects_into(&self, target: &mut SparseBitSet)
        ensures
            final(target)@ == old(target)@.union(self.known()),
    {
        target.union(&self.objects);
    }

    /// Whether the fact stands for no value at all.
    pub fn is_bottom(&self) -> (r: bool)
        ensures
            r == (self.known() == Set::<nat>::empty() && !self.spec_unknown_object()
                && !self.spec_primitive()),
    {
        self.objects.is_empty() && !self.may_point_to_unknown_object && !self.may_be_primitive
    }
}

} // verus!
