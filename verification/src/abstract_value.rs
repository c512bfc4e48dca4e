//! Abstract domain for ECMAScript values.

use vstd::prelude::*;

verus! {

/// Possible ECMAScript language types, one bit each.
#[derive(Debug, Clone, Copy, PartialEq, Eq, Structural, Hash)]
pub struct ValueTypeSet {
    bits: u16,
}

/// The bit of the `undefined` type.
pub const UNDEFINED_BITS: u16 = 1;
/// The bit of the `null` type.
pub const NULL_BITS: u16 = 2;
/// The bit of the boolean type.
pub const BOOLEAN_BITS: u16 = 4;
/// The bit of the number type.
pub const NUMBER_BITS: u16 = 8;
/// The bit of the BigInt type.
pub const BIGINT_BITS: u16 = 16;
/// The bit of the string type.
pub const STRING_BITS: u16 = 32;
/// The bit of the symbol type.
pub const SYMBOL_BITS: u16 = 64;
/// The bit of the object type.
pub const OBJECT_BITS: u16 = 128;
/// The bits of `undefined` and `null`.
pub const NULLISH_BITS: u16 = 3;
/// The bits of every primitive type.
pub const PRIMITIVE_BITS: u16 = 127;
/// The bits of every type.
pub const ANY_BITS: u16 = 255;

impl ValueTypeSet {
    /// The bits of the set.
    pub closed spec fn spec_bits(self) -> u16 {
        self.bits
    }

    /// Whether every type of `other` is in `self`.
    pub open spec fn spec_contains(self, other: Self) -> bool {
        self.spec_bits() & other.spec_bits() == other.spec_bits()
    }

    /// Two sets are equal exactly when their bits are.
    pub proof fn lemma_eq(self, other: Self)
        ensures
            (self == other) <==> (self.spec_bits() == other.spec_bits()),
    {
    }

    /// The set with exactly the given bits.
    pub fn from_bits_retain(bits: u16) -> (set: Self)
        ensures
            set.spec_bits() == bits,
    {
        ValueTypeSet { bits }
    }

    /// The bits of the set.
    pub fn bits(self) -> (bits: u16)
        ensures
            bits == self.spec_bits(),
    {
        self.bits
    }

    /// No type.
    pub fn empty() -> (set: Self)
        ensures
            set.spec_bits() == 0,
    {
        ValueTypeSet { bits: 0 }
    }

    /// The `undefined` type.
    pub fn undefined() -> (set: Self)
        ensures
            set.spec_bits() == UNDEFINED_BITS,
    {
        ValueTypeSet { bits: UNDEFINED_BITS }
    }

    /// The `null` type.
    pub fn null() -> (set: Self)
        ensures
            set.spec_bits() == NULL_BITS,
    {
        ValueTypeSet { bits: NULL_BITS }
    }

    /// The boolean type.
    pub fn boolean() -> (set: Self)
        ensures
            set.spec_bits() == BOOLEAN_BITS,
    {
        ValueTypeSet { bits: BOOLEAN_BITS }
    }

    /// The number type.
    pub fn number() -> (set: Self)
        ensures
            set.spec_bits() == NUMBER_BITS,
    {
        ValueTypeSet { bits: NUMBER_BITS }
    }

    /// The BigInt type.
    pub fn bigint() -> (set: Self)
        ensures
            set.spec_bits() == BIGINT_BITS,
    {
        ValueTypeSet { bits: BIGINT_BITS }
    }

    /// The string type.
    pub fn string() -> (set: Self)
        ensures
            set.spec_bits() == STRING_BITS,
    {
        ValueTypeSet { bits: STRING_BITS }
    }

    /// The symbol type.
    pub fn symbol() -> (set: Self)
        ensures
            set.spec_bits() == SYMBOL_BITS,
    {
        ValueTypeSet { bits: SYMBOL_BITS }
    }

    /// The object type.
    pub fn object() -> (set: Self)
        ensures
            set.spec_bits() == OBJECT_BITS,
    {
        ValueTypeSet { bits: OBJECT_BITS }
    }

    /// `undefined` and `null`.
    pub fn nullish() -> (set: Self)
        ensures
            set.spec_bits() == NULLISH_BITS,
    {
        ValueTypeSet { bits: NULLISH_BITS }
    }

    /// Every primitive type.
    pub fn primitive() -> (set: Self)
        ensures
            set.spec_bits() == PRIMITIVE_BITS,
    {
        ValueTypeSet { bits: PRIMITIVE_BITS }
    }

    /// Every type.
    pub fn any() -> (set: Self)
        ensures
            set.spec_bits() == ANY_BITS,
    {
        ValueTypeSet { bits: ANY_BITS }
    }

    /// Whether the set holds no type.
    pub fn is_empty(self) -> (r: bool)
        ensures
            r == (self.spec_bits() == 0),
    {
        self.bits == 0
    }

    /// Whether every type of `other` is in `self`.
    pub fn contains(self, other: Self) -> (r: bool)
        ensures
            r == self.spec_contains(other),
    {
        self.bits & other.bits == other.bits
    }

    /// Whether the sets share a type.
    pub fn intersects(self, other: Self) -> (r: bool)
        ensures
            r == (self.spec_bits() & other.spec_bits() != 0),
    {
        self.bits & other.bits != 0
    }

    /// The types of either set.
    pub fn union(self, other: Self) -> (set: Self)
        ensures
            set.spec_bits() == self.spec_bits() | other.spec_bits(),
    {
        ValueTypeSet { bits: self.bits | other.bits }
    }

    /// Union is commutative, associative and idempotent, contains both of its
    /// parts, and is empty only when both parts are.
    pub proof fn lemma_union_laws(a: Self, b: Self, c: Self)
        ensures
            a.spec_bits() | b.spec_bits() == b.spec_bits() | a.spec_bits(),
            (a.spec_bits() | b.spec_bits()) | c.spec_bits() == a.spec_bits() | (b.spec_bits()
                | c.spec_bits()),
            a.spec_bits() | a.spec_bits() == a.spec_bits(),
            (a.spec_bits() | b.spec_bits()) & a.spec_bits() == a.spec_bits(),
            (a.spec_bits() | b.spec_bits()) & b.spec_bits() == b.spec_bits(),
            (a.spec_bits() | b.spec_bits() == 0) == (a.spec_bits() == 0 && b.spec_bits() == 0),
    {
        let x = a.spec_bits();
        let y = b.spec_bits();
        let z = c.spec_bits();
        assert(x | y == y | x) by (bit_vector);
        assert((x | y) | z == x | (y | z)) by (bit_vector);
        assert(x | x == x) by (bit_vector);
        assert((x | y) & x == x) by (bit_vector);
        assert((x | y) & y == y) by (bit_vector);
        assert((x | y == 0) == (x == 0 && y == 0)) by (bit_vector);
    }
}

/// Whether the IEEE 754 double with bits `bits` is a NaN.
pub open spec fn is_nan_bits(bits: u64) -> bool {
    bits & 0x7ff0_0000_0000_0000u64 == 0x7ff0_0000_0000_0000u64 && bits & 0x000f_ffff_ffff_ffffu64
        != 0
}

/// Whether the IEEE 754 double with bits `bits` is a zero of either sign.
pub open spec fn is_zero_bits(bits: u64) -> bool {
    bits & 0x7fff_ffff_ffff_ffffu64 == 0
}

/// Whether the IEEE 754 double with bits `bits` is a NaN.
pub fn number_is_nan(bits: u64) -> (r: bool)
    ensures
        r == is_nan_bits(bits),
{
    bits & 0x7ff0_0000_0000_0000u64 == 0x7ff0_0000_0000_0000u64 && bits & 0x000f_ffff_ffff_ffffu64
        != 0
}

/// One exact JavaScript primitive constant.
///
/// A number is held as the bits of its IEEE 754 double, so that signed
/// zeros and NaN payloads stay distinguishable.
#[derive(Debug, PartialEq, Eq)]
pub enum ConstantValue {
    Undefined,
    Null,
    Boolean(bool),
    Number(u64),
    BigInt(String),
    String(String),
}

impl Clone for ConstantValue {
    fn clone(&self) -> (copy: Self)
        ensures
            copy == *self,
    {
        match self {
            ConstantValue::Undefined => ConstantValue::Undefined,
            ConstantValue::Null => ConstantValue::Null,
            ConstantValue::Boolean(b) => ConstantValue::Boolean(*b),
            ConstantValue::Number(bits) => ConstantValue::Number(*bits),
            ConstantValue::BigInt(digits) => ConstantValue::BigInt(digits.clone()),
            ConstantValue::String(text) => ConstantValue::String(text.clone()),
        }
    }
}

/// The ECMAScript type of a constant.
pub open spec fn spec_type_of_constant(constant: ConstantValue) -> u16 {
    match constant {
        ConstantValue::Undefined => UNDEFINED_BITS,
        ConstantValue::Null => NULL_BITS,
        ConstantValue::Boolean(_) => BOOLEAN_BITS,
        ConstantValue::Number(_) => NUMBER_BITS,
        ConstantValue::BigInt(_) => BIGINT_BITS,
        ConstantValue::String(_) => STRING_BITS,
    }
}

/// The ECMAScript type of a constant.
pub fn type_of_constant(constant: &ConstantValue) -> (types: ValueTypeSet)
    ensures
        types.spec_bits() == spec_type_of_constant(*constant),
{
    match constant {
        ConstantValue::Undefined => ValueTypeSet::undefined(),
        ConstantValue::Null => ValueTypeSet::null(),
        ConstantValue::Boolean(_) => ValueTypeSet::boolean(),
        ConstantValue::Number(_) => ValueTypeSet::number(),
        ConstantValue::BigInt(_) => ValueTypeSet::bigint(),
        ConstantValue::String(_) => ValueTypeSet::string(),
    }
}

/// Whether two constants are one fact for the abstract interpreter: signed
/// zeros stay distinct, since JavaScript can observe them, while every NaN
/// is one fact, so that fixed points do not depend on NaN payloads.
pub open spec fn spec_same_constant(left: ConstantValue, right: ConstantValue) -> bool {
    match (left, right) {
        (ConstantValue::Number(a), ConstantValue::Number(b)) => a == b || (is_nan_bits(a)
            && is_nan_bits(b)),
        (ConstantValue::Undefined, ConstantValue::Undefined) => true,
        (ConstantValue::Null, ConstantValue::Null) => true,
        (ConstantValue::Boolean(a), ConstantValue::Boolean(b)) => a == b,
        (ConstantValue::BigInt(a), ConstantValue::BigInt(b)) => a@ == b@,
        (ConstantValue::String(a), ConstantValue::String(b)) => a@ == b@,
        _ => false,
    }
}

/// Whether two constants are one fact for the abstract interpreter.
pub fn same_constant(left: &ConstantValue, right: &ConstantValue) -> (r: bool)
    ensures
        r == spec_same_constant(*left, *right),
{
    match (left, right) {
        (ConstantValue::Number(a), ConstantValue::Number(b)) => *a == *b || (number_is_nan(*a)
            && number_is_nan(*b)),
        (ConstantValue::Undefined, ConstantValue::Undefined) => true,
        (ConstantValue::Null, ConstantValue::Null) => true,
        (ConstantValue::Boolean(a), ConstantValue::Boolean(b)) => *a == *b,
        (ConstantValue::BigInt(a), ConstantValue::BigInt(b)) => a.eq(b),
        (ConstantValue::String(a), ConstantValue::String(b)) => a.eq(b),
        _ => false,
    }
}

/// Two constants are one fact exactly when they are the same JavaScript
/// value, every NaN counting as one: constants of different kinds never
/// are; two booleans are when they are both true or both false; two
/// strings or big integers when their text is equal; two numbers when their
/// bits are equal or both are NaN.
pub proof fn lemma_same_constant_is_same_value(a: ConstantValue, b: ConstantValue)
    ensures
        match (a, b) {
            (ConstantValue::Undefined, ConstantValue::Undefined) => spec_same_constant(a, b),
            (ConstantValue::Null, ConstantValue::Null) => spec_same_constant(a, b),
            (ConstantValue::Boolean(x), ConstantValue::Boolean(y)) => spec_same_constant(a, b) <==> x == y,
            (ConstantValue::Number(x), ConstantValue::Number(y)) => spec_same_constant(a, b) <==> (x == y || (
            is_nan_bits(x) && is_nan_bits(y))),
            (ConstantValue::BigInt(x), ConstantValue::BigInt(y)) => spec_same_constant(a, b) <==> x@ == y@,
            (ConstantValue::String(x), ConstantValue::String(y)) => spec_same_constant(a, b) <==> x@ == y@,
            _ => !spec_same_constant(a, b),
        },
{
}

/// Sameness of constants is an equivalence.
pub proof fn lemma_same_constant_equivalence(a: ConstantValue, b: ConstantValue, c: ConstantValue)
    ensures
        spec_same_constant(a, a),
        spec_same_constant(a, b) == spec_same_constant(b, a),
        spec_same_constant(a, b) && spec_same_constant(b, c) ==> spec_same_constant(a, c),
        spec_same_constant(a, b) ==> spec_type_of_constant(a) == spec_type_of_constant(b),
{
}

/// Facts shared by every runtime value an abstract value stands for.
#[derive(Debug)]
struct ValueFacts {
    types: ValueTypeSet,
    constant: Option<ConstantValue>,
}

/// Statically known information about one JavaScript SSA value.
///
/// It describes a result when its defining operation completes normally; it
/// says nothing of whether the operation throws or has effects.
#[derive(Debug)]
pub struct AbstractValue {
    facts: Option<ValueFacts>,
}

impl AbstractValue {
    #[verifier::type_invariant]
    spec fn well_formed(self) -> bool {
        match self.facts {
            Some(facts) => facts.types.spec_bits() != 0 && match facts.constant {
                Some(c) => facts.types.spec_contains(
                    ValueTypeSet { bits: spec_type_of_constant(c) },
                ),
                None => true,
            },
            None => true,
        }
    }

    /// Whether no executable path has produced this value.
    pub closed spec fn spec_is_bottom(&self) -> bool {
        self.facts is None
    }

    /// The possible types; none for bottom.
    pub closed spec fn spec_types(&self) -> u16 {
        match self.facts {
            Some(facts) => facts.types.spec_bits(),
            None => 0,
        }
    }

    /// The exact constant, when known.
    pub closed spec fn spec_constant(&self) -> Option<ConstantValue> {
        match self.facts {
            Some(facts) => facts.constant,
            None => None,
        }
    }

    /// A bottom value has no type and no constant.
    pub proof fn lemma_bottom_has_no_facts(&self)
        ensures
            self.spec_is_bottom() ==> self.spec_types() == 0 && self.spec_constant() is None,
    {
    }

    /// Two abstract values state the same facts.
    pub open spec fn same_facts(&self, other: &Self) -> bool {
        &&& self.spec_is_bottom() == other.spec_is_bottom()
        &&& self.spec_types() == other.spec_types()
        &&& match (self.spec_constant(), other.spec_constant()) {
            (Some(a), Some(b)) => spec_same_constant(a, b),
            (None, None) => true,
            _ => false,
        }
    }

    /// What joining `left` and `right` yields, as types and constant; `None` for bottom.
    pub open spec fn spec_join(left: &Self, right: &Self) -> Option<(u16, Option<ConstantValue>)> {
        if left.spec_is_bottom() && right.spec_is_bottom() {
            None
        } else if left.spec_is_bottom() {
            Some((right.spec_types(), right.spec_constant()))
        } else if right.spec_is_bottom() {
            Some((left.spec_types(), left.spec_constant()))
        } else {
            Some(
                (
                    left.spec_types() | right.spec_types(),
                    match (left.spec_constant(), right.spec_constant()) {
                        (Some(a), Some(b)) => if spec_same_constant(a, b) {
                            Some(a)
                        } else {
                            None
                        },
                        _ => None,
                    },
                ),
            )
        }
    }

    fn from_facts(types: ValueTypeSet, constant: Option<ConstantValue>) -> (value: Self)
        requires
            types.spec_bits() != 0,
            constant matches Some(c) ==> types.spec_contains(
                ValueTypeSet { bits: spec_type_of_constant(c) },
            ),
        ensures
            !value.spec_is_bottom(),
            value.spec_types() == types.spec_bits(),
            value.spec_constant() == constant,
    {
        AbstractValue { facts: Some(ValueFacts { types, constant }) }
    }

    /// No executable path has produced this value.
    pub fn bottom() -> (value: Self)
        ensures
            value.spec_is_bottom(),
            value.spec_types() == 0,
            value.spec_constant() is None,
    {
        AbstractValue { facts: None }
    }

    /// A reachable runtime value about which nothing is known.
    pub fn unknown() -> (value: Self)
        ensures
            !value.spec_is_bottom(),
            value.spec_types() == ANY_BITS,
            value.spec_constant() is None,
    {
        Self::from_facts(ValueTypeSet::any(), None)
    }

    /// A value of one of the types `types`; bottom when there is none.
    pub fn of_types(types: ValueTypeSet) -> (value: Self)
        ensures
            value.spec_is_bottom() == (types.spec_bits() == 0),
            value.spec_types() == types.spec_bits(),
            value.spec_constant() is None,
    {
        if types.is_empty() {
            return Self::bottom();
        }
        Self::from_facts(types, None)
    }

    /// One exact JavaScript primitive constant.
    pub fn from_constant(constant: ConstantValue) -> (value: Self)
        ensures
            !value.spec_is_bottom(),
            value.spec_types() == spec_type_of_constant(constant),
            value.spec_constant() == Some(constant),
    {
        let types = type_of_constant(&constant);
        proof {
            let b = types.spec_bits();
            assert(b & b == b) by (bit_vector);
        }
        Self::from_facts(types, Some(constant))
    }

    /// Whether no executable path has produced this value.
    pub fn is_bottom(&self) -> (r: bool)
        ensures
            r == self.spec_is_bottom(),
    {
        self.facts.is_none()
    }

    /// All possible ECMAScript types; none for bottom.
    pub fn types(&self) -> (types: ValueTypeSet)
        ensures
            types.spec_bits() == self.spec_types(),
    {
        match &self.facts {
            Some(facts) => facts.types,
            None => ValueTypeSet::empty(),
        }
    }

    /// Whether every runtime value it stands for has one of the types
    /// `allowed`; bottom establishes no type and answers `false`.
    pub fn is_definitely(&self, allowed: ValueTypeSet) -> (r: bool)
        ensures
            r == (self.spec_types() != 0 && allowed.spec_bits() & self.spec_types()
                == self.spec_types()),
    {
        let types = self.types();
        !types.is_empty() && allowed.contains(types)
    }

    /// The exact JavaScript constant, when known.
    pub fn constant(&self) -> (constant: Option<&ConstantValue>)
        ensures
            match constant {
                Some(c) => self.spec_constant() == Some(*c),
                None => self.spec_constant() is None,
            },
    {
        match &self.facts {
            Some(facts) => facts.constant.as_ref(),
            None => None,
        }
    }

    /// Whether the two values state the same facts.
    pub fn same(&self, other: &Self) -> (r: bool)
        ensures
            r == self.same_facts(other),
    {
        match (&self.facts, &other.facts) {
            (None, None) => true,
            (Some(left), Some(right)) => {
                left.types == right.types && match (&left.constant, &right.constant) {
                    (Some(a), Some(b)) => same_constant(a, b),
                    (None, None) => true,
                    _ => false,
                }
            },
            _ => false,
        }
    }

    /// Joining two values that each hold one constant keeps a constant
    /// exactly when the two constants are the same JavaScript value (every
    /// NaN counting as one), and then keeps the left one: `true` joined with
    /// `false`, `"a"` with `"b"`, or `1` with `2` holds no constant, while the
    /// types are the union of both.
    pub proof fn lemma_join_of_constants(a: Self, b: Self)
        requires
            !a.spec_is_bottom(),
            !b.spec_is_bottom(),
            a.spec_constant() is Some,
            b.spec_constant() is Some,
        ensures
            Self::spec_join(&a, &b) is Some,
            Self::spec_join(&a, &b)->Some_0.0 == a.spec_types() | b.spec_types(),
            Self::spec_join(&a, &b)->Some_0.1 is Some ==> Self::spec_join(&a, &b)->Some_0.1 == a.spec_constant(),
            match (a.spec_constant()->Some_0, b.spec_constant()->Some_0) {
                (ConstantValue::Undefined, ConstantValue::Undefined) => Self::spec_join(&a, &b)->Some_0.1 is Some,
                (ConstantValue::Null, ConstantValue::Null) => Self::spec_join(&a, &b)->Some_0.1 is Some,
                (ConstantValue::Boolean(x), ConstantValue::Boolean(y)) => Self::spec_join(&a, &b)->Some_0.1 is Some
                    <==> x == y,
                (ConstantValue::Number(x), ConstantValue::Number(y)) => Self::spec_join(&a, &b)->Some_0.1 is Some
                    <==> (x == y || (is_nan_bits(x) && is_nan_bits(y))),
                (ConstantValue::BigInt(x), ConstantValue::BigInt(y)) => Self::spec_join(&a, &b)->Some_0.1 is Some
                    <==> x@ == y@,
                (ConstantValue::String(x), ConstantValue::String(y)) => Self::spec_join(&a, &b)->Some_0.1 is Some
                    <==> x@ == y@,
                _ => Self::spec_join(&a, &b)->Some_0.1 is None,
            },
    {
        lemma_same_constant_is_same_value(a.spec_constant()->Some_0, b.spec_constant()->Some_0);
    }

    /// Joining two values, one of which holds no constant, holds no constant;
    /// joining with bottom gives the other value's facts.
    pub proof fn lemma_join_without_constant(a: Self, b: Self)
        ensures
            !a.spec_is_bottom() && !b.spec_is_bottom() && (a.spec_constant() is None || b.spec_constant() is None)
                ==> Self::spec_join(&a, &b) == Some((a.spec_types() | b.spec_types(), None::<ConstantValue>)),
            a.spec_is_bottom() && !b.spec_is_bottom() ==> Self::spec_join(&a, &b) == Some((b.spec_types(), b.spec_constant())),
            !a.spec_is_bottom() && b.spec_is_bottom() ==> Self::spec_join(&a, &b) == Some((a.spec_types(), a.spec_constant())),
            a.spec_is_bottom() && b.spec_is_bottom() ==> Self::spec_join(&a, &b) is None,
    {
    }

    /// Conservatively combines facts from independent executable paths.
    pub fn join(&self, incoming: &Self) -> (joined: Self)
        ensures
            match Self::spec_join(self, incoming) {
                None => joined.spec_is_bottom() && joined.spec_types() == 0 && joined.spec_constant() is None,
                Some((types, constant)) => !joined.spec_is_bottom() && joined.spec_types() == types
                    && joined.spec_constant() == constant,
            },
    {
        proof {
            use_type_invariant(self);
            use_type_invariant(incoming);
        }
        match (&self.facts, &incoming.facts) {
            (Some(left), Some(right)) => {
                let constant = match (&left.constant, &right.constant) {
                    (Some(a), Some(b)) => {
                        if same_constant(a, b) {
                            Some(a.clone())
                        } else {
                            None
                        }
                    },
                    _ => None,
                };
                let types = left.types.union(right.types);
                proof {
                    let x = left.types.spec_bits();
                    let y = right.types.spec_bits();
                    assert(x != 0 ==> x | y != 0) by (bit_vector);
                    if constant is Some {
                        let t = spec_type_of_constant(constant->0);
                        assert(x & t == t ==> (x | y) & t == t) by (bit_vector);
                    }
                }
                Self::from_facts(types, constant)
            },
            (None, _) => incoming.copy(),
            (Some(_), None) => self.copy(),
        }
    }

    /// A value with the same facts.
    pub fn copy(&self) -> (copy: Self)
        ensures
            copy.spec_is_bottom() == self.spec_is_bottom(),
            copy.spec_types() == self.spec_types(),
            copy.spec_constant() == self.spec_constant(),
    {
        proof {
            use_type_invariant(self);
        }
        match &self.facts {
            None => Self::bottom(),
            Some(facts) => {
                let constant = match &facts.constant {
                    Some(c) => Some(c.clone()),
                    None => None,
                };
                Self::from_facts(facts.types, constant)
            },
        }
    }

    /// Bottom is the identity of join; join is commutative and idempotent up
    /// to the same facts; joined types are the union of the types of both
    /// sides; and a constant survives a join only with the same constant.
    pub proof fn lemma_join_laws(a: &Self, b: &Self)
        ensures
            b.spec_is_bottom() ==> Self::spec_join(a, b) == (if a.spec_is_bottom() {
                None
            } else {
                Some((a.spec_types(), a.spec_constant()))
            }),
            a.spec_is_bottom() ==> Self::spec_join(a, b) == (if b.spec_is_bottom() {
                None
            } else {
                Some((b.spec_types(), b.spec_constant()))
            }),
            match (Self::spec_join(a, b), Self::spec_join(b, a)) {
                (None, None) => true,
                (Some((t1, c1)), Some((t2, c2))) => t1 == t2 && match (c1, c2) {
                    (Some(x), Some(y)) => spec_same_constant(x, y),
                    (None, None) => true,
                    _ => false,
                },
                _ => false,
            },
            !a.spec_is_bottom() ==> Self::spec_join(a, a) == Some(
                (a.spec_types(), a.spec_constant()),
            ),
            !a.spec_is_bottom() && !b.spec_is_bottom() ==> (Self::spec_join(a, b) matches Some(
                (t, _),
            ) && t == a.spec_types() | b.spec_types()),
    {
        let x = a.spec_types();
        let y = b.spec_types();
        assert(x | y == y | x) by (bit_vector);
        assert(x | x == x) by (bit_vector);
        if let (Some(c), Some(d)) = (a.spec_constant(), b.spec_constant()) {
            lemma_same_constant_equivalence(c, d, c);
        }
        if let Some(c) = a.spec_constant() {
            lemma_same_constant_equivalence(c, c, c);
        }
    }
}

/// The facts of an abstract value as types and constant; `None` for bottom.
pub open spec fn facts_of(v: &AbstractValue) -> Option<(u16, Option<ConstantValue>)> {
    if v.spec_is_bottom() {
        None
    } else {
        Some((v.spec_types(), v.spec_constant()))
    }
}

/// What joining facts `x` and `y` yields; `None` for bottom.
pub open spec fn join_facts(
    x: Option<(u16, Option<ConstantValue>)>,
    y: Option<(u16, Option<ConstantValue>)>,
) -> Option<(u16, Option<ConstantValue>)> {
    match (x, y) {
        (None, _) => y,
        (_, None) => x,
        (Some((t1, c1)), Some((t2, c2))) => Some(
            (
                t1 | t2,
                match (c1, c2) {
                    (Some(p), Some(q)) => if spec_same_constant(p, q) {
                        Some(p)
                    } else {
                        None
                    },
                    _ => None,
                },
            ),
        ),
    }
}

/// Facts `x` and `y` say the same: both bottom, or the same types and the
/// same constant, if any.
pub open spec fn same_join_facts(x: Option<(u16, Option<ConstantValue>)>, y: Option<(u16, Option<ConstantValue>)>) -> bool {
    match (x, y) {
        (None, None) => true,
        (Some((t1, c1)), Some((t2, c2))) => t1 == t2 && match (c1, c2) {
            (Some(p), Some(q)) => spec_same_constant(p, q),
            (None, None) => true,
            _ => false,
        },
        _ => false,
    }
}

/// A bottom value has no type and no constant, and two values state the
/// same facts exactly when their facts are the same as join compares them;
/// so the join laws below hold for `==` on abstract values, bottom included.
pub proof fn lemma_facts_of_values(a: &AbstractValue, b: &AbstractValue)
    ensures
        a.spec_is_bottom() ==> a.spec_types() == 0 && a.spec_constant() is None,
        a.same_facts(b) <==> same_join_facts(facts_of(a), facts_of(b)),
{
    a.lemma_bottom_has_no_facts();
    b.lemma_bottom_has_no_facts();
}

/// Join is associative and commutative up to the same facts, idempotent,
/// and has bottom as its identity: joining values in any grouping and order
/// gives the same facts.
pub proof fn lemma_join_associative(a: &AbstractValue, b: &AbstractValue, c: &AbstractValue)
    ensures
        AbstractValue::spec_join(a, b) == join_facts(facts_of(a), facts_of(b)),
        same_join_facts(
            join_facts(join_facts(facts_of(a), facts_of(b)), facts_of(c)),
            join_facts(facts_of(a), join_facts(facts_of(b), facts_of(c))),
        ),
        same_join_facts(join_facts(facts_of(a), facts_of(b)), join_facts(facts_of(b), facts_of(a))),
        same_join_facts(join_facts(facts_of(a), facts_of(a)), facts_of(a)),
        join_facts(facts_of(a), None) == facts_of(a),
{
    let x = a.spec_types();
    let y = b.spec_types();
    let z = c.spec_types();
    assert((x | y) | z == x | (y | z)) by (bit_vector);
    assert(x | y == y | x) by (bit_vector);
    assert(x | x == x) by (bit_vector);
    if let (Some(p), Some(q), Some(r)) = (a.spec_constant(), b.spec_constant(), c.spec_constant()) {
        lemma_same_constant_equivalence(p, q, r);
        lemma_same_constant_equivalence(q, r, p);
        lemma_same_constant_equivalence(p, r, q);
        lemma_same_constant_equivalence(q, p, r);
        lemma_same_constant_equivalence(r, q, p);
    }
    if let (Some(p), Some(q)) = (a.spec_constant(), b.spec_constant()) {
        lemma_same_constant_equivalence(p, q, p);
    }
    if let Some(p) = a.spec_constant() {
        lemma_same_constant_equivalence(p, p, p);
    }
    if let (Some(q), Some(r)) = (b.spec_constant(), c.spec_constant()) {
        lemma_same_constant_equivalence(q, r, q);
    }
    if let (Some(p), Some(r)) = (a.spec_constant(), c.spec_constant()) {
        lemma_same_constant_equivalence(p, r, p);
    }
}

impl PartialEq for AbstractValue {
    fn eq(&self, other: &Self) -> (r: bool) {
        self.same(other)
    }
}

impl vstd::std_specs::cmp::PartialEqSpecImpl for AbstractValue {
    open spec fn obeys_eq_spec() -> bool {
        true
    }

    open spec fn eq_spec(&self, other: &Self) -> bool {
        self.same_facts(other)
    }
}

} // verus!
