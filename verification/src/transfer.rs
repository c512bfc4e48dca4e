//! Transfer semantics of JavaScript operations over abstract values.
//!
//! Facts describe an operation's result when it completes normally; whether
//! it throws or has effects is not their concern. Folding arithmetic on two
//! numbers needs floating point, which the caller computes and hands in.

use vstd::prelude::*;

use crate::abstract_value::is_nan_bits;
use crate::abstract_value::is_zero_bits;
use crate::abstract_value::number_is_nan;
use crate::abstract_value::spec_same_constant;
use crate::abstract_value::spec_type_of_constant;
use crate::abstract_value::AbstractValue;
use crate::abstract_value::ConstantValue;
use crate::abstract_value::ValueTypeSet;
use crate::abstract_value::BIGINT_BITS;
use crate::abstract_value::BOOLEAN_BITS;
use crate::abstract_value::NULLISH_BITS;
use crate::abstract_value::NUMBER_BITS;
use crate::abstract_value::STRING_BITS;

verus! {

/// A JavaScript unary operator.
#[derive(Debug, Clone, Copy, PartialEq, Eq, Structural, Hash)]
pub enum UnaryOperator {
    LogicalNot,
    Plus,
    Negate,
    Void,
    BitwiseNot,
}

/// A JavaScript binary operator.
#[derive(Debug, Clone, Copy, PartialEq, Eq, Structural, Hash)]
pub enum BinaryOperator {
    Add,
    Subtract,
    Multiply,
    Divide,
    Remainder,
    Exponentiate,
    LooseEqual,
    LooseNotEqual,
    StrictEqual,
    StrictNotEqual,
    LessThan,
    LessThanOrEqual,
    GreaterThan,
    GreaterThanOrEqual,
    In,
    InstanceOf,
    ShiftLeft,
    ShiftRight,
    UnsignedShiftRight,
    BitwiseOr,
    BitwiseXor,
    BitwiseAnd,
}

/// What an operation is, as far as its result's value is concerned.
#[derive(Debug, PartialEq, Eq)]
pub enum TransferOperation {
    /// Produces a constant.
    Constant(ConstantValue),
    /// Tests its operand for `undefined` or `null`.
    IsNullish,
    /// Applies a unary operator.
    Unary(UnaryOperator),
    /// Applies a binary operator.
    Binary(BinaryOperator),
    /// `typeof`, of a value when `of_value`, else of a binding or global reference.
    Typeof { of_value: bool },
    /// Any other operation.
    Other,
}

/// `value` is reachable, of the types `types` and with the constant `constant`.
pub open spec fn value_is(value: AbstractValue, types: u16, constant: Option<ConstantValue>) -> bool {
    !value.spec_is_bottom() && value.spec_types() == types && value.spec_constant() == constant
}

/// `value` is exactly the constant `constant`.
pub open spec fn value_is_constant(value: AbstractValue, constant: ConstantValue) -> bool {
    value_is(value, spec_type_of_constant(constant), Some(constant))
}

/// The truthiness of a JavaScript primitive constant.
pub open spec fn spec_truthiness(value: ConstantValue) -> bool {
    match value {
        ConstantValue::Undefined => false,
        ConstantValue::Null => false,
        ConstantValue::Boolean(b) => b,
        ConstantValue::Number(bits) => !is_zero_bits(bits) && !is_nan_bits(bits),
        ConstantValue::BigInt(digits) => digits@ != seq!['0'],
        ConstantValue::String(text) => text@.len() > 0,
    }
}

/// Returns the truthiness of an exact JavaScript primitive constant.
pub fn constant_truthiness(value: &ConstantValue) -> (truthy: bool)
    ensures
        truthy == spec_truthiness(*value),
{
    match value {
        ConstantValue::Undefined => false,
        ConstantValue::Null => false,
        ConstantValue::Boolean(b) => *b,
        ConstantValue::Number(bits) => *bits & 0x7fff_ffff_ffff_ffffu64 != 0 && !number_is_nan(*bits),
        ConstantValue::BigInt(digits) => {
            let text = digits.as_str();
            let is_zero = text.unicode_len() == 1 && text.get_char(0) == '0';
            proof {
                if text@.len() == 1 && text@[0] == '0' {
                    assert(digits@ =~= seq!['0']);
                }
            }
            !is_zero
        },
        ConstantValue::String(text) => text.as_str().unicode_len() != 0,
    }
}

/// Whether two constants are strictly equal (`===`): NaN equals nothing,
/// and the two zeros are equal.
pub open spec fn spec_strictly_equal(left: ConstantValue, right: ConstantValue) -> bool {
    match (left, right) {
        (ConstantValue::Undefined, ConstantValue::Undefined) => true,
        (ConstantValue::Null, ConstantValue::Null) => true,
        (ConstantValue::Boolean(a), ConstantValue::Boolean(b)) => a == b,
        (ConstantValue::Number(a), ConstantValue::Number(b)) => !is_nan_bits(a) && !is_nan_bits(b)
            && (a == b || (is_zero_bits(a) && is_zero_bits(b))),
        (ConstantValue::BigInt(a), ConstantValue::BigInt(b)) => a@ == b@,
        (ConstantValue::String(a), ConstantValue::String(b)) => a@ == b@,
        _ => false,
    }
}

/// Whether two constants are strictly equal (`===`).
pub fn strictly_equal(left: &ConstantValue, right: &ConstantValue) -> (equal: bool)
    ensures
        equal == spec_strictly_equal(*left, *right),
{
    match (left, right) {
        (ConstantValue::Undefined, ConstantValue::Undefined) => true,
        (ConstantValue::Null, ConstantValue::Null) => true,
        (ConstantValue::Boolean(a), ConstantValue::Boolean(b)) => *a == *b,
        (ConstantValue::Number(a), ConstantValue::Number(b)) => !number_is_nan(*a) && !number_is_nan(
            *b,
        ) && (*a == *b || (*a & 0x7fff_ffff_ffff_ffffu64 == 0 && *b & 0x7fff_ffff_ffff_ffffu64 == 0)),
        (ConstantValue::BigInt(a), ConstantValue::BigInt(b)) => a.eq(b),
        (ConstantValue::String(a), ConstantValue::String(b)) => a.eq(b),
        _ => false,
    }
}

/// Strict equality is symmetric, and irreflexive exactly on NaN.
pub proof fn lemma_strict_equality(a: ConstantValue, b: ConstantValue)
    ensures
        spec_strictly_equal(a, b) == spec_strictly_equal(b, a),
        spec_strictly_equal(a, a) == !(a matches ConstantValue::Number(bits) && is_nan_bits(bits)),
{
}

/// Strict equality compares values: constants of different kinds are never
/// strictly equal; two booleans are when both are true or both false; two
/// strings or big integers when their text is equal; two numbers when
/// neither is NaN and their bits are equal or both are zeros of either sign.
/// Apart from numbers, it is exactly sameness of constants; on numbers it
/// differs only on NaN, which equals nothing, and on the two zeros, which are
/// equal.
pub proof fn lemma_strict_equality_compares_values(a: ConstantValue, b: ConstantValue)
    ensures
        match (a, b) {
            (ConstantValue::Undefined, ConstantValue::Undefined) => spec_strictly_equal(a, b),
            (ConstantValue::Null, ConstantValue::Null) => spec_strictly_equal(a, b),
            (ConstantValue::Boolean(x), ConstantValue::Boolean(y)) => spec_strictly_equal(a, b) <==> x == y,
            (ConstantValue::Number(x), ConstantValue::Number(y)) => spec_strictly_equal(a, b) <==> (!is_nan_bits(x)
                && !is_nan_bits(y) && (x == y || (is_zero_bits(x) && is_zero_bits(y)))),
            (ConstantValue::BigInt(x), ConstantValue::BigInt(y)) => spec_strictly_equal(a, b) <==> x@ == y@,
            (ConstantValue::String(x), ConstantValue::String(y)) => spec_strictly_equal(a, b) <==> x@ == y@,
            _ => !spec_strictly_equal(a, b),
        },
        !(a is Number) ==> (spec_strictly_equal(a, b) <==> spec_same_constant(a, b)),
        spec_strictly_equal(a, b) ==> spec_type_of_constant(a) == spec_type_of_constant(b),
        (a is Number && b is Number) ==> (spec_same_constant(a, b) && !(a matches ConstantValue::Number(x)
            && is_nan_bits(x)) ==> spec_strictly_equal(a, b)),
{
    crate::abstract_value::lemma_same_constant_is_same_value(a, b);
}

/// Folding `===` on two constants gives whether they are strictly equal,
/// and folding `!==` the opposite, whatever the numeric fold.
pub proof fn lemma_strict_equality_folds(a: ConstantValue, b: ConstantValue, numeric_fold: Option<ConstantValue>)
    ensures
        spec_binary_fold(BinaryOperator::StrictEqual, a, b, numeric_fold) == Some(ConstantValue::Boolean(spec_strictly_equal(a, b))),
        spec_binary_fold(BinaryOperator::StrictNotEqual, a, b, numeric_fold) == Some(ConstantValue::Boolean(!spec_strictly_equal(a, b))),
        (a matches ConstantValue::String(x) && b matches ConstantValue::String(y) && x@ != y@) ==> spec_binary_fold(
            BinaryOperator::StrictEqual,
            a,
            b,
            numeric_fold,
        ) == Some(ConstantValue::Boolean(false)),
{
    lemma_strict_equality_compares_values(a, b);
}

/// The name `typeof` gives a constant's type.
pub open spec fn spec_typeof_name(value: ConstantValue) -> Seq<char> {
    match value {
        ConstantValue::Undefined => "undefined"@,
        ConstantValue::Boolean(_) => "boolean"@,
        ConstantValue::Null => "object"@,
        ConstantValue::Number(_) => "number"@,
        ConstantValue::BigInt(_) => "bigint"@,
        ConstantValue::String(_) => "string"@,
    }
}

/// The name `typeof` gives a constant's type.
pub fn constant_typeof(value: &ConstantValue) -> (name: &'static str)
    ensures
        name@ == spec_typeof_name(*value),
{
    match value {
        ConstantValue::Undefined => "undefined",
        ConstantValue::Boolean(_) => "boolean",
        ConstantValue::Null => "object",
        ConstantValue::Number(_) => "number",
        ConstantValue::BigInt(_) => "bigint",
        ConstantValue::String(_) => "string",
    }
}

/// The constant a unary operator yields on a constant, when it folds
/// without floating-point arithmetic; negating a double flips its sign bit.
pub open spec fn spec_unary_fold(operator: UnaryOperator, operand: ConstantValue) -> Option<ConstantValue> {
    match operator {
        UnaryOperator::LogicalNot => Some(ConstantValue::Boolean(!spec_truthiness(operand))),
        UnaryOperator::Plus => match operand {
            ConstantValue::Number(bits) => Some(ConstantValue::Number(bits)),
            _ => None,
        },
        UnaryOperator::Negate => match operand {
            ConstantValue::Number(bits) => Some(ConstantValue::Number(bits ^ 0x8000_0000_0000_0000u64)),
            _ => None,
        },
        UnaryOperator::Void => Some(ConstantValue::Undefined),
        UnaryOperator::BitwiseNot => None,
    }
}

/// The constant a unary operator yields on a constant, when it folds.
pub fn evaluate_unary_operator(operator: UnaryOperator, operand: &ConstantValue) -> (folded: Option<ConstantValue>)
    ensures
        folded == spec_unary_fold(operator, *operand),
{
    match operator {
        UnaryOperator::LogicalNot => Some(ConstantValue::Boolean(!constant_truthiness(operand))),
        UnaryOperator::Plus => match operand {
            ConstantValue::Number(bits) => Some(ConstantValue::Number(*bits)),
            _ => None,
        },
        UnaryOperator::Negate => match operand {
            ConstantValue::Number(bits) => Some(ConstantValue::Number(*bits ^ 0x8000_0000_0000_0000u64)),
            _ => None,
        },
        UnaryOperator::Void => Some(ConstantValue::Undefined),
        UnaryOperator::BitwiseNot => None,
    }
}

/// Whether an operator folds on two numbers by floating-point arithmetic or comparison.
pub open spec fn spec_is_numeric_fold(operator: BinaryOperator) -> bool {
    operator is Add || operator is Subtract || operator is Multiply || operator is Divide
        || operator is Remainder || operator is LessThan || operator is LessThanOrEqual
        || operator is GreaterThan || operator is GreaterThanOrEqual
}

/// Whether an operator folds on two numbers by floating-point arithmetic or comparison.
pub fn is_numeric_fold(operator: BinaryOperator) -> (r: bool)
    ensures
        r == spec_is_numeric_fold(operator),
{
    match operator {
        BinaryOperator::Add | BinaryOperator::Subtract | BinaryOperator::Multiply
        | BinaryOperator::Divide | BinaryOperator::Remainder | BinaryOperator::LessThan
        | BinaryOperator::LessThanOrEqual | BinaryOperator::GreaterThan
        | BinaryOperator::GreaterThanOrEqual => true,
        _ => false,
    }
}

/// The constant a binary operator yields on two constants, when it folds:
/// strict (in)equality always; the numeric operators on two numbers, as
/// `numeric_fold`, the result the caller computed in floating point.
pub open spec fn spec_binary_fold(
    operator: BinaryOperator,
    left: ConstantValue,
    right: ConstantValue,
    numeric_fold: Option<ConstantValue>,
) -> Option<ConstantValue> {
    if operator is StrictEqual {
        Some(ConstantValue::Boolean(spec_strictly_equal(left, right)))
    } else if operator is StrictNotEqual {
        Some(ConstantValue::Boolean(!spec_strictly_equal(left, right)))
    } else if spec_is_numeric_fold(operator) && left is Number && right is Number {
        numeric_fold
    } else {
        None
    }
}

/// The constant a binary operator yields on two constants, when it folds.
pub fn evaluate_binary_operator(
    operator: BinaryOperator,
    left: &ConstantValue,
    right: &ConstantValue,
    numeric_fold: Option<ConstantValue>,
) -> (folded: Option<ConstantValue>)
    ensures
        folded == spec_binary_fold(operator, *left, *right, numeric_fold),
{
    match operator {
        BinaryOperator::StrictEqual => Some(ConstantValue::Boolean(strictly_equal(left, right))),
        BinaryOperator::StrictNotEqual => Some(ConstantValue::Boolean(!strictly_equal(left, right))),
        _ => {
            let numbers = match (left, right) {
                (ConstantValue::Number(_), ConstantValue::Number(_)) => true,
                _ => false,
            };
            if numbers && is_numeric_fold(operator) {
                numeric_fold
            } else {
                None
            }
        },
    }
}

/// What an `IsNullish` test of `operands` yields.
pub open spec fn is_nullish_result(result: AbstractValue, operands: Seq<AbstractValue>) -> bool {
    &&& operands.len() != 1 ==> value_is(result, 255, None)
    &&& operands.len() == 1 ==> match operands[0].spec_constant() {
        Some(c) => value_is_constant(result, ConstantValue::Boolean(c is Undefined || c is Null)),
        None => {
            let types = operands[0].spec_types();
            if NULLISH_BITS & types == types {
                value_is_constant(result, ConstantValue::Boolean(true))
            } else if types & NULLISH_BITS == 0 {
                value_is_constant(result, ConstantValue::Boolean(false))
            } else {
                value_is(result, BOOLEAN_BITS, None)
            }
        },
    }
}

/// What `typeof` of `operands` yields; of a value when `of_value`.
pub open spec fn typeof_result(result: AbstractValue, of_value: bool, operands: Seq<AbstractValue>) -> bool {
    if of_value && operands.len() != 1 {
        value_is(result, 255, None)
    } else if of_value && operands[0].spec_constant() is Some {
        result.spec_constant() matches Some(ConstantValue::String(name)) && name@ == spec_typeof_name(
            operands[0].spec_constant()->0,
        ) && value_is(result, STRING_BITS, result.spec_constant())
    } else {
        value_is(result, STRING_BITS, None)
    }
}

/// What a unary operator yields on `operands`.
pub open spec fn unary_result(result: AbstractValue, operator: UnaryOperator, operands: Seq<AbstractValue>) -> bool {
    &&& operands.len() != 1 ==> value_is(result, 255, None)
    &&& operands.len() == 1 ==> {
        let fold = match operands[0].spec_constant() {
            Some(c) => spec_unary_fold(operator, c),
            None => None,
        };
        match fold {
            Some(c) => value_is_constant(result, c),
            None => if operator is Void {
                value_is_constant(result, ConstantValue::Undefined)
            } else {
                value_is(result, spec_unary_types(operator), None)
            },
        }
    }
}

/// What a binary operator yields on `operands`, given the floating-point result `numeric_fold`.
pub open spec fn binary_result(
    result: AbstractValue,
    operator: BinaryOperator,
    operands: Seq<AbstractValue>,
    numeric_fold: Option<ConstantValue>,
) -> bool {
    &&& operands.len() != 2 ==> value_is(result, 255, None)
    &&& operands.len() == 2 ==> {
        let fold = match (operands[0].spec_constant(), operands[1].spec_constant()) {
            (Some(l), Some(r)) => spec_binary_fold(operator, l, r, numeric_fold),
            _ => None,
        };
        match fold {
            Some(c) => value_is_constant(result, c),
            None => value_is(result, spec_binary_unfolded(operator, operands[0], operands[1]), None),
        }
    }
}

/// The result of an `IsNullish` test.
pub fn evaluate_is_nullish(operands: &[AbstractValue]) -> (result: AbstractValue)
    ensures
        is_nullish_result(result, operands@),
{
    if operands.len() != 1 {
        return AbstractValue::unknown();
    }
    let operand = &operands[0];
    if let Some(constant) = operand.constant() {
        let nullish = match constant {
            ConstantValue::Undefined => true,
            ConstantValue::Null => true,
            _ => false,
        };
        return AbstractValue::from_constant(ConstantValue::Boolean(nullish));
    }
    let types = operand.types();
    if ValueTypeSet::nullish().contains(types) {
        AbstractValue::from_constant(ConstantValue::Boolean(true))
    } else if !types.intersects(ValueTypeSet::nullish()) {
        AbstractValue::from_constant(ConstantValue::Boolean(false))
    } else {
        AbstractValue::of_types(ValueTypeSet::boolean())
    }
}

/// The result of `typeof`.
pub fn evaluate_typeof(of_value: bool, operands: &[AbstractValue]) -> (result: AbstractValue)
    ensures
        typeof_result(result, of_value, operands@),
{
    if of_value {
        if operands.len() != 1 {
            return AbstractValue::unknown();
        }
        if let Some(constant) = operands[0].constant() {
            let name = String::from_str(constant_typeof(constant));
            return AbstractValue::from_constant(ConstantValue::String(name));
        }
    }
    AbstractValue::of_types(ValueTypeSet::string())
}

/// Whether `value` is one of the types `types` and has a type.
pub open spec fn definitely(value: AbstractValue, types: u16) -> bool {
    value.spec_types() != 0 && types & value.spec_types() == value.spec_types()
}

/// The types of the result of `+` on values of unknown constant.
pub open spec fn spec_addition_types(left: AbstractValue, right: AbstractValue) -> u16 {
    if definitely(left, STRING_BITS) || definitely(right, STRING_BITS) {
        STRING_BITS
    } else if definitely(left, NUMBER_BITS) && definitely(right, NUMBER_BITS) {
        NUMBER_BITS
    } else if definitely(left, BIGINT_BITS) && definitely(right, BIGINT_BITS) {
        BIGINT_BITS
    } else {
        56
    }
}

/// The types of the result of a numeric operator on values of unknown constant.
pub open spec fn spec_numeric_types(left: AbstractValue, right: AbstractValue) -> u16 {
    if definitely(left, NUMBER_BITS) && definitely(right, NUMBER_BITS) {
        NUMBER_BITS
    } else if definitely(left, BIGINT_BITS) && definitely(right, BIGINT_BITS) {
        BIGINT_BITS
    } else {
        24
    }
}

fn addition_result(left: &AbstractValue, right: &AbstractValue) -> (result: AbstractValue)
    ensures
        value_is(result, spec_addition_types(*left, *right), None),
{
    if left.is_definitely(ValueTypeSet::string()) || right.is_definitely(ValueTypeSet::string()) {
        AbstractValue::of_types(ValueTypeSet::string())
    } else if left.is_definitely(ValueTypeSet::number()) && right.is_definitely(ValueTypeSet::number()) {
        AbstractValue::of_types(ValueTypeSet::number())
    } else if left.is_definitely(ValueTypeSet::bigint()) && right.is_definitely(ValueTypeSet::bigint()) {
        AbstractValue::of_types(ValueTypeSet::bigint())
    } else {
        let types = ValueTypeSet::string().union(ValueTypeSet::number()).union(ValueTypeSet::bigint());
        proof {
            assert(STRING_BITS | NUMBER_BITS | BIGINT_BITS == 56u16) by (bit_vector);
        }
        AbstractValue::of_types(types)
    }
}

fn numeric_result(left: &AbstractValue, right: &AbstractValue) -> (result: AbstractValue)
    ensures
        value_is(result, spec_numeric_types(*left, *right), None),
{
    if left.is_definitely(ValueTypeSet::number()) && right.is_definitely(ValueTypeSet::number()) {
        AbstractValue::of_types(ValueTypeSet::number())
    } else if left.is_definitely(ValueTypeSet::bigint()) && right.is_definitely(ValueTypeSet::bigint()) {
        AbstractValue::of_types(ValueTypeSet::bigint())
    } else {
        let types = ValueTypeSet::number().union(ValueTypeSet::bigint());
        proof {
            assert(NUMBER_BITS | BIGINT_BITS == 24u16) by (bit_vector);
        }
        AbstractValue::of_types(types)
    }
}

/// The types of a unary operator's result when it does not fold.
pub open spec fn spec_unary_types(operator: UnaryOperator) -> u16 {
    match operator {
        UnaryOperator::LogicalNot => BOOLEAN_BITS,
        UnaryOperator::Plus => NUMBER_BITS,
        UnaryOperator::Negate => 24,
        UnaryOperator::BitwiseNot => 24,
        UnaryOperator::Void => 1,
    }
}

/// The result of a unary operator.
pub fn evaluate_unary(operator: UnaryOperator, operands: &[AbstractValue]) -> (result: AbstractValue)
    ensures
        unary_result(result, operator, operands@),
{
    if operands.len() != 1 {
        return AbstractValue::unknown();
    }
    if let Some(constant) = operands[0].constant() {
        if let Some(folded) = evaluate_unary_operator(operator, constant) {
            return AbstractValue::from_constant(folded);
        }
    }
    match operator {
        UnaryOperator::LogicalNot => AbstractValue::of_types(ValueTypeSet::boolean()),
        UnaryOperator::Plus => AbstractValue::of_types(ValueTypeSet::number()),
        UnaryOperator::Negate | UnaryOperator::BitwiseNot => {
            let types = ValueTypeSet::number().union(ValueTypeSet::bigint());
            proof {
                assert(NUMBER_BITS | BIGINT_BITS == 24u16) by (bit_vector);
            }
            AbstractValue::of_types(types)
        },
        UnaryOperator::Void => AbstractValue::from_constant(ConstantValue::Undefined),
    }
}

/// Whether a binary operator always yields a boolean.
pub open spec fn spec_is_comparison(operator: BinaryOperator) -> bool {
    operator is LooseEqual || operator is LooseNotEqual || operator is StrictEqual
        || operator is StrictNotEqual || operator is LessThan || operator is LessThanOrEqual
        || operator is GreaterThan || operator is GreaterThanOrEqual || operator is In
        || operator is InstanceOf
}

/// The facts of a binary operator's result when it does not fold.
pub open spec fn spec_binary_unfolded(operator: BinaryOperator, left: AbstractValue, right: AbstractValue) -> u16 {
    if spec_is_comparison(operator) {
        BOOLEAN_BITS
    } else if operator is Add {
        spec_addition_types(left, right)
    } else if operator is UnsignedShiftRight {
        NUMBER_BITS
    } else {
        spec_numeric_types(left, right)
    }
}

/// The result of a binary operator; `numeric_fold` is the floating-point
/// result of the operator on the operands' constants, when both are numbers.
pub fn evaluate_binary(
    operator: BinaryOperator,
    operands: &[AbstractValue],
    numeric_fold: Option<ConstantValue>,
) -> (result: AbstractValue)
    ensures
        binary_result(result, operator, operands@, numeric_fold),
{
    if operands.len() != 2 {
        return AbstractValue::unknown();
    }
    let left = &operands[0];
    let right = &operands[1];
    if let (Some(l), Some(r)) = (left.constant(), right.constant()) {
        if let Some(folded) = evaluate_binary_operator(operator, l, r, numeric_fold) {
            return AbstractValue::from_constant(folded);
        }
    }
    match operator {
        BinaryOperator::LooseEqual | BinaryOperator::LooseNotEqual | BinaryOperator::StrictEqual
        | BinaryOperator::StrictNotEqual | BinaryOperator::LessThan
        | BinaryOperator::LessThanOrEqual | BinaryOperator::GreaterThan
        | BinaryOperator::GreaterThanOrEqual | BinaryOperator::In | BinaryOperator::InstanceOf => {
            AbstractValue::of_types(ValueTypeSet::boolean())
        },
        BinaryOperator::Add => addition_result(left, right),
        BinaryOperator::UnsignedShiftRight => AbstractValue::of_types(ValueTypeSet::number()),
        _ => numeric_result(left, right),
    }
}

/// Whether some operand stands for no value.
fn any_bottom(operands: &[AbstractValue]) -> (r: bool)
    ensures
        r == exists|i: int| 0 <= i < operands@.len() && operands@[i].spec_is_bottom(),
{
    let mut k: usize = 0;
    while k < operands.len()
        invariant
            k <= operands@.len(),
            forall|i: int| 0 <= i < k ==> !operands@[i].spec_is_bottom(),
        decreases operands@.len() - k,
    {
        if operands[k].is_bottom() {
            return true;
        }
        k = k + 1;
    }
    false
}

/// Computes the abstract value of an operation's result from its operands:
/// bottom when an operand is bottom, and otherwise the result of the
/// operation's transfer function; `numeric_fold` is the floating-point
/// result of a numeric binary operator on two number constants.
pub fn evaluate_result(
    operation: &TransferOperation,
    operands: &[AbstractValue],
    numeric_fold: Option<ConstantValue>,
) -> (result: AbstractValue)
    ensures
        (exists|i: int| 0 <= i < operands@.len() && operands@[i].spec_is_bottom()) ==> result.spec_is_bottom(),
        !(exists|i: int| 0 <= i < operands@.len() && operands@[i].spec_is_bottom()) ==> match *operation {
            TransferOperation::Constant(c) => value_is_constant(result, c),
            TransferOperation::IsNullish => is_nullish_result(result, operands@),
            TransferOperation::Unary(operator) => unary_result(result, operator, operands@),
            TransferOperation::Binary(operator) => binary_result(result, operator, operands@, numeric_fold),
            TransferOperation::Typeof { of_value } => typeof_result(result, of_value, operands@),
            TransferOperation::Other => value_is(result, 255, None),
        },
{
    if any_bottom(operands) {
        return AbstractValue::bottom();
    }
    match operation {
        TransferOperation::Constant(constant) => AbstractValue::from_constant(constant.clone()),
        TransferOperation::IsNullish => evaluate_is_nullish(operands),
        TransferOperation::Unary(operator) => evaluate_unary(*operator, operands),
        TransferOperation::Binary(operator) => evaluate_binary(*operator, operands, numeric_fold),
        TransferOperation::Typeof { of_value } => evaluate_typeof(*of_value, operands),
        TransferOperation::Other => AbstractValue::unknown(),
    }
}

/// The constant an operation yields on constant operands in the core IR's
/// transfer, which folds constants only: a constant; a nullish test, a unary
/// operator or `typeof` of a value on one constant; a binary operator on two
/// constants, `numeric_fold` being the floating-point result of a numeric
/// operator on two numbers. `None` where it does not fold.
pub open spec fn spec_constant_fold(
    operation: TransferOperation,
    operands: Seq<AbstractValue>,
    numeric_fold: Option<ConstantValue>,
) -> Option<ConstantValue> {
    match operation {
        TransferOperation::Constant(c) => Some(c),
        TransferOperation::IsNullish => if operands.len() == 1 && operands[0].spec_constant() is Some {
            let c = operands[0].spec_constant()->0;
            Some(ConstantValue::Boolean(c is Undefined || c is Null))
        } else {
            None
        },
        TransferOperation::Unary(operator) => if operands.len() == 1 && operands[0].spec_constant() is Some {
            spec_unary_fold(operator, operands[0].spec_constant()->0)
        } else {
            None
        },
        TransferOperation::Binary(operator) => if operands.len() == 2 && operands[0].spec_constant() is Some
            && operands[1].spec_constant() is Some {
            spec_binary_fold(operator, operands[0].spec_constant()->0, operands[1].spec_constant()->0, numeric_fold)
        } else {
            None
        },
        _ => None,
    }
}

/// Computes the abstract value of an operation's result in the core IR's
/// transfer, which keeps no type facts: bottom when an operand is bottom;
/// the folded constant where the operation folds, `typeof` of a constant
/// value giving the name of its type; and an unknown value otherwise.
pub fn evaluate_constant_result(
    operation: &TransferOperation,
    operands: &[AbstractValue],
    numeric_fold: Option<ConstantValue>,
) -> (result: AbstractValue)
    ensures
        (exists|i: int| 0 <= i < operands@.len() && operands@[i].spec_is_bottom()) ==> result.spec_is_bottom(),
        !(exists|i: int| 0 <= i < operands@.len() && operands@[i].spec_is_bottom()) ==> match *operation {
            TransferOperation::Typeof { of_value: true } => if operands@.len() == 1 && operands@[0].spec_constant() is Some {
                result.spec_constant() matches Some(ConstantValue::String(name)) && name@ == spec_typeof_name(
                    operands@[0].spec_constant()->0,
                ) && value_is(result, STRING_BITS, result.spec_constant())
            } else {
                value_is(result, 255, None)
            },
            _ => match spec_constant_fold(*operation, operands@, numeric_fold) {
                Some(c) => value_is_constant(result, c),
                None => value_is(result, 255, None),
            },
        },
{
    if any_bottom(operands) {
        return AbstractValue::bottom();
    }
    let folded = match operation {
        TransferOperation::Constant(constant) => Some(constant.clone()),
        TransferOperation::IsNullish => {
            if operands.len() == 1 {
                match operands[0].constant() {
                    Some(c) => {
                        let nullish = match c {
                            ConstantValue::Undefined => true,
                            ConstantValue::Null => true,
                            _ => false,
                        };
                        Some(ConstantValue::Boolean(nullish))
                    },
                    None => None,
                }
            } else {
                None
            }
        },
        TransferOperation::Unary(operator) => {
            if operands.len() == 1 {
                match operands[0].constant() {
                    Some(c) => evaluate_unary_operator(*operator, c),
                    None => None,
                }
            } else {
                None
            }
        },
        TransferOperation::Binary(operator) => {
            if operands.len() == 2 {
                match (operands[0].constant(), operands[1].constant()) {
                    (Some(l), Some(r)) => evaluate_binary_operator(*operator, l, r, numeric_fold),
                    _ => None,
                }
            } else {
                None
            }
        },
        TransferOperation::Typeof { of_value: true } => {
            if operands.len() == 1 {
                match operands[0].constant() {
                    Some(c) => {
                        let name = String::from_str(constant_typeof(c));
                        return AbstractValue::from_constant(ConstantValue::String(name));
                    },
                    None => None,
                }
            } else {
                None
            }
        },
        _ => None,
    };
    match folded {
        Some(c) => AbstractValue::from_constant(c),
        None => AbstractValue::unknown(),
    }
}

} // verus!
