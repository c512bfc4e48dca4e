//! Whether evaluating an operation can be discarded.
//!
//! An operation with no effect can always be discarded. One that may
//! suspend or have an observable effect never can. Of the others, whose
//! only effect is that they may throw, a numeric unary or binary operation
//! can be discarded when each of its operands is definitely a number, since
//! it cannot throw then. The caller remains responsible for the operation's
//! results, its control flow and the evaluation of its operands.

use vstd::prelude::*;

use crate::abstract_value::AbstractValue;
use crate::abstract_value::ValueTypeSet;
use crate::abstract_value::NUMBER_BITS;
use crate::ir::Operation;
use crate::ir::OperationKind;
use crate::transfer::BinaryOperator;
use crate::transfer::UnaryOperator;

verus! {

/// What evaluating an operation may do.
#[derive(Debug, Clone, Copy, PartialEq, Eq, Structural)]
pub struct OperationEffects {
    /// It has no effect at all.
    pub none: bool,
    /// It may suspend the function.
    pub may_suspend: bool,
    /// It may have an effect that JavaScript code can observe.
    pub observable: bool,
}

/// Whether `operator` is `+`, `-` or `~` as a prefix.
pub open spec fn numeric_unary(operator: UnaryOperator) -> bool {
    operator is Plus || operator is Negate || operator is BitwiseNot
}

/// Whether `operator` is an arithmetic, relational, loose equality, shift
/// or bitwise operator.
pub open spec fn numeric_binary(operator: BinaryOperator) -> bool {
    !(operator is StrictEqual || operator is StrictNotEqual || operator is In || operator is InstanceOf)
}

/// Whether `value` is definitely a number: it holds some value, and only numbers.
pub open spec fn definitely_number(value: AbstractValue) -> bool {
    value.spec_types() != 0 && NUMBER_BITS & value.spec_types() == value.spec_types()
}

/// Whether the operation has `count` operands, each definitely a number.
pub open spec fn operands_definitely_numbers(operation: Operation, operand_values: Seq<AbstractValue>, count: int) -> bool {
    &&& operation.operands@.len() == count
    &&& forall|i: int| 0 <= i < count ==> definitely_number(#[trigger] operand_values[i])
}

/// Whether evaluating `operation`, with effects `effects` (`None` when they
/// are not known) and operands whose values are `operand_values`, can be
/// discarded.
pub open spec fn safe_to_remove(operation: Operation, effects: Option<OperationEffects>, operand_values: Seq<AbstractValue>) -> bool {
    match effects {
        None => false,
        Some(e) => if e.none {
            true
        } else if e.may_suspend || e.observable {
            false
        } else {
            match operation.kind {
                OperationKind::Unary(operator) => numeric_unary(operator) && operands_definitely_numbers(
                    operation,
                    operand_values,
                    1,
                ),
                OperationKind::Binary(operator) => numeric_binary(operator) && operands_definitely_numbers(
                    operation,
                    operand_values,
                    2,
                ),
                _ => false,
            }
        },
    }
}

/// When an operation with effects can be discarded, it neither suspends nor
/// has an observable effect, it is a `+`, `-` or `~` prefix on one operand
/// or a numeric binary operator on two, and every one of its operands
/// holds some value and only numbers. Conversely, such an operation on such
/// operands can be discarded, and so can any operation without effects;
/// nothing can when its effects are unknown.
pub proof fn lemma_discarding_needs_number_operands(
    operation: Operation,
    effects: Option<OperationEffects>,
    operand_values: Seq<AbstractValue>,
)
    requires
        operand_values.len() == operation.operands@.len(),
    ensures
        effects is None ==> !safe_to_remove(operation, effects, operand_values),
        (effects matches Some(e) && e.none) ==> safe_to_remove(operation, effects, operand_values),
        (effects is Some && !effects->Some_0.none && safe_to_remove(operation, effects, operand_values)) ==> {
            &&& !effects->Some_0.may_suspend
            &&& !effects->Some_0.observable
            &&& match operation.kind {
                OperationKind::Unary(operator) => (operator is Plus || operator is Negate || operator is BitwiseNot)
                    && operation.operands@.len() == 1,
                OperationKind::Binary(operator) => !(operator is StrictEqual || operator is StrictNotEqual
                    || operator is In || operator is InstanceOf) && operation.operands@.len() == 2,
                _ => false,
            }
            &&& forall|i: int|
                0 <= i < operand_values.len() ==> (#[trigger] operand_values[i]).spec_types() != 0 && (NUMBER_BITS
                    & operand_values[i].spec_types()) == operand_values[i].spec_types()
        },
        (effects is Some && !effects->Some_0.none && !effects->Some_0.may_suspend && !effects->Some_0.observable && (match operation.kind {
            OperationKind::Unary(operator) => (operator is Plus || operator is Negate || operator is BitwiseNot)
                && operation.operands@.len() == 1,
            OperationKind::Binary(operator) => !(operator is StrictEqual || operator is StrictNotEqual
                || operator is In || operator is InstanceOf) && operation.operands@.len() == 2,
            _ => false,
        }) && (forall|i: int|
            0 <= i < operand_values.len() ==> (#[trigger] operand_values[i]).spec_types() != 0 && (NUMBER_BITS
                & operand_values[i].spec_types()) == operand_values[i].spec_types())) ==> safe_to_remove(
            operation,
            effects,
            operand_values,
        ),
{
}

/// Whether the operation has `count` operands, each definitely a number.
fn operands_are_definitely_numbers(operation: &Operation, operand_values: &[AbstractValue], count: usize) -> (r: bool)
    requires
        operand_values@.len() == operation.operands@.len(),
    ensures
        r == operands_definitely_numbers(*operation, operand_values@, count as int),
{
    if operation.operands.len() != count {
        return false;
    }
    let numbers = ValueTypeSet::number();
    let mut i: usize = 0;
    while i < count
        invariant
            i <= count,
            count == operand_values@.len(),
            numbers.spec_bits() == NUMBER_BITS,
            forall|q: int| 0 <= q < i ==> definitely_number(#[trigger] operand_values@[q]),
        decreases count - i,
    {
        if !operand_values[i].is_definitely(numbers) {
            assert(!definitely_number(operand_values@[i as int]));
            return false;
        }
        i = i + 1;
    }
    true
}

/// Whether evaluating `operation` can be discarded without removing
/// observable behavior, given its effects (`None` when they are not known)
/// and the values of its operands, in operand order.
pub fn is_safe_to_remove(operation: &Operation, effects: Option<OperationEffects>, operand_values: &[AbstractValue]) -> (r: bool)
    requires
        operand_values@.len() == operation.operands@.len(),
    ensures
        r == safe_to_remove(*operation, effects, operand_values@),
{
    let effects = match effects {
        None => return false,
        Some(effects) => effects,
    };
    if effects.none {
        return true;
    }
    if effects.may_suspend || effects.observable {
        return false;
    }
    match &operation.kind {
        OperationKind::Unary(operator) => match operator {
            UnaryOperator::Plus | UnaryOperator::Negate | UnaryOperator::BitwiseNot => operands_are_definitely_numbers(
                operation,
                operand_values,
                1,
            ),
            _ => false,
        },
        OperationKind::Binary(operator) => match operator {
            BinaryOperator::StrictEqual | BinaryOperator::StrictNotEqual | BinaryOperator::In
            | BinaryOperator::InstanceOf => false,
            _ => operands_are_definitely_numbers(operation, operand_values, 2),
        },
        _ => false,
    }
}

} // verus!
