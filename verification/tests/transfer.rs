use lib::abstract_value::{AbstractValue, ConstantValue, ValueTypeSet};
use lib::transfer::{
    constant_truthiness, evaluate_constant_result, evaluate_result, strictly_equal, BinaryOperator, TransferOperation,
    UnaryOperator,
};

fn number(value: f64) -> ConstantValue {
    ConstantValue::Number(value.to_bits())
}

/// The floating-point folding that the library leaves to its caller.
fn numeric_fold(operation: &TransferOperation, operands: &[AbstractValue]) -> Option<ConstantValue> {
    let TransferOperation::Binary(operator) = operation else {
        return None;
    };
    let [left, right] = operands else {
        return None;
    };
    let (Some(ConstantValue::Number(left)), Some(ConstantValue::Number(right))) =
        (left.constant(), right.constant())
    else {
        return None;
    };
    let (left, right) = (f64::from_bits(*left), f64::from_bits(*right));
    Some(match operator {
        BinaryOperator::Add => number(left + right),
        BinaryOperator::Subtract => number(left - right),
        BinaryOperator::Multiply => number(left * right),
        BinaryOperator::Divide => number(left / right),
        BinaryOperator::Remainder => number(left % right),
        BinaryOperator::LessThan => ConstantValue::Boolean(left < right),
        BinaryOperator::LessThanOrEqual => ConstantValue::Boolean(left <= right),
        BinaryOperator::GreaterThan => ConstantValue::Boolean(left > right),
        BinaryOperator::GreaterThanOrEqual => ConstantValue::Boolean(left >= right),
        _ => return None,
    })
}

fn evaluate(operation: TransferOperation, operands: &[AbstractValue]) -> AbstractValue {
    let fold = numeric_fold(&operation, operands);
    evaluate_result(&operation, operands, fold)
}

#[test]
fn transfer_evaluates_constant_operations() {
    let result = evaluate(TransferOperation::Constant(number(1.0)), &[]);

    assert_eq!(result.constant(), Some(&number(1.0)));
}

#[test]
fn transfer_folds_numeric_addition() {
    let result = evaluate(
        TransferOperation::Binary(BinaryOperator::Add),
        &[AbstractValue::from_constant(number(20.0)), AbstractValue::from_constant(number(22.0))],
    );

    assert_eq!(result.constant(), Some(&number(42.0)));
}

#[test]
fn retains_the_result_type_of_unsupported_string_addition() {
    let result = evaluate(
        TransferOperation::Binary(BinaryOperator::Add),
        &[
            AbstractValue::from_constant(ConstantValue::String("20".to_string())),
            AbstractValue::from_constant(number(22.0)),
        ],
    );

    assert_eq!(result.constant(), None);
    assert_eq!(result.types(), ValueTypeSet::string());
}

#[test]
fn retains_numeric_type_after_constant_information_is_lost() {
    let result = evaluate(
        TransferOperation::Binary(BinaryOperator::Add),
        &[AbstractValue::of_types(ValueTypeSet::number()), AbstractValue::of_types(ValueTypeSet::number())],
    );

    assert_eq!(result.constant(), None);
    assert_eq!(result.types(), ValueTypeSet::number());
}

#[test]
fn classifies_comparison_results_as_boolean() {
    let result = evaluate(
        TransferOperation::Binary(BinaryOperator::LessThan),
        &[AbstractValue::unknown(), AbstractValue::unknown()],
    );

    assert_eq!(result.constant(), None);
    assert_eq!(result.types(), ValueTypeSet::boolean());
}

#[test]
fn classifies_typeof_results_as_strings() {
    let result = evaluate(TransferOperation::Typeof { of_value: true }, &[AbstractValue::unknown()]);

    assert_eq!(result.constant(), None);
    assert_eq!(result.types(), ValueTypeSet::string());
}

#[test]
fn infers_nullish_results_from_type_facts() {
    let nullish = evaluate(TransferOperation::IsNullish, &[AbstractValue::of_types(ValueTypeSet::nullish())]);
    let number = evaluate(TransferOperation::IsNullish, &[AbstractValue::of_types(ValueTypeSet::number())]);
    let unknown = evaluate(TransferOperation::IsNullish, &[AbstractValue::unknown()]);

    assert_eq!(nullish.constant(), Some(&ConstantValue::Boolean(true)));
    assert_eq!(number.constant(), Some(&ConstantValue::Boolean(false)));
    assert_eq!(unknown.constant(), None);
    assert_eq!(unknown.types(), ValueTypeSet::boolean());
}

#[test]
fn classifies_unary_results() {
    let logical_not = evaluate(TransferOperation::Unary(UnaryOperator::LogicalNot), &[AbstractValue::unknown()]);
    let plus = evaluate(TransferOperation::Unary(UnaryOperator::Plus), &[AbstractValue::unknown()]);
    let negate = evaluate(TransferOperation::Unary(UnaryOperator::Negate), &[AbstractValue::unknown()]);
    let void = evaluate(TransferOperation::Unary(UnaryOperator::Void), &[AbstractValue::unknown()]);

    assert_eq!(logical_not.types(), ValueTypeSet::boolean());
    assert_eq!(plus.types(), ValueTypeSet::number());
    assert_eq!(negate.types(), ValueTypeSet::number().union(ValueTypeSet::bigint()));
    assert_eq!(void.constant(), Some(&ConstantValue::Undefined));
}

#[test]
fn transfer_follows_javascript_nan_equality() {
    let nan = number(f64::NAN);

    assert!(!strictly_equal(&nan, &nan));
}

#[test]
fn transfer_propagates_an_unavailable_operand() {
    let result = evaluate(
        TransferOperation::Binary(BinaryOperator::Add),
        &[AbstractValue::bottom(), AbstractValue::from_constant(number(1.0))],
    );

    assert!(result.is_bottom());
}

#[test]
fn folds_constant_unary_operators_and_typeof() {
    let negated = evaluate(TransferOperation::Unary(UnaryOperator::Negate), &[AbstractValue::from_constant(number(2.5))]);
    let not_zero = evaluate(TransferOperation::Unary(UnaryOperator::LogicalNot), &[AbstractValue::from_constant(number(-0.0))]);
    let typeof_null = evaluate(TransferOperation::Typeof { of_value: true }, &[AbstractValue::from_constant(ConstantValue::Null)]);
    let binding_type = evaluate(TransferOperation::Typeof { of_value: false }, &[]);

    assert_eq!(negated.constant(), Some(&number(-2.5)));
    assert_eq!(not_zero.constant(), Some(&ConstantValue::Boolean(true)));
    assert_eq!(typeof_null.constant(), Some(&ConstantValue::String("object".to_string())));
    assert_eq!(binding_type.types(), ValueTypeSet::string());
    assert_eq!(binding_type.constant(), None);
}

#[test]
fn compares_constants_strictly() {
    assert!(strictly_equal(&number(0.0), &number(-0.0)));
    assert!(!strictly_equal(&number(1.0), &ConstantValue::String("1".to_string())));
    assert!(strictly_equal(&ConstantValue::BigInt("12".to_string()), &ConstantValue::BigInt("12".to_string())));
    let equal = evaluate(
        TransferOperation::Binary(BinaryOperator::StrictNotEqual),
        &[AbstractValue::from_constant(ConstantValue::Null), AbstractValue::from_constant(ConstantValue::Undefined)],
    );
    assert_eq!(equal.constant(), Some(&ConstantValue::Boolean(true)));
}

#[test]
fn reports_constant_truthiness() {
    assert!(!constant_truthiness(&ConstantValue::BigInt("0".to_string())));
    assert!(constant_truthiness(&ConstantValue::BigInt("10".to_string())));
    assert!(!constant_truthiness(&ConstantValue::String(String::new())));
    assert!(constant_truthiness(&ConstantValue::String("a".to_string())));
    assert!(!constant_truthiness(&number(f64::NAN)));
    assert!(!constant_truthiness(&number(-0.0)));
    assert!(constant_truthiness(&number(0.5)));
    assert!(!constant_truthiness(&ConstantValue::Undefined));
}

#[test]
fn classifies_mixed_numeric_operands() {
    let bigints = evaluate(
        TransferOperation::Binary(BinaryOperator::Multiply),
        &[AbstractValue::of_types(ValueTypeSet::bigint()), AbstractValue::of_types(ValueTypeSet::bigint())],
    );
    let mixed = evaluate(
        TransferOperation::Binary(BinaryOperator::Subtract),
        &[AbstractValue::of_types(ValueTypeSet::bigint()), AbstractValue::unknown()],
    );
    let shift = evaluate(
        TransferOperation::Binary(BinaryOperator::UnsignedShiftRight),
        &[AbstractValue::unknown(), AbstractValue::unknown()],
    );
    let other = evaluate(TransferOperation::Other, &[AbstractValue::unknown()]);

    assert_eq!(bigints.types(), ValueTypeSet::bigint());
    assert_eq!(mixed.types(), ValueTypeSet::number().union(ValueTypeSet::bigint()));
    assert_eq!(shift.types(), ValueTypeSet::number());
    assert_eq!(other, AbstractValue::unknown());
}

fn evaluate_constant(operation: TransferOperation, operands: &[AbstractValue]) -> AbstractValue {
    let fold = numeric_fold(&operation, operands);
    evaluate_constant_result(&operation, operands, fold)
}

#[test]
fn does_not_fold_unsupported_coercive_addition() {
    let result = evaluate_constant(
        TransferOperation::Binary(BinaryOperator::Add),
        &[
            AbstractValue::from_constant(ConstantValue::String("20".to_string())),
            AbstractValue::from_constant(number(22.0)),
        ],
    );

    assert_eq!(result, AbstractValue::unknown());
}

#[test]
fn the_constant_transfer_folds_constants_and_keeps_no_type_facts() {
    let sum = evaluate_constant(
        TransferOperation::Binary(BinaryOperator::Add),
        &[AbstractValue::from_constant(number(20.0)), AbstractValue::from_constant(number(22.0))],
    );
    assert_eq!(sum.constant(), Some(&number(42.0)));

    let name = evaluate_constant(TransferOperation::Typeof { of_value: true }, &[AbstractValue::from_constant(number(1.0))]);
    assert_eq!(name.constant(), Some(&ConstantValue::String("number".to_string())));

    let nullish = evaluate_constant(TransferOperation::IsNullish, &[AbstractValue::of_types(ValueTypeSet::null())]);
    assert_eq!(nullish, AbstractValue::unknown());

    let comparison = evaluate_constant(
        TransferOperation::Binary(BinaryOperator::LessThan),
        &[AbstractValue::of_types(ValueTypeSet::number()), AbstractValue::from_constant(number(1.0))],
    );
    assert_eq!(comparison, AbstractValue::unknown());

    let unavailable = evaluate_constant(
        TransferOperation::Binary(BinaryOperator::Add),
        &[AbstractValue::bottom(), AbstractValue::from_constant(number(1.0))],
    );
    assert!(unavailable.is_bottom());
}
