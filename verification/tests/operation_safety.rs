use lib::abstract_value::{AbstractValue, ConstantValue};
use lib::ir::{Operation, OperationKind};
use lib::operation_safety::{is_safe_to_remove, OperationEffects};
use lib::transfer::{BinaryOperator, UnaryOperator};

fn operation(kind: OperationKind, operands: Vec<usize>, results: Vec<usize>) -> Operation {
    Operation {
        kind,
        invoked: false,
        operands,
        results,
        regions: vec![],
        referenced_functions: vec![],
        referenced_bindings: vec![],
        successors: vec![],
    }
}

fn number(value: f64) -> AbstractValue {
    AbstractValue::from_constant(ConstantValue::Number(value.to_bits()))
}

/// An operation that may throw and does nothing else.
const MAY_THROW: OperationEffects = OperationEffects { none: false, may_suspend: false, observable: false };

#[test]
fn accepts_numeric_addition() {
    let addition = operation(OperationKind::Binary(BinaryOperator::Add), vec![0, 1], vec![2]);

    assert!(is_safe_to_remove(&addition, Some(MAY_THROW), &[number(20.0), number(22.0)]));
}

#[test]
fn rejects_addition_with_an_unknown_operand() {
    // The left operand is the global `value`, of unknown type.
    let addition = operation(OperationKind::Binary(BinaryOperator::Add), vec![0, 1], vec![2]);

    assert!(!is_safe_to_remove(&addition, Some(MAY_THROW), &[AbstractValue::unknown(), number(22.0)]));
}

#[test]
fn rejects_observable_operations() {
    let debugger = operation(OperationKind::Debugger, vec![], vec![]);
    let observable = OperationEffects { none: false, may_suspend: false, observable: true };

    assert!(!is_safe_to_remove(&debugger, Some(observable), &[]));
}

#[test]
fn accepts_operations_without_effects_and_rejects_unknown_effects() {
    let constant = operation(OperationKind::Constant { string: None }, vec![], vec![0]);
    let none = OperationEffects { none: true, may_suspend: false, observable: false };

    assert!(is_safe_to_remove(&constant, Some(none), &[]));
    assert!(!is_safe_to_remove(&constant, None, &[]));
}

#[test]
fn rejects_suspending_and_non_numeric_operations() {
    let negation = operation(OperationKind::Unary(UnaryOperator::Negate), vec![0], vec![1]);
    let suspends = OperationEffects { none: false, may_suspend: true, observable: false };
    assert!(is_safe_to_remove(&negation, Some(MAY_THROW), &[number(1.0)]));
    assert!(!is_safe_to_remove(&negation, Some(suspends), &[number(1.0)]));

    let not = operation(OperationKind::Unary(UnaryOperator::LogicalNot), vec![0], vec![1]);
    assert!(!is_safe_to_remove(&not, Some(MAY_THROW), &[number(1.0)]));

    let instance_of = operation(OperationKind::Binary(BinaryOperator::InstanceOf), vec![0, 1], vec![2]);
    assert!(!is_safe_to_remove(&instance_of, Some(MAY_THROW), &[number(1.0), number(2.0)]));

    let string = AbstractValue::from_constant(ConstantValue::String("20".to_string()));
    let addition = operation(OperationKind::Binary(BinaryOperator::Add), vec![0, 1], vec![2]);
    assert!(!is_safe_to_remove(&addition, Some(MAY_THROW), &[string, number(22.0)]));
}
