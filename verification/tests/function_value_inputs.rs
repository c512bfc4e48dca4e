use lib::abstract_value::{AbstractValue, ConstantValue};
use lib::function_value_inputs::FunctionValueInputs;

#[test]
fn stores_boundary_and_result_facts_separately() {
    // Two undefined constants of the entry function define values 0 and 1.
    let (boundary, result) = (0, 1);
    let mut inputs = FunctionValueInputs::new();

    inputs.set_boundary_value(boundary, AbstractValue::from_constant(ConstantValue::Number(1.0f64.to_bits())));
    inputs.set_result_value(result, AbstractValue::from_constant(ConstantValue::Number(2.0f64.to_bits())));

    assert_eq!(
        inputs.boundary_value(boundary).and_then(AbstractValue::constant),
        Some(&ConstantValue::Number(1.0f64.to_bits())),
    );
    assert_eq!(
        inputs.result_value(result).and_then(AbstractValue::constant),
        Some(&ConstantValue::Number(2.0f64.to_bits())),
    );

    assert!(inputs.boundary_value(result).is_none());
    assert!(inputs.result_value(boundary).is_none());
    assert!(!inputs.is_empty());
}

#[test]
fn starts_empty_and_replaces_a_fact() {
    let mut inputs = FunctionValueInputs::default();
    assert!(inputs.is_empty());
    assert!(inputs.boundary_value(7).is_none());

    inputs.set_boundary_value(3, AbstractValue::from_constant(ConstantValue::Null));
    inputs.set_boundary_value(3, AbstractValue::from_constant(ConstantValue::Boolean(true)));

    assert_eq!(
        inputs.boundary_value(3).and_then(AbstractValue::constant),
        Some(&ConstantValue::Boolean(true)),
    );
    assert!(inputs.boundary_value(2).is_none());
    assert!(inputs.result_value(3).is_none());
}
