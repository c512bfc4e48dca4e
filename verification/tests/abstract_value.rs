use lib::abstract_value::{AbstractValue, ConstantValue, ValueTypeSet};

fn number(value: f64) -> ConstantValue {
    ConstantValue::Number(value.to_bits())
}

#[test]
fn bottom_contributes_no_runtime_value() {
    let constant = AbstractValue::from_constant(number(1.0));

    assert_eq!(AbstractValue::bottom().join(&constant), constant);
    assert_eq!(constant.join(&AbstractValue::bottom()), constant);
}

#[test]
fn constants_record_their_ecmascript_type() {
    let number = AbstractValue::from_constant(number(1.0));
    let boolean = AbstractValue::from_constant(ConstantValue::Boolean(true));
    let null = AbstractValue::from_constant(ConstantValue::Null);

    assert_eq!(number.types(), ValueTypeSet::number());
    assert_eq!(boolean.types(), ValueTypeSet::boolean());
    assert_eq!(null.types(), ValueTypeSet::null());
}

#[test]
fn empty_type_set_is_bottom() {
    assert_eq!(AbstractValue::of_types(ValueTypeSet::empty()), AbstractValue::bottom());
}

#[test]
fn checks_definite_type_membership() {
    let number = AbstractValue::from_constant(number(1.0));

    assert!(number.is_definitely(ValueTypeSet::number()));
    assert!(number.is_definitely(ValueTypeSet::number().union(ValueTypeSet::string())));
    assert!(!number.is_definitely(ValueTypeSet::string()));
    assert!(!AbstractValue::bottom().is_definitely(ValueTypeSet::any()));
}

#[test]
fn equal_constants_survive_a_join() {
    let left = AbstractValue::from_constant(ConstantValue::Boolean(true));
    let right = AbstractValue::from_constant(ConstantValue::Boolean(true));

    assert_eq!(left.join(&right), left);
}

#[test]
fn conflicting_constants_retain_their_shared_type() {
    let left = AbstractValue::from_constant(number(1.0));
    let right = AbstractValue::from_constant(number(2.0));
    let joined = left.join(&right);

    assert_eq!(joined, AbstractValue::of_types(ValueTypeSet::number()));
    assert_eq!(joined.constant(), None);
}

#[test]
fn different_constant_types_form_a_type_union() {
    let number = AbstractValue::from_constant(number(1.0));
    let boolean = AbstractValue::from_constant(ConstantValue::Boolean(true));
    let joined = number.join(&boolean);

    assert_eq!(joined.types(), ValueTypeSet::number().union(ValueTypeSet::boolean()));
    assert_eq!(joined.constant(), None);
}

#[test]
fn unknown_information_remains_unknown() {
    let constant = AbstractValue::from_constant(number(1.0));

    assert_eq!(AbstractValue::unknown().join(&constant), AbstractValue::unknown());
}

#[test]
fn signed_zero_values_remain_distinct_but_retain_number_type() {
    let positive = AbstractValue::from_constant(number(0.0));
    let negative = AbstractValue::from_constant(number(-0.0));

    assert_eq!(positive.join(&negative), AbstractValue::of_types(ValueTypeSet::number()));
}

#[test]
fn nan_is_stable_across_fixed_point_iterations() {
    let left = AbstractValue::from_constant(number(f64::NAN));
    let right = AbstractValue::from_constant(ConstantValue::Number(0x7ff8_0000_0000_0001));

    assert_eq!(left.join(&right), left);
}

#[test]
fn strings_compare_by_content() {
    let left = AbstractValue::from_constant(ConstantValue::String("on".to_string()));
    let right = AbstractValue::from_constant(ConstantValue::String("on".to_string()));
    let other = AbstractValue::from_constant(ConstantValue::String("off".to_string()));

    assert_eq!(left.join(&right).constant(), Some(&ConstantValue::String("on".to_string())));
    assert_eq!(left.join(&other), AbstractValue::of_types(ValueTypeSet::string()));
    assert!(left.join(&other).constant().is_none());
}

#[test]
fn type_sets_combine_bitwise() {
    let nullish = ValueTypeSet::undefined().union(ValueTypeSet::null());
    assert_eq!(nullish, ValueTypeSet::nullish());
    assert!(ValueTypeSet::primitive().contains(ValueTypeSet::symbol()));
    assert!(!ValueTypeSet::primitive().contains(ValueTypeSet::object()));
    assert!(ValueTypeSet::any().contains(ValueTypeSet::object()));
    assert!(nullish.intersects(ValueTypeSet::null()));
    assert!(!nullish.intersects(ValueTypeSet::bigint()));
    assert_eq!(ValueTypeSet::any().bits(), 255);
    assert!(ValueTypeSet::empty().is_empty());
}
