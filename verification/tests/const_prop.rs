use lib::codegen::optimization::const_prop::{ConstantPropagator, ConstantValue};

#[test]
fn test_integer_add() {
    let a = ConstantValue::Integer(10);
    let b = ConstantValue::Integer(20);
    assert_eq!(a.add(&b), Some(ConstantValue::Integer(30)));
}

#[test]
fn test_integer_mul() {
    let a = ConstantValue::Integer(5);
    let b = ConstantValue::Integer(6);
    assert_eq!(a.mul(&b), Some(ConstantValue::Integer(30)));
}

#[test]
fn test_propagator_register() {
    let mut prop = ConstantPropagator::new();
    prop.register_constant("x".to_string(), ConstantValue::Integer(42));
    assert_eq!(prop.get_constant("x"), Some(ConstantValue::Integer(42)));
}

#[test]
fn test_binary_op_folding() {
    let mut prop = ConstantPropagator::new();
    prop.register_constant("a".to_string(), ConstantValue::Integer(10));
    prop.register_constant("b".to_string(), ConstantValue::Integer(20));

    let result = prop.fold_binary_op("a", "add", "b");
    assert_eq!(result, Some(ConstantValue::Integer(30)));
}

#[test]
fn test_propagation_stats() {
    let prop = ConstantPropagator::new();
    let stats = prop.get_statistics();
    assert_eq!(stats.constants_folded, 0);
}

#[test]
fn const_prop_division_truncates_and_refuses_zero() {
    let a = ConstantValue::Integer(-7);
    let b = ConstantValue::Integer(2);
    assert_eq!(a.div(&b), Some(ConstantValue::Integer(-3)));
    assert_eq!(a.modulo(&b), Some(ConstantValue::Integer(-1)));
    let z = ConstantValue::Integer(0);
    assert_eq!(a.div(&z), None);
    assert_eq!(a.modulo(&z), None);
}

#[test]
fn const_prop_bitwise_and_mixed_kinds() {
    let a = ConstantValue::Integer(12);
    let b = ConstantValue::Integer(10);
    assert_eq!(a.bitwise_and(&b), Some(ConstantValue::Integer(8)));
    assert_eq!(a.bitwise_or(&b), Some(ConstantValue::Integer(14)));
    assert_eq!(a.bitwise_xor(&b), Some(ConstantValue::Integer(6)));
    assert_eq!(a.sub(&b), Some(ConstantValue::Integer(2)));
    assert_eq!(a.add(&ConstantValue::Boolean(true)), None);
    assert_eq!(ConstantValue::Null.add(&ConstantValue::Null), None);
}

#[test]
fn const_prop_value_texts() {
    assert_eq!(ConstantValue::Integer(-15).to_string(), "-15");
    assert_eq!(ConstantValue::Boolean(false).to_string(), "false");
    assert_eq!(ConstantValue::String("hi".to_string()).to_string(), "\"hi\"");
    assert_eq!(ConstantValue::Null.to_string(), "null");
}

#[test]
fn const_prop_unknown_operands_or_operation() {
    let mut prop = ConstantPropagator::new();
    prop.register_constant("a".to_string(), ConstantValue::Integer(10));
    assert_eq!(prop.fold_binary_op("a", "add", "missing"), None);
    assert_eq!(prop.fold_binary_op("a", "pow", "a"), None);
    assert_eq!(prop.get_statistics().constants_folded, 0);
    assert_eq!(prop.fold_binary_op("a", "mul", "a"), Some(ConstantValue::Integer(100)));
    assert_eq!(prop.get_statistics().constants_folded, 1);
}

#[test]
fn const_prop_propagates_through_lines() {
    let mut prop = ConstantPropagator::new();
    prop.register_constant("a".to_string(), ConstantValue::Integer(2));
    prop.register_constant("b".to_string(), ConstantValue::Integer(3));
    let out = prop.propagate_ir("  x = mul a b\ny = add x a\nret y\ni64 z = sub y q\n");
    assert_eq!(out, "x = 6\ny = 8\nret y\ni64 z = sub y q");
    assert_eq!(prop.get_constant("y"), Some(ConstantValue::Integer(8)));
    let stats = prop.get_statistics();
    assert_eq!(stats.constants_folded, 2);
    assert_eq!(stats.values_propagated, 2);
}

#[test]
fn const_prop_clear_forgets_everything() {
    let mut prop = ConstantPropagator::new();
    prop.register_constant("a".to_string(), ConstantValue::Integer(2));
    prop.fold_binary_op("a", "add", "a");
    prop.clear();
    assert_eq!(prop.get_constant("a"), None);
    assert_eq!(prop.get_statistics().constants_folded, 0);
}
