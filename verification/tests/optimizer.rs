use lib::codegen::optimization::optimizer::{
    fold_integer_binary_op, fold_unary_op, CommonSubexprEliminator, DeadCodeEliminator, FoldedValue,
    FunctionInliner, OptimizationError, OptimizationLevel, Optimizer, StrengthReducer,
};

#[test]
fn test_fold_integer_addition() {
    let result = fold_integer_binary_op(3, "+", 5).unwrap();
    assert_eq!(result, Some(FoldedValue::Integer(8)));
}

#[test]
fn test_fold_integer_multiplication() {
    let result = fold_integer_binary_op(3, "*", 5).unwrap();
    assert_eq!(result, Some(FoldedValue::Integer(15)));
}

#[test]
fn test_fold_integer_division() {
    let result = fold_integer_binary_op(15, "/", 3).unwrap();
    assert_eq!(result, Some(FoldedValue::Integer(5)));
}

#[test]
fn test_fold_division_by_zero() {
    let result = fold_integer_binary_op(5, "/", 0).unwrap();
    assert_eq!(result, None);
}

#[test]
fn test_fold_comparison_equal() {
    let result = fold_integer_binary_op(5, "==", 5).unwrap();
    assert_eq!(result, Some(FoldedValue::Boolean(true)));
}

#[test]
fn test_fold_comparison_less() {
    let result = fold_integer_binary_op(3, "<", 5).unwrap();
    assert_eq!(result, Some(FoldedValue::Boolean(true)));
}

#[test]
fn test_fold_bitwise_and() {
    let result = fold_integer_binary_op(12, "&", 10).unwrap();
    assert_eq!(result, Some(FoldedValue::Integer(8)));
}

#[test]
fn test_fold_unary_negation() {
    let result = fold_unary_op("-", FoldedValue::Integer(5));
    assert_eq!(result, Some(FoldedValue::Integer(-5)));
}

#[test]
fn test_fold_unary_not() {
    let result = fold_unary_op("!", FoldedValue::Boolean(true));
    assert_eq!(result, Some(FoldedValue::Boolean(false)));
}

#[test]
fn fold_truncates_toward_zero_and_keeps_remainder_sign() {
    assert_eq!(fold_integer_binary_op(-7, "/", 2).unwrap(), Some(FoldedValue::Integer(-3)));
    assert_eq!(fold_integer_binary_op(-7, "%", 2).unwrap(), Some(FoldedValue::Integer(-1)));
    assert_eq!(fold_integer_binary_op(7, "%", -2).unwrap(), Some(FoldedValue::Integer(1)));
    assert_eq!(fold_integer_binary_op(7, "%", 0).unwrap(), None);
    assert_eq!(fold_integer_binary_op(6, "^", 3).unwrap(), Some(FoldedValue::Integer(5)));
    assert_eq!(fold_integer_binary_op(6, "|", 3).unwrap(), Some(FoldedValue::Integer(7)));
    assert_eq!(fold_integer_binary_op(2, ">=", 3).unwrap(), Some(FoldedValue::Boolean(false)));
}

#[test]
fn fold_unknown_operator_is_an_error() {
    let err = fold_integer_binary_op(1, "**", 2).unwrap_err();
    assert_eq!(err, OptimizationError::InvalidOptimization("Unknown operator: **".to_string()));
    assert_eq!(fold_unary_op("~", FoldedValue::Integer(1)), None);
}

#[test]
fn test_dead_code_eliminator() {
    let mut eliminator = DeadCodeEliminator::new();
    eliminator.register_definition("x".to_string(), 1);
    assert!(eliminator.is_dead_code("x"));
}

#[test]
fn test_dead_code_used() {
    let mut eliminator = DeadCodeEliminator::new();
    eliminator.register_definition("x".to_string(), 1);
    eliminator.mark_used("x".to_string());
    assert!(!eliminator.is_dead_code("x"));
}

#[test]
fn dead_code_lists_unused_definitions_in_order() {
    let mut eliminator = DeadCodeEliminator::new();
    eliminator.register_definition("a".to_string(), 1);
    eliminator.register_definition("b".to_string(), 2);
    eliminator.register_definition("c".to_string(), 3);
    eliminator.mark_used("b".to_string());
    eliminator.mark_used("zzz".to_string());
    assert_eq!(eliminator.find_dead_code(), vec!["a".to_string(), "c".to_string()]);
    assert!(!eliminator.is_dead_code("zzz"));
}

#[test]
fn test_common_subexpr_elimination() {
    let mut elim = CommonSubexprEliminator::new();
    elim.register_expression("a + b".to_string());
    elim.register_expression("a + b".to_string());
    let candidates = elim.get_candidates();
    assert_eq!(candidates.len(), 1);
    assert_eq!(candidates[0].1, 2);
}

#[test]
fn cse_temporaries_are_numbered_by_first_repeat() {
    let mut elim = CommonSubexprEliminator::new();
    elim.register_expression("x * y".to_string());
    elim.register_expression("a + b".to_string());
    elim.register_expression("a + b".to_string());
    elim.register_expression("x * y".to_string());
    elim.register_expression("x * y".to_string());
    assert_eq!(elim.get_temp_var("a + b"), Some("_cse_tmp_0".to_string()));
    assert_eq!(elim.get_temp_var("x * y"), Some("_cse_tmp_1".to_string()));
    assert_eq!(elim.get_temp_var("z"), None);
    let c = elim.get_candidates();
    assert_eq!(c, vec![("x * y".to_string(), 3), ("a + b".to_string(), 2)]);
}

#[test]
fn test_function_inliner() {
    let mut inliner = FunctionInliner::new(100);
    inliner.register_function("small_func".to_string(), 50, "x + 1".to_string());
    assert!(inliner.should_inline("small_func"));
}

#[test]
fn test_function_inliner_large() {
    let mut inliner = FunctionInliner::new(100);
    inliner.register_function("large_func".to_string(), 200, "complex code".to_string());
    assert!(!inliner.should_inline("large_func"));
}

#[test]
fn function_inliner_counts_and_bodies() {
    let mut inliner = FunctionInliner::new(100);
    inliner.register_function("a".to_string(), 100, "body a".to_string());
    inliner.register_function("b".to_string(), 101, "body b".to_string());
    inliner.register_function("c".to_string(), 1, "body c".to_string());
    assert_eq!(inliner.count_inlinable(), 2);
    assert_eq!(inliner.get_inlined_body("b"), Some("body b".to_string()));
    assert_eq!(inliner.get_inlined_body("d"), None);
}

#[test]
fn test_strength_reduce_multiply_by_2() {
    let reducer = StrengthReducer::new();
    let result = reducer.reduce_operation("*", "x", "2").unwrap();
    assert_eq!(result, Some("x << 1".to_string()));
}

#[test]
fn test_strength_reduce_divide_by_2() {
    let reducer = StrengthReducer::new();
    let result = reducer.reduce_operation("/", "x", "2").unwrap();
    assert_eq!(result, Some("x >> 1".to_string()));
}

#[test]
fn strength_reduction_by_four_and_otherwise() {
    let mut reducer = StrengthReducer::new();
    assert_eq!(reducer.reduce_operation("*", "y", "4").unwrap(), Some("y << 2".to_string()));
    assert_eq!(reducer.reduce_operation("/", "y", "4").unwrap(), Some("y >> 2".to_string()));
    assert_eq!(reducer.reduce_operation("*", "y", "8").unwrap(), None);
    reducer.register_reduction("x * 8".to_string(), "x << 3".to_string());
    assert!(reducer.has_reduction("x * 8"));
    assert_eq!(reducer.get_reduction("x * 8"), Some(&"x << 3".to_string()));
    assert_eq!(reducer.get_reduction("x * 9"), None);
}

#[test]
fn optimizer_test_optimizer_creation() {
    let opt = Optimizer::new(OptimizationLevel::Basic);
    let stats = opt.get_stats();
    assert_eq!(stats.total_optimizations(), 0);
}

#[test]
fn test_optimization_levels() {
    let opt1 = Optimizer::new(OptimizationLevel::Off);
    let opt2 = Optimizer::new(OptimizationLevel::Basic);
    let opt3 = Optimizer::new(OptimizationLevel::Aggressive);
    assert_ne!(opt1.level, opt2.level);
    assert_ne!(opt2.level, opt3.level);
}

#[test]
fn test_stats_tracking() {
    let mut opt = Optimizer::new(OptimizationLevel::Aggressive);
    opt.stats.constants_folded += 5;
    opt.stats.dead_code_removed += 3;
    assert_eq!(opt.get_stats().total_optimizations(), 8);
}

#[test]
fn optimize_expression_counts_passes_by_level() {
    let mut opt = Optimizer::new(OptimizationLevel::Extreme);
    let (out, changed) = opt.optimize_expression("a + b").unwrap();
    assert_eq!(out, "a + b");
    assert!(!changed);
    assert_eq!(opt.get_stats().subexpressions_eliminated, 1);
    assert_eq!(opt.get_stats().expressions_inlined, 1);
    opt.set_optimization_level(OptimizationLevel::Basic);
    opt.optimize_expression("c").unwrap();
    assert_eq!(opt.get_stats().total_optimizations(), 2);
}

#[test]
fn unary_other_operators_accept_the_smallest_integer() {
    assert_eq!(fold_unary_op("!", FoldedValue::Integer(i64::MIN)), None);
    assert_eq!(fold_unary_op("-", FoldedValue::Integer(i64::MIN + 1)), Some(FoldedValue::Integer(i64::MAX)));
}
