use lib::codegen::optimization::inlining::Inliner;

#[test]
fn test_inliner_creation() {
    let _inliner = Inliner::new();
}

#[test]
fn test_extract_function_name() {
    let inliner = Inliner::new();
    let line = "define i64 @add(i64 %a, i64 %b)";
    assert_eq!(inliner.extract_function_name(line), Some("add".to_string()));
}

#[test]
fn test_extract_call_target() {
    let inliner = Inliner::new();
    let line = "%result = call i64 @add(i64 1, i64 2)";
    assert_eq!(inliner.extract_call_target(line), Some("add".to_string()));
}

#[test]
fn test_enable_strategy() {
    let mut inliner = Inliner::new();
    assert!(inliner.enable_strategy("Aggressive").is_ok());
}

#[test]
fn test_disable_strategy() {
    let mut inliner = Inliner::new();
    assert!(inliner.disable_strategy("Simple").is_ok());
}

#[test]
fn test_set_threshold() {
    let mut inliner = Inliner::new();
    assert!(inliner.set_threshold("Simple", 100).is_ok());
}

#[test]
fn inlining_test_statistics() {
    let inliner = Inliner::new();
    let stats = inliner.get_statistics();
    assert_eq!(stats.functions_inlined, 0);
}

#[test]
fn test_inlinable_functions() {
    let inliner = Inliner::new();
    let inlinable = inliner.get_inlinable_functions();
    assert!(inlinable.is_empty());
}

#[test]
fn analysis_measures_and_inlines_small_functions() {
    let mut inliner = Inliner::new();
    let ir = "define i64 @small() {\n  %x = add i64 1, 2\nret i64 %x\n}\ndefine i64 @main() {\n  %r = call i64 @small()\n  ret i64 %r\n}";
    inliner.analyze_functions(ir);
    let small = inliner.get_function_metrics("small").unwrap();
    assert_eq!(small.size, "  %x = add i64 1, 2".len());
    assert_eq!(small.complexity, 0);
    let main = inliner.get_function_metrics("main").unwrap();
    assert_eq!(main.size, "  %r = call i64 @small()".len());
    assert_eq!(main.complexity, 5);
    assert!(inliner.should_inline("small"));
    assert!(!inliner.should_inline("missing"));
    let result = inliner.inline_functions("  %r = call i64 @small()\n  ret i64 %r");
    assert_eq!(result, "; inlined small\n  ret i64 %r");
    assert_eq!(inliner.get_statistics().call_sites_eliminated, 1);
    assert_eq!(inliner.get_statistics().functions_inlined, 1);
    assert_eq!(inliner.get_inlinable_functions(), vec!["small".to_string(), "main".to_string()]);
    assert_eq!(inliner.estimate_bloat(), 0);
    inliner.clear_statistics();
    assert_eq!(inliner.get_statistics().functions_inlined, 0);
}

#[test]
fn unknown_strategies_are_errors() {
    let mut inliner = Inliner::new();
    assert_eq!(inliner.enable_strategy("Nope"), Err("Strategy Nope not found".to_string()));
    assert_eq!(inliner.disable_strategy("Nope"), Err("Strategy Nope not found".to_string()));
    assert_eq!(inliner.set_threshold("Nope", 3), Err("Strategy Nope not found".to_string()));
    assert!(inliner.set_threshold("Simple", 0).is_ok());
    assert_eq!(inliner.strategies[0].threshold, 0);
    assert_eq!(inliner.estimate_complexity("define @f\n br i1 %c\n for\nret i64 0\ncall @g", "f"), 13);
}
