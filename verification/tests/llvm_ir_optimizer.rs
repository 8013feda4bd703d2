use lib::codegen::optimization::llvm_ir_optimizer::{LLVMIROptimizer, OptimizationLevel};

#[test]
fn llvm_ir_optimizer_test_optimizer_creation() {
    let _opt = LLVMIROptimizer::new(OptimizationLevel::O2);
}

#[test]
fn test_eliminate_unreachable() {
    let mut opt = LLVMIROptimizer::new(OptimizationLevel::O1);
    let ir = "entry:\nbr label%1\nlabel%2:\nret i64 0";
    let _result = opt.eliminate_unreachable_blocks(ir);
}

#[test]
fn test_simplify_constants() {
    let mut opt = LLVMIROptimizer::new(OptimizationLevel::O1);
    let ir = "%1 = add i64 0, %x";
    let _result = opt.simplify_constants(ir);
}

#[test]
fn unreachable_lines_are_dropped_without_trimming() {
    let mut opt = LLVMIROptimizer::new(OptimizationLevel::O1);
    let ir = "entry:\nbr label%3\ndead\nlabel%3:\nret i64 0\nafter";
    assert_eq!(opt.eliminate_unreachable_blocks(ir), "entry:\nbr label%3\nlabel%3:\nret i64 0");
}

#[test]
fn constant_simplification_is_exact() {
    let mut opt = LLVMIROptimizer::new(OptimizationLevel::O1);
    assert_eq!(opt.simplify_constants("%1 = add i64 0, %x"), "%1 = move  %x");
    assert_eq!(opt.get_stats().insts_simplified, 1);
    assert_eq!(opt.simplify_add("%2 = add i64 %y, 0"), "%2 = add i64 %y,");
    assert_eq!(opt.simplify_mul("%3 = mul i64 0, %z"), "%3 = move i64 0 -> %z");
    assert_eq!(opt.simplify_mul("%3 = mul i64 %z, 1"), "%3 = mul i64 %z,");
    assert_eq!(opt.simplify_and("%4 = and i64 0, %z"), "%4 = move i64 0 -> %z");
    assert_eq!(opt.simplify_or("%5 = or i64 0, %z"), "%5 = move  %z");
    assert_eq!(opt.simplify_xor("%6 = xor i64 %a, 0"), "%6 = move %a,");
    assert_eq!(opt.simplify_constants("ret void"), "ret void");
    assert_eq!(opt.get_stats().insts_simplified, 1);
}

#[test]
fn dead_code_keeps_used_lines_in_scan_order() {
    let mut opt = LLVMIROptimizer::new(OptimizationLevel::O2);
    let ir = "%a = add i64 1, 2\n%b = add i64 %a, 3\n%c = add i64 4, 5\nret i64 %b";
    assert_eq!(opt.eliminate_dead_code(ir), "ret i64 %b\n%b = add i64 %a, 3");
    assert_eq!(opt.get_stats().insts_removed, 2);
}

#[test]
fn merging_inlining_and_vector_marks() {
    let mut opt = LLVMIROptimizer::new(OptimizationLevel::O3);
    assert_eq!(opt.merge_basic_blocks("br label%1\nlabel%1:\nret i64 0"), "br label%1\nret i64 0");
    assert_eq!(opt.get_stats().blocks_merged, 1);
    assert_eq!(opt.inline_small_functions("call i64 @f()\ncall i64 @printf()"), "; inlined: call i64 @f()\ncall i64 @printf()");
    assert_eq!(opt.get_stats().insts_removed, 1);
    assert_eq!(opt.vectorization_analysis("%x = add i64 1, 2"), "; VECTORIZABLE: %x = add i64 1, 2");
}

#[test]
fn level_zero_leaves_text_alone() {
    let mut opt = LLVMIROptimizer::new(OptimizationLevel::O0);
    assert_eq!(opt.optimize_ir("  anything \n"), "  anything \n");
    let mut o1 = LLVMIROptimizer::new(OptimizationLevel::O1);
    assert_eq!(o1.optimize_ir("%1 = add i64 0, %x\nret i64 %1"), "%1 = move  %x\nret i64 %1");
}
