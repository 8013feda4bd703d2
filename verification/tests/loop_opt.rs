use lib::codegen::optimization::loop_opt::LoopOptimizer;

#[test]
fn test_loop_optimizer_creation() {
    let _opt = LoopOptimizer::new();
}

#[test]
fn test_identify_loops() {
    let opt = LoopOptimizer::new();
    let ir = "loop:\n  %i = add i64 %i, 1\n  br label%loop";
    let loops = opt.identify_loops(ir);
    assert!(!loops.is_empty());
}

#[test]
fn test_is_loop_invariant() {
    let opt = LoopOptimizer::new();
    let invariant = "%x = add i64 5, 10";
    let variant = "%i = add i64 %i, 1";

    assert!(opt.is_loop_invariant(invariant));
    assert!(!opt.is_loop_invariant(variant));
}

#[test]
fn test_iteration_count_analysis() {
    let mut opt = LoopOptimizer::new();
    let ir = "for i in 0..10";
    let counts = opt.iteration_count_analysis(ir);
    assert!(!counts.is_empty());
}

#[test]
fn test_strength_reduction() {
    let opt = LoopOptimizer::new();
    let ir = "%x = mul i64 %i, 2";
    let result = opt.strength_reduction(ir);
    assert!(result.contains("shl"));
}

#[test]
fn loop_opt_test_statistics() {
    let opt = LoopOptimizer::new();
    let stats = opt.get_statistics();
    assert_eq!(stats.loops_unrolled, 0);
}

#[test]
fn loop_shape_is_exact() {
    let opt = LoopOptimizer::new();
    let ir = "entry\nloop:\n  %x = add i64 5, 10\n  %i = add i64 %i, 1\n  br label%loop\nexit";
    let loops = opt.identify_loops(ir);
    assert_eq!(loops.len(), 1);
    assert_eq!(loops[0].header, 1);
    assert_eq!(loops[0].latch, 4);
    assert_eq!(loops[0].exit, 5);
    assert_eq!(loops[0].body_lines, vec![2, 3, 4]);
    assert!(loops[0].invariant_instructions.is_empty());
}

#[test]
fn invariant_motion_drops_invariant_body_lines() {
    let mut opt = LoopOptimizer::new();
    let ir = "loop:\n%x = add i64 5, 10\n%i = add i64 %i, 1\nbr label%loop";
    let result = opt.loop_invariant_code_motion(ir);
    assert_eq!(result, "loop:\n%i = add i64 %i, 1");
    assert_eq!(opt.get_statistics().invariants_hoisted, 2);
}

#[test]
fn peeling_and_unrolling_notes() {
    let mut opt = LoopOptimizer::new();
    let result = opt.loop_peeling("loop_body a\nloop_body b\nloop_body c", 2);
    assert_eq!(result, "loop_body a\n; peeled iteration 1\nloop_body b\n; peeled iteration 2\nloop_body c");
    assert_eq!(opt.get_statistics().peeling_applied, 2);

    let mut opt2 = LoopOptimizer::new();
    let text = "for i in 0..4 {\nfor i in 0..20 {\nfor i in 0..x";
    let result = opt2.unroll_small_loops(text, 8);
    assert_eq!(result, format!("; unrolled loop 0 (4 iterations)\n{}", text));
    let stats = opt2.get_statistics();
    assert_eq!(stats.loops_unrolled, 1);
    assert_eq!(stats.iterations_reduced, 1);
    assert_eq!(opt2.extract_iteration_count("for i in 0..12"), Some(12));
    assert_eq!(opt2.extract_iteration_count("for i in 1..12"), None);
    opt2.clear_statistics();
    assert_eq!(opt2.get_statistics().loops_unrolled, 0);
}

#[test]
fn unrolling_counts_loops_and_keeps_lines() {
    let mut opt = LoopOptimizer::new();
    let result = opt.loop_unrolling("  for_body\n br label%1  ", 4);
    assert_eq!(result, "for_body\n br label%1");
    assert_eq!(opt.get_statistics().loops_unrolled, 1);
    assert_eq!(opt.strength_reduction("%y = div i64 %x, 2"), "%y = shr i64 %x, 2");
}
