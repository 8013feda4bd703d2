use lib::codegen::optimization::optimizer_advanced::{
    InliningOptimizer, Instruction, LoopOptimizer, PatternOptimizer, PeepholeOptimizer,
};

fn load(dst: &str, src: &str) -> Instruction {
    Instruction::Load { dst: dst.to_string(), src: src.to_string() }
}

fn store(dst: &str, src: &str) -> Instruction {
    Instruction::Store { dst: dst.to_string(), src: src.to_string() }
}

#[test]
fn test_peephole_redundant_moves() {
    let instrs = vec![load("x", "y"), load("z", "y")];
    let mut opt = PeepholeOptimizer::new(instrs);
    let result = opt.combine_identical_ops();
    assert_eq!(result, 0);
}

#[test]
fn test_self_assignment_detection() {
    let instr = load("x", "x");
    assert!(PatternOptimizer::detect_self_assignment(&instr));
}

#[test]
fn test_inlining_scoring() {
    let mut opt = InliningOptimizer::new();
    opt.register_function("small".to_string(), 15);
    opt.register_function("large".to_string(), 500);
    opt.record_call("small".to_string());
    opt.record_call("small".to_string());
    opt.record_call("large".to_string());
    assert!(opt.should_inline("small"));
    assert!(!opt.should_inline("large"));
}

#[test]
fn test_loop_detection() {
    let instrs = vec![load("i", "0"), Instruction::CondJump { target: 0, cond: "i < n".to_string() }];
    let opt = LoopOptimizer::new(instrs);
    assert_eq!(opt.estimate_loop_iterations(0, 0), None);
}

#[test]
fn peephole_collapses_self_move_reloads() {
    let mut opt = PeepholeOptimizer::new(vec![load("x", "x"), load("a", "x"), load("b", "x"), load("c", "y")]);
    assert_eq!(opt.eliminate_redundant_moves(), 2);
    let mut again = PeepholeOptimizer::new(vec![load("x", "y"), load("x", "y"), load("x", "y"), load("q", "y")]);
    assert_eq!(again.combine_identical_ops(), 2);
}

#[test]
fn peephole_removes_unread_stores() {
    let code = vec![
        store("t", "a"),
        store("u", "b"),
        Instruction::Add { dst: "s".to_string(), left: "u".to_string(), right: "c".to_string() },
        Instruction::Return { value: Some("s".to_string()) },
    ];
    let mut opt = PeepholeOptimizer::new(code);
    assert_eq!(opt.remove_dead_stores(), 1);
    let mut all = PeepholeOptimizer::new(vec![store("t", "a"), load("a", "a"), load("b", "a")]);
    assert_eq!(all.optimize(), 2);
}

#[test]
fn loop_queries_over_ranges() {
    let code = vec![
        load("i", "0"),
        Instruction::Jump { target: 3 },
        load("j", "1"),
        Instruction::Jump { target: 0 },
        load("k", "2"),
    ];
    let opt = LoopOptimizer::new(code);
    assert_eq!(opt.detect_loop_invariants(0, 100), vec![0, 2, 4]);
    assert_eq!(opt.detect_loop_invariants(1, 4), vec![2]);
    assert_eq!(opt.estimate_loop_iterations(0, 5), Some(2));
    assert!(opt.can_unroll(0, 5));
    assert!(!opt.can_unroll(2, 3));
    assert!(!opt.can_unroll(0, 60));
}

#[test]
fn inlining_defaults_for_unknown_functions() {
    let mut opt = InliningOptimizer::new();
    opt.record_call("tiny".to_string());
    assert!(!opt.should_inline("tiny"));
    opt.register_function("tiny".to_string(), 19);
    assert!(opt.should_inline("tiny"));
    assert!(!opt.should_inline("never_called"));
}

#[test]
fn pattern_checks() {
    assert!(PatternOptimizer::detect_dead_store(&store("x", "a"), &store("x", "b")));
    assert!(!PatternOptimizer::detect_dead_store(&store("x", "a"), &load("x", "b")));
    assert!(PatternOptimizer::can_fold_operation("-12", "+", "+7"));
    assert!(!PatternOptimizer::can_fold_operation("12", "<<", "7"));
    assert!(!PatternOptimizer::can_fold_operation("x", "+", "7"));
    assert!(!PatternOptimizer::can_fold_operation("9223372036854775808", "+", "1"));
}
