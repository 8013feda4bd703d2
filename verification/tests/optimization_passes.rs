use lib::codegen::optimization::optimization_passes::{Instruction, OptimizationEngine, OptimizationPass, PassType};

fn pass(name: &str, t: PassType, enabled: bool) -> OptimizationPass {
    OptimizationPass { name: name.to_string(), pass_type: t, enabled }
}

fn instr(id: usize, op: &str, operands: &[&str]) -> Instruction {
    Instruction { id, operation: op.to_string(), operands: operands.iter().map(|s| s.to_string()).collect() }
}

#[test]
fn test_create_engine() {
    let _engine = OptimizationEngine::new();
    assert!(true);
}

#[test]
fn test_register_pass() {
    let mut engine = OptimizationEngine::new();
    engine.register_pass(pass("ConstFold", PassType::ConstantFolding, true));
    assert_eq!(engine.passes.len(), 1);
}

#[test]
fn test_add_instruction() {
    let mut engine = OptimizationEngine::new();
    engine.add_instruction(instr(0, "add", &["1", "2"]));
    assert_eq!(engine.instructions.len(), 1);
}

#[test]
fn test_constant_folding() {
    let mut engine = OptimizationEngine::new();
    engine.register_pass(pass("ConstFold", PassType::ConstantFolding, true));
    engine.add_instruction(instr(0, "add", &["10", "20"]));
    assert!(engine.run_all_passes().is_ok());
    assert_eq!(engine.get_constant_value("r0").unwrap(), "30");
}

#[test]
fn test_multiplication_folding() {
    let mut engine = OptimizationEngine::new();
    engine.register_pass(pass("ConstFold", PassType::ConstantFolding, true));
    engine.add_instruction(instr(0, "mul", &["5", "6"]));
    assert!(engine.run_all_passes().is_ok());
    assert_eq!(engine.get_constant_value("r0").unwrap(), "30");
}

#[test]
fn test_dead_code_elimination() {
    let mut engine = OptimizationEngine::new();
    engine.register_pass(pass("DCE", PassType::DeadCodeElimination, true));
    engine.add_instruction(instr(0, "load", &["x"]));
    engine.add_instruction(instr(1, "return", &["0"]));
    assert!(engine.run_all_passes().is_ok());
}

#[test]
fn test_get_optimized_instructions() {
    let mut engine = OptimizationEngine::new();
    engine.add_instruction(instr(0, "add", &["1", "2"]));
    let optimized = engine.get_optimized_instructions();
    assert_eq!(optimized.len(), 1);
}

#[test]
fn test_get_optimization_stats() {
    let mut engine = OptimizationEngine::new();
    engine.register_pass(pass("ConstFold", PassType::ConstantFolding, true));
    engine.add_instruction(instr(0, "add", &["1", "2"]));
    let _result = engine.run_all_passes();
    let stats = engine.get_optimization_stats();
    assert!(!stats.is_empty());
}

#[test]
fn test_is_pass_enabled() {
    let mut engine = OptimizationEngine::new();
    engine.register_pass(pass("Test", PassType::ConstantFolding, true));
    assert!(engine.is_pass_enabled("Test"));
}

#[test]
fn test_enable_pass() {
    let mut engine = OptimizationEngine::new();
    engine.register_pass(pass("Test", PassType::ConstantFolding, false));
    assert!(engine.enable_pass("Test").is_ok());
}

#[test]
fn test_disable_pass() {
    let mut engine = OptimizationEngine::new();
    engine.register_pass(pass("Test", PassType::ConstantFolding, true));
    assert!(engine.disable_pass("Test").is_ok());
}

#[test]
fn test_common_subexpression_elimination() {
    let mut engine = OptimizationEngine::new();
    engine.register_pass(pass("CSE", PassType::CommonSubexpression, true));
    engine.add_instruction(instr(0, "mul", &["a", "b"]));
    assert!(engine.run_all_passes().is_ok());
}

#[test]
fn test_loop_invariant_motion() {
    let mut engine = OptimizationEngine::new();
    engine.register_pass(pass("LICM", PassType::LoopInvariant, true));
    assert!(engine.run_all_passes().is_ok());
}

#[test]
fn test_peephole_optimization() {
    let mut engine = OptimizationEngine::new();
    engine.register_pass(pass("Peephole", PassType::Peephole, true));
    engine.add_instruction(instr(0, "load", &["x"]));
    assert!(engine.run_all_passes().is_ok());
}

#[test]
fn passes_dead_code_follows_liveness_backward() {
    let mut engine = OptimizationEngine::new();
    engine.register_pass(pass("DCE", PassType::DeadCodeElimination, true));
    engine.add_instruction(instr(0, "add", &["a", "b"]));
    engine.add_instruction(instr(1, "mul", &["c", "d"]));
    engine.add_instruction(instr(2, "sub", &["b", "e"]));
    engine.add_instruction(instr(3, "return", &["e"]));
    engine.run_all_passes().unwrap();
    let kept: Vec<usize> = engine.get_optimized_instructions().iter().map(|i| i.id).collect();
    assert_eq!(kept, vec![0, 2, 3]);
}

#[test]
fn passes_disabled_and_missing() {
    let mut engine = OptimizationEngine::new();
    engine.register_pass(pass("CF", PassType::ConstantFolding, false));
    engine.add_instruction(instr(7, "add", &["-4", "1"]));
    engine.run_all_passes().unwrap();
    assert_eq!(engine.get_constant_value("r7"), None);
    assert!(!engine.is_pass_enabled("CF"));
    assert!(!engine.is_pass_enabled("nope"));
    assert_eq!(engine.enable_pass("nope").unwrap_err(), "Pass nope not found");
    engine.enable_pass("CF").unwrap();
    engine.run_all_passes().unwrap();
    assert_eq!(engine.get_constant_value("r7").unwrap(), "-3");
    assert_eq!(engine.get_optimization_stats().get("ConstantFolding"), Some(&1));
}
