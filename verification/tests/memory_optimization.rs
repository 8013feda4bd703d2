use lib::codegen::memory_optimization::{
    EscapeAnalysis, EscapeAnalysisConfig, EscapeStatus, FieldLayout, LayoutOptimizer, LifetimeScope,
    MemoryPoolAllocator, PoolConfig, RefCountConfig, RefCountOp, RefCountOptimizer, UsageKind,
};

#[derive(Debug, Clone, Copy, PartialEq)]
enum GrowthStrategy {
    Linear(usize),
    Exponential(f32),
}

fn default_pool_config() -> PoolConfig<GrowthStrategy> {
    PoolConfig { initial_size: 4096, growth_strategy: GrowthStrategy::Exponential(1.5), enable_reuse: true }
}
use lib::mir::{BasicBlock, Constant, Operand, Place, Rvalue, Statement, Terminator};

#[test]
fn test_escape_analysis_default() {
    let config = EscapeAnalysisConfig::default();
    let ea = EscapeAnalysis::new(config);
    assert_eq!(ea.escapes.len(), 0);
}

#[test]
fn test_escape_status_transitions() {
    let mut ea = EscapeAnalysis::new(EscapeAnalysisConfig::default());
    ea.insert_escape_status("var".to_string(), EscapeStatus::DoesNotEscape);
    assert_eq!(ea.get_escape_status("var"), Some(EscapeStatus::DoesNotEscape));
    assert!(!ea.requires_heap("var"));
}

#[test]
fn test_refcount_optimization() {
    let mut opt = RefCountOptimizer::new(RefCountConfig::default());
    opt.add_operation(0, RefCountOp::Increment);
    opt.add_operation(0, RefCountOp::Decrement);
    let result = opt.optimize_chains();
    assert_eq!(result.pairs_eliminated, 1);
}

#[test]
fn refcount_cancels_nested_pairs_and_fuses_runs() {
    let (inc, dec) = (RefCountOp::Increment, RefCountOp::Decrement);
    let mut opt = RefCountOptimizer::new(RefCountConfig::default());
    for op in [inc, inc, dec, dec] {
        opt.add_operation(3, op);
    }
    for op in [dec, dec, dec, inc] {
        opt.add_operation(5, op);
    }
    let result = opt.optimize_chains();
    assert_eq!(result.pairs_eliminated, 2);
    assert_eq!(result.operations_fused, 2);
    assert_eq!(opt.get_chains_mut().get(3).unwrap(), &Vec::<RefCountOp>::new());
    assert_eq!(opt.get_chains_mut().get(5).unwrap(), &vec![dec, inc]);
    assert!(opt.can_use_move_semantics(5));
    assert!(opt.can_use_move_semantics(9));
    let off = RefCountOptimizer::new(RefCountConfig { enable_chain_fusion: false, enable_move_semantics: false });
    assert!(!off.can_use_move_semantics(9));
}

fn field(name: &str, size: usize, alignment: usize) -> FieldLayout {
    FieldLayout { name: name.to_string(), typ: "t".to_string(), size, alignment, offset: 0 }
}

#[test]
fn test_layout_optimization() {
    let mut optimizer = LayoutOptimizer::new();
    let fields = vec![
        FieldLayout { name: "a".to_string(), typ: "i64".to_string(), size: 8, alignment: 8, offset: 0 },
        FieldLayout { name: "b".to_string(), typ: "i32".to_string(), size: 4, alignment: 4, offset: 8 },
    ];
    optimizer.analyze_struct("TestStruct".to_string(), fields);
    assert_eq!(optimizer.get_all_layouts().len(), 1);
}

#[test]
fn layout_orders_by_alignment_and_pads() {
    let mut optimizer = LayoutOptimizer::new();
    optimizer.analyze_struct(
        "S".to_string(),
        vec![field("x", 1, 1), field("y", 4, 4), field("z", 2, 2), field("w", 8, 8), field("v", 3, 1)],
    );
    let l = optimizer.get_layout("S").unwrap();
    let names: Vec<&str> = l.fields.iter().map(|f| f.name.as_str()).collect();
    assert_eq!(names, vec!["w", "y", "z", "x", "v"]);
    let offsets: Vec<usize> = l.fields.iter().map(|f| f.offset).collect();
    assert_eq!(offsets, vec![0, 8, 12, 14, 15]);
    assert_eq!(l.current_size, 18);
    assert_eq!(l.optimized_size, 18);
    assert_eq!(l.padding_bytes, 0);
    let report = optimizer.report();
    assert_eq!(report.structs_analyzed, 1);
    assert_eq!(report.total_bytes_saved, 0);
    assert!(optimizer.get_layout("T").is_none());
}

#[test]
fn test_allocation_report() {
    let config = EscapeAnalysisConfig::default();
    let mut ea = EscapeAnalysis::new(config);
    ea.insert_escape_status("stack_var".to_string(), EscapeStatus::DoesNotEscape);
    ea.insert_escape_status("heap_var".to_string(), EscapeStatus::EscapesToMemory);
    let report = ea.report_allocations();
    assert_eq!(report.stack_candidates.len(), 1);
    assert_eq!(report.heap_required.len(), 1);
}

fn local(n: &str) -> Statement {
    Statement { place: Place::Local(n.to_string()), rvalue: Rvalue::Use(Operand::Constant(Constant::Unit)) }
}

#[test]
fn escape_analysis_of_blocks() {
    let blocks = vec![
        BasicBlock { statements: vec![local("a"), local("b"), Statement { place: Place::Projection("a.f".to_string()), rvalue: Rvalue::Use(Operand::Constant(Constant::Unit)) }], terminator: Terminator::Goto(1) },
        BasicBlock { statements: vec![local("a")], terminator: Terminator::Return(Some(Operand::Copy(Place::Local("a".to_string())))) },
    ];
    let mut ea = EscapeAnalysis::new(EscapeAnalysisConfig::default());
    ea.analyze_function(&blocks);
    assert_eq!(ea.get_escape_status("a"), Some(EscapeStatus::MayEscapeReturn));
    assert_eq!(ea.get_escape_status("b"), Some(EscapeStatus::MayEscapeReturn));
    let sites = ea.get_usage_sites("a").unwrap();
    assert_eq!(sites.len(), 2);
    assert_eq!((sites[0].block_idx, sites[0].stmt_idx), (0, 0));
    assert_eq!((sites[1].block_idx, sites[1].stmt_idx), (1, 0));
    assert!(matches!(sites[1].kind, UsageKind::Write));
    assert!(ea.get_usage_sites("a.f").is_none());

    let mut quiet = EscapeAnalysis::new(EscapeAnalysisConfig { track_field_escapes: true, track_returns: false, track_thread_escapes: false });
    quiet.analyze_function(&blocks);
    assert_eq!(quiet.get_escape_status("a"), Some(EscapeStatus::DoesNotEscape));
    assert_eq!(quiet.report_allocations().total_locals, 2);
}

#[test]
fn test_memory_pool_allocation() {
    let config = default_pool_config();
    let mut allocator = MemoryPoolAllocator::new(config);
    allocator.init_pool(LifetimeScope::Function);

    let result = allocator.allocate(LifetimeScope::Function, 1024);
    assert!(result.is_ok());
}

#[test]
fn memory_pool_sizes_errors_and_report() {
    let config = PoolConfig { initial_size: 10, growth_strategy: GrowthStrategy::Linear(64), enable_reuse: false };
    let mut allocator = MemoryPoolAllocator::new(config);
    assert_eq!(
        allocator.allocate(LifetimeScope::Loop, 1).unwrap_err(),
        "Pool for scope Loop not initialized"
    );
    allocator.init_pool(LifetimeScope::Block);
    allocator.init_pool(LifetimeScope::Function);
    assert_eq!(
        allocator.allocate(LifetimeScope::Block, 1025).unwrap_err(),
        "Allocation 1025 exceeds pool size 1024"
    );
    let a = allocator.allocate(LifetimeScope::Function, 16384).unwrap();
    assert_eq!((a.scope, a.size, a.offset), (LifetimeScope::Function, 16384, 0));
    let report = allocator.report();
    assert_eq!(report.total_pools, 2);
    assert_eq!(report.total_capacity, 16384 + 1024);
    assert_eq!(report.pools[0].0, LifetimeScope::Function);
    assert_eq!(report.pools[1].0, LifetimeScope::Block);
    assert_eq!(report.pools[1].1.growth_strategy, GrowthStrategy::Linear(64));
    assert!(!report.pools[1].1.enable_reuse);
}
