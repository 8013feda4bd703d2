use lib::codegen::optimization::lto::{
    ConstantPropagationAnalyzer, DeadCodeAnalyzer, DeduplicationAnalyzer, FunctionInfo, GlobalInfo,
    InliningAnalyzer, LTOResult, LinkTimeOptimizer, SymbolTable, SymbolVisibility,
};
use lib::names::NameSet;

fn func(name: &str, vis: SymbolVisibility, calls: usize, size: usize, rec: bool) -> FunctionInfo {
    FunctionInfo {
        name: name.to_string(),
        visibility: vis,
        call_count: calls,
        call_sites: vec![],
        instruction_count: size,
        is_recursive: rec,
        uses_globals: vec![],
        module: "test".to_string(),
    }
}

fn global(name: &str, reads: usize, writes: usize, constant: bool) -> GlobalInfo {
    GlobalInfo {
        name: name.to_string(),
        visibility: SymbolVisibility::Internal,
        read_count: reads,
        write_count: writes,
        readers: NameSet::new(),
        writers: NameSet::new(),
        is_constant: constant,
    }
}

#[test]
fn test_symbol_table_creation() {
    let table = SymbolTable::new();
    assert_eq!(table.functions.len(), 0);
    assert_eq!(table.globals.len(), 0);
}

#[test]
fn test_add_function() {
    let mut table = SymbolTable::new();
    table.add_function(func("test_func", SymbolVisibility::Public, 5, 100, false));
    assert_eq!(table.functions.len(), 1);
    assert!(table.functions.contains_key("test_func"));
}

#[test]
fn test_add_global() {
    let mut table = SymbolTable::new();
    table.add_global(global("global_var", 10, 1, true));
    assert_eq!(table.globals.len(), 1);
    assert!(table.globals.contains_key("global_var"));
}

#[test]
fn test_call_graph_building() {
    let mut table = SymbolTable::new();
    table.add_call_edge("main".to_string(), "func_a".to_string());
    table.add_call_edge("main".to_string(), "func_b".to_string());
    table.add_call_edge("func_a".to_string(), "func_c".to_string());
    let main_callees = table.get_callees("main").unwrap();
    assert_eq!(main_callees.len(), 2);
    assert!(main_callees.contains("func_a"));
    assert!(main_callees.contains("func_b"));
}

#[test]
fn test_reverse_call_graph() {
    let mut table = SymbolTable::new();
    table.add_call_edge("main".to_string(), "func_a".to_string());
    table.add_call_edge("func_b".to_string(), "func_a".to_string());
    let callers = table.get_callers("func_a");
    assert_eq!(callers.len(), 2);
    assert!(callers.contains("main"));
    assert!(callers.contains("func_b"));
}

#[test]
fn test_find_reachable_functions() {
    let mut table = SymbolTable::new();
    table.add_call_edge("main".to_string(), "reachable1".to_string());
    table.add_call_edge("reachable1".to_string(), "reachable2".to_string());
    let analyzer = DeadCodeAnalyzer::new(table);
    let reachable = analyzer.find_reachable_functions(&["main"]);
    assert!(reachable.contains("main"));
    assert!(reachable.contains("reachable1"));
    assert!(reachable.contains("reachable2"));
}

#[test]
fn test_find_dead_functions() {
    let mut table = SymbolTable::new();
    table.add_function(func("public_func", SymbolVisibility::Public, 0, 50, false));
    table.add_function(func("dead_func", SymbolVisibility::Internal, 0, 50, false));
    let analyzer = DeadCodeAnalyzer::new(table);
    let dead = analyzer.find_dead_functions(&["public_func"]);
    assert_eq!(dead.len(), 1);
    assert!(dead.contains(&"dead_func".to_string()));
}

#[test]
fn test_find_dead_globals() {
    let mut table = SymbolTable::new();
    table.add_global(global("used", 5, 1, true));
    table.add_global(global("unused", 0, 0, false));
    let analyzer = DeadCodeAnalyzer::new(table);
    let dead = analyzer.find_dead_globals();
    assert_eq!(dead.len(), 1);
    assert!(dead.contains(&"unused".to_string()));
}

#[test]
fn test_inlining_small_functions() {
    let mut table = SymbolTable::new();
    table.add_function(func("small", SymbolVisibility::Internal, 3, 20, false));
    let analyzer = InliningAnalyzer::new(table, 50);
    assert!(analyzer.should_inline("small"));
}

#[test]
fn test_inlining_single_call() {
    let mut table = SymbolTable::new();
    let mut f = func("called_once", SymbolVisibility::Internal, 1, 100, false);
    f.call_sites = vec!["main".to_string()];
    table.add_function(f);
    let analyzer = InliningAnalyzer::new(table, 50);
    assert!(analyzer.should_inline("called_once"));
}

#[test]
fn test_no_inline_recursive() {
    let mut table = SymbolTable::new();
    table.add_function(func("recursive", SymbolVisibility::Internal, 5, 30, true));
    let analyzer = InliningAnalyzer::new(table, 50);
    assert!(!analyzer.should_inline("recursive"));
}

#[test]
fn lto_test_inlining_candidates() {
    let mut table = SymbolTable::new();
    table.add_function(func("small", SymbolVisibility::Internal, 2, 15, false));
    table.add_function(func("large", SymbolVisibility::Internal, 2, 200, false));
    let analyzer = InliningAnalyzer::new(table, 50);
    let candidates = analyzer.find_inlining_candidates();
    assert!(candidates.contains(&"small".to_string()));
    assert!(!candidates.contains(&"large".to_string()));
}

#[test]
fn test_effectively_constant_globals() {
    let mut table = SymbolTable::new();
    table.add_global(global("const_val", 10, 1, true));
    table.add_global(global("mut_val", 5, 5, false));
    let analyzer = ConstantPropagationAnalyzer::new(table);
    let constants = analyzer.find_effectively_constant_globals();
    assert_eq!(constants.len(), 1);
    assert!(constants.contains(&"const_val".to_string()));
}

#[test]
fn test_write_only_globals() {
    let mut table = SymbolTable::new();
    table.add_global(global("write_only", 0, 3, false));
    let analyzer = ConstantPropagationAnalyzer::new(table);
    let write_only_globals = analyzer.find_write_only_globals();
    assert_eq!(write_only_globals.len(), 1);
}

#[test]
fn test_deduplication_analysis() {
    let mut dedup = DeduplicationAnalyzer::new();
    dedup.register_code("fingerprint_1".to_string(), "func_a".to_string());
    dedup.register_code("fingerprint_1".to_string(), "func_b".to_string());
    dedup.register_code("fingerprint_2".to_string(), "func_c".to_string());
    let duplicates = dedup.find_duplicates();
    assert_eq!(duplicates.len(), 1);
    assert_eq!(duplicates[0].1.len(), 2);
}

#[test]
fn test_lto_result_totals() {
    let mut result = LTOResult::new();
    result.dead_functions = 5;
    result.dead_globals = 3;
    result.inlined_functions = 7;
    result.constants_identified = 10;
    result.duplicate_sequences = 2;
    assert_eq!(result.total_optimizations(), 27);
}

#[test]
fn lto_reachability_follows_chains_and_ignores_islands() {
    let mut table = SymbolTable::new();
    table.add_call_edge("main".to_string(), "a".to_string());
    table.add_call_edge("a".to_string(), "b".to_string());
    table.add_call_edge("b".to_string(), "a".to_string());
    table.add_call_edge("island".to_string(), "c".to_string());
    let analyzer = DeadCodeAnalyzer::new(table);
    let reachable = analyzer.find_reachable_functions(&["main"]);
    assert_eq!(reachable.len(), 3);
    assert!(!reachable.contains("island"));
    assert!(!reachable.contains("c"));
}

#[test]
fn lto_inlining_score_values() {
    let mut table = SymbolTable::new();
    table.add_function(func("tiny", SymbolVisibility::Internal, 2, 5, false));
    table.add_function(func("big", SymbolVisibility::Internal, 1, 150, false));
    table.add_function(func("rec", SymbolVisibility::Internal, 1, 5, true));
    let analyzer = InliningAnalyzer::new(table, 50);
    assert_eq!(analyzer.inlining_score("tiny"), 95 + 20 + 50);
    assert_eq!(analyzer.inlining_score("big"), 10);
    assert_eq!(analyzer.inlining_score("rec"), 0);
    assert_eq!(analyzer.inlining_score("missing"), 0);
}

#[test]
fn lto_hot_function_inlined_up_to_twice_the_limit() {
    let mut table = SymbolTable::new();
    table.add_function(func("hot", SymbolVisibility::Internal, 11, 100, false));
    table.add_function(func("hot_big", SymbolVisibility::Internal, 11, 101, false));
    let analyzer = InliningAnalyzer::new(table, 50);
    assert!(analyzer.should_inline("hot"));
    assert!(!analyzer.should_inline("hot_big"));
}

#[test]
fn lto_optimize_counts_each_pass() {
    let mut table = SymbolTable::new();
    table.add_function(func("main", SymbolVisibility::Public, 0, 80, false));
    table.add_function(func("helper", SymbolVisibility::Internal, 2, 10, false));
    table.add_function(func("orphan", SymbolVisibility::Internal, 0, 300, false));
    table.add_call_edge("main".to_string(), "helper".to_string());
    table.add_global(global("g_const", 3, 1, true));
    table.add_global(global("g_dead", 0, 0, false));
    let mut lto = LinkTimeOptimizer::new(table);
    let r = lto.optimize(&["main"]);
    assert_eq!(r.dead_functions, 1);
    assert_eq!(r.dead_globals, 1);
    assert_eq!(r.inlined_functions, 1);
    assert_eq!(r.constants_identified, 1);
    assert_eq!(r.duplicate_sequences, 0);
    assert_eq!(r.total_optimizations(), 4);
}
