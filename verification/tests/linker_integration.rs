use lib::codegen::backend::linker_integration::{LtoLinker, SymbolGraph, SymbolInfo};
use lib::codegen::optimization::lto::SymbolVisibility;

fn sym(name: &str, vis: SymbolVisibility, size: usize, refs: Vec<String>) -> SymbolInfo {
    SymbolInfo {
        name: name.to_string(),
        module: "main".to_string(),
        visibility: vis,
        is_function: true,
        address: None,
        size,
        references: refs,
    }
}

#[test]
fn test_lto_linker_creation() {
    let linker = LtoLinker::new("/tmp");
    assert_eq!(linker.entry_point, "main");
}

#[test]
fn test_add_symbol() {
    let mut linker = LtoLinker::new("/tmp");
    linker.add_symbol(sym("test_fn", SymbolVisibility::Public, 100, vec![]));
    assert_eq!(linker.symbols.len(), 1);
}

#[test]
fn test_set_entry_point() {
    let mut linker = LtoLinker::new("/tmp");
    linker.set_entry_point("custom_main".to_string());
    assert_eq!(linker.entry_point, "custom_main");
}

#[test]
fn test_compute_kept_symbols() {
    let mut linker = LtoLinker::new("/tmp");
    linker.add_symbol(sym("main", SymbolVisibility::Public, 100, vec!["helper".to_string()]));
    linker.add_symbol(sym("helper", SymbolVisibility::Public, 50, vec![]));
    linker.add_symbol(sym("dead", SymbolVisibility::Internal, 30, vec![]));
    let kept = linker.compute_kept_symbols();
    assert!(kept.contains("main"));
    assert!(kept.contains("helper"));
    assert!(!kept.contains("dead"));
}

#[test]
fn test_compute_stripped_symbols() {
    let mut linker = LtoLinker::new("/tmp");
    linker.add_symbol(sym("main", SymbolVisibility::Public, 100, vec![]));
    linker.add_symbol(sym("dead", SymbolVisibility::Internal, 30, vec![]));
    let stripped = linker.compute_stripped_symbols();
    assert!(stripped.contains(&"dead".to_string()));
}

#[test]
fn test_symbol_layout() {
    let mut linker = LtoLinker::new("/tmp");
    linker.add_symbol(sym("main", SymbolVisibility::Public, 100, vec![]));
    let layout = linker.compute_symbol_layout();
    assert!(!layout.is_empty());
}

#[test]
fn test_linking_statistics() {
    let mut linker = LtoLinker::new("/tmp");
    linker.add_symbol(sym("main", SymbolVisibility::Public, 100, vec![]));
    let stats = linker.compute_statistics();
    assert_eq!(stats.kept_symbols, 1);
}

#[test]
fn test_symbol_graph_creation() {
    let mut graph = SymbolGraph::new();
    graph.add_node(sym("test", SymbolVisibility::Public, 100, vec![]));
    assert_eq!(graph.nodes.len(), 1);
}

#[test]
fn test_symbol_graph_edges() {
    let mut graph = SymbolGraph::new();
    graph.add_edge("caller".to_string(), "callee".to_string());
    assert!(!graph.edges.is_empty());
}

#[test]
fn test_verify_references_valid() {
    let mut linker = LtoLinker::new("/tmp");
    linker.add_symbol(sym("foo", SymbolVisibility::Public, 100, vec!["bar".to_string()]));
    linker.add_symbol(sym("bar", SymbolVisibility::Public, 100, vec![]));
    assert!(linker.verify_references().is_ok());
}

#[test]
fn test_call_frequency_computation() {
    let mut graph = SymbolGraph::new();
    graph.add_edge("main".to_string(), "helper".to_string());
    graph.add_edge("main".to_string(), "other".to_string());
    let freq = graph.compute_call_frequency();
    assert_eq!(freq.get("main"), Some(&1));
    assert_eq!(freq.get("helper"), Some(&1));
    assert_eq!(freq.get("other"), Some(&1));
}

#[test]
fn linker_layout_is_sorted_and_contiguous() {
    let mut linker = LtoLinker::new("/tmp");
    linker.add_symbol(sym("zeta", SymbolVisibility::Public, 16, vec![]));
    linker.add_symbol(sym("alpha", SymbolVisibility::Public, 32, vec![]));
    linker.add_symbol(sym("main", SymbolVisibility::Internal, 8, vec![]));
    linker.add_symbol(sym("gone", SymbolVisibility::Internal, 4, vec![]));
    let layout = linker.compute_symbol_layout();
    assert_eq!(layout.len(), 3);
    assert_eq!(layout.key_at(0).as_str(), "alpha");
    assert_eq!(layout.key_at(1).as_str(), "main");
    assert_eq!(layout.key_at(2).as_str(), "zeta");
    assert_eq!(layout.get("alpha"), Some(&(0x1000, 32)));
    assert_eq!(layout.get("main"), Some(&(0x1000 + 32, 8)));
    assert_eq!(layout.get("zeta"), Some(&(0x1000 + 40, 16)));
    assert_eq!(layout.get("gone"), None);
}

#[test]
fn linker_statistics_values() {
    let mut linker = LtoLinker::new("/tmp");
    linker.add_symbol(sym("main", SymbolVisibility::Internal, 60, vec![]));
    linker.add_symbol(sym("lib_fn", SymbolVisibility::Public, 15, vec![]));
    linker.add_symbol(sym("dead1", SymbolVisibility::Internal, 20, vec![]));
    linker.add_symbol(sym("dead2", SymbolVisibility::Hidden, 5, vec![]));
    let stats = linker.compute_statistics();
    assert_eq!(stats.kept_symbols, 2);
    assert_eq!(stats.removed_symbols, 2);
    assert_eq!(stats.total_code_size, 75);
    assert_eq!(stats.removed_code_size, 25);
    assert_eq!(stats.estimated_savings_percent, 25);
    assert_eq!(stats.layout_entries, 2);
}

#[test]
fn linker_undefined_reference_error_text() {
    let mut linker = LtoLinker::new("/tmp");
    linker.add_symbol(sym("foo", SymbolVisibility::Public, 10, vec!["missing".to_string()]));
    let err = linker.verify_references().unwrap_err();
    assert_eq!(err, "Symbol foo references undefined symbol missing");
}

#[test]
fn linker_visibility_map_mirrors_symbols() {
    let mut linker = LtoLinker::new("/tmp");
    linker.add_symbol(sym("a", SymbolVisibility::Public, 1, vec![]));
    linker.add_symbol(sym("b", SymbolVisibility::Hidden, 1, vec![]));
    let m = linker.generate_visibility_map();
    assert_eq!(m.len(), 2);
    assert_eq!(m.get("a"), Some(&SymbolVisibility::Public));
    assert_eq!(m.get("b"), Some(&SymbolVisibility::Hidden));
}

#[test]
fn symbol_graph_reports_back_edges_only() {
    let mut graph = SymbolGraph::new();
    for n in ["a", "b", "c", "d"] {
        graph.add_node(sym(n, SymbolVisibility::Internal, 1, vec![]));
    }
    graph.add_edge("a".to_string(), "b".to_string());
    graph.add_edge("b".to_string(), "c".to_string());
    graph.add_edge("c".to_string(), "a".to_string());
    graph.add_edge("a".to_string(), "d".to_string());
    let cycles = graph.find_cycles();
    assert_eq!(cycles.len(), 1);
    assert_eq!(cycles[0], vec!["c".to_string(), "a".to_string()]);

    let mut acyclic = SymbolGraph::new();
    acyclic.add_node(sym("x", SymbolVisibility::Internal, 1, vec![]));
    acyclic.add_edge("x".to_string(), "y".to_string());
    assert!(acyclic.find_cycles().is_empty());
}

#[test]
fn symbol_graph_call_frequency_counts_callers() {
    let mut graph = SymbolGraph::new();
    graph.add_edge("a".to_string(), "c".to_string());
    graph.add_edge("b".to_string(), "c".to_string());
    graph.add_edge("c".to_string(), "a".to_string());
    let freq = graph.compute_call_frequency();
    assert_eq!(freq.get("c"), Some(&3));
    assert_eq!(freq.get("a"), Some(&2));
    assert_eq!(freq.get("b"), Some(&1));
}
