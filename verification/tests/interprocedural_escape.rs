use lib::codegen::interprocedural_escape::{FunctionEscapeInfo, InterproceduralEscapeAnalysis};

#[test]
fn test_function_escape_info_creation() {
    let info = FunctionEscapeInfo::new("test_fn".to_string());
    assert_eq!(info.name, "test_fn");
    assert!(!info.return_escapes);
    assert!(info.escaping_params.is_empty());
}

#[test]
fn test_mark_param_escapes() {
    let mut info = FunctionEscapeInfo::new("test_fn".to_string());
    info.mark_param_escapes(0);
    info.mark_param_escapes(2);
    assert!(info.param_escapes(0));
    assert!(!info.param_escapes(1));
    assert!(info.param_escapes(2));
}

#[test]
fn test_field_escape_tracking() {
    let mut info = FunctionEscapeInfo::new("test_fn".to_string());
    info.mark_field_escapes(0, "field1".to_string());
    info.mark_field_escapes(0, "field2".to_string());
    assert!(info.field_escapes(0, "field1"));
    assert!(info.field_escapes(0, "field2"));
    assert!(!info.field_escapes(0, "field3"));
    assert!(!info.field_escapes(1, "field1"));
}

#[test]
fn test_interprocedural_analysis() {
    let mut analysis = InterproceduralEscapeAnalysis::new();
    let mut fn1 = FunctionEscapeInfo::new("fn1".to_string());
    fn1.mark_param_escapes(0);
    let fn2 = FunctionEscapeInfo::new("fn2".to_string());
    analysis.register_function(fn1);
    analysis.register_function(fn2);
    analysis.add_call_edge("fn2".to_string(), "fn1".to_string());
    analysis.propagate_escapes();
    let report = analysis.report();
    assert!(report.escaping_functions > 0);
}

#[test]
fn test_escape_analysis_report() {
    let mut analysis = InterproceduralEscapeAnalysis::new();
    let mut info1 = FunctionEscapeInfo::new("func1".to_string());
    info1.return_escapes = true;
    let info2 = FunctionEscapeInfo::new("func2".to_string());
    analysis.register_function(info1);
    analysis.register_function(info2);
    let report = analysis.report();
    assert_eq!(report.total_functions, 2);
    assert_eq!(report.escaping_functions, 1);
}

#[test]
fn test_call_graph_propagation() {
    let mut analysis = InterproceduralEscapeAnalysis::new();
    let mut fn1 = FunctionEscapeInfo::new("fn1".to_string());
    fn1.mark_param_escapes(0);
    let fn2 = FunctionEscapeInfo::new("fn2".to_string());
    let fn3 = FunctionEscapeInfo::new("fn3".to_string());
    analysis.register_function(fn1);
    analysis.register_function(fn2);
    analysis.register_function(fn3);
    analysis.add_call_edge("fn2".to_string(), "fn1".to_string());
    analysis.add_call_edge("fn3".to_string(), "fn2".to_string());
    analysis.propagate_escapes();
    let report = analysis.report();
    assert!(report.escaping_functions > 0);
}

#[test]
fn propagation_reaches_the_whole_chain() {
    let mut analysis = InterproceduralEscapeAnalysis::new();
    let mut leaf = FunctionEscapeInfo::new("leaf".to_string());
    leaf.mark_param_escapes(1);
    leaf.mark_param_escapes(3);
    analysis.register_function(leaf);
    analysis.register_function(FunctionEscapeInfo::new("mid".to_string()));
    analysis.register_function(FunctionEscapeInfo::new("top".to_string()));
    analysis.register_function(FunctionEscapeInfo::new("other".to_string()));
    analysis.add_call_edge("mid".to_string(), "leaf".to_string());
    analysis.add_call_edge("top".to_string(), "mid".to_string());
    analysis.add_call_edge("top".to_string(), "unknown".to_string());
    analysis.propagate_escapes();
    let top = analysis.get_function_escape_info("top").unwrap();
    assert!(top.param_escapes(1) && top.param_escapes(3) && !top.param_escapes(0));
    assert!(analysis.get_function_escape_info("other").unwrap().escaping_params.is_empty());
    let report = analysis.report();
    assert_eq!(report.escaping_functions, 3);
    assert_eq!(report.total_escaping_params, 6);
    assert_eq!(analysis.get_heap_escaping_functions(), vec!["leaf".to_string(), "mid".to_string(), "top".to_string()]);
}

#[test]
fn propagation_stops_after_ten_rounds() {
    let mut analysis = InterproceduralEscapeAnalysis::new();
    let names: Vec<String> = (0..13).map(|i| format!("f{}", i)).collect();
    let mut first = FunctionEscapeInfo::new(names[0].clone());
    first.mark_param_escapes(7);
    analysis.register_function(first);
    for n in names.iter().skip(1) {
        analysis.register_function(FunctionEscapeInfo::new(n.clone()));
    }
    for i in 1..13 {
        analysis.add_call_edge(names[i].clone(), names[i - 1].clone());
    }
    analysis.propagate_escapes();
    assert!(analysis.get_function_escape_info("f10").unwrap().param_escapes(7));
    assert!(!analysis.get_function_escape_info("f11").unwrap().param_escapes(7));
}
