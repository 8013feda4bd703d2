use lib::codegen::inlining::{FunctionMetadata, FunctionSize, InliningDecision, InliningOptimizer};
use lib::codegen::loop_tiling::{CacheLevel, TilingConfig};
use lib::codegen::optimization::optimizer_advanced::InliningOptimizer as CallCountInliner;

#[test]
fn tile_count_rounds_up() {
    let config = TilingConfig::new(CacheLevel::L2, 8, 0, 10000, 4);
    assert_eq!(config.tile_size, 6553);
    assert_eq!(config.tile_count(), 2);
    let exact = TilingConfig::new(CacheLevel::L2, 8, 100, 100 + 2 * 6553, 4);
    assert_eq!(exact.tile_count(), 2);
    let empty = TilingConfig::new(CacheLevel::L1, 8, 5, 5, 1);
    assert_eq!(empty.tile_count(), 0);
}

#[test]
fn inline_decisions_are_counted() {
    let mut optimizer = InliningOptimizer::new(10000);
    assert_eq!(optimizer.inline_decision_count(), 0);
    optimizer.register_function(FunctionMetadata::new("add".to_string(), FunctionSize::Tiny, 2));
    optimizer.register_function(FunctionMetadata::new("big".to_string(), FunctionSize::VeryLarge, 2));
    assert_eq!(optimizer.decide_inline("main", "add"), InliningDecision::Inline);
    assert_eq!(optimizer.decide_inline("helper", "add"), InliningDecision::Inline);
    assert_ne!(optimizer.decide_inline("main", "big"), InliningDecision::Inline);
    assert_eq!(optimizer.inline_decision_count(), 2);
}

#[test]
fn inlining_inputs_default_and_registered_order() {
    let mut optimizer = CallCountInliner::new();
    assert_eq!(optimizer.inlining_inputs("f"), (1000, 0));
    optimizer.register_function("g".to_string(), 12);
    optimizer.register_function("f".to_string(), 30);
    optimizer.record_call("f".to_string());
    optimizer.record_call("f".to_string());
    assert_eq!(optimizer.inlining_inputs("f"), (30, 2));
    assert_eq!(optimizer.registered_functions(), vec!["g".to_string(), "f".to_string()]);
}
