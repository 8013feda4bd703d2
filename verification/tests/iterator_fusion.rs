use lib::codegen::iterator_fusion::{
    FusionConfig, IteratorChain, IteratorChainDetector, IteratorFusionOptimizer, IteratorFusionTransformer, SIMDType,
};
use lib::mir::{BasicBlock, Constant, HirType, MirFunction, Operand, Place, Rvalue, Statement, Terminator};
use lib::names::NameMap;

#[test]
fn test_iterator_chain_root_collection() {
    let chain = IteratorChain::Mapping {
        prev: Box::new(IteratorChain::Iter {
            collection: "vec".to_string(),
        }),
        closure_id: 0,
    };

    assert_eq!(chain.root_collection(), Some("vec"));
}


#[test]
fn test_iterator_chain_is_fusible() {
    let iter = IteratorChain::Iter {
        collection: "vec".to_string(),
    };

    assert!(!iter.is_fusible());

    let map_chain = IteratorChain::Mapping {
        prev: Box::new(iter),
        closure_id: 0,
    };

    assert!(map_chain.is_fusible());
}


#[test]
fn test_iterator_chain_combinator_count() {
    let chain = IteratorChain::Filter {
        prev: Box::new(IteratorChain::Mapping {
            prev: Box::new(IteratorChain::Iter {
                collection: "vec".to_string(),
            }),
            closure_id: 0,
        }),
        predicate_id: 1,
    };

    assert_eq!(chain.combinator_count(), 2); // map + filter
}


#[test]
fn test_extract_closure_id_from_name() {
    assert_eq!(IteratorChainDetector::extract_closure_id_from_name("__closure_0"), Some(0));
    assert_eq!(IteratorChainDetector::extract_closure_id_from_name("__closure_1"), Some(1));
    assert_eq!(IteratorChainDetector::extract_closure_id_from_name("__closure_42"), Some(42));
    assert_eq!(IteratorChainDetector::extract_closure_id_from_name("__closure_"), None);
    assert_eq!(IteratorChainDetector::extract_closure_id_from_name("other_func"), None);
    assert_eq!(IteratorChainDetector::extract_closure_id_from_name("__closure_abc"), None);
}


#[test]
fn test_extract_closure_id_from_args() {
    let mut mapping = NameMap::new();
    mapping.insert("__closure_5".to_string(), 5);
    mapping.insert("__closure_10".to_string(), 10);

    // Test with Copy operand
    let args = vec![
        Operand::Copy(Place::Local("iterator".to_string())),
        Operand::Copy(Place::Local("__closure_5".to_string())),
    ];
    let id = IteratorChainDetector::extract_closure_id_from_args(&args, 1, &mapping);
    assert_eq!(id, Some(5));

    // Test with Move operand
    let args = vec![
        Operand::Copy(Place::Local("iterator".to_string())),
        Operand::Move(Place::Local("__closure_10".to_string())),
    ];
    let id = IteratorChainDetector::extract_closure_id_from_args(&args, 1, &mapping);
    assert_eq!(id, Some(10));

    // Test out of bounds
    let args = vec![Operand::Copy(Place::Local("iterator".to_string()))];
    let id = IteratorChainDetector::extract_closure_id_from_args(&args, 5, &mapping);
    assert_eq!(id, None);

    // Test with non-closure operand
    let args = vec![
        Operand::Copy(Place::Local("iterator".to_string())),
        Operand::Constant(Constant::Integer(42)),
    ];
    let id = IteratorChainDetector::extract_closure_id_from_args(&args, 1, &mapping);
    assert_eq!(id, None);

    // Test with unknown closure name
    let args = vec![
        Operand::Copy(Place::Local("iterator".to_string())),
        Operand::Copy(Place::Local("__closure_999".to_string())),
    ];
    let id = IteratorChainDetector::extract_closure_id_from_args(&args, 1, &mapping);
    assert_eq!(id, None);
}


#[test]
fn test_closure_id_extraction_in_chain() {
    // Test that closure IDs are properly extracted in a map-filter-sum chain
    let chain = IteratorChain::Filter {
        prev: Box::new(IteratorChain::Mapping {
            prev: Box::new(IteratorChain::Iter {
                collection: "vec".to_string(),
            }),
            closure_id: 5,  // Extracted from __closure_5
        }),
        predicate_id: 10,  // Extracted from __closure_10
    };

    // Verify the IDs were correctly set
    assert_eq!(chain.combinator_count(), 2);
    
    // Navigate through chain to verify closure IDs
    if let IteratorChain::Filter { prev, predicate_id } = &chain {
        assert_eq!(*predicate_id, 10);
        if let IteratorChain::Mapping { closure_id, .. } = &**prev {
            assert_eq!(*closure_id, 5);
        }
    }
}


#[test]
fn test_chain_equivalence_same_collection() {
    let chain1 = IteratorChain::Iter {
        collection: "vec".to_string(),
    };
    let chain2 = IteratorChain::Iter {
        collection: "vec".to_string(),
    };
    let chain3 = IteratorChain::Iter {
        collection: "vec2".to_string(),
    };

    assert!(chain1.is_equivalent_to(&chain2));
    assert!(!chain1.is_equivalent_to(&chain3));
}


#[test]
fn test_chain_equivalence_ignores_closure_ids() {
    // Two map chains with same iterator but different closure IDs should be equivalent
    // (because equivalence is about structure, not closure identity)
    let chain1 = IteratorChain::Mapping {
        prev: Box::new(IteratorChain::Iter {
            collection: "vec".to_string(),
        }),
        closure_id: 5,
    };
    let chain2 = IteratorChain::Mapping {
        prev: Box::new(IteratorChain::Iter {
            collection: "vec".to_string(),
        }),
        closure_id: 10,
    };

    assert!(chain1.is_equivalent_to(&chain2));
}


#[test]
fn test_chain_equivalence_complex() {
    // Complex: map-filter-sum chains should be equivalent if same structure
    let chain1 = IteratorChain::Sum {
        prev: Box::new(IteratorChain::Filter {
            prev: Box::new(IteratorChain::Mapping {
                prev: Box::new(IteratorChain::Iter {
                    collection: "vec".to_string(),
                }),
                closure_id: 0,
            }),
            predicate_id: 1,
        }),
    };

    let chain2 = IteratorChain::Sum {
        prev: Box::new(IteratorChain::Filter {
            prev: Box::new(IteratorChain::Mapping {
                prev: Box::new(IteratorChain::Iter {
                    collection: "vec".to_string(),
                }),
                closure_id: 99,  // Different closure ID
            }),
            predicate_id: 88,  // Different predicate ID
        }),
    };

    assert!(chain1.is_equivalent_to(&chain2));
}


#[test]
fn test_chain_not_equivalent_different_structure() {
    // Different structures should not be equivalent
    let chain1 = IteratorChain::Mapping {
        prev: Box::new(IteratorChain::Iter {
            collection: "vec".to_string(),
        }),
        closure_id: 0,
    };

    let chain2 = IteratorChain::Filter {
        prev: Box::new(IteratorChain::Iter {
            collection: "vec".to_string(),
        }),
        predicate_id: 0,
    };

    assert!(!chain1.is_equivalent_to(&chain2));
}


#[test]
fn test_deduplicate_chains() {
    let mut optimizer = IteratorFusionOptimizer::new();

    // Create some detected chains - some equivalent, some different
    let chain1 = IteratorChain::Mapping {
        prev: Box::new(IteratorChain::Iter {
            collection: "vec".to_string(),
        }),
        closure_id: 0,
    };

    let chain2 = IteratorChain::Mapping {
        prev: Box::new(IteratorChain::Iter {
            collection: "vec".to_string(),
        }),
        closure_id: 99,  // Different closure but equivalent structure
    };

    let chain3 = IteratorChain::Filter {
        prev: Box::new(IteratorChain::Iter {
            collection: "vec".to_string(),
        }),
        predicate_id: 0,
    };

    optimizer.detected_chains = vec![
        ("t0".to_string(), chain1),
        ("t1".to_string(), chain2),
        ("t2".to_string(), chain3),
    ];

    let unique = optimizer.deduplicate_chains();
    assert_eq!(unique.len(), 2);  // Two unique chains
    assert_eq!(unique[0].2, 2);   // First chain appears twice (t0, t1)
    assert_eq!(unique[1].2, 1);   // Second chain appears once (t2)
}


#[test]
fn test_fusion_config_default() {
    let config = FusionConfig::default();
    assert_eq!(config.max_chain_length, 8);
    assert_eq!(config.min_chain_length, 2);
    assert!(config.inline_closures);
    assert!(!config.unroll_loops);
}


#[test]
fn test_fusion_transformer_should_fuse() {
    let config = FusionConfig::default();

    // Chain with 0 combinators - too short
    let chain_short = IteratorChain::Iter {
        collection: "vec".to_string(),
    };
    assert!(!IteratorFusionTransformer::should_fuse(&chain_short, &config));

    // Chain with 2 combinators - good
    let chain_good = IteratorChain::Sum {
        prev: Box::new(IteratorChain::Filter {
            prev: Box::new(IteratorChain::Mapping {
                prev: Box::new(IteratorChain::Iter {
                    collection: "vec".to_string(),
                }),
                closure_id: 0,
            }),
            predicate_id: 1,
        }),
    };
    assert!(IteratorFusionTransformer::should_fuse(&chain_good, &config));

    // Chain with too many combinators
    let config_strict = FusionConfig {
        max_chain_length: 1,
        ..Default::default()
    };
    assert!(!IteratorFusionTransformer::should_fuse(&chain_good, &config_strict));
}


#[test]
fn test_fusion_transformer_fuse_chain() {
    let config = FusionConfig::default();

    // Chain with 2 combinators (map + filter) - meets minimum
    let chain = IteratorChain::Sum {
        prev: Box::new(IteratorChain::Filter {
            prev: Box::new(IteratorChain::Mapping {
                prev: Box::new(IteratorChain::Iter {
                    collection: "numbers".to_string(),
                }),
                closure_id: 0,
            }),
            predicate_id: 1,
        }),
    };

    let result = IteratorFusionTransformer::fuse_chain(&chain, &config);
    assert!(result.is_some());
    assert_eq!(result.unwrap(), "__fused_iter_numbers");
}


#[test]
fn test_fusion_transformer_is_safe_to_fuse() {
    let chain = IteratorChain::Mapping {
        prev: Box::new(IteratorChain::Iter {
            collection: "vec".to_string(),
        }),
        closure_id: 0,
    };

    assert!(IteratorFusionTransformer::is_safe_to_fuse(&chain));
}


#[test]
fn test_fusion_transformer_extract_operations() {
    // Chain: vec.iter().map(f).filter(p).sum()
    // Internally represented as: Sum { Filter { Map { Iter } } }
    let chain = IteratorChain::Sum {
        prev: Box::new(IteratorChain::Filter {
            prev: Box::new(IteratorChain::Mapping {
                prev: Box::new(IteratorChain::Iter {
                    collection: "vec".to_string(),
                }),
                closure_id: 5,
            }),
            predicate_id: 10,
        }),
    };

    let ops = IteratorFusionTransformer::extract_operations(&chain);
    assert_eq!(ops.len(), 3);
    // Recursion collects: Iter (none) -> Map (add) -> Filter (add) -> Sum (add)
    assert_eq!(ops[0], ("map".to_string(), 5));
    assert_eq!(ops[1], ("filter".to_string(), 10));
    assert_eq!(ops[2], ("sum".to_string(), 0));
}


fn call(temp: &str, func: &str, args: Vec<Operand>) -> Statement {
    Statement { place: Place::Local(temp.to_string()), rvalue: Rvalue::Call(func.to_string(), args) }
}

fn copy_local(name: &str) -> Operand {
    Operand::Copy(Place::Local(name.to_string()))
}

#[test]
fn chains_are_detected_through_the_call_graph() {
    let stmts = vec![
        call("c0", "__closure_3", vec![]),
        call("t0", "Vec::iter", vec![copy_local("data")]),
        call("t1", "Iterator::map", vec![copy_local("t0"), copy_local("__closure_3")]),
        call("t2", "Iterator::sum", vec![copy_local("t1")]),
        call("t3", "Iterator::fold", vec![copy_local("t0"), Operand::Constant(Constant::Integer(0)), copy_local("nothing")]),
    ];
    let f = MirFunction {
        name: "f".to_string(),
        params: vec![],
        return_type: HirType::Int64,
        basic_blocks: vec![BasicBlock { statements: stmts, terminator: Terminator::Return(None) }],
    };
    let chains = IteratorChainDetector::detect_chains(&f);
    assert_eq!(chains.len(), 4);
    assert_eq!(chains[0].0, "t0");
    assert_eq!(chains[1].1.combinator_count(), 1);
    match &chains[1].1 {
        IteratorChain::Mapping { closure_id, .. } => assert_eq!(*closure_id, 3),
        _ => panic!("expected a map"),
    }
    assert_eq!(chains[2].1.root_collection(), Some("data"));
    match &chains[3].1 {
        IteratorChain::Fold { func_id, .. } => assert_eq!(*func_id, 0),
        _ => panic!("expected a fold"),
    }

    let mut opt = IteratorFusionOptimizer::new();
    opt.analyze(&f);
    assert_eq!(opt.fusible_chains().len(), 3);
    let unique = opt.deduplicate_chains();
    assert_eq!(unique.len(), 4);
}

#[test]
fn cyclic_call_graphs_end() {
    let stmts = vec![call("t0", "Iterator::map", vec![copy_local("t0")])];
    let f = MirFunction {
        name: "g".to_string(),
        params: vec![],
        return_type: HirType::Int64,
        basic_blocks: vec![BasicBlock { statements: stmts, terminator: Terminator::Return(None) }],
    };
    assert_eq!(IteratorChainDetector::detect_chains(&f).len(), 0);
}

#[test]
fn fold_inits_decide_equivalence_and_simd_widths() {
    let fold = |init: i64| IteratorChain::Fold {
        prev: Box::new(IteratorChain::Iter { collection: "v".to_string() }),
        init: Operand::Constant(Constant::Integer(init)),
        func_id: 1,
    };
    assert!(fold(1).is_equivalent_to(&fold(1)));
    assert!(!fold(1).is_equivalent_to(&fold(2)));
    assert_eq!(SIMDType::SSE2.vector_width(), 2);
    assert_eq!(SIMDType::AVX2.vector_width(), 4);
    let short = IteratorChain::Iter { collection: "v".to_string() };
    assert_eq!(IteratorFusionTransformer::fuse_chain(&short, &FusionConfig::default()), None);
}

#[test]
fn iterator_fusion_chain_counts() {
    let mut optimizer = IteratorFusionOptimizer::new();
    optimizer.detected_chains = vec![
        (
            "t0".to_string(),
            IteratorChain::Mapping {
                prev: Box::new(IteratorChain::Iter { collection: "vec".to_string() }),
                closure_id: 0,
            },
        ),
        ("t1".to_string(), IteratorChain::Iter { collection: "vec2".to_string() }),
    ];
    assert_eq!(optimizer.chain_counts(), (2, 1, 1, 1));
}
