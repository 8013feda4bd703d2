use lib::codegen::inlining::detect_recursion;
use lib::names::NameMap;

fn graph(edges: &[(&str, &[&str])]) -> NameMap<Vec<String>> {
    let mut g = NameMap::new();
    for (f, callees) in edges {
        g.insert(f.to_string(), callees.iter().map(|c| c.to_string()).collect());
    }
    g
}

#[test]
fn recursion_direct_and_indirect() {
    let g = graph(&[("a", &["b"]), ("b", &["a"]), ("c", &["c"]), ("d", &["a"])]);
    let r = detect_recursion(&g);
    assert_eq!(r.len(), 3);
    assert_eq!(r.item_at(0), "a");
    assert_eq!(r.item_at(1), "b");
    assert_eq!(r.item_at(2), "c");
    assert!(!r.contains("d"));
}

#[test]
fn recursion_through_a_longer_cycle_and_none() {
    let g = graph(&[("x", &["y"]), ("y", &["z"]), ("z", &["x", "w"]), ("w", &[])]);
    let r = detect_recursion(&g);
    assert!(r.contains("x") && r.contains("y") && r.contains("z"));
    assert!(!r.contains("w"));
    let acyclic = graph(&[("m", &["n"]), ("n", &[])]);
    assert!(detect_recursion(&acyclic).is_empty());
}
