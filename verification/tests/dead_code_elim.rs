use lib::codegen::optimization::dead_code_elim::DeadCodeEliminator;

#[test]
fn test_dce_creation() {
    let _dce = DeadCodeEliminator::new();
}

#[test]
fn test_extract_definition() {
    let dce = DeadCodeEliminator::new();
    let line = "%x = add i64 1, 2";
    assert_eq!(dce.extract_definition(line), Some("%x".to_string()));
}

#[test]
fn test_extract_uses() {
    let dce = DeadCodeEliminator::new();
    let line = "%x = add i64 %y, %z";
    let uses = dce.extract_uses(line);
    assert!(uses.contains(&"%y".to_string()));
    assert!(uses.contains(&"%z".to_string()));
}

#[test]
fn test_has_side_effects() {
    let dce = DeadCodeEliminator::new();
    assert!(dce.has_side_effects("call @printf(...)"));
    assert!(dce.has_side_effects("store i64 1, i64* %x"));
    assert!(dce.has_side_effects("ret i64 0"));
}

#[test]
fn test_simple_elimination() {
    let mut dce = DeadCodeEliminator::new();
    let ir = "%x = add i64 1, 2\nret i64 0";
    let result = dce.eliminate(ir);
    assert!(result.contains("ret i64 0"));
}

#[test]
fn elimination_removes_unread_definitions_exactly() {
    let mut dce = DeadCodeEliminator::new();
    let ir = "%x = add i64 1, 2\n%y = add i64 3, 4\nret i64 %y";
    let result = dce.eliminate(ir);
    assert_eq!(result, "%y = add i64 3, 4\nret i64 %y");
    let stats = dce.get_statistics();
    assert_eq!(stats.lines_removed, 1);
    assert_eq!(stats.bytes_saved, "%x = add i64 1, 2".len());
    assert_eq!(stats.variables_eliminated, 1);
    dce.clear_statistics();
    assert_eq!(dce.get_statistics().lines_removed, 0);
}

#[test]
fn definitions_and_uses_edge_cases() {
    let dce = DeadCodeEliminator::new();
    assert_eq!(dce.extract_definition("  %a  = load"), Some("%a".to_string()));
    assert_eq!(dce.extract_definition("x = 1"), None);
    assert_eq!(dce.extract_definition("ret void"), None);
    assert_eq!(dce.extract_uses("%x = add i64 %y,, %x"), vec!["%y".to_string()]);
    assert!(!dce.has_side_effects("%x = add i64 1, 2"));
    assert!(dce.has_side_effects("br label%2"));
}

#[test]
fn unreachable_blocks_follow_labels_and_fallthrough() {
    let mut dce = DeadCodeEliminator::new();
    let ir = "entry\nbr label%3\ndead\nlive\nret i64 0\nafter";
    let result = dce.eliminate_unreachable_blocks(ir);
    assert_eq!(result, "entry\nbr label%3\nlive\nret i64 0");
    assert_eq!(dce.get_statistics().blocks_removed, 2);
}

#[test]
fn unused_variables_keep_calls_and_returns() {
    let mut dce = DeadCodeEliminator::new();
    let ir = "%a = add i64 1, 2\n%b = add i64 3, 4\ncall void @f i64 %b\nret i64 0";
    let result = dce.eliminate_unused_variables(ir);
    assert_eq!(result, "%b = add i64 3, 4\ncall void @f i64 %b\nret i64 0");
}
