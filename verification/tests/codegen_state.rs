use lib::codegen::{Codegen, Register, StructFieldTable, X86Operand};
use lib::mir::{Constant, Operand, Place};
use lib::names::NameMap;

fn table() -> StructFieldTable {
    let mut fields = NameMap::new();
    fields.insert("Point".to_string(), vec!["x".to_string(), "y".to_string(), "z".to_string()]);
    StructFieldTable { fields }
}

#[test]
fn codegen_labels_and_slots() {
    let mut g = Codegen::new();
    assert_eq!(g.stack_offset, -8);
    assert_eq!(g.new_label(), "L0");
    assert_eq!(g.new_label(), "L1");
    assert_eq!(g.allocate_var("a".to_string()), -8);
    assert_eq!(g.allocate_var("b".to_string()), -16);
    assert_eq!(g.get_var_location("a"), -8);
    assert_eq!(g.stack_offset, -24);
    g.min_collection_offset = -16;
    g.collection_size = 64;
    assert_eq!(g.get_var_location("c"), -88);
    assert_eq!(g.stack_offset, -96);
}

#[test]
fn codegen_string_labels_are_shared() {
    let mut g = Codegen::new();
    assert_eq!(g.allocate_string("hi".to_string()), "str_0");
    assert_eq!(g.new_label(), "L1");
    assert_eq!(g.allocate_string("yo".to_string()), "str_2");
    assert_eq!(g.allocate_string("hi".to_string()), "str_0");
    assert_eq!(g.label_counter, 3);
}

#[test]
fn codegen_field_indices() {
    let mut g = Codegen::new();
    let t = table();
    g.var_struct_types.insert("p".to_string(), "Point".to_string());
    assert_eq!(g.get_field_index("p", "z", &t), 2);
    assert_eq!(g.get_field_index("p", "", &t), 0);
    assert_eq!(g.get_field_index("p", "height", &t), 1);
    assert_eq!(g.get_field_index("q", "fourth", &t), 3);
    assert_eq!(g.get_field_index("q", "unknown", &t), 0);
    assert_eq!(g.get_cached_struct_field_count("Point", &t), 3);
    assert_eq!(g.get_cached_struct_field_count("Missing", &t), 0);
}

#[test]
fn codegen_struct_return_copies_each_field() {
    let mut g = Codegen::new();
    let t = table();
    g.handle_struct_return("Point", "r", &t).unwrap();
    assert_eq!(g.instructions.len(), 6);
    assert_eq!(g.instructions[4].to_string(), "    mov r10, qword ptr [rax + 16]");
    assert_eq!(g.instructions[5].to_string(), "    mov qword ptr [rbp - 24], r10");
    assert_eq!(g.stack_offset, -32);
    assert_eq!(g.struct_data_locations.get("r"), Some(&-8));
    assert_eq!(g.var_struct_types.get("r").unwrap(), "Point");
    g.handle_struct_return("Missing", "s", &t).unwrap();
    assert_eq!(g.instructions.len(), 6);
}

#[test]
fn codegen_operands() {
    let mut g = Codegen::new();
    g.allocate_var("v".to_string());
    let imm = g.operand_to_x86(&Operand::Constant(Constant::Integer(7))).unwrap();
    assert!(matches!(imm, X86Operand::Immediate(7)));
    let t = g.operand_to_x86(&Operand::Constant(Constant::Bool(true))).unwrap();
    assert!(matches!(t, X86Operand::Immediate(1)));
    let v = g.operand_to_x86(&Operand::Copy(Place::Local("v".to_string()))).unwrap();
    assert!(matches!(v, X86Operand::Memory { base: Register::RBP, offset: -8 }));
    let u = g.operand_to_x86(&Operand::Move(Place::Local("unknown".to_string()))).unwrap();
    assert!(matches!(u, X86Operand::Register(Register::RAX)));
}
