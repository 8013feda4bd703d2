use lib::codegen::backend::assembler::Assembler;
use lib::codegen::cpu_detection::{CPUFeatures, SIMDLevel};
use lib::codegen::dynamic_dispatch::{DynamicDispatchCodegen, VtableEntry, VtableLayout};
use lib::codegen::inlining::{FunctionMetadata, FunctionSize, InliningDecision, InliningOptimizer};
use lib::codegen::loop_tiling::{CacheLevel, LoopTiler, TilingConfig};
use lib::codegen::object::{ElfHeader, ObjectBuilder, Symbol};
use lib::codegen::{Register, X86Instruction, X86Operand};

#[test]
fn test_assembler_creation() {
    let code = Assembler::new("/tmp");
    assert_eq!(code.output_dir(), "/tmp");
}

#[test]
fn test_default_cpu_features() {
    let features = CPUFeatures::default_features();
    assert!(features.sse2);
}

#[test]
fn test_simd_level_widths() {
    assert_eq!(SIMDLevel::SSE2.vector_width(), 16);
    assert_eq!(SIMDLevel::AVX.vector_width(), 32);
    assert_eq!(SIMDLevel::AVX2.vector_width(), 32);
}

#[test]
fn test_simd_lane_counts() {
    assert_eq!(SIMDLevel::SSE2.i64_lanes(), 2);
    assert_eq!(SIMDLevel::SSE2.i32_lanes(), 4);
    assert_eq!(SIMDLevel::AVX2.i64_lanes(), 4);
    assert_eq!(SIMDLevel::AVX2.i32_lanes(), 8);
}

#[test]
fn test_simd_level_ordering() {
    assert!(SIMDLevel::SSE2 < SIMDLevel::AVX);
    assert!(SIMDLevel::AVX < SIMDLevel::AVX2);
    assert!(SIMDLevel::SSE42 < SIMDLevel::AVX2);
}

#[test]
fn test_cpu_detection() {
    let cpuinfo = "processor\t: 0\nflags\t\t: fpu sse2 sse4_1 sse4_2 avx avx2 fma bmi1\n";
    let features = CPUFeatures::detect_from_sources(Some(cpuinfo), None);
    assert!(features.sse2);
    assert!(features.avx2);
    assert!(!features.bmi2);
    let none = CPUFeatures::detect_from_sources(None, None);
    assert!(none.sse2);
    assert!(!none.avx);
}

#[test]
fn test_best_simd_level_fallback() {
    let features = CPUFeatures::default_features();
    assert!(features.best_simd_level() >= SIMDLevel::SSE2);
}

#[test]
fn cpu_detection_reads_lscpu_flags_line() {
    let lscpu = "Architecture: x86_64\nFlags: fpu sse4_2 avx\nOther: x\n";
    let f = CPUFeatures::detect_from_sources(None, Some(lscpu));
    assert!(f.sse42 && f.avx && !f.avx2 && !f.sse41);
    assert_eq!(f.best_simd_level(), SIMDLevel::AVX);
}

fn layout() -> VtableLayout {
    VtableLayout {
        trait_name: "Display".to_string(),
        impl_type: "String".to_string(),
        entries: vec![VtableEntry { method_name: "fmt".to_string(), offset: 24 }],
    }
}

#[test]
fn test_trait_method_call_generation() {
    let layout = layout();
    let code = DynamicDispatchCodegen::generate_trait_method_call(&layout, "fmt", "rdi", "rax");
    assert!(code.is_some());
    let code = code.unwrap();
    assert!(code.contains("mov rax"));
    assert!(code.contains("call rbx"));
    assert!(code.contains("[rax + 24]"));
    assert!(DynamicDispatchCodegen::generate_trait_method_call(&layout, "drop", "rdi", "rax").is_none());
}

#[test]
fn test_fat_pointer_construction() {
    let code = DynamicDispatchCodegen::generate_fat_pointer_construction("rdi", "_vtable_Display_String", "rax");
    assert!(code.contains("fat pointer"));
    assert!(code.contains("_vtable_Display_String"));
}

#[test]
fn test_pointer_extraction() {
    let data_code = DynamicDispatchCodegen::extract_data_ptr("rdi", "rax");
    assert!(data_code.contains("Extract data"));
    let vtable_code = DynamicDispatchCodegen::extract_vtable_ptr("rdi", "rcx");
    assert!(vtable_code.contains("Extract vtable"));
}

#[test]
fn test_function_size_detection() {
    assert_eq!(FunctionSize::from_op_count(3), FunctionSize::Tiny);
    assert_eq!(FunctionSize::from_op_count(10), FunctionSize::Small);
    assert_eq!(FunctionSize::from_op_count(25), FunctionSize::Medium);
    assert_eq!(FunctionSize::from_op_count(50), FunctionSize::Large);
    assert_eq!(FunctionSize::from_op_count(100), FunctionSize::VeryLarge);
}

#[test]
fn test_inline_benefit() {
    let func_tiny = FunctionMetadata::new("tiny".to_string(), FunctionSize::Tiny, 1);
    let func_large = FunctionMetadata::new("large".to_string(), FunctionSize::Large, 3);
    assert!(func_tiny.inline_benefit_twentieths() > func_large.inline_benefit_twentieths());
}

#[test]
fn test_inlining_optimizer() {
    let mut optimizer = InliningOptimizer::new(10000);
    let func = FunctionMetadata::new("add".to_string(), FunctionSize::Tiny, 2);
    optimizer.register_function(func);
    let decision = optimizer.decide_inline("main", "add");
    assert_eq!(decision, InliningDecision::Inline);
}

#[test]
fn test_call_registration() {
    let mut optimizer = InliningOptimizer::new(10000);
    optimizer.register_function(FunctionMetadata::new("add".to_string(), FunctionSize::Tiny, 2));
    optimizer.register_call("main", "add", true, 100);
    assert!(optimizer.has_callers("add"));
}

#[test]
fn test_code_size_budget() {
    let mut optimizer = InliningOptimizer::new(100);
    optimizer.register_function(FunctionMetadata::new("func".to_string(), FunctionSize::VeryLarge, 1));
    assert!(optimizer.current_size() > 0);
}

#[test]
fn inlining_respects_budget_and_recursion() {
    let mut optimizer = InliningOptimizer::new(50);
    optimizer.register_function(FunctionMetadata::new("big".to_string(), FunctionSize::VeryLarge, 1));
    assert_eq!(optimizer.decide_inline("main", "big"), InliningDecision::DontInline);
    let mut rec = FunctionMetadata::new("rec".to_string(), FunctionSize::Tiny, 1);
    rec.is_recursive = true;
    optimizer.register_function(rec);
    assert_eq!(optimizer.decide_inline("main", "rec"), InliningDecision::Forbidden);
    assert_eq!(optimizer.decide_inline("main", "unknown"), InliningDecision::DontInline);
}

#[test]
fn test_cache_level_sizes() {
    assert_eq!(CacheLevel::L1.size_bytes(), 32 * 1024);
    assert_eq!(CacheLevel::L2.size_bytes(), 256 * 1024);
    assert_eq!(CacheLevel::L3.size_bytes(), 8 * 1024 * 1024);
}

#[test]
fn test_optimal_tile_size() {
    let l1 = CacheLevel::L1;
    let tile_size = l1.optimal_tile_size(8);
    assert!(tile_size > 0);
    assert!(tile_size < l1.size_bytes());
}

#[test]
fn test_tiling_config_creation() {
    let config = TilingConfig::new(CacheLevel::L2, 8, 0, 1000, 1);
    assert_eq!(config.original_bounds, (0, 1000));
    assert!(config.tile_size > 0);
}

#[test]
fn test_loop_tiler_generation() {
    let config = TilingConfig::new(CacheLevel::L2, 8, 0, 1000, 1);
    let mut tiler = LoopTiler::new(config);
    let code = tiler.generate_tiled_loop();
    assert!(code.contains("tile"));
    assert!(code.contains("outer"));
    assert!(code.contains("inner"));
}

#[test]
fn test_2d_tiling_generation() {
    let config = TilingConfig::new(CacheLevel::L2, 8, 0, 1000, 2);
    let mut tiler = LoopTiler::new(config);
    let code = tiler.generate_2d_tiled_loop(100, 100);
    assert!(code.contains("2D"));
    assert!(code.contains("row"));
    assert!(code.contains("col"));
}

#[test]
fn test_elf_header_default() {
    let header = ElfHeader::default();
    assert_eq!(header.class, 2);
    assert_eq!(header.e_machine, 62);
    assert_eq!(header.e_type, 1);
}

#[test]
fn test_elf_header_serialization() {
    let header = ElfHeader::default();
    let bytes = header.to_bytes();
    assert_eq!(bytes.len(), 64);
    assert_eq!(&bytes[0..4], [0x7f, b'E', b'L', b'F']);
}

#[test]
fn test_symbol_creation() {
    let sym = Symbol { name: "main".to_string(), value: 0, size: 100, bind: 1, sym_type: 2, shndx: 1 };
    assert_eq!(sym.name, "main");
}

#[test]
fn test_object_builder() {
    let mut builder = ObjectBuilder::new();
    builder.add_code(&[0x90, 0x90, 0xc3]);
    assert_eq!(builder.text_section.len(), 3);
}

#[test]
fn x86_instruction_text() {
    let mov = X86Instruction::Mov {
        dst: X86Operand::Register(Register::RAX),
        src: X86Operand::Memory { base: Register::RBP, offset: -16 },
    };
    assert_eq!(mov.to_string(), "    mov rax, qword ptr [rbp - 16]");
    let add = X86Instruction::Add { dst: X86Operand::Memory { base: Register::RSP, offset: 8 }, src: X86Operand::Immediate(-3) };
    assert_eq!(add.to_string(), "    add qword ptr [rsp + 8], -3");
    let sete = X86Instruction::Sete { dst: X86Operand::Register(Register::RCX) };
    assert_eq!(sete.to_string(), "    sete cl");
    let setl = X86Instruction::Setl { dst: X86Operand::Register(Register::R9) };
    assert_eq!(setl.to_string(), "    setl r9");
    let lea = X86Instruction::LeaMemory { dst: X86Operand::Register(Register::RDI), base: Register::RSP, offset: -8 };
    assert_eq!(lea.to_string(), "    lea rdi, [unknown - 8]");
    let lea_rip = X86Instruction::Lea { dst: X86Operand::Register(Register::RSI), src: "msg".to_string() };
    assert_eq!(lea_rip.to_string(), "    lea rsi, [rip + msg]");
    assert_eq!(X86Instruction::Label { name: "loop_1".to_string() }.to_string(), "loop_1:");
    assert_eq!(X86Instruction::Ret.to_string(), "    ret");
    assert_eq!(X86Instruction::Movzx { dst: Register::RAX, src: Register::R10 }.to_string(), "    movzx rax, r10");
    let min = X86Operand::Memory { base: Register::RBP, offset: i64::MIN };
    assert_eq!(min.to_string(), "qword ptr [rbp - 9223372036854775808]");
    assert_eq!(X86Operand::Memory { base: Register::RBX, offset: 0 }.to_string(), "qword ptr [rbx]");
}
