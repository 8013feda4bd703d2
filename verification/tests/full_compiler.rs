use lib::codegen::full_compiler::FullCompiler;

#[test]
fn full_compiler_reports_the_output_path_as_debug_text() {
    let c = FullCompiler::new("/tmp");
    assert_eq!(c.compile_to_executable("fn main() {}", "out.bin").unwrap(), "Compiled to \"out.bin\"");
    assert_eq!(c.compile_to_executable("", "a\"b").unwrap(), "Compiled to \"a\\\"b\"");
}
