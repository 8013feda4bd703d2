use lib::codegen::lib_api::{
    CompilationObserver, CompilerBuilder as FluentBuilder, CompilerSession, DefaultCompilationObserver, ObservedCompilation,
    OutputFormat, PipelineBuilder,
};
use lib::codegen::library_api::{CompilationMetrics, CompilationResult, CompilerBuilder};

type Stage = fn(&CompilationResult) -> Result<CompilationResult, String>;

fn sample_result() -> CompilationResult {
    CompilationResult {
        success: true,
        output_path: "a.out".to_string(),
        warnings: Vec::new(),
        errors: Vec::new(),
        metrics: CompilationMetrics::default(),
    }
}

fn add_warning(r: &CompilationResult) -> Result<CompilationResult, String> {
    let mut out = r.clone();
    out.warnings.push(format!("stage {}", r.warnings.len()));
    Ok(out)
}

fn fail_stage(r: &CompilationResult) -> Result<CompilationResult, String> {
    Err(format!("failed after {} warnings", r.warnings.len()))
}

#[test]
fn library_api_test_compiler_builder() {
    let config = CompilerBuilder::new()
        .add_source("test.rs")
        .output("output")
        .format("executable")
        .verbose(true)
        .optimize(true)
        .build();
    assert_eq!(config.source_files.len(), 1);
    assert!(config.is_verbose());
    assert!(config.is_optimized());
}

#[test]
fn test_metrics_slowest_phase() {
    let mut metrics = CompilationMetrics::default();
    metrics.lexer_time_ms = 10;
    metrics.parser_time_ms = 50;
    metrics.typechecker_time_ms = 20;
    metrics.codegen_time_ms = 30;
    let slowest = metrics.slowest_phase();
    assert_eq!(slowest, Some(("parser".to_string(), 50)));
}

#[test]
fn slowest_phase_prefers_the_later_of_equals() {
    let mut metrics = CompilationMetrics::default();
    metrics.parser_time_ms = 40;
    metrics.codegen_time_ms = 40;
    assert_eq!(metrics.slowest_phase(), Some(("codegen".to_string(), 40)));
    let zero = CompilationMetrics::default();
    assert_eq!(zero.slowest_phase(), Some(("codegen".to_string(), 0)));
}

#[test]
fn config_validation_reports_first_problem() {
    let empty = CompilerBuilder::new().build();
    assert_eq!(empty.validate(&[]).unwrap_err(), "No source files specified");
    let cfg = CompilerBuilder::new().add_source("a.rs").add_source("b.rs").build();
    assert!(cfg.validate(&[true, true]).is_ok());
    assert_eq!(cfg.validate(&[true, false]).unwrap_err(), "Source file does not exist: \"b.rs\"");
    let odd = CompilerBuilder::new().add_source("a.rs").format("wasm").build();
    assert_eq!(odd.validate(&[true]).unwrap_err(), "Unknown output format: wasm");
}

#[test]
fn builder_collects_sources_and_builtins() {
    let cfg = CompilerBuilder::new()
        .add_sources(vec!["x.rs".to_string(), "y.rs".to_string()])
        .add_builtin("print", "puts")
        .add_builtin("print", "printf")
        .on_phase("lexer")
        .build();
    assert_eq!(cfg.sources().len(), 2);
    assert_eq!(cfg.output(), "output");
    assert_eq!(cfg.custom_builtins.get("print"), Some(&"printf".to_string()));
    assert!(cfg.phase_callbacks.contains("lexer"));
}

#[test]
fn lib_api_test_compiler_builder() {
    let builder = FluentBuilder::new().verbose(true).optimize(2).format(OutputFormat::Executable);
    assert_eq!(builder.config().verbose, true);
}

#[test]
fn test_compiler_session() {
    let _session = CompilerSession::new();
    assert!(_session.last_result().is_none());
}

#[test]
fn fluent_builder_settings() {
    let builder = FluentBuilder::new()
        .add_source_file("main.rs")
        .unwrap()
        .add_source_files(vec!["a.rs".to_string()])
        .unwrap()
        .output("out.bin")
        .with_debug(true)
        .format(OutputFormat::Object);
    let c = builder.config();
    assert_eq!(c.source_files, vec!["main.rs".to_string(), "a.rs".to_string()]);
    assert_eq!(c.output_path, "out.bin");
    assert!(c.debug);
    assert_eq!(c.output_format, OutputFormat::Object);
    let mut session = CompilerSession::new();
    session.builder().config_mut().opt_level = 3;
    session.reset();
    assert_eq!(session.builder().config().opt_level, 0);
}

#[test]
fn test_pipeline_builder() {
    let _pipeline: PipelineBuilder<Stage> = PipelineBuilder::new();
}

#[test]
fn pipeline_runs_stages_in_order() {
    let p: PipelineBuilder<Stage> = PipelineBuilder::new().add_stage(add_warning as Stage).add_stage(add_warning as Stage);
    let out = p.execute(sample_result()).unwrap();
    assert_eq!(out.warnings, vec!["stage 0".to_string(), "stage 1".to_string()]);
    let empty: PipelineBuilder<Stage> = PipelineBuilder::default();
    assert_eq!(empty.execute(sample_result()).unwrap().warnings.len(), 0);
}

#[test]
fn pipeline_stops_at_first_error() {
    let p: PipelineBuilder<Stage> = PipelineBuilder::new()
        .add_stage(add_warning as Stage)
        .add_stage(fail_stage as Stage)
        .add_stage(add_warning as Stage);
    assert_eq!(p.execute(sample_result()).unwrap_err(), "failed after 1 warnings");
}

#[test]
fn default_observer_accepts_every_event() {
    let mut o = DefaultCompilationObserver;
    o.on_start();
    o.on_phase_complete("lexer", 3);
    o.on_success(&sample_result());
    o.on_error("boom");
    o.on_complete();
}

struct Recorder {
    events: Vec<String>,
}

impl CompilationObserver for Recorder {
    fn on_start(&mut self) {
        self.events.push("start".to_string());
    }
    fn on_success(&mut self, result: &CompilationResult) {
        self.events.push(format!("success {}", result.output_path));
    }
    fn on_error(&mut self, error: &str) {
        self.events.push(format!("error {}", error));
    }
    fn on_complete(&mut self) {
        self.events.push("complete".to_string());
    }
}

#[test]
fn observed_compilation_reports_events_in_order() {
    let mut oc = ObservedCompilation::new(Recorder { events: Vec::new() });
    assert!(oc.compile(Ok(sample_result())).is_ok());
    assert_eq!(oc.compile(Err("bad".to_string())).unwrap_err(), "bad");
    assert_eq!(
        oc.observer.events,
        vec!["start", "success a.out", "complete", "start", "error bad", "complete"]
    );
}

#[test]
fn session_records_successful_results_only() {
    let mut session = CompilerSession::new();
    assert_eq!(session.compile(Err("no input".to_string())).unwrap_err(), "no input");
    assert!(session.last_result().is_none());
    let out = session.compile(Ok(sample_result())).unwrap();
    assert_eq!(out.output_path, "a.out");
    assert_eq!(session.last_result().unwrap().output_path, "a.out");
    assert!(session.compile(Err("later".to_string())).is_err());
    assert_eq!(session.last_result().unwrap().output_path, "a.out");
}
