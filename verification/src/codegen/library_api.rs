//! The embedding API: a builder for compiler configurations, their validation, and
//! compilation metrics.
use vstd::prelude::*;
use crate::codegen::full_compiler::{debug_quoted, debug_text};
use crate::names::{NameMap, NameSet, copy_string, copy_strings, lemma_insert_facts, str_eq, views};
use crate::text::{cat_str, lit};

verus! {

/// Builds a compiler configuration.
pub struct CompilerBuilder {
    source_files: Vec<String>,
    output_path: String,
    output_format: String,
    verbose: bool,
    optimize: bool,
    phase_callbacks: NameSet,
    custom_builtins: NameMap<String>,
}

/// The configuration as plain values: sources, output, format, verbose, optimize, the
/// phases with callbacks, and the built-in functions with their implementations.
pub struct ConfigView {
    pub sources: Seq<Seq<char>>,
    pub output: Seq<char>,
    pub format: Seq<char>,
    pub verbose: bool,
    pub optimize: bool,
    pub phases: Seq<Seq<char>>,
    pub builtins: Map<Seq<char>, Seq<char>>,
}

/// The contents of a name map of strings, as a map.
pub open spec fn string_map(m: NameMap<String>) -> Map<Seq<char>, Seq<char>> {
    Map::new(|k: Seq<char>| m.has(k), |k: Seq<char>| m.at(k)@)
}

impl CompilerBuilder {
    pub closed spec fn view(&self) -> ConfigView {
        ConfigView {
            sources: views(self.source_files@),
            output: self.output_path@,
            format: self.output_format@,
            verbose: self.verbose,
            optimize: self.optimize,
            phases: self.phase_callbacks.elems(),
            builtins: string_map(self.custom_builtins),
        }
    }

    pub closed spec fn wf(&self) -> bool {
        self.phase_callbacks.wf() && self.custom_builtins.wf()
    }

    /// No sources, output `output`, format `executable`, quiet, unoptimized, no callbacks or
    /// built-ins.
    pub fn new() -> (r: Self)
        ensures
            r.wf(),
            r.view().sources.len() == 0,
            r.view().output == "output"@,
            r.view().format == "executable"@,
            !r.view().verbose,
            !r.view().optimize,
            r.view().phases.len() == 0,
            r.view().builtins == Map::<Seq<char>, Seq<char>>::empty(),
    {
        let r = CompilerBuilder {
            source_files: Vec::new(),
            output_path: lit("output"),
            output_format: lit("executable"),
            verbose: false,
            optimize: false,
            phase_callbacks: NameSet::new(),
            custom_builtins: NameMap::new(),
        };
        assert(r.view().sources =~= Seq::<Seq<char>>::empty());
        assert(r.view().builtins =~= Map::<Seq<char>, Seq<char>>::empty());
        r
    }

    /// Adds a source file.
    pub fn add_source(self, path: &str) -> (r: Self)
        requires
            self.wf(),
        ensures
            r.wf(),
            r.view() == (ConfigView { sources: self.view().sources.push(path@), ..self.view() }),
    {
        let mut s = self;
        let ghost before = views(s.source_files@);
        s.source_files.push(lit(path));
        assert(views(s.source_files@) =~= before.push(path@));
        s
    }

    /// Adds several source files, in order.
    pub fn add_sources(self, paths: Vec<String>) -> (r: Self)
        requires
            self.wf(),
        ensures
            r.wf(),
            r.view() == (ConfigView { sources: self.view().sources + views(paths@), ..self.view() }),
    {
        let mut s = self;
        let ghost before = views(s.source_files@);
        crate::text::extend_strings(&mut s.source_files, paths);
        assert(views(s.source_files@) =~= before + views(paths@)) by {
            assert(crate::text::texts(s.source_files@) == views(s.source_files@));
        }
        s
    }

    pub fn output(self, path: &str) -> (r: Self)
        ensures
            r.wf() == self.wf(),
            r.view() == (ConfigView { output: path@, ..self.view() }),
    {
        let mut s = self;
        s.output_path = lit(path);
        s
    }

    /// Sets the output format (`executable`, `object`, `assembly`, `library` or `bash`).
    pub fn format(self, format: &str) -> (r: Self)
        ensures
            r.wf() == self.wf(),
            r.view() == (ConfigView { format: format@, ..self.view() }),
    {
        let mut s = self;
        s.output_format = lit(format);
        s
    }

    pub fn verbose(self, enabled: bool) -> (r: Self)
        ensures
            r.wf() == self.wf(),
            r.view() == (ConfigView { verbose: enabled, ..self.view() }),
    {
        let mut s = self;
        s.verbose = enabled;
        s
    }

    pub fn optimize(self, enabled: bool) -> (r: Self)
        ensures
            r.wf() == self.wf(),
            r.view() == (ConfigView { optimize: enabled, ..self.view() }),
    {
        let mut s = self;
        s.optimize = enabled;
        s
    }

    /// Records that `phase` has a callback (the callables themselves stay with the caller).
    pub fn on_phase(self, phase: &str) -> (r: Self)
        requires
            self.wf(),
        ensures
            r.wf(),
            r.view() == (ConfigView {
                phases: if self.view().phases.contains(phase@) {
                    self.view().phases
                } else {
                    self.view().phases.push(phase@)
                },
                ..self.view()
            }),
    {
        let mut s = self;
        s.phase_callbacks.insert(lit(phase));
        s
    }

    /// Registers a built-in function, replacing an earlier one of that name.
    pub fn add_builtin(self, name: &str, implementation: &str) -> (r: Self)
        requires
            self.wf(),
        ensures
            r.wf(),
            r.view() == (ConfigView { builtins: self.view().builtins.insert(name@, implementation@), ..self.view() }),
    {
        let mut s = self;
        let ghost ok = s.custom_builtins.keys();
        let ghost ov = s.custom_builtins.vals();
        let ghost before = string_map(s.custom_builtins);
        let imp = lit(implementation);
        let ghost iv = imp;
        s.custom_builtins.insert(lit(name), imp);
        proof {
            lemma_insert_facts(ok, ov, s.custom_builtins.keys(), s.custom_builtins.vals(), name@, iv);
            assert(string_map(s.custom_builtins) =~= before.insert(name@, implementation@));
        }
        s
    }

    /// The configuration built so far.
    pub fn build(self) -> (r: CompilerConfig)
        requires
            self.wf(),
        ensures
            r.wf(),
            r.view() == self.view(),
    {
        CompilerConfig {
            source_files: self.source_files,
            output_path: self.output_path,
            output_format: self.output_format,
            verbose: self.verbose,
            optimize: self.optimize,
            phase_callbacks: self.phase_callbacks,
            custom_builtins: self.custom_builtins,
        }
    }
}

impl Default for CompilerBuilder {
    fn default() -> (r: Self)
        ensures
            r.wf(),
            r.view().sources.len() == 0,
            r.view().output == "output"@,
            r.view().format == "executable"@,
    {
        CompilerBuilder::new()
    }
}

/// A compiler configuration.
pub struct CompilerConfig {
    pub source_files: Vec<String>,
    pub output_path: String,
    pub output_format: String,
    pub verbose: bool,
    pub optimize: bool,
    pub phase_callbacks: NameSet,
    pub custom_builtins: NameMap<String>,
}

/// The output formats a configuration may name.
pub open spec fn known_format(f: Seq<char>) -> bool {
    f == "executable"@ || f == "object"@ || f == "assembly"@ || f == "library"@ || f == "bash"@
}

impl CompilerConfig {
    pub open spec fn view(&self) -> ConfigView {
        ConfigView {
            sources: views(self.source_files@),
            output: self.output_path@,
            format: self.output_format@,
            verbose: self.verbose,
            optimize: self.optimize,
            phases: self.phase_callbacks.elems(),
            builtins: string_map(self.custom_builtins),
        }
    }

    pub open spec fn wf(&self) -> bool {
        self.phase_callbacks.wf() && self.custom_builtins.wf()
    }

    pub fn sources(&self) -> (r: &[String])
        ensures
            r@ == self.source_files@,
    {
        self.source_files.as_slice()
    }

    pub fn output(&self) -> (r: &String)
        ensures
            r == &self.output_path,
    {
        &self.output_path
    }

    pub fn is_verbose(&self) -> (r: bool)
        ensures
            r == self.verbose,
    {
        self.verbose
    }

    pub fn is_optimized(&self) -> (r: bool)
        ensures
            r == self.optimize,
    {
        self.optimize
    }

    /// Checks the configuration, given whether each source file exists: there must be
    /// sources, each must exist, and the format must be known. The first failure is reported.
    pub fn validate(&self, exists: &[bool]) -> (r: Result<(), String>)
        requires
            exists@.len() == self.source_files@.len(),
        ensures
            match r {
                Ok(_) => self.source_files@.len() > 0 && (forall|k: int| 0 <= k < exists@.len() ==> exists@[k])
                    && known_format(self.output_format@),
                Err(e) => if self.source_files@.len() == 0 {
                    e@ == "No source files specified"@
                } else if exists|k: int| 0 <= k < exists@.len() && !exists@[k] {
                    exists|k: int|
                        0 <= k < exists@.len() && !exists@[k] && (forall|j: int| 0 <= j < k ==> exists@[j]) && e@
                            == "Source file does not exist: "@ + debug_text(self.source_files@[k]@) + ""@
                } else {
                    !known_format(self.output_format@) && e@ == "Unknown output format: "@ + self.output_format@
                        + ""@
                },
            },
    {
        if self.source_files.len() == 0 {
            return Err(lit("No source files specified"));
        }
        let mut i: usize = 0;
        while i < self.source_files.len()
            invariant
                i <= self.source_files@.len(),
                exists@.len() == self.source_files@.len(),
                forall|j: int| 0 <= j < i ==> exists@[j],
            decreases self.source_files@.len() - i,
        {
            if !exists[i] {
                let shown = debug_quoted(self.source_files[i].as_str());
                return Err(cat_str("Source file does not exist: ", shown.as_str(), ""));
            }
            i += 1;
        }
        let f = self.output_format.as_str();
        if str_eq(f, "executable") || str_eq(f, "object") || str_eq(f, "assembly") || str_eq(f, "library") || str_eq(
            f,
            "bash",
        ) {
            Ok(())
        } else {
            Err(cat_str("Unknown output format: ", f, ""))
        }
    }
}

/// A compilation's outcome with its diagnostics.
#[derive(Debug, Clone)]
pub struct CompilationResult {
    pub success: bool,
    pub output_path: String,
    pub warnings: Vec<String>,
    pub errors: Vec<String>,
    pub metrics: CompilationMetrics,
}

/// What a compilation result holds, by value.
pub open spec fn result_view(r: CompilationResult) -> (bool, Seq<char>, Seq<Seq<char>>, Seq<Seq<char>>, CompilationMetrics) {
    (r.success, r.output_path@, views(r.warnings@), views(r.errors@), r.metrics)
}

impl CompilationResult {
    /// A result holding the same values.
    pub fn copy_of(&self) -> (r: CompilationResult)
        ensures
            result_view(r) == result_view(*self),
    {
        CompilationResult {
            success: self.success,
            output_path: copy_string(&self.output_path),
            warnings: copy_strings(&self.warnings),
            errors: copy_strings(&self.errors),
            metrics: self.metrics,
        }
    }
}

/// Compilation timings (ms) and counts.
#[derive(Debug, Clone, Copy)]
pub struct CompilationMetrics {
    pub total_time_ms: u128,
    pub lexer_time_ms: u128,
    pub parser_time_ms: u128,
    pub typechecker_time_ms: u128,
    pub codegen_time_ms: u128,
    pub lines_of_code: usize,
    pub functions_compiled: usize,
    pub structs_compiled: usize,
    pub optimization_passes: usize,
}

impl Default for CompilationMetrics {
    fn default() -> (r: Self)
        ensures
            r.total_time_ms == 0 && r.lexer_time_ms == 0 && r.parser_time_ms == 0 && r.typechecker_time_ms == 0
                && r.codegen_time_ms == 0,
            r.lines_of_code == 0 && r.functions_compiled == 0 && r.structs_compiled == 0
                && r.optimization_passes == 0,
    {
        CompilationMetrics {
            total_time_ms: 0,
            lexer_time_ms: 0,
            parser_time_ms: 0,
            typechecker_time_ms: 0,
            codegen_time_ms: 0,
            lines_of_code: 0,
            functions_compiled: 0,
            structs_compiled: 0,
            optimization_passes: 0,
        }
    }
}

/// The phase that took longest; of equally slow phases, the later in the order lexer,
/// parser, typechecker, codegen.
pub open spec fn slowest_spec(m: CompilationMetrics) -> (Seq<char>, u128) {
    let a = ("lexer"@, m.lexer_time_ms);
    let b = if m.parser_time_ms >= a.1 {
        ("parser"@, m.parser_time_ms)
    } else {
        a
    };
    let c = if m.typechecker_time_ms >= b.1 {
        ("typechecker"@, m.typechecker_time_ms)
    } else {
        b
    };
    if m.codegen_time_ms >= c.1 {
        ("codegen"@, m.codegen_time_ms)
    } else {
        c
    }
}

impl CompilationMetrics {
    /// The slowest phase with its time.
    pub fn slowest_phase(&self) -> (r: Option<(String, u128)>)
        ensures
            r matches Some((name, t)) && name@ == slowest_spec(*self).0 && t == slowest_spec(*self).1,
    {
        let mut name: &str = "lexer";
        let mut best: u128 = self.lexer_time_ms;
        if self.parser_time_ms >= best {
            name = "parser";
            best = self.parser_time_ms;
        }
        if self.typechecker_time_ms >= best {
            name = "typechecker";
            best = self.typechecker_time_ms;
        }
        if self.codegen_time_ms >= best {
            name = "codegen";
            best = self.codegen_time_ms;
        }
        Some((lit(name), best))
    }
}

/// Receives the events of a compilation.
pub trait CompilationHandler {
    fn on_phase_start(&self, phase: &str);

    fn on_phase_end(&self, phase: &str, duration_ms: u128);

    fn on_error(&self, error: &str);

    fn on_warning(&self, warning: &str);

    fn on_complete(&self, result: &CompilationResult);
}

} // verus!
