//! A fluent builder over a compilation configuration, and a session that keeps one
//! builder and the last result.
use vstd::prelude::*;
use crate::codegen::library_api::{CompilationResult, result_view};
use crate::names::views;
use crate::text::lit;

verus! {

/// What a compilation produces.
#[derive(Debug, Clone, Copy, PartialEq, Eq, Structural)]
pub enum OutputFormat {
    Executable,
    Object,
    Assembly,
    Library,
    Bash,
}

/// The settings of one compilation.
#[derive(Debug, Clone)]
pub struct CompilationConfig {
    pub source_files: Vec<String>,
    pub output_path: String,
    pub output_format: OutputFormat,
    pub verbose: bool,
    pub opt_level: u32,
    pub debug: bool,
}

impl CompilationConfig {
    /// No sources, output `a.out`, an executable, quiet, level 0, no debug info.
    pub fn new() -> (r: Self)
        ensures
            r.source_files@.len() == 0,
            r.output_path@ == "a.out"@,
            r.output_format == OutputFormat::Executable,
            !r.verbose,
            r.opt_level == 0,
            !r.debug,
    {
        CompilationConfig {
            source_files: Vec::new(),
            output_path: lit("a.out"),
            output_format: OutputFormat::Executable,
            verbose: false,
            opt_level: 0,
            debug: false,
        }
    }
}

/// Builds a compilation configuration step by step.
#[derive(Clone)]
pub struct CompilerBuilder {
    config: CompilationConfig,
}

/// `c` with only its sources changed, to `sources`.
pub open spec fn with_sources(c: CompilationConfig, d: CompilationConfig, sources: Seq<Seq<char>>) -> bool {
    &&& views(d.source_files@) == sources
    &&& d.output_path == c.output_path
    &&& d.output_format == c.output_format
    &&& d.verbose == c.verbose
    &&& d.opt_level == c.opt_level
    &&& d.debug == c.debug
}

impl CompilerBuilder {
    /// The configuration built so far.
    pub closed spec fn cfg(&self) -> CompilationConfig {
        self.config
    }

    pub fn new() -> (r: Self)
        ensures
            r.cfg().source_files@.len() == 0,
            r.cfg().output_path@ == "a.out"@,
            r.cfg().output_format == OutputFormat::Executable,
            !r.cfg().verbose,
            r.cfg().opt_level == 0,
            !r.cfg().debug,
    {
        CompilerBuilder { config: CompilationConfig::new() }
    }

    /// Adds a source file; never fails.
    pub fn add_source_file(self, path: &str) -> (r: Result<Self, String>)
        ensures
            r matches Ok(b) && with_sources(self.cfg(), b.cfg(), views(self.cfg().source_files@).push(path@)),
    {
        let mut s = self;
        let ghost before = views(s.config.source_files@);
        s.config.source_files.push(lit(path));
        assert(views(s.config.source_files@) =~= before.push(path@));
        Ok(s)
    }

    /// Adds source files in order; never fails.
    pub fn add_source_files(self, paths: Vec<String>) -> (r: Result<Self, String>)
        ensures
            r matches Ok(b) && with_sources(self.cfg(), b.cfg(), views(self.cfg().source_files@) + views(paths@)),
    {
        let mut s = self;
        let ghost before = views(s.config.source_files@);
        crate::text::extend_strings(&mut s.config.source_files, paths);
        assert(views(s.config.source_files@) =~= before + views(paths@)) by {
            assert(crate::text::texts(s.config.source_files@) == views(s.config.source_files@));
        }
        Ok(s)
    }

    pub fn output(self, path: &str) -> (r: Self)
        ensures
            r.cfg().output_path@ == path@,
            r.cfg().source_files == self.cfg().source_files,
            r.cfg().output_format == self.cfg().output_format,
            r.cfg().verbose == self.cfg().verbose,
            r.cfg().opt_level == self.cfg().opt_level,
            r.cfg().debug == self.cfg().debug,
    {
        let mut s = self;
        s.config.output_path = lit(path);
        s
    }

    pub fn format(self, format: OutputFormat) -> (r: Self)
        ensures
            r.cfg() == (CompilationConfig { output_format: format, ..self.cfg() }),
    {
        let mut s = self;
        s.config.output_format = format;
        s
    }

    pub fn verbose(self, verbose: bool) -> (r: Self)
        ensures
            r.cfg() == (CompilationConfig { verbose, ..self.cfg() }),
    {
        let mut s = self;
        s.config.verbose = verbose;
        s
    }

    pub fn optimize(self, level: u32) -> (r: Self)
        ensures
            r.cfg() == (CompilationConfig { opt_level: level, ..self.cfg() }),
    {
        let mut s = self;
        s.config.opt_level = level;
        s
    }

    pub fn with_debug(self, enable: bool) -> (r: Self)
        ensures
            r.cfg() == (CompilationConfig { debug: enable, ..self.cfg() }),
    {
        let mut s = self;
        s.config.debug = enable;
        s
    }

    pub fn config(&self) -> (r: &CompilationConfig)
        ensures
            *r == self.cfg(),
    {
        &self.config
    }

    pub fn config_mut(&mut self) -> (r: &mut CompilationConfig)
        ensures
            *r == old(self).cfg(),
            final(self).cfg() == *final(r),
    {
        &mut self.config
    }
}

/// State kept across several compilations: a builder and the last result.
pub struct CompilerSession {
    builder: CompilerBuilder,
    last_result: Option<CompilationResult>,
}

impl CompilerSession {
    pub closed spec fn current(&self) -> CompilerBuilder {
        self.builder
    }

    pub closed spec fn last(&self) -> Option<CompilationResult> {
        self.last_result
    }

    /// A fresh builder and no result yet.
    pub fn new() -> (r: Self)
        ensures
            r.last() is None,
            r.current().cfg().source_files@.len() == 0,
            r.current().cfg().output_format == OutputFormat::Executable,
    {
        CompilerSession { builder: CompilerBuilder::new(), last_result: None }
    }

    pub fn builder(&mut self) -> (r: &mut CompilerBuilder)
        ensures
            *r == old(self).current(),
            final(self).current() == *final(r),
            final(self).last() == old(self).last(),
    {
        &mut self.builder
    }

    pub fn last_result(&self) -> (r: Option<&CompilationResult>)
        ensures
            match r {
                Some(x) => self.last() == Some(*x),
                None => self.last() is None,
            },
    {
        match &self.last_result {
            Some(x) => Some(x),
            None => None,
        }
    }

    /// Records `outcome`, the result of compiling with the current builder: a success becomes
    /// the last result, an error leaves it as it was; `outcome` is handed back.
    pub fn compile(&mut self, outcome: Result<CompilationResult, String>) -> (r: Result<CompilationResult, String>)
        ensures
            r == outcome,
            final(self).current() == old(self).current(),
            match outcome {
                Ok(x) => final(self).last() is Some && result_view(final(self).last().unwrap()) == result_view(x),
                Err(_) => final(self).last() == old(self).last(),
            },
    {
        match outcome {
            Ok(result) => {
                self.last_result = Some(result.copy_of());
                Ok(result)
            },
            Err(e) => Err(e),
        }
    }

    /// Back to a fresh builder and no result.
    pub fn reset(&mut self)
        ensures
            final(self).last() is None,
            final(self).current().cfg().source_files@.len() == 0,
            final(self).current().cfg().output_format == OutputFormat::Executable,
            !final(self).current().cfg().verbose,
            final(self).current().cfg().opt_level == 0,
    {
        self.builder = CompilerBuilder::new();
        self.last_result = None;
    }
}

/// Stage `i` of `stages` turned `trail[i]` into `Ok(trail[i + 1])`, for each `i < n`.
pub open spec fn stages_ran<F: Fn(&CompilationResult) -> Result<CompilationResult, String>>(
    stages: Seq<F>,
    trail: Seq<CompilationResult>,
    n: int,
) -> bool {
    &&& trail.len() == n + 1
    &&& forall|i: int| 0 <= i < n ==> #[trigger] stages[i].ensures((&trail[i],), Ok(trail[i + 1]))
}

/// Every stage ran, from `initial`, and the last gave `out`.
pub open spec fn pipeline_gave<F: Fn(&CompilationResult) -> Result<CompilationResult, String>>(
    stages: Seq<F>,
    initial: CompilationResult,
    trail: Seq<CompilationResult>,
    out: CompilationResult,
) -> bool {
    &&& stages_ran(stages, trail, stages.len() as int)
    &&& trail[0] == initial
    &&& trail.last() == out
}

/// The stages before `k` ran, from `initial`, and stage `k` failed with `e`.
pub open spec fn pipeline_failed<F: Fn(&CompilationResult) -> Result<CompilationResult, String>>(
    stages: Seq<F>,
    initial: CompilationResult,
    trail: Seq<CompilationResult>,
    k: int,
    e: String,
) -> bool {
    &&& 0 <= k < stages.len()
    &&& stages_ran(stages, trail, k)
    &&& trail[0] == initial
    &&& stages[k].ensures((&trail[k],), Err(e))
}

/// Compilation stages run one after another, each on the result of the one before.
pub struct PipelineBuilder<F> {
    stages: Vec<F>,
}

impl<F: Fn(&CompilationResult) -> Result<CompilationResult, String>> PipelineBuilder<F> {
    /// The stages, in the order they run.
    pub closed spec fn stages(&self) -> Seq<F> {
        self.stages@
    }

    /// No stages.
    pub fn new() -> (r: Self)
        ensures
            r.stages().len() == 0,
    {
        PipelineBuilder { stages: Vec::new() }
    }

    /// `stage` runs after the stages already added.
    pub fn add_stage(self, stage: F) -> (r: Self)
        ensures
            r.stages() == self.stages().push(stage),
    {
        let mut s = self;
        s.stages.push(stage);
        s
    }

    /// Runs every stage in order from `initial`; the first error ends the run and is
    /// the answer, else the last stage's result is.
    pub fn execute(&self, initial: CompilationResult) -> (r: Result<CompilationResult, String>)
        requires
            forall|i: int, x: &CompilationResult| 0 <= i < self.stages().len() ==> #[trigger] self.stages()[i].requires((x,)),
        ensures
            r is Ok ==> exists|t: Seq<CompilationResult>| pipeline_gave(self.stages(), initial, t, r->Ok_0),
            r is Err ==> exists|t: Seq<CompilationResult>, k: int| pipeline_failed(self.stages(), initial, t, k, r->Err_0),
    {
        let ghost init = initial;
        assert(init == initial);
        let mut result = initial;
        let ghost mut trail: Seq<CompilationResult> = seq![init];
        let mut i: usize = 0;
        while i < self.stages.len()
            invariant
                i <= self.stages@.len(),
                forall|j: int, x: &CompilationResult| 0 <= j < self.stages().len() ==> #[trigger] self.stages()[j].requires((x,)),
                stages_ran(self.stages(), trail, i as int),
                trail[0] == init,
                init == initial,
                trail.last() == result,
            decreases self.stages@.len() - i,
        {
            let next = (self.stages[i])(&result);
            match next {
                Ok(out) => {
                    proof {
                        let t2 = trail.push(out);
                        assert forall|j: int| 0 <= j < i + 1 implies #[trigger] self.stages()[j].ensures((&t2[j],), Ok(t2[j + 1])) by {
                            if j < i {
                                assert(t2[j] == trail[j] && t2[j + 1] == trail[j + 1]);
                            }
                        }
                        trail = t2;
                    }
                    result = out;
                },
                Err(e) => {
                    let ghost ge = e;
                    let r: Result<CompilationResult, String> = Err(e);
                    assert(r->Err_0 == ge);
                    assert(pipeline_failed(self.stages(), initial, trail, i as int, r->Err_0));
                    return r;
                },
            }
            i += 1;
        }
        let ghost gr = result;
        let r: Result<CompilationResult, String> = Ok(result);
        assert(r->Ok_0 == gr);
        assert(pipeline_gave(self.stages(), initial, trail, r->Ok_0));
        r
    }
}

impl<F: Fn(&CompilationResult) -> Result<CompilationResult, String>> Default for PipelineBuilder<F> {
    fn default() -> (r: Self)
        ensures
            r.stages().len() == 0,
    {
        Self::new()
    }
}

/// Callbacks around a compilation; each does nothing unless an implementation says
/// otherwise.
pub trait CompilationObserver {
    /// Called when compilation starts.
    fn on_start(&mut self) {
    }

    /// Called when a phase completes.
    fn on_phase_complete(&mut self, _phase_name: &str, _duration_ms: u64) {
    }

    /// Called with the result of a successful compilation.
    fn on_success(&mut self, _result: &CompilationResult) {
    }

    /// Called with the error of a failed compilation.
    fn on_error(&mut self, _error: &str) {
    }

    /// Called when compilation ends, after success or error.
    fn on_complete(&mut self) {
    }
}

/// An observer that ignores every event.
pub struct DefaultCompilationObserver;

impl CompilationObserver for DefaultCompilationObserver {
    fn on_phase_complete(&mut self, _phase_name: &str, _duration_ms: u64) {
    }

    fn on_success(&mut self, _result: &CompilationResult) {
    }

    fn on_error(&mut self, _error: &str) {
    }
}

/// A notification given to a compilation observer.
#[derive(Debug, Clone, Copy, PartialEq, Eq)]
pub enum ObserverEvent {
    Start,
    Success,
    Error,
    Complete,
}

/// The notifications one compilation gives: start, then success or error, then complete.
pub open spec fn compile_events(outcome_ok: bool) -> Seq<ObserverEvent> {
    seq![ObserverEvent::Start, if outcome_ok { ObserverEvent::Success } else { ObserverEvent::Error }, ObserverEvent::Complete]
}

/// A compilation watched by an observer.
pub struct ObservedCompilation<O> {
    pub observer: O,
    /// The notifications given to the observer so far, in order.
    pub log: Ghost<Seq<ObserverEvent>>,
}

impl<O: CompilationObserver> ObservedCompilation<O> {
    /// The notifications given to the observer so far, in order.
    pub open spec fn notified(&self) -> Seq<ObserverEvent> {
        self.log@
    }

    pub fn new(observer: O) -> (r: Self)
        ensures
            r.observer == observer,
            r.notified() == Seq::<ObserverEvent>::empty(),
    {
        ObservedCompilation { observer, log: Ghost(Seq::empty()) }
    }

    fn notify_start(&mut self)
        ensures
            final(self).notified() == old(self).notified().push(ObserverEvent::Start),
    {
        self.observer.on_start();
        self.log = Ghost(self.log@.push(ObserverEvent::Start));
    }

    fn notify_success(&mut self, result: &CompilationResult)
        ensures
            final(self).notified() == old(self).notified().push(ObserverEvent::Success),
    {
        self.observer.on_success(result);
        self.log = Ghost(self.log@.push(ObserverEvent::Success));
    }

    fn notify_error(&mut self, error: &str)
        ensures
            final(self).notified() == old(self).notified().push(ObserverEvent::Error),
    {
        self.observer.on_error(error);
        self.log = Ghost(self.log@.push(ObserverEvent::Error));
    }

    fn notify_complete(&mut self)
        ensures
            final(self).notified() == old(self).notified().push(ObserverEvent::Complete),
    {
        self.observer.on_complete();
        self.log = Ghost(self.log@.push(ObserverEvent::Complete));
    }

    /// Tells the observer that compilation starts, then of its success or error, then that it
    /// is complete, each once, and hands back `outcome`, the result of compiling.
    pub fn compile(&mut self, outcome: Result<CompilationResult, String>) -> (r: Result<CompilationResult, String>)
        ensures
            r == outcome,
            final(self).notified() == old(self).notified() + compile_events(outcome is Ok),
    {
        self.notify_start();
        match outcome {
            Ok(result) => {
                self.notify_success(&result);
                self.notify_complete();
                assert(self.notified() =~= old(self).notified() + compile_events(true));
                Ok(result)
            },
            Err(err) => {
                self.notify_error(err.as_str());
                self.notify_complete();
                assert(self.notified() =~= old(self).notified() + compile_events(false));
                Err(err)
            },
        }
    }
}

} // verus!
