//! Inlining over IR text: function sizes and complexity from their definitions, inlining
//! strategies with size thresholds, and call sites replaced by inlining notes.
use vstd::prelude::*;
use vstd::utf8::encode_utf8;
use crate::names::{copy_string, lemma_insert_facts, str_eq, views, NameMap};
use crate::text::{
    append_chars, append_str, cat_str, chars_of, contains, lines, lines_of, seqs_of,
    split_whitespace, starts_with, str_contains, str_starts_with, string_of, terminated,
    terminated_exec, trim, trim_exec, words, lemma_seqs_of_push,
};

verus! {

/// A named inlining strategy: when enabled, functions smaller than its threshold are
/// inlined.
#[derive(Debug, Clone)]
pub struct InliningStrategy {
    pub name: String,
    pub enabled: bool,
    pub threshold: usize,
}

/// What the analysis records of a function.
#[derive(Debug, Clone)]
pub struct FunctionMetrics {
    pub size: usize,
    pub call_count: usize,
    pub is_recursive: bool,
    pub complexity: usize,
}

/// What inlining has done so far.
#[derive(Debug, Clone, Copy)]
pub struct InliningStats {
    pub functions_inlined: usize,
    pub call_sites_eliminated: usize,
    pub bytes_saved: usize,
    pub code_bloat: usize,
}

/// The name a word such as `@add(i64` gives: without the `@`, up to the first `(`.
pub open spec fn callee_name(w: Seq<char>) -> Seq<char> {
    let n = w.drop_first();
    match n.index_of_first('(') {
        Some(p) => n.take(p),
        None => n,
    }
}

/// The name in the first word of `ws` that starts with `@`.
pub open spec fn first_at_name(ws: Seq<Seq<char>>) -> Option<Seq<char>>
    decreases ws.len(),
{
    if ws.len() == 0 {
        None
    } else if starts_with(ws[0], "@"@) {
        Some(callee_name(ws[0]))
    } else {
        first_at_name(ws.drop_first())
    }
}

/// The function a line names: the first word starting with `@`, without the `@` and any
/// argument list.
pub open spec fn named_function(l: Seq<char>) -> Option<Seq<char>> {
    first_at_name(words(l))
}

fn callee_name_exec(w: &[char]) -> (r: Vec<char>)
    requires
        w@.len() > 0,
    ensures
        r@ == callee_name(w@),
{
    let ghost n = w@.drop_first();
    proof {
        n.index_of_first_ensures('(');
    }
    let mut i: usize = 1;
    while i < w.len() && w[i] != '('
        invariant
            1 <= i <= w.len(),
            n == w@.drop_first(),
            forall|j: int| 1 <= j < i ==> w@[j] != '(',
        decreases w.len() - i,
    {
        i += 1;
    }
    let end = i;
    let mut r: Vec<char> = Vec::new();
    let mut k: usize = 1;
    while k < end
        invariant
            1 <= k <= end <= w.len(),
            r@ == w@.subrange(1, k as int),
        decreases end - k,
    {
        r.push(w[k]);
        k += 1;
        assert(r@ =~= w@.subrange(1, k as int));
    }
    proof {
        n.index_of_first_ensures('(');
        if end < w.len() {
            assert(w@[end as int] == '(');
            assert(n[end - 1] == '(');
            assert forall|j: int| 0 <= j < end - 1 implies n[j] != '(' by {
                assert(n[j] == w@[j + 1]);
            }
            match n.index_of_first('(') {
                Some(p) => {
                    assert(p == end - 1);
                },
                None => {
                    assert(n.contains('('));
                },
            }
            assert(r@ =~= n.take(end - 1));
        } else {
            assert forall|j: int| 0 <= j < n.len() implies n[j] != '(' by {
                assert(n[j] == w@[j + 1]);
            }
            match n.index_of_first('(') {
                Some(p) => {
                    assert(n[p] == '(');
                },
                None => {},
            }
            assert(r@ =~= n);
        }
    }
    r
}

fn named_function_exec(l: &[char]) -> (r: Option<Vec<char>>)
    ensures
        match r {
            Some(v) => named_function(l@) == Some(v@),
            None => named_function(l@) is None,
        },
{
    let ws = split_whitespace(l);
    let mut i: usize = 0;
    assert(words(l@).skip(0) =~= words(l@));
    while i < ws.len()
        invariant
            i <= ws.len(),
            seqs_of(ws@) == words(l@),
            first_at_name(words(l@)) == first_at_name(words(l@).skip(i as int)),
        decreases ws.len() - i,
    {
        let ghost rest = words(l@).skip(i as int);
        assert(rest[0] == ws@[i as int]@);
        assert(rest.drop_first() =~= words(l@).skip(i + 1));
        if str_starts_with(ws[i].as_slice(), "@") {
            proof {
                reveal_strlit("@");
            }
            return Some(callee_name_exec(ws[i].as_slice()));
        }
        i += 1;
    }
    assert(words(l@).skip(i as int).len() == 0);
    None
}

/// What a line adds to a function's complexity: calls 5, conditional branches and
/// switches 3, loops 10.
pub open spec fn line_weight(l: Seq<char>) -> nat {
    (if contains(l, "call "@) {
        5nat
    } else {
        0nat
    }) + (if contains(l, "br i1 "@) || contains(l, "switch "@) {
        3nat
    } else {
        0nat
    }) + (if contains(l, "loop"@) || contains(l, "for"@) {
        10nat
    } else {
        0nat
    })
}

/// The weights of the lines from the first that names `tag` (or from the start, when
/// `inside`) up to and including the next return.
pub open spec fn complexity_scan(ls: Seq<Seq<char>>, tag: Seq<char>, inside: bool) -> nat
    decreases ls.len(),
{
    if ls.len() == 0 {
        0
    } else {
        let l = ls[0];
        if inside || contains(l, tag) {
            line_weight(l) + if contains(l, "ret "@) {
                0nat
            } else {
                complexity_scan(ls.drop_first(), tag, true)
            }
        } else {
            complexity_scan(ls.drop_first(), tag, false)
        }
    }
}

/// The complexity of function `f` in the lines `ls`.
pub open spec fn complexity(ls: Seq<Seq<char>>, f: Seq<char>) -> nat {
    complexity_scan(ls, "@"@ + f, false)
}

proof fn lemma_complexity_bound(ls: Seq<Seq<char>>, tag: Seq<char>, inside: bool)
    ensures
        complexity_scan(ls, tag, inside) <= 18 * ls.len(),
    decreases ls.len(),
{
    if ls.len() > 0 {
        lemma_complexity_bound(ls.drop_first(), tag, true);
        lemma_complexity_bound(ls.drop_first(), tag, false);
    }
}

fn complexity_exec(ls_exec: &Vec<Vec<char>>, func_name: &str) -> (r: usize)
    requires
        18 * ls_exec@.len() <= usize::MAX,
    ensures
        r == complexity(seqs_of(ls_exec@), func_name@),
{
    let ghost ls = seqs_of(ls_exec@);
    let mut tag: Vec<char> = Vec::new();
    tag.push('@');
    append_str(&mut tag, func_name);
    proof {
        reveal_strlit("@");
        assert(tag@ =~= "@"@ + func_name@);
    }
    let mut total: usize = 0;
    let mut inside = false;
    let mut i: usize = 0;
    proof {
        lemma_complexity_bound(ls, tag@, false);
        assert(ls.skip(0) =~= ls);
    }
    while i < ls_exec.len()
        invariant
            ls == seqs_of(ls_exec@),
            i <= ls.len(),
            18 * ls.len() <= usize::MAX,
            total + complexity_scan(ls.skip(i as int), tag@, inside) == complexity(ls, func_name@),
            tag@ == "@"@ + func_name@,
            total <= 18 * i,
        decreases ls.len() - i,
    {
        let l = &ls_exec[i];
        let ghost rest = ls.skip(i as int);
        assert(rest[0] == l@);
        assert(rest.drop_first() =~= ls.skip(i + 1));
        proof {
            lemma_complexity_bound(ls.skip(i + 1), tag@, true);
        }
        if crate::text::contains_exec(l.as_slice(), tag.as_slice()) {
            inside = true;
        }
        if inside {
            if str_contains(l.as_slice(), "call ") {
                total += 5;
            }
            if str_contains(l.as_slice(), "br i1 ") || str_contains(l.as_slice(), "switch ") {
                total += 3;
            }
            if str_contains(l.as_slice(), "loop") || str_contains(l.as_slice(), "for") {
                total += 10;
            }
            if str_contains(l.as_slice(), "ret ") {
                return total;
            }
        }
        i += 1;
    }
    total
}

/// Whether the strategies, the first that is enabled and whose threshold exceeds the
/// function's size deciding, would inline a function with metrics `m`.
pub open spec fn strategies_inline(strats: Seq<InliningStrategy>, m: FunctionMetrics) -> bool
    decreases strats.len(),
{
    if strats.len() == 0 {
        false
    } else if strats[0].enabled && m.size < strats[0].threshold {
        !m.is_recursive
    } else {
        strategies_inline(strats.drop_first(), m)
    }
}

/// The position of the first strategy named `name`.
pub open spec fn strategy_index(strats: Seq<InliningStrategy>, name: Seq<char>) -> Option<int> {
    if exists|i: int| 0 <= i < strats.len() && #[trigger] strats[i].name@ == name {
        Some(choose|i: int| 0 <= i < strats.len() && strats[i].name@ == name && forall|j: int|
            0 <= j < i ==> #[trigger] strats[j].name@ != name)
    } else {
        None
    }
}

/// The error for a strategy that does not exist.
pub open spec fn missing_strategy_msg(name: Seq<char>) -> Seq<char> {
    "Strategy "@ + name + " not found"@
}

/// A function that `get_inlinable_functions` lists, given the strategies.
pub open spec fn listed_inlinable(strats: Seq<InliningStrategy>, m: FunctionMetrics) -> bool {
    strategies_inline(strats, m) && !m.is_recursive && m.size < 100
}

/// What a function adds to the estimated bloat.
pub open spec fn bloat_of(m: FunctionMetrics) -> int {
    if m.size > 100 {
        (m.size / 10) as int
    } else {
        0
    }
}

/// The function being measured, its size so far, and the (name, size) pairs recorded,
/// after the analysis has read `ls`.
pub open spec fn analysis(ls: Seq<Seq<char>>) -> (Option<Seq<char>>, nat, Seq<(Seq<char>, nat)>)
    decreases ls.len(),
{
    if ls.len() == 0 {
        (None, 0, seq![])
    } else {
        let (cur, size, recs) = analysis(ls.drop_last());
        let l = ls.last();
        if contains(l, "define "@) {
            match named_function(l) {
                Some(f) => (Some(f), 0, recs),
                None => (cur, size, recs),
            }
        } else if contains(l, "ret "@) {
            match cur {
                Some(f) => (None, size, recs.push((f, size))),
                None => (cur, size, recs),
            }
        } else if cur is Some {
            (cur, size + encode_utf8(l).len(), recs)
        } else {
            (cur, size, recs)
        }
    }
}

/// The size last recorded for `f`.
pub open spec fn last_size(recs: Seq<(Seq<char>, nat)>, f: Seq<char>) -> Option<nat>
    decreases recs.len(),
{
    if recs.len() == 0 {
        None
    } else if recs.last().0 == f {
        Some(recs.last().1)
    } else {
        last_size(recs.drop_last(), f)
    }
}

proof fn lemma_analysis_size(ls: Seq<Seq<char>>)
    ensures
        analysis(ls).1 <= crate::codegen::optimization::dead_code_elim::total_bytes(ls),
        forall|i: int| 0 <= i < analysis(ls).2.len() ==> #[trigger] analysis(ls).2[i].1
            <= crate::codegen::optimization::dead_code_elim::total_bytes(ls),
    decreases ls.len(),
{
    if ls.len() > 0 {
        lemma_analysis_size(ls.drop_last());
    }
}

/// The inliner: its strategies, in order, the metrics of the functions analysed, and
/// its counts.
#[derive(Debug)]
pub struct Inliner {
    pub strategies: Vec<InliningStrategy>,
    pub function_metrics: NameMap<FunctionMetrics>,
    pub statistics: InliningStats,
}

impl Inliner {
    /// An inliner with the strategies `Simple` (enabled, threshold 50), `Aggressive`
    /// (threshold 200) and `Conservative` (threshold 20).
    pub fn new() -> (r: Self)
        ensures
            r.strategies@.len() == 3,
            r.strategies@[0].name@ == "Simple"@ && r.strategies@[0].enabled && r.strategies@[0].threshold == 50,
            r.strategies@[1].name@ == "Aggressive"@ && !r.strategies@[1].enabled && r.strategies@[1].threshold == 200,
            r.strategies@[2].name@ == "Conservative"@ && !r.strategies@[2].enabled && r.strategies@[2].threshold == 20,
            r.function_metrics.wf(),
            r.function_metrics.keys().len() == 0,
            r.statistics == (InliningStats {
                functions_inlined: 0,
                call_sites_eliminated: 0,
                bytes_saved: 0,
                code_bloat: 0,
            }),
    {
        Inliner {
            strategies: vec![
                InliningStrategy { name: crate::text::lit("Simple"), enabled: true, threshold: 50 },
                InliningStrategy { name: crate::text::lit("Aggressive"), enabled: false, threshold: 200 },
                InliningStrategy { name: crate::text::lit("Conservative"), enabled: false, threshold: 20 },
            ],
            function_metrics: NameMap::new(),
            statistics: InliningStats {
                functions_inlined: 0,
                call_sites_eliminated: 0,
                bytes_saved: 0,
                code_bloat: 0,
            },
        }
    }

    /// The function a definition line names.
    pub fn extract_function_name(&self, line: &str) -> (r: Option<String>)
        ensures
            match r {
                Some(v) => named_function(line@) == Some(v@),
                None => named_function(line@) is None,
            },
    {
        let cs = chars_of(line);
        match named_function_exec(cs.as_slice()) {
            Some(v) => Some(string_of(v.as_slice())),
            None => None,
        }
    }

    /// The function a call line names.
    pub fn extract_call_target(&self, line: &str) -> (r: Option<String>)
        ensures
            match r {
                Some(v) => named_function(line@) == Some(v@),
                None => named_function(line@) is None,
            },
    {
        let cs = chars_of(line);
        match named_function_exec(cs.as_slice()) {
            Some(v) => Some(string_of(v.as_slice())),
            None => None,
        }
    }

    /// The complexity of `func_name` in `ir`.
    pub fn estimate_complexity(&self, ir: &str, func_name: &str) -> (r: usize)
        requires
            18 * lines(ir@).len() <= usize::MAX,
        ensures
            r == complexity(lines(ir@), func_name@),
    {
        let cs = chars_of(ir);
        let ls = lines_of(cs.as_slice());
        complexity_exec(&ls, func_name)
    }

    /// Measures each function from its definition line to its next return: the bytes of
    /// the lines between, and its complexity in the whole text.
    pub fn analyze_functions(&mut self, ir: &str)
        requires
            old(self).function_metrics.wf(),
            18 * lines(ir@).len() <= usize::MAX,
            crate::codegen::optimization::dead_code_elim::total_bytes(lines(ir@)) <= usize::MAX,
        ensures
            final(self).function_metrics.wf(),
            final(self).strategies == old(self).strategies,
            final(self).statistics == old(self).statistics,
            ({
                let ls = lines(ir@);
                let recs = analysis(ls).2;
                forall|f: Seq<char>| {
                    &&& #[trigger] final(self).function_metrics.has(f) <==> old(self).function_metrics.has(f)
                        || last_size(recs, f) is Some
                    &&& last_size(recs, f) is Some ==> final(self).function_metrics.at(f) == (FunctionMetrics {
                        size: last_size(recs, f)->0 as usize,
                        call_count: 0,
                        is_recursive: false,
                        complexity: complexity(ls, f) as usize,
                    })
                    &&& last_size(recs, f) is None && old(self).function_metrics.has(f) ==> final(self).function_metrics.at(f)
                        == old(self).function_metrics.at(f)
                }
            }),
    {
        let cs = chars_of(ir);
        let ls_exec = lines_of(cs.as_slice());
        let ghost ls = seqs_of(ls_exec@);
        let mut current: Option<String> = None;
        let mut size: usize = 0;
        let mut i: usize = 0;
        proof {
            lemma_complexity_bound(ls, seq![], false);
        }
        while i < ls_exec.len()
            invariant
                ls == seqs_of(ls_exec@),
                i <= ls.len(),
                18 * ls.len() <= usize::MAX,
                crate::codegen::optimization::dead_code_elim::total_bytes(ls) <= usize::MAX,
                self.function_metrics.wf(),
                self.strategies == old(self).strategies,
                self.statistics == old(self).statistics,
                match (current, analysis(ls.take(i as int)).0) {
                    (Some(c), Some(a)) => c@ == a,
                    (None, None) => true,
                    _ => false,
                },
                size == analysis(ls.take(i as int)).1,
                forall|f: Seq<char>| {
                    let recs = analysis(ls.take(i as int)).2;
                    &&& #[trigger] self.function_metrics.has(f) <==> old(self).function_metrics.has(f)
                        || last_size(recs, f) is Some
                    &&& last_size(recs, f) is Some ==> self.function_metrics.at(f) == (FunctionMetrics {
                        size: last_size(recs, f)->0 as usize,
                        call_count: 0,
                        is_recursive: false,
                        complexity: complexity(ls, f) as usize,
                    })
                    &&& last_size(recs, f) is None && old(self).function_metrics.has(f) ==> self.function_metrics.at(f)
                        == old(self).function_metrics.at(f)
                },
            decreases ls.len() - i,
        {
            let l = &ls_exec[i];
            let ghost t = ls.take(i + 1);
            assert(t.drop_last() =~= ls.take(i as int));
            assert(t.last() == l@);
            proof {
                lemma_analysis_size(t);
                lemma_total_bytes_prefix(ls, i + 1);
            }
            if str_contains(l.as_slice(), "define ") {
                match named_function_exec(l.as_slice()) {
                    Some(f) => {
                        current = Some(string_of(f.as_slice()));
                        size = 0;
                    },
                    None => {},
                }
            } else if str_contains(l.as_slice(), "ret ") {
                match current {
                    Some(f) => {
                        let c = complexity_exec(&ls_exec, f.as_str());
                        let m = FunctionMetrics { size, call_count: 0, is_recursive: false, complexity: c };
                        let ghost ok = self.function_metrics.keys();
                        let ghost ov = self.function_metrics.vals();
                        let ghost fk = f@;
                        let ghost pre_map = self.function_metrics;
                        self.function_metrics.insert(f, m);
                        proof {
                            lemma_insert_facts(
                                ok,
                                ov,
                                self.function_metrics.keys(),
                                self.function_metrics.vals(),
                                fk,
                                m,
                            );
                            let recs0 = analysis(ls.take(i as int)).2;
                            let recs1 = analysis(t).2;
                            assert(recs1 == recs0.push((fk, size as nat)));
                            assert(last_size(recs1, fk) == Some(size as nat));
                            assert forall|x: Seq<char>| x != fk implies last_size(recs1, x) == last_size(recs0, x) by {
                                assert(recs1.drop_last() =~= recs0);
                            }
                            assert forall|x: Seq<char>| {
                                &&& #[trigger] self.function_metrics.has(x) <==> old(self).function_metrics.has(x)
                                    || last_size(recs1, x) is Some
                                &&& last_size(recs1, x) is Some ==> self.function_metrics.at(x) == (FunctionMetrics {
                                    size: last_size(recs1, x)->0 as usize,
                                    call_count: 0,
                                    is_recursive: false,
                                    complexity: complexity(ls, x) as usize,
                                })
                                &&& last_size(recs1, x) is None && old(self).function_metrics.has(x) ==> self.function_metrics.at(x)
                                    == old(self).function_metrics.at(x)
                            } by {
                                if x != fk {
                                    assert(last_size(recs1, x) == last_size(recs0, x));
                                    assert(pre_map.has(x) <==> old(self).function_metrics.has(x)
                                        || last_size(recs0, x) is Some);
                                    if pre_map.has(x) {
                                        assert(self.function_metrics.at(x) == pre_map.at(x));
                                    }
                                } else {
                                    assert(self.function_metrics.at(x) == m);
                                }
                            }
                        }
                        current = None;
                    },
                    None => {},
                }
            } else if current.is_some() {
                let s = string_of(l.as_slice());
                size = size + s.as_str().len();
            }
            i += 1;
        }
        assert(ls.take(ls.len() as int) =~= ls);
    }
}

proof fn lemma_total_bytes_prefix(ls: Seq<Seq<char>>, k: int)
    requires
        0 <= k <= ls.len(),
    ensures
        crate::codegen::optimization::dead_code_elim::total_bytes(ls.take(k))
            <= crate::codegen::optimization::dead_code_elim::total_bytes(ls),
    decreases ls.len() - k,
{
    if k < ls.len() {
        lemma_total_bytes_prefix(ls, k + 1);
        assert(ls.take(k + 1).drop_last() =~= ls.take(k));
    } else {
        assert(ls.take(k) =~= ls);
    }
}

fn strategies_decide(strats: &Vec<InliningStrategy>, m: &FunctionMetrics) -> (r: bool)
    ensures
        r == strategies_inline(strats@, *m),
{
    let mut i: usize = 0;
    assert(strats@.skip(0) =~= strats@);
    while i < strats.len()
        invariant
            i <= strats@.len(),
            strategies_inline(strats@, *m) == strategies_inline(strats@.skip(i as int), *m),
        decreases strats@.len() - i,
    {
        let ghost rest = strats@.skip(i as int);
        assert(rest[0] == strats@[i as int]);
        assert(rest.drop_first() =~= strats@.skip(i + 1));
        if strats[i].enabled && m.size < strats[i].threshold {
            return !m.is_recursive;
        }
        i += 1;
    }
    false
}

fn is_listed_inlinable(strats: &Vec<InliningStrategy>, m: &FunctionMetrics) -> (r: bool)
    ensures
        r == listed_inlinable(strats@, *m),
{
    strategies_decide(strats, m) && !m.is_recursive && m.size < 100
}

/// `l` calls a function that the metrics and strategies inline.
pub open spec fn inlines_call(strats: Seq<InliningStrategy>, fm: NameMap<FunctionMetrics>, l: Seq<char>) -> bool {
    contains(l, "call "@) && named_function(l) is Some && fm.has(named_function(l)->0)
        && strategies_inline(strats, fm.at(named_function(l)->0))
}

/// The line `inline_functions` writes for `l`.
pub open spec fn inlined_line(strats: Seq<InliningStrategy>, fm: NameMap<FunctionMetrics>, l: Seq<char>) -> Seq<char> {
    if inlines_call(strats, fm, l) {
        "; inlined "@ + named_function(l)->0
    } else {
        l
    }
}

/// How many lines `inline_functions` replaces.
pub open spec fn inlined_count(strats: Seq<InliningStrategy>, fm: NameMap<FunctionMetrics>, ls: Seq<Seq<char>>) -> nat
    decreases ls.len(),
{
    if ls.len() == 0 {
        0
    } else {
        inlined_count(strats, fm, ls.drop_last()) + if inlines_call(strats, fm, ls.last()) {
            1nat
        } else {
            0nat
        }
    }
}

impl Inliner {
    /// Whether the first enabled strategy whose threshold exceeds the function's size
    /// inlines it (a recursive function never).
    pub fn should_inline(&self, func_name: &str) -> (r: bool)
        requires
            self.function_metrics.wf(),
        ensures
            r == (self.function_metrics.has(func_name@) && strategies_inline(
                self.strategies@,
                self.function_metrics.at(func_name@),
            )),
    {
        match self.function_metrics.get(func_name) {
            Some(m) => strategies_decide(&self.strategies, m),
            None => false,
        }
    }

    /// Each call of a function to inline becomes a note naming it, trimmed; counts them.
    pub fn inline_functions(&mut self, ir: &str) -> (r: String)
        requires
            old(self).function_metrics.wf(),
            old(self).statistics.call_sites_eliminated + lines(ir@).len() <= usize::MAX,
            old(self).statistics.functions_inlined + lines(ir@).len() <= usize::MAX,
        ensures
            ({
                let ls = lines(ir@);
                let n = inlined_count(old(self).strategies@, old(self).function_metrics, ls);
                &&& r@ == trim(terminated(ls.map_values(
                    |l: Seq<char>| inlined_line(old(self).strategies@, old(self).function_metrics, l),
                )))
                &&& final(self).statistics == (InliningStats {
                    call_sites_eliminated: (old(self).statistics.call_sites_eliminated + n) as usize,
                    functions_inlined: (old(self).statistics.functions_inlined + n) as usize,
                    ..old(self).statistics
                })
                &&& final(self).strategies == old(self).strategies
                &&& final(self).function_metrics == old(self).function_metrics
            }),
    {
        let cs = chars_of(ir);
        let ls_exec = lines_of(cs.as_slice());
        let ghost ls = seqs_of(ls_exec@);
        let ghost strats = self.strategies@;
        let ghost fm = self.function_metrics;
        let ghost st = self.statistics;
        let mut out: Vec<Vec<char>> = Vec::new();
        let mut i: usize = 0;
        while i < ls_exec.len()
            invariant
                ls == seqs_of(ls_exec@),
                i <= ls.len(),
                strats == self.strategies@,
                fm == self.function_metrics,
                self.strategies == old(self).strategies,
                self.function_metrics == old(self).function_metrics,
                fm.wf(),
                seqs_of(out@) == ls.take(i as int).map_values(|l: Seq<char>| inlined_line(strats, fm, l)),
                self.statistics == (InliningStats {
                    call_sites_eliminated: (st.call_sites_eliminated + inlined_count(strats, fm, ls.take(i as int))) as usize,
                    functions_inlined: (st.functions_inlined + inlined_count(strats, fm, ls.take(i as int))) as usize,
                    ..st
                }),
                inlined_count(strats, fm, ls.take(i as int)) <= i,
                st.call_sites_eliminated + ls.len() <= usize::MAX,
                st.functions_inlined + ls.len() <= usize::MAX,
            decreases ls.len() - i,
        {
            let l = &ls_exec[i];
            let ghost t = ls.take(i + 1);
            assert(t.drop_last() =~= ls.take(i as int));
            assert(t.last() == l@);
            let mut line: Vec<char> = Vec::new();
            let mut done = false;
            if str_contains(l.as_slice(), "call ") {
                match named_function_exec(l.as_slice()) {
                    Some(f) => {
                        let name = string_of(f.as_slice());
                        if self.should_inline(name.as_str()) {
                            append_str(&mut line, "; inlined ");
                            append_chars(&mut line, f.as_slice());
                            self.statistics.call_sites_eliminated = self.statistics.call_sites_eliminated + 1;
                            self.statistics.functions_inlined = self.statistics.functions_inlined + 1;
                            done = true;
                        }
                    },
                    None => {},
                }
            }
            if !done {
                append_chars(&mut line, l.as_slice());
            }
            proof {
                lemma_seqs_of_push(out@, line);
                assert(t.map_values(|l: Seq<char>| inlined_line(strats, fm, l)) =~= ls.take(i as int).map_values(
                    |l: Seq<char>| inlined_line(strats, fm, l),
                ).push(line@));
            }
            out.push(line);
            i += 1;
        }
        assert(ls.take(ls.len() as int) =~= ls);
        let joined = terminated_exec(&out);
        let t = trim_exec(joined.as_slice());
        string_of(t.as_slice())
    }

    fn find_strategy(&self, strategy_name: &str) -> (r: Option<usize>)
        ensures
            match r {
                Some(i) => strategy_index(self.strategies@, strategy_name@) == Some(i as int) && i < self.strategies@.len(),
                None => strategy_index(self.strategies@, strategy_name@) is None,
            },
    {
        let mut i: usize = 0;
        while i < self.strategies.len()
            invariant
                i <= self.strategies@.len(),
                forall|j: int| 0 <= j < i ==> #[trigger] self.strategies@[j].name@ != strategy_name@,
            decreases self.strategies@.len() - i,
        {
            if str_eq(self.strategies[i].name.as_str(), strategy_name) {
                proof {
                    let ss = self.strategies@;
                    assert(ss[i as int].name@ == strategy_name@);
                    let c = choose|c: int| 0 <= c < ss.len() && ss[c].name@ == strategy_name@ && forall|j: int|
                        0 <= j < c ==> #[trigger] ss[j].name@ != strategy_name@;
                    if c < i {
                        assert(ss[c].name@ != strategy_name@);
                    }
                    if c > i {
                        assert(ss[i as int].name@ != strategy_name@);
                    }
                }
                return Some(i);
            }
            i += 1;
        }
        None
    }

    /// Enables the first strategy named `strategy_name`.
    pub fn enable_strategy(&mut self, strategy_name: &str) -> (r: Result<(), String>)
        ensures
            final(self).function_metrics == old(self).function_metrics,
            final(self).statistics == old(self).statistics,
            match strategy_index(old(self).strategies@, strategy_name@) {
                Some(i) => r is Ok && final(self).strategies@ == old(self).strategies@.update(
                    i,
                    InliningStrategy { enabled: true, ..old(self).strategies@[i] },
                ),
                None => r matches Err(e) && e@ == missing_strategy_msg(strategy_name@) && final(self).strategies
                    == old(self).strategies,
            },
    {
        match self.find_strategy(strategy_name) {
            Some(i) => {
                let filler = InliningStrategy { name: String::new(), enabled: false, threshold: 0 };
                let mut s = crate::seqs::take_at(&mut self.strategies, i, filler);
                s.enabled = true;
                self.strategies.set(i, s);
                Ok(())
            },
            None => Err(cat_str("Strategy ", strategy_name, " not found")),
        }
    }

    /// Disables the first strategy named `strategy_name`.
    pub fn disable_strategy(&mut self, strategy_name: &str) -> (r: Result<(), String>)
        ensures
            final(self).function_metrics == old(self).function_metrics,
            final(self).statistics == old(self).statistics,
            match strategy_index(old(self).strategies@, strategy_name@) {
                Some(i) => r is Ok && final(self).strategies@ == old(self).strategies@.update(
                    i,
                    InliningStrategy { enabled: false, ..old(self).strategies@[i] },
                ),
                None => r matches Err(e) && e@ == missing_strategy_msg(strategy_name@) && final(self).strategies
                    == old(self).strategies,
            },
    {
        match self.find_strategy(strategy_name) {
            Some(i) => {
                let filler = InliningStrategy { name: String::new(), enabled: false, threshold: 0 };
                let mut s = crate::seqs::take_at(&mut self.strategies, i, filler);
                s.enabled = false;
                self.strategies.set(i, s);
                Ok(())
            },
            None => Err(cat_str("Strategy ", strategy_name, " not found")),
        }
    }

    /// Sets the threshold of the first strategy named `strategy_name`.
    pub fn set_threshold(&mut self, strategy_name: &str, threshold: usize) -> (r: Result<(), String>)
        ensures
            final(self).function_metrics == old(self).function_metrics,
            final(self).statistics == old(self).statistics,
            match strategy_index(old(self).strategies@, strategy_name@) {
                Some(i) => r is Ok && final(self).strategies@ == old(self).strategies@.update(
                    i,
                    InliningStrategy { threshold, ..old(self).strategies@[i] },
                ),
                None => r matches Err(e) && e@ == missing_strategy_msg(strategy_name@) && final(self).strategies
                    == old(self).strategies,
            },
    {
        match self.find_strategy(strategy_name) {
            Some(i) => {
                let filler = InliningStrategy { name: String::new(), enabled: false, threshold: 0 };
                let mut s = crate::seqs::take_at(&mut self.strategies, i, filler);
                s.threshold = threshold;
                self.strategies.set(i, s);
                Ok(())
            },
            None => Err(cat_str("Strategy ", strategy_name, " not found")),
        }
    }
}

impl Inliner {
    /// A tenth of the size of each function larger than 100, summed.
    pub fn estimate_bloat(&self) -> (r: usize)
        requires
            self.function_metrics.wf(),
            crate::names::sum_of(self.function_metrics.vals(), |m: FunctionMetrics| bloat_of(m)) <= usize::MAX,
        ensures
            r == crate::names::sum_of(self.function_metrics.vals(), |m: FunctionMetrics| bloat_of(m)),
    {
        let ghost f = |m: FunctionMetrics| bloat_of(m);
        let ghost vs = self.function_metrics.vals();
        let mut bloat: usize = 0;
        let mut i: usize = 0;
        while i < self.function_metrics.len()
            invariant
                self.function_metrics.wf(),
                vs == self.function_metrics.vals(),
                vs.len() == self.function_metrics.keys().len(),
                f == (|m: FunctionMetrics| bloat_of(m)),
                i <= vs.len(),
                bloat == crate::names::sum_of(vs.take(i as int), f),
                crate::names::sum_of(vs, f) <= usize::MAX,
            decreases vs.len() - i,
        {
            let m = self.function_metrics.val_at(i);
            proof {
                assert(vs.take(i + 1).drop_last() =~= vs.take(i as int));
                assert forall|x: FunctionMetrics| #[trigger] f(x) >= 0 by {}
                crate::names::lemma_sum_prefix(vs, f, i + 1);
            }
            if m.size > 100 {
                bloat = bloat + m.size / 10;
            }
            i += 1;
        }
        assert(vs.take(vs.len() as int) =~= vs);
        bloat
    }

    /// The functions that would be inlined, are not recursive and are smaller than 100, in
    /// the order they were first analysed.
    pub fn get_inlinable_functions(&self) -> (r: Vec<String>)
        requires
            self.function_metrics.wf(),
        ensures
            views(r@) == crate::names::select(
                self.function_metrics.keys(),
                self.function_metrics.vals(),
                |m: FunctionMetrics| listed_inlinable(self.strategies@, m),
            ),
    {
        crate::names::keys_where(
            &self.strategies,
            &self.function_metrics,
            is_listed_inlinable,
            Ghost(|m: FunctionMetrics| listed_inlinable(self.strategies@, m)),
        )
    }

    pub fn get_statistics(&self) -> (r: InliningStats)
        ensures
            r == self.statistics,
    {
        self.statistics
    }

    /// The metrics recorded for `func_name`.
    pub fn get_function_metrics(&self, func_name: &str) -> (r: Option<FunctionMetrics>)
        requires
            self.function_metrics.wf(),
        ensures
            r == self.function_metrics.lookup(func_name@),
    {
        match self.function_metrics.get(func_name) {
            Some(m) => Some(FunctionMetrics {
                size: m.size,
                call_count: m.call_count,
                is_recursive: m.is_recursive,
                complexity: m.complexity,
            }),
            None => None,
        }
    }

    pub fn clear_statistics(&mut self)
        ensures
            final(self).statistics == (InliningStats {
                functions_inlined: 0,
                call_sites_eliminated: 0,
                bytes_saved: 0,
                code_bloat: 0,
            }),
            final(self).strategies == old(self).strategies,
            final(self).function_metrics == old(self).function_metrics,
    {
        self.statistics = InliningStats {
            functions_inlined: 0,
            call_sites_eliminated: 0,
            bytes_saved: 0,
            code_bloat: 0,
        };
    }
}

/// No strategy inlines a recursive function.
pub proof fn law_recursive_never_inlined(strats: Seq<InliningStrategy>, m: FunctionMetrics)
    requires
        m.is_recursive,
    ensures
        !strategies_inline(strats, m),
    decreases strats.len(),
{
    if strats.len() > 0 {
        law_recursive_never_inlined(strats.drop_first(), m);
    }
}

/// A function is inlined only when some enabled strategy's threshold exceeds its size.
pub proof fn law_inlined_under_some_threshold(strats: Seq<InliningStrategy>, m: FunctionMetrics)
    requires
        strategies_inline(strats, m),
    ensures
        exists|i: int| 0 <= i < strats.len() && #[trigger] strats[i].enabled && m.size < strats[i].threshold,
    decreases strats.len(),
{
    if strats[0].enabled && m.size < strats[0].threshold {
        assert(strats[0].enabled);
    } else {
        law_inlined_under_some_threshold(strats.drop_first(), m);
        let i = choose|i: int| 0 <= i < strats.drop_first().len() && #[trigger] strats.drop_first()[i].enabled
            && m.size < strats.drop_first()[i].threshold;
        assert(strats[i + 1].enabled);
    }
}

} // verus!
