//! Peephole rewrites over a small three-address instruction list, loop queries,
//! call-count inlining decisions and local patterns.
use vstd::prelude::*;
use crate::names::{NameMap, NameSet, bump_count, copy_string, lemma_insert_facts, str_eq, views};
use crate::seqs::{collapse, collapse_vec, filter_vec, lemma_collapse_len, take_all};
use crate::text::parse_i64;

verus! {

/// A three-address instruction.
#[allow(inconsistent_fields)]
#[derive(Debug, Clone, PartialEq)]
pub enum Instruction {
    Load { dst: String, src: String },
    Store { dst: String, src: String },
    Add { dst: String, left: String, right: String },
    Sub { dst: String, left: String, right: String },
    Mul { dst: String, left: String, right: String },
    Div { dst: String, left: String, right: String },
    Jump { target: usize },
    CondJump { target: usize, cond: String },
    Return { value: Option<String> },
}

/// `x = y` directly followed by a load from `x` when `x` and `y` are one variable.
pub open spec fn redundant_move(a: Instruction, b: Instruction) -> bool {
    match (a, b) {
        (Instruction::Load { dst: d1, src: s1 }, Instruction::Load { dst: _, src: s2 }) => d1@ == s2@ && s1@ == s2@,
        _ => false,
    }
}

/// Two loads with the same destination and source.
pub open spec fn same_load(a: Instruction, b: Instruction) -> bool {
    match (a, b) {
        (Instruction::Load { dst: d1, src: s1 }, Instruction::Load { dst: d2, src: s2 }) => d1@ == d2@ && s1@ == s2@,
        _ => false,
    }
}

/// The instruction reads variable `x`.
pub open spec fn reads_var(i: Instruction, x: Seq<char>) -> bool {
    match i {
        Instruction::Load { src, .. } => src@ == x,
        Instruction::Add { left, right, .. } => left@ == x || right@ == x,
        Instruction::Sub { left, right, .. } => left@ == x || right@ == x,
        Instruction::Mul { left, right, .. } => left@ == x || right@ == x,
        Instruction::Div { left, right, .. } => left@ == x || right@ == x,
        Instruction::CondJump { cond, .. } => cond@ == x,
        Instruction::Return { value: Some(v) } => v@ == x,
        _ => false,
    }
}

/// Some instruction of `s` reads `x`.
pub open spec fn read_anywhere(s: Seq<Instruction>, x: Seq<char>) -> bool {
    exists|k: int| 0 <= k < s.len() && #[trigger] reads_var(s[k], x)
}

/// A store survives when something in `s` reads its destination; everything else survives.
pub open spec fn live_in(s: Seq<Instruction>) -> spec_fn(Instruction) -> bool {
    |i: Instruction| match i {
        Instruction::Store { dst, .. } => read_anywhere(s, dst@),
        _ => true,
    }
}

fn is_redundant_move(a: &Instruction, b: &Instruction) -> (r: bool)
    ensures
        r == redundant_move(*a, *b),
{
    match (a, b) {
        (Instruction::Load { dst: d1, src: s1 }, Instruction::Load { dst: _, src: s2 }) => str_eq(d1.as_str(), s2.as_str())
            && str_eq(s1.as_str(), s2.as_str()),
        _ => false,
    }
}

fn is_same_load(a: &Instruction, b: &Instruction) -> (r: bool)
    ensures
        r == same_load(*a, *b),
{
    match (a, b) {
        (Instruction::Load { dst: d1, src: s1 }, Instruction::Load { dst: d2, src: s2 }) => str_eq(d1.as_str(), d2.as_str())
            && str_eq(s1.as_str(), s2.as_str()),
        _ => false,
    }
}

fn is_live(reads: &NameSet, i: &Instruction) -> (r: bool)
    ensures
        r == match *i {
            Instruction::Store { dst, .. } => reads.has(dst@),
            _ => true,
        },
{
    match i {
        Instruction::Store { dst, .. } => reads.contains(dst.as_str()),
        _ => true,
    }
}

/// Adds the variables `i` reads to `reads`.
fn note_reads(reads: &mut NameSet, i: &Instruction)
    requires
        old(reads).wf(),
    ensures
        final(reads).wf(),
        forall|x: Seq<char>| #[trigger] final(reads).has(x) <==> old(reads).has(x) || reads_var(*i, x),
{
    match i {
        Instruction::Load { src, .. } => {
            reads.insert(src.clone());
        },
        Instruction::Add { left, right, .. } => {
            reads.insert(left.clone());
            reads.insert(right.clone());
        },
        Instruction::Sub { left, right, .. } => {
            reads.insert(left.clone());
            reads.insert(right.clone());
        },
        Instruction::Mul { left, right, .. } => {
            reads.insert(left.clone());
            reads.insert(right.clone());
        },
        Instruction::Div { left, right, .. } => {
            reads.insert(left.clone());
            reads.insert(right.clone());
        },
        Instruction::CondJump { cond, .. } => {
            reads.insert(cond.clone());
        },
        Instruction::Return { value } => {
            match value {
                Some(v) => {
                    reads.insert(v.clone());
                },
                None => {},
            }
        },
        _ => {},
    }
}

/// Rewrites short instruction sequences.
pub struct PeepholeOptimizer {
    instructions: Vec<Instruction>,
}

impl PeepholeOptimizer {
    /// The current instructions.
    pub closed spec fn code(&self) -> Seq<Instruction> {
        self.instructions@
    }

    pub fn new(instructions: Vec<Instruction>) -> (r: Self)
        ensures
            r.code() == instructions@,
    {
        PeepholeOptimizer { instructions }
    }

    /// Drops each load that reads back what a self-move just wrote; returns how many.
    pub fn eliminate_redundant_moves(&mut self) -> (r: usize)
        ensures
            final(self).code() == collapse(old(self).code(), |a: Instruction, b: Instruction| redundant_move(a, b)),
            r == old(self).code().len() - final(self).code().len(),
    {
        let v = take_all(&mut self.instructions);
        let n = v.len();
        let out = collapse_vec(v, is_redundant_move, Ghost(|a: Instruction, b: Instruction| redundant_move(a, b)));
        proof {
            lemma_collapse_len(old(self).code(), |a: Instruction, b: Instruction| redundant_move(a, b));
        }
        let m = out.len();
        self.instructions = out;
        n - m
    }

    /// Drops stores to variables that no instruction reads; returns how many.
    pub fn remove_dead_stores(&mut self) -> (r: usize)
        ensures
            final(self).code() == old(self).code().filter(live_in(old(self).code())),
            r == old(self).code().len() - final(self).code().len(),
    {
        let ghost orig = self.instructions@;
        let mut reads = NameSet::new();
        let mut i: usize = 0;
        while i < self.instructions.len()
            invariant
                self.instructions@ == orig,
                i <= orig.len(),
                reads.wf(),
                forall|x: Seq<char>| #[trigger] reads.has(x) <==> exists|k: int| 0 <= k < i && #[trigger] reads_var(
                    orig[k],
                    x,
                ),
            decreases orig.len() - i,
        {
            note_reads(&mut reads, &self.instructions[i]);
            assert forall|x: Seq<char>| #[trigger] reads.has(x) <==> exists|k: int| 0 <= k < i + 1 && #[trigger] reads_var(
                orig[k],
                x,
            ) by {
                if reads_var(orig[i as int], x) {
                    assert(0 <= i < i + 1);
                }
            }
            i += 1;
        }
        let v = take_all(&mut self.instructions);
        let n = v.len();
        let ghost p = live_in(orig);
        proof {
            assert forall|a: &Instruction, x: bool| is_live.ensures((&reads, a), x) implies x == p(*a) by {
                match *a {
                    Instruction::Store { dst, .. } => {
                        assert(reads.has(dst@) == read_anywhere(orig, dst@));
                    },
                    _ => {},
                }
            }
        }
        let out = filter_vec(&reads, v, is_live, Ghost(p));
        proof {
            orig.filter_lemma(p);
        }
        let m = out.len();
        self.instructions = out;
        n - m
    }

    /// Drops each load identical to the load kept just before it; returns how many.
    pub fn combine_identical_ops(&mut self) -> (r: usize)
        ensures
            final(self).code() == collapse(old(self).code(), |a: Instruction, b: Instruction| same_load(a, b)),
            r == old(self).code().len() - final(self).code().len(),
    {
        let v = take_all(&mut self.instructions);
        let n = v.len();
        let out = collapse_vec(v, is_same_load, Ghost(|a: Instruction, b: Instruction| same_load(a, b)));
        proof {
            lemma_collapse_len(old(self).code(), |a: Instruction, b: Instruction| same_load(a, b));
        }
        let m = out.len();
        self.instructions = out;
        n - m
    }

    /// The three rewrites in turn; returns how many instructions they removed in all.
    pub fn optimize(&mut self) -> (r: usize)
        ensures
            final(self).code() == collapse(
                collapse(old(self).code(), |a: Instruction, b: Instruction| redundant_move(a, b)).filter(
                    live_in(collapse(old(self).code(), |a: Instruction, b: Instruction| redundant_move(a, b))),
                ),
                |a: Instruction, b: Instruction| same_load(a, b),
            ),
            r == old(self).code().len() - final(self).code().len(),
    {
        let n = self.instructions.len();
        let mut total: usize = 0;
        total += self.eliminate_redundant_moves();
        total += self.remove_dead_stores();
        total += self.combine_identical_ops();
        total
    }
}

/// The positions in `lo..hi` of `s` whose instruction passes `p`, in order.
pub open spec fn positions_where(s: Seq<Instruction>, lo: int, hi: int, p: spec_fn(Instruction) -> bool) -> Seq<usize>
    decreases hi - lo,
{
    if hi <= lo {
        seq![]
    } else {
        let r = positions_where(s, lo, hi - 1, p);
        if p(s[hi - 1]) {
            r.push((hi - 1) as usize)
        } else {
            r
        }
    }
}

/// The end of a range cut at the length of the code.
pub open spec fn range_end(s: Seq<Instruction>, end: usize) -> int {
    if end < s.len() {
        end as int
    } else {
        s.len() as int
    }
}

proof fn lemma_positions_len(s: Seq<Instruction>, lo: int, hi: int, p: spec_fn(Instruction) -> bool)
    ensures
        positions_where(s, lo, hi, p).len() <= if hi > lo {
            hi - lo
        } else {
            0
        },
    decreases hi - lo,
{
    if hi > lo {
        lemma_positions_len(s, lo, hi - 1, p);
    }
}

/// Queries about a loop's instructions.
pub struct LoopOptimizer {
    instructions: Vec<Instruction>,
}

impl LoopOptimizer {
    pub closed spec fn code(&self) -> Seq<Instruction> {
        self.instructions@
    }

    pub fn new(instructions: Vec<Instruction>) -> (r: Self)
        ensures
            r.code() == instructions@,
    {
        LoopOptimizer { instructions }
    }

    /// The positions of the loads in the loop body (loads count as loop invariant).
    pub fn detect_loop_invariants(&self, loop_start: usize, loop_end: usize) -> (r: Vec<usize>)
        ensures
            r@ == positions_where(self.code(), loop_start as int, range_end(self.code(), loop_end), |i: Instruction| i is Load),
    {
        self.positions(loop_start, loop_end, false)
    }

    fn positions(&self, loop_start: usize, loop_end: usize, jumps: bool) -> (r: Vec<usize>)
        ensures
            r@ == positions_where(self.code(), loop_start as int, range_end(self.code(), loop_end), if jumps {
                |i: Instruction| i is Jump
            } else {
                |i: Instruction| i is Load
            }),
    {
        let ghost p = if jumps {
            |i: Instruction| i is Jump
        } else {
            |i: Instruction| i is Load
        };
        let stop = if loop_end < self.instructions.len() {
            loop_end
        } else {
            self.instructions.len()
        };
        let mut r: Vec<usize> = Vec::new();
        if loop_start >= stop {
            return r;
        }
        let mut i: usize = loop_start;
        while i < stop
            invariant
                loop_start <= i <= stop,
                stop as int == range_end(self.code(), loop_end),
                stop <= self.instructions@.len(),
                p == (if jumps {
                    |i: Instruction| i is Jump
                } else {
                    |i: Instruction| i is Load
                }),
                r@ == positions_where(self.code(), loop_start as int, i as int, p),
            decreases stop - i,
        {
            let hit = match &self.instructions[i] {
                Instruction::Jump { .. } => jumps,
                Instruction::Load { .. } => !jumps,
                _ => false,
            };
            if hit {
                r.push(i);
            }
            i += 1;
        }
        r
    }

    /// The number of jumps in the loop body, when there is one.
    pub fn estimate_loop_iterations(&self, loop_start: usize, loop_end: usize) -> (r: Option<usize>)
        ensures
            ({
                let c = positions_where(self.code(), loop_start as int, range_end(self.code(), loop_end), |i: Instruction| i is Jump).len();
                r == if c > 0 {
                    Some(c as usize)
                } else {
                    None::<usize>
                }
            }),
    {
        let jumps = self.positions(loop_start, loop_end, true);
        if jumps.len() > 0 {
            Some(jumps.len())
        } else {
            None
        }
    }

    /// A loop can be unrolled when it spans fewer than 50 instructions and has a jump.
    pub fn can_unroll(&self, loop_start: usize, loop_end: usize) -> (r: bool)
        requires
            loop_start <= loop_end,
        ensures
            r == (loop_end - loop_start < 50 && positions_where(
                self.code(),
                loop_start as int,
                range_end(self.code(), loop_end),
                |i: Instruction| i is Jump,
            ).len() > 0),
    {
        let size = loop_end - loop_start;
        size < 50 && self.estimate_loop_iterations(loop_start, loop_end).is_some()
    }
}

/// Decides inlining from sizes and call counts.
pub struct InliningOptimizer {
    function_sizes: NameMap<usize>,
    function_call_count: NameMap<usize>,
}

/// A function's size, taken as 1000 when unknown.
pub open spec fn size_or_default(m: NameMap<usize>, name: Seq<char>) -> int {
    if m.has(name) {
        m.at(name) as int
    } else {
        1000
    }
}

/// A function's call count, taken as 0 when unknown.
pub open spec fn calls_or_zero(m: NameMap<usize>, name: Seq<char>) -> int {
    if m.has(name) {
        m.at(name) as int
    } else {
        0
    }
}

impl InliningOptimizer {
    pub closed spec fn sizes(&self) -> NameMap<usize> {
        self.function_sizes
    }

    pub closed spec fn calls(&self) -> NameMap<usize> {
        self.function_call_count
    }

    pub open spec fn wf(&self) -> bool {
        self.sizes().wf() && self.calls().wf()
    }

    pub fn new() -> (r: Self)
        ensures
            r.wf(),
            r.sizes().keys().len() == 0,
            r.calls().keys().len() == 0,
    {
        InliningOptimizer { function_sizes: NameMap::new(), function_call_count: NameMap::new() }
    }

    /// Records a function's size, replacing an earlier one.
    pub fn register_function(&mut self, name: String, size: usize)
        requires
            old(self).wf(),
        ensures
            final(self).wf(),
            final(self).calls() == old(self).calls(),
            size_or_default(final(self).sizes(), name@) == size,
            forall|x: Seq<char>| x != name@ ==> #[trigger] size_or_default(final(self).sizes(), x) == size_or_default(
                old(self).sizes(),
                x,
            ),
    {
        let ghost ok = self.function_sizes.keys();
        let ghost ov = self.function_sizes.vals();
        let ghost n = name@;
        self.function_sizes.insert(name, size);
        proof {
            lemma_insert_facts(ok, ov, self.function_sizes.keys(), self.function_sizes.vals(), n, size);
        }
    }

    /// Counts one more call of `name`.
    pub fn record_call(&mut self, name: String)
        requires
            old(self).wf(),
            calls_or_zero(old(self).calls(), name@) < usize::MAX,
        ensures
            final(self).wf(),
            final(self).sizes() == old(self).sizes(),
            calls_or_zero(final(self).calls(), name@) == calls_or_zero(old(self).calls(), name@) + 1,
            forall|x: Seq<char>| x != name@ ==> #[trigger] calls_or_zero(final(self).calls(), x) == calls_or_zero(
                old(self).calls(),
                x,
            ),
    {
        bump_count(&mut self.function_call_count, name.as_str());
    }

    /// A function's size (1000 when unknown) and call count (0 when unknown), from which
    /// its inlining score is computed.
    pub fn inlining_inputs(&self, name: &str) -> (r: (usize, usize))
        requires
            self.wf(),
        ensures
            r.0 == size_or_default(self.sizes(), name@),
            r.1 == calls_or_zero(self.calls(), name@),
    {
        let size: usize = match self.function_sizes.get(name) {
            Some(s) => *s,
            None => 1000,
        };
        let calls: usize = match self.function_call_count.get(name) {
            Some(c) => *c,
            None => 0,
        };
        (size, calls)
    }

    /// The functions whose sizes were registered, in the order first registered.
    pub fn registered_functions(&self) -> (r: Vec<String>)
        requires
            self.wf(),
        ensures
            views(r@) == self.sizes().keys(),
    {
        let n = self.function_sizes.len();
        let mut r: Vec<String> = Vec::new();
        let mut i: usize = 0;
        while i < n
            invariant
                self.wf(),
                n == self.sizes().keys().len(),
                i <= n,
                views(r@) == self.sizes().keys().take(i as int),
            decreases n - i,
        {
            let k = copy_string(self.function_sizes.key_at(i));
            let ghost before = r@;
            r.push(k);
            assert(views(r@) =~= views(before).push(k@));
            assert(self.sizes().keys().take(i + 1) =~= self.sizes().keys().take(i as int).push(self.sizes().keys()[i as int]));
            i += 1;
        }
        assert(self.sizes().keys().take(n as int) =~= self.sizes().keys());
        r
    }

    /// Small functions called more than twice, and very small functions called at all.
    pub fn should_inline(&self, name: &str) -> (r: bool)
        requires
            self.wf(),
        ensures
            ({
                let size = size_or_default(self.sizes(), name@);
                let calls = calls_or_zero(self.calls(), name@);
                r == ((size < 100 && calls > 2) || (calls >= 1 && size < 20))
            }),
    {
        let size: usize = match self.function_sizes.get(name) {
            Some(s) => *s,
            None => 1000,
        };
        let calls: usize = match self.function_call_count.get(name) {
            Some(c) => *c,
            None => 0,
        };
        (size < 100 && calls > 2) || (calls >= 1 && size < 20)
    }
}

/// Local patterns over single instructions and pairs.
pub struct PatternOptimizer;

/// An arithmetic operator integer folding handles here.
pub open spec fn foldable_operator(op: Seq<char>) -> bool {
    op == "+"@ || op == "-"@ || op == "*"@ || op == "/"@ || op == "&"@ || op == "|"@ || op == "^"@
}

impl PatternOptimizer {
    /// A load or store of a variable into itself.
    pub fn detect_self_assignment(instr: &Instruction) -> (r: bool)
        ensures
            r == match *instr {
                Instruction::Load { dst, src } => dst@ == src@,
                Instruction::Store { dst, src } => dst@ == src@,
                _ => false,
            },
    {
        match instr {
            Instruction::Load { dst, src } => str_eq(dst.as_str(), src.as_str()),
            Instruction::Store { dst, src } => str_eq(dst.as_str(), src.as_str()),
            _ => false,
        }
    }

    /// Two stores to the same variable.
    pub fn detect_dead_store(instr1: &Instruction, instr2: &Instruction) -> (r: bool)
        ensures
            r == match (*instr1, *instr2) {
                (Instruction::Store { dst: d1, .. }, Instruction::Store { dst: d2, .. }) => d1@ == d2@,
                _ => false,
            },
    {
        match (instr1, instr2) {
            (Instruction::Store { dst: d1, .. }, Instruction::Store { dst: d2, .. }) => str_eq(d1.as_str(), d2.as_str()),
            _ => false,
        }
    }

    /// Both operands are `i64` literals and the operator is one integer folding handles.
    pub fn can_fold_operation(left: &str, op: &str, right: &str) -> (r: bool)
        ensures
            r == (crate::text::parse_i64_spec(left@) is Some && crate::text::parse_i64_spec(right@) is Some
                && foldable_operator(op@)),
    {
        let l = crate::text::chars_of(left);
        let rr = crate::text::chars_of(right);
        parse_i64(l.as_slice()).is_some() && parse_i64(rr.as_slice()).is_some() && (str_eq(op, "+") || str_eq(op, "-")
            || str_eq(op, "*") || str_eq(op, "/") || str_eq(op, "&") || str_eq(op, "|") || str_eq(op, "^"))
    }
}

} // verus!
