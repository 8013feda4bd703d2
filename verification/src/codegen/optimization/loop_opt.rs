//! Loop passes over IR text: finding loops, hoisting invariant lines, peeling marks,
//! iteration counts and strength reduction.
use vstd::prelude::*;
use crate::names::IdMap;
use crate::text::{
    append_chars, append_str, chars_of, contains, find_first, lines, lines_of, matches_at,
    parse_usize, parse_usize_spec, push_usize, replace, replace_str, seqs_of, str_contains,
    string_of, terminated, terminated_exec, trim, trim_exec, dec, lemma_seqs_of_push,
};

verus! {

/// What the loop passes have done so far.
#[derive(Debug, Clone, Copy)]
pub struct LoopOptStats {
    pub loops_unrolled: usize,
    pub invariants_hoisted: usize,
    pub iterations_reduced: usize,
    pub peeling_applied: usize,
}

/// A loop found in the text, by line indices.
#[derive(Debug, Clone)]
pub struct LoopInfo {
    pub header: usize,
    pub body_lines: Vec<usize>,
    pub latch: usize,
    pub exit: usize,
    pub invariant_instructions: Vec<usize>,
}

/// A line that opens a loop.
pub open spec fn is_loop_marker(l: Seq<char>) -> bool {
    contains(l, "loop:"@) || contains(l, "for_body"@)
}

/// Some line from `start` to `j` opens a loop.
pub open spec fn marker_seen(ls: Seq<Seq<char>>, start: int, j: int) -> bool {
    exists|k: int| start <= k <= j && #[trigger] is_loop_marker(ls[k])
}

/// The first line from `cur` on that branches to a label after a loop opened at or
/// after `start`.
pub open spec fn latch_from(ls: Seq<Seq<char>>, start: int, cur: int) -> Option<int>
    decreases ls.len() - cur,
{
    if cur < 0 || cur >= ls.len() {
        None
    } else if contains(ls[cur], "br label%"@) && marker_seen(ls, start, cur) {
        Some(cur)
    } else {
        latch_from(ls, start, cur + 1)
    }
}

/// The lines after `start`, up to `c`, at which a loop has opened.
pub open spec fn body_upto(ls: Seq<Seq<char>>, start: int, c: int) -> Seq<usize>
    decreases c - start,
{
    if c <= start {
        seq![]
    } else if marker_seen(ls, start, c) {
        body_upto(ls, start, c - 1).push(c as usize)
    } else {
        body_upto(ls, start, c - 1)
    }
}

/// `li` is the loop whose header is `li.header`: latch, exit, body, no invariants yet.
pub open spec fn describes(ls: Seq<Seq<char>>, li: LoopInfo) -> bool {
    &&& latch_from(ls, li.header as int, li.header as int) == Some(li.latch as int)
    &&& li.exit == li.latch + 1
    &&& li.body_lines@ == body_upto(ls, li.header as int, li.latch as int)
    &&& li.invariant_instructions@.len() == 0
}

/// The headers, below `k`, of the loops that `identify_loops` finds.
pub open spec fn loop_headers(ls: Seq<Seq<char>>, k: int) -> Seq<int>
    decreases k,
{
    if k <= 0 {
        seq![]
    } else if is_loop_marker(ls[k - 1]) && latch_from(ls, k - 1, k - 1) is Some {
        loop_headers(ls, k - 1).push(k - 1)
    } else {
        loop_headers(ls, k - 1)
    }
}

/// A line that reads no induction variable `i`.
pub open spec fn is_invariant_line(l: Seq<char>) -> bool {
    !contains(l, "i "@) && !contains(l, "[i]"@) && !contains(l, "*i"@) && !contains(l, "i*"@)
}

/// The body of the loop headed at `h`.
pub open spec fn loop_body(ls: Seq<Seq<char>>, h: int) -> Seq<usize> {
    body_upto(ls, h, latch_from(ls, h, h)->0)
}

/// The body lines of the loops headed at `hs`, loop by loop, that exist and are invariant.
pub open spec fn hoisted(ls: Seq<Seq<char>>, hs: Seq<int>) -> Seq<usize>
    decreases hs.len(),
{
    if hs.len() == 0 {
        seq![]
    } else {
        hoisted(ls, hs.drop_last()) + loop_body(ls, hs.last()).filter(
            |j: usize| j < ls.len() && is_invariant_line(ls[j as int]),
        )
    }
}

/// A line that counts as one loop iteration for peeling.
pub open spec fn is_iteration_line(l: Seq<char>) -> bool {
    contains(l, "iteration"@) || contains(l, "loop_body"@)
}

/// Peeling over `ls` with `peels` peels: the output lines, the iterations met, and the
/// peels made.
pub open spec fn peel(ls: Seq<Seq<char>>, peels: nat) -> (Seq<Seq<char>>, nat, nat)
    decreases ls.len(),
{
    if ls.len() == 0 {
        (seq![], 0, 0)
    } else {
        let (out, it, applied) = peel(ls.drop_last(), peels);
        let l = ls.last();
        if is_iteration_line(l) {
            if it + 1 <= peels {
                (out.push(l).push("; peeled iteration "@ + dec(it + 1)), it + 1, applied + 1)
            } else {
                (out.push(l), it + 1, applied)
            }
        } else {
            (out.push(l), it, applied)
        }
    }
}

proof fn lemma_peel_bounds(ls: Seq<Seq<char>>, peels: nat)
    ensures
        peel(ls, peels).1 <= ls.len(),
        peel(ls, peels).2 <= peel(ls, peels).1,
    decreases ls.len(),
{
    if ls.len() > 0 {
        lemma_peel_bounds(ls.drop_last(), peels);
    }
}

/// The first position of `..` in `l`.
pub open spec fn first_dots(l: Seq<char>) -> int {
    choose|i: int| matches_at(l, ".."@, i) && forall|j: int| 0 <= j < i ==> !#[trigger] matches_at(l, ".."@, j)
}

/// The iteration count a `for i in 0..N` line states: the numeric run after its first
/// `..`, parsed.
pub open spec fn iteration_count(l: Seq<char>) -> Option<usize> {
    if contains(l, "for i in 0.."@) {
        parse_usize_spec(crate::text::numeric_prefix(l.skip(first_dots(l) + 2)))
    } else {
        None
    }
}

/// The indices, below `k`, of the lines that state an iteration count.
pub open spec fn counted_lines(ls: Seq<Seq<char>>, k: int) -> Seq<usize>
    decreases k,
{
    if k <= 0 {
        seq![]
    } else if iteration_count(ls[k - 1]) is Some {
        counted_lines(ls, k - 1).push((k - 1) as usize)
    } else {
        counted_lines(ls, k - 1)
    }
}

/// How many lines, below `k`, state an iteration count under 10.
pub open spec fn short_counts(ls: Seq<Seq<char>>, k: int) -> nat
    decreases k,
{
    if k <= 0 {
        0
    } else {
        short_counts(ls, k - 1) + match iteration_count(ls[k - 1]) {
            Some(c) => if c < 10 {
                1nat
            } else {
                0nat
            },
            None => 0nat,
        }
    }
}

proof fn lemma_short_counts_bound(ls: Seq<Seq<char>>, k: int)
    requires
        0 <= k,
    ensures
        short_counts(ls, k) <= k,
    decreases k,
{
    if k > 0 {
        lemma_short_counts_bound(ls, k - 1);
    }
}

/// The notes for the counted loops of at most `threshold` iterations, in line order.
pub open spec fn unroll_notes(ls: Seq<Seq<char>>, idxs: Seq<usize>, threshold: usize) -> Seq<char>
    decreases idxs.len(),
{
    if idxs.len() == 0 {
        seq![]
    } else {
        let i = idxs.last();
        let c = iteration_count(ls[i as int])->0;
        unroll_notes(ls, idxs.drop_last(), threshold) + if c <= threshold {
            "; unrolled loop "@ + dec(i as nat) + " ("@ + dec(c as nat) + " iterations)\n"@
        } else {
            seq![]
        }
    }
}

/// How many counted loops have at most `threshold` iterations.
pub open spec fn unroll_count(ls: Seq<Seq<char>>, idxs: Seq<usize>, threshold: usize) -> nat
    decreases idxs.len(),
{
    if idxs.len() == 0 {
        0
    } else {
        unroll_count(ls, idxs.drop_last(), threshold) + if iteration_count(ls[idxs.last() as int])->0
            <= threshold {
            1nat
        } else {
            0nat
        }
    }
}

/// A line after strength reduction: doubling by multiplication becomes a shift left,
/// halving by division a shift right.
pub open spec fn reduce_line(l: Seq<char>) -> Seq<char> {
    if contains(l, "mul i64 "@) && contains(l, ", 2"@) {
        replace(l, "mul i64 "@, "shl i64 "@)
    } else if contains(l, "div i64 "@) && contains(l, ", 2"@) {
        replace(l, "div i64 "@, "shr i64 "@)
    } else {
        l
    }
}

/// The lines whose index is not in `drop`, in order.
pub open spec fn lines_without(ls: Seq<Seq<char>>, drop: Seq<usize>) -> Seq<Seq<char>>
    decreases ls.len(),
{
    if ls.len() == 0 {
        seq![]
    } else if drop.contains((ls.len() - 1) as usize) {
        lines_without(ls.drop_last(), drop)
    } else {
        lines_without(ls.drop_last(), drop).push(ls.last())
    }
}

fn holds_index(v: &Vec<usize>, x: usize) -> (r: bool)
    ensures
        r == v@.contains(x),
{
    let mut i: usize = 0;
    while i < v.len()
        invariant
            i <= v.len(),
            forall|j: int| 0 <= j < i ==> v@[j] != x,
        decreases v.len() - i,
    {
        if v[i] == x {
            assert(v@[i as int] == x);
            return true;
        }
        i += 1;
    }
    false
}

fn is_loop_marker_exec(l: &[char]) -> (r: bool)
    ensures
        r == is_loop_marker(l@),
{
    str_contains(l, "loop:") || str_contains(l, "for_body")
}

/// The loop passes and their counts.
#[derive(Debug, Clone)]
pub struct LoopOptimizer {
    pub statistics: LoopOptStats,
}

impl LoopOptimizer {
    pub fn new() -> (r: Self)
        ensures
            r.statistics == (LoopOptStats {
                loops_unrolled: 0,
                invariants_hoisted: 0,
                iterations_reduced: 0,
                peeling_applied: 0,
            }),
    {
        LoopOptimizer {
            statistics: LoopOptStats {
                loops_unrolled: 0,
                invariants_hoisted: 0,
                iterations_reduced: 0,
                peeling_applied: 0,
            },
        }
    }

    /// The loop headed at line `start`: from `start` on, the first branch to a label once
    /// a loop has opened is its latch, and the lines after `start` at which a loop has
    /// opened are its body.
    pub fn extract_loop(&self, lines: &Vec<Vec<char>>, start: usize) -> (r: Option<LoopInfo>)
        ensures
            match r {
                Some(li) => li.header == start && describes(seqs_of(lines@), li),
                None => latch_from(seqs_of(lines@), start as int, start as int) is None,
            },
    {
        let ghost ls = seqs_of(lines@);
        let mut body_lines: Vec<usize> = Vec::new();
        let mut current = start;
        let mut depth: usize = 0;
        while current < lines.len()
            invariant
                ls == seqs_of(lines@),
                start <= current,
                current <= lines@.len() || current == start,
                depth <= current - start,
                current == start ==> depth == 0,
                current > start ==> (depth > 0 <==> marker_seen(ls, start as int, current - 1)),
                body_lines@ == body_upto(ls, start as int, current - 1),
                latch_from(ls, start as int, start as int) == latch_from(ls, start as int, current as int),
            decreases lines@.len() - current,
        {
            let line = &lines[current];
            assert(line@ == ls[current as int]);
            if is_loop_marker_exec(line.as_slice()) {
                depth += 1;
            }
            proof {
                if current > start {
                    if marker_seen(ls, start as int, current - 1) {
                        let k = choose|k: int| start <= k <= current - 1 && #[trigger] is_loop_marker(ls[k]);
                        assert(start <= k <= current && is_loop_marker(ls[k]));
                    }
                    if marker_seen(ls, start as int, current as int) && !is_loop_marker(ls[current as int]) {
                        let k = choose|k: int| start <= k <= current && #[trigger] is_loop_marker(ls[k]);
                        assert(k <= current - 1);
                    }
                } else {
                    if marker_seen(ls, start as int, current as int) {
                        let k = choose|k: int| start <= k <= current && #[trigger] is_loop_marker(ls[k]);
                        assert(k == current);
                    }
                }
                if is_loop_marker(ls[current as int]) {
                    assert(marker_seen(ls, start as int, current as int));
                }
                assert(depth > 0 <==> marker_seen(ls, start as int, current as int));
            }
            if depth > 0 && current != start {
                body_lines.push(current);
            }
            if str_contains(line.as_slice(), "br label%") && depth > 0 {
                let r = LoopInfo {
                    header: start,
                    body_lines: body_lines.clone(),
                    latch: current,
                    exit: current + 1,
                    invariant_instructions: Vec::new(),
                };
                assert(r.body_lines@ == body_lines@);
                return Some(r);
            }
            current += 1;
        }
        None
    }

    fn find_loops(&self, lines: &Vec<Vec<char>>) -> (r: Vec<LoopInfo>)
        ensures
            r@.len() == loop_headers(seqs_of(lines@), lines@.len() as int).len(),
            forall|i: int|
                0 <= i < r@.len() ==> (#[trigger] r@[i]).header == loop_headers(
                    seqs_of(lines@),
                    lines@.len() as int,
                )[i] && describes(seqs_of(lines@), r@[i]),
    {
        let ghost ls = seqs_of(lines@);
        let mut loops: Vec<LoopInfo> = Vec::new();
        let mut idx: usize = 0;
        while idx < lines.len()
            invariant
                idx <= lines@.len(),
                ls == seqs_of(lines@),
                loops@.len() == loop_headers(ls, idx as int).len(),
                forall|i: int|
                    0 <= i < loops@.len() ==> (#[trigger] loops@[i]).header == loop_headers(ls, idx as int)[i]
                        && describes(ls, loops@[i]),
            decreases lines@.len() - idx,
        {
            let line = &lines[idx];
            assert(line@ == ls[idx as int]);
            if is_loop_marker_exec(line.as_slice()) {
                match self.extract_loop(lines, idx) {
                    Some(li) => {
                        loops.push(li);
                    },
                    None => {},
                }
            }
            idx += 1;
        }
        loops
    }

    /// The loops of `ir`, in the order of their headers.
    pub fn identify_loops(&self, ir: &str) -> (r: Vec<LoopInfo>)
        ensures
            r@.len() == loop_headers(lines(ir@), lines(ir@).len() as int).len(),
            forall|i: int|
                0 <= i < r@.len() ==> (#[trigger] r@[i]).header == loop_headers(
                    lines(ir@),
                    lines(ir@).len() as int,
                )[i] && describes(lines(ir@), r@[i]),
    {
        let cs = chars_of(ir);
        let ls = lines_of(cs.as_slice());
        self.find_loops(&ls)
    }

    /// Whether `line` reads no induction variable `i`.
    pub fn is_loop_invariant(&self, line: &str) -> (r: bool)
        ensures
            r == is_invariant_line(line@),
    {
        let cs = chars_of(line);
        !str_contains(cs.as_slice(), "i ") && !str_contains(cs.as_slice(), "[i]") && !str_contains(
            cs.as_slice(),
            "*i",
        ) && !str_contains(cs.as_slice(), "i*")
    }
}

impl LoopOptimizer {
    /// Answers the text's lines, trimmed, and counts the loops found as unrolled.
    pub fn loop_unrolling(&mut self, ir: &str, unroll_factor: usize) -> (r: String)
        requires
            old(self).statistics.loops_unrolled + loop_headers(lines(ir@), lines(ir@).len() as int).len()
                <= usize::MAX,
        ensures
            r@ == trim(terminated(lines(ir@))),
            final(self).statistics == (LoopOptStats {
                loops_unrolled: (old(self).statistics.loops_unrolled + loop_headers(
                    lines(ir@),
                    lines(ir@).len() as int,
                ).len()) as usize,
                ..old(self).statistics
            }),
    {
        let cs = chars_of(ir);
        let ls = lines_of(cs.as_slice());
        let loops = self.find_loops(&ls);
        let out = terminated_exec(&ls);
        if loops.len() > 0 {
            self.statistics.loops_unrolled = self.statistics.loops_unrolled + loops.len();
        }
        let t = trim_exec(out.as_slice());
        string_of(t.as_slice())
    }

    /// Drops each invariant body line of each loop, trimmed; counts each hoist, a line in
    /// the bodies of two loops twice.
    pub fn loop_invariant_code_motion(&mut self, ir: &str) -> (r: String)
        requires
            old(self).statistics.invariants_hoisted + hoisted(
                lines(ir@),
                loop_headers(lines(ir@), lines(ir@).len() as int),
            ).len() <= usize::MAX,
        ensures
            ({
                let ls = lines(ir@);
                let h = hoisted(ls, loop_headers(ls, ls.len() as int));
                &&& r@ == trim(terminated(lines_without(ls, h)))
                &&& final(self).statistics == (LoopOptStats {
                    invariants_hoisted: (old(self).statistics.invariants_hoisted + h.len()) as usize,
                    ..old(self).statistics
                })
            }),
    {
        let cs = chars_of(ir);
        let ls_exec = lines_of(cs.as_slice());
        let ghost ls = seqs_of(ls_exec@);
        let loops = self.find_loops(&ls_exec);
        let ghost hs = loop_headers(ls, ls.len() as int);
        let ghost st = self.statistics;
        let mut invariants: Vec<usize> = Vec::new();
        let mut li: usize = 0;
        while li < loops.len()
            invariant
                ls == seqs_of(ls_exec@),
                hs == loop_headers(ls, ls.len() as int),
                loops@.len() == hs.len(),
                forall|i: int| 0 <= i < loops@.len() ==> (#[trigger] loops@[i]).header == hs[i] && describes(ls, loops@[i]),
                li <= loops@.len(),
                invariants@ == hoisted(ls, hs.take(li as int)),
                self.statistics == (LoopOptStats {
                    invariants_hoisted: (st.invariants_hoisted + invariants@.len()) as usize,
                    ..st
                }),
                st.invariants_hoisted + hoisted(ls, hs).len() <= usize::MAX,
            decreases loops@.len() - li,
        {
            let lp = &loops[li];
            assert(lp.body_lines@ == loop_body(ls, hs[li as int]));
            let ghost p = |j: usize| j < ls.len() && is_invariant_line(ls[j as int]);
            let ghost base = invariants@;
            proof {
                lemma_hoisted_prefix(ls, hs, li + 1);
                assert(hs.take(li + 1).drop_last() =~= hs.take(li as int));
            }
            let mut k: usize = 0;
            while k < lp.body_lines.len()
                invariant
                    ls == seqs_of(ls_exec@),
                    p == (|j: usize| j < ls.len() && is_invariant_line(ls[j as int])),
                    k <= lp.body_lines@.len(),
                    invariants@ == base + lp.body_lines@.take(k as int).filter(p),
                    self.statistics == (LoopOptStats {
                        invariants_hoisted: (st.invariants_hoisted + invariants@.len()) as usize,
                        ..st
                    }),
                    st.invariants_hoisted + base.len() + lp.body_lines@.filter(p).len() <= usize::MAX,
                decreases lp.body_lines@.len() - k,
            {
                let b = lp.body_lines[k];
                proof {
                    assert(lp.body_lines@.take(k + 1) =~= lp.body_lines@.take(k as int).push(b));
                    lp.body_lines@.take(k as int).lemma_filter_push(b, p);
                    lemma_filter_prefix(lp.body_lines@, p, k + 1);
                }
                if b < ls_exec.len() {
                    let line = &ls_exec[b];
                    assert(line@ == ls[b as int]);
                    if self.is_loop_invariant(string_of(line.as_slice()).as_str()) {
                        invariants.push(b);
                        self.statistics.invariants_hoisted = self.statistics.invariants_hoisted + 1;
                    }
                }
                k += 1;
            }
            assert(lp.body_lines@.take(lp.body_lines@.len() as int) =~= lp.body_lines@);
            li += 1;
        }
        assert(hs.take(hs.len() as int) =~= hs);
        let mut kept: Vec<Vec<char>> = Vec::new();
        let mut idx: usize = 0;
        while idx < ls_exec.len()
            invariant
                ls == seqs_of(ls_exec@),
                idx <= ls.len(),
                seqs_of(kept@) == lines_without(ls.take(idx as int), invariants@),
            decreases ls.len() - idx,
        {
            let ghost t = ls.take(idx + 1);
            assert(t.drop_last() =~= ls.take(idx as int));
            assert(t.last() == ls[idx as int]);
            if !holds_index(&invariants, idx) {
                let c = ls_exec[idx].clone();
                proof {
                    lemma_seqs_of_push(kept@, c);
                }
                kept.push(c);
            }
            idx += 1;
        }
        assert(ls.take(ls.len() as int) =~= ls);
        let out = terminated_exec(&kept);
        let t = trim_exec(out.as_slice());
        string_of(t.as_slice())
    }
}

proof fn lemma_filter_prefix(s: Seq<usize>, p: spec_fn(usize) -> bool, k: int)
    requires
        0 <= k <= s.len(),
    ensures
        s.take(k).filter(p).len() <= s.filter(p).len(),
    decreases s.len() - k,
{
    if k < s.len() {
        lemma_filter_prefix(s, p, k + 1);
        assert(s.take(k + 1) =~= s.take(k).push(s[k]));
        s.take(k).lemma_filter_push(s[k], p);
    } else {
        assert(s.take(k) =~= s);
    }
}

proof fn lemma_hoisted_prefix(ls: Seq<Seq<char>>, hs: Seq<int>, k: int)
    requires
        0 <= k <= hs.len(),
    ensures
        hoisted(ls, hs.take(k)).len() <= hoisted(ls, hs).len(),
    decreases hs.len() - k,
{
    if k < hs.len() {
        lemma_hoisted_prefix(ls, hs, k + 1);
        assert(hs.take(k + 1).drop_last() =~= hs.take(k));
    } else {
        assert(hs.take(k) =~= hs);
    }
}

fn iteration_count_exec(l: &[char]) -> (r: Option<usize>)
    ensures
        r == iteration_count(l@),
{
    if !str_contains(l, "for i in 0..") {
        return None;
    }
    let dots = vec!['.', '.'];
    proof {
        reveal_strlit("..");
    }
    assert(dots@ =~= ".."@);
    match find_first(l, dots.as_slice()) {
        Some(p) => {
            assert(first_dots(l@) == p as int) by {
                let q = first_dots(l@);
                assert(matches_at(l@, ".."@, p as int));
                if q != p as int {
                    if q < p as int {
                        assert(!matches_at(l@, ".."@, q));
                    } else {
                        assert(!matches_at(l@, ".."@, p as int));
                    }
                }
            }
            assert(matches_at(l@, dots@, p as int));
            let n = l.len();
            assert(p + 2 <= n);
            let mut rest: Vec<char> = Vec::new();
            let mut i: usize = p + 2;
            while i < l.len()
                invariant
                    p + 2 <= i <= l.len(),
                    rest@ == l@.subrange(p + 2, i as int),
                decreases l.len() - i,
            {
                rest.push(l[i]);
                i += 1;
                assert(rest@ =~= l@.subrange(p + 2, i as int));
            }
            assert(rest@ =~= l@.skip(p + 2));
            let digits = crate::text::numeric_prefix_exec(rest.as_slice());
            parse_usize(digits.as_slice())
        },
        None => {
            proof {
                assert(contains(l@, "for i in 0.."@));
                let k = choose|k: int| matches_at(l@, "for i in 0.."@, k);
                reveal_strlit("for i in 0..");
                assert(matches_at(l@, dots@, k + 10)) by {
                    assert forall|m: int| 0 <= m < dots@.len() implies #[trigger] l@[k + 10 + m] == dots@[m] by {
                        assert(l@[k + (10 + m)] == "for i in 0.."@[10 + m]);
                    }
                }
            }
            None
        },
    }
}

impl LoopOptimizer {
    /// After each iteration line, while fewer than `peels` have been met, a line noting
    /// the peeled iteration; trimmed.
    pub fn loop_peeling(&mut self, ir: &str, peels: usize) -> (r: String)
        requires
            old(self).statistics.peeling_applied + lines(ir@).len() <= usize::MAX,
        ensures
            r@ == trim(terminated(peel(lines(ir@), peels as nat).0)),
            final(self).statistics == (LoopOptStats {
                peeling_applied: (old(self).statistics.peeling_applied + peel(lines(ir@), peels as nat).2) as usize,
                ..old(self).statistics
            }),
    {
        let cs = chars_of(ir);
        let ls_exec = lines_of(cs.as_slice());
        let ghost ls = seqs_of(ls_exec@);
        let ghost st = self.statistics;
        let mut out: Vec<Vec<char>> = Vec::new();
        let mut iteration: usize = 0;
        let mut i: usize = 0;
        while i < ls_exec.len()
            invariant
                ls == seqs_of(ls_exec@),
                i <= ls.len(),
                seqs_of(out@) == peel(ls.take(i as int), peels as nat).0,
                iteration == peel(ls.take(i as int), peels as nat).1,
                self.statistics == (LoopOptStats {
                    peeling_applied: (st.peeling_applied + peel(ls.take(i as int), peels as nat).2) as usize,
                    ..st
                }),
                st.peeling_applied + ls.len() <= usize::MAX,
            decreases ls.len() - i,
        {
            let ghost t = ls.take(i + 1);
            assert(t.drop_last() =~= ls.take(i as int));
            assert(t.last() == ls[i as int]);
            proof {
                lemma_peel_bounds(t, peels as nat);
            }
            let line = &ls_exec[i];
            let c = line.clone();
            proof {
                lemma_seqs_of_push(out@, c);
            }
            out.push(c);
            if str_contains(line.as_slice(), "iteration") || str_contains(line.as_slice(), "loop_body") {
                iteration += 1;
                if iteration <= peels {
                    let mut note: Vec<char> = Vec::new();
                    append_str(&mut note, "; peeled iteration ");
                    push_usize(&mut note, iteration);
                    proof {
                        lemma_seqs_of_push(out@, note);
                    }
                    out.push(note);
                    self.statistics.peeling_applied = self.statistics.peeling_applied + 1;
                }
            }
            i += 1;
        }
        assert(ls.take(ls.len() as int) =~= ls);
        let joined = terminated_exec(&out);
        let t = trim_exec(joined.as_slice());
        string_of(t.as_slice())
    }

    /// The count a `for i in 0..N` line states.
    pub fn extract_iteration_count(&self, line: &str) -> (r: Option<usize>)
        ensures
            r == iteration_count(line@),
    {
        let cs = chars_of(line);
        iteration_count_exec(cs.as_slice())
    }

    fn count_lines(&mut self, ls_exec: &Vec<Vec<char>>) -> (r: IdMap<usize>)
        requires
            old(self).statistics.iterations_reduced + ls_exec@.len() <= usize::MAX,
        ensures
            r.wf(),
            r.keys() == counted_lines(seqs_of(ls_exec@), ls_exec@.len() as int),
            forall|j: int|
                0 <= j < r.keys().len() ==> Some(#[trigger] r.vals()[j]) == iteration_count(
                    seqs_of(ls_exec@)[r.keys()[j] as int],
                ),
            final(self).statistics == (LoopOptStats {
                iterations_reduced: (old(self).statistics.iterations_reduced + short_counts(
                    seqs_of(ls_exec@),
                    ls_exec@.len() as int,
                )) as usize,
                ..old(self).statistics
            }),
    {
        let ghost ls = seqs_of(ls_exec@);
        let ghost st = self.statistics;
        let mut counts: IdMap<usize> = IdMap::new();
        let mut idx: usize = 0;
        while idx < ls_exec.len()
            invariant
                ls == seqs_of(ls_exec@),
                idx <= ls.len(),
                counts.wf(),
                counts.keys() == counted_lines(ls, idx as int),
                forall|k: int| 0 <= k < counts.keys().len() ==> counts.keys()[k] < idx,
                forall|j: int|
                    0 <= j < counts.keys().len() ==> Some(#[trigger] counts.vals()[j]) == iteration_count(
                        ls[counts.keys()[j] as int],
                    ),
                self.statistics == (LoopOptStats {
                    iterations_reduced: (st.iterations_reduced + short_counts(ls, idx as int)) as usize,
                    ..st
                }),
                st.iterations_reduced + ls.len() <= usize::MAX,
            decreases ls.len() - idx,
        {
            let line = &ls_exec[idx];
            assert(line@ == ls[idx as int]);
            proof {
                lemma_short_counts_bound(ls, idx + 1);
            }
            if str_contains(line.as_slice(), "for i in") {
                match iteration_count_exec(line.as_slice()) {
                    Some(count) => {
                        let ghost ok = counts.keys();
                        let ghost ov = counts.vals();
                        assert(!counts.has(idx));
                        counts.insert(idx, count);
                        assert(counts.keys() == ok.push(idx));
                        if count < 10 {
                            self.statistics.iterations_reduced = self.statistics.iterations_reduced + 1;
                        }
                    },
                    None => {},
                }
            } else {
                proof {
                    if iteration_count(ls[idx as int]) is Some {
                        reveal_strlit("for i in 0..");
                        reveal_strlit("for i in");
                        let k = choose|k: int| matches_at(ls[idx as int], "for i in 0.."@, k);
                        assert(matches_at(ls[idx as int], "for i in"@, k)) by {
                            assert forall|m: int| 0 <= m < "for i in"@.len() implies #[trigger] ls[idx as int][k + m]
                                == "for i in"@[m] by {
                                assert(ls[idx as int][k + m] == "for i in 0.."@[m]);
                            }
                        }
                    }
                }
            }
            idx += 1;
        }
        counts
    }

    /// The count each `for i in 0..N` line states, by line index; counts the loops of
    /// fewer than 10 iterations as reduced.
    pub fn iteration_count_analysis(&mut self, ir: &str) -> (r: IdMap<usize>)
        requires
            old(self).statistics.iterations_reduced + lines(ir@).len() <= usize::MAX,
        ensures
            r.wf(),
            r.keys() == counted_lines(lines(ir@), lines(ir@).len() as int),
            forall|j: int|
                0 <= j < r.keys().len() ==> Some(#[trigger] r.vals()[j]) == iteration_count(
                    lines(ir@)[r.keys()[j] as int],
                ),
            final(self).statistics == (LoopOptStats {
                iterations_reduced: (old(self).statistics.iterations_reduced + short_counts(
                    lines(ir@),
                    lines(ir@).len() as int,
                )) as usize,
                ..old(self).statistics
            }),
    {
        let cs = chars_of(ir);
        let ls = lines_of(cs.as_slice());
        self.count_lines(&ls)
    }

    /// Each line with doubling multiplications and halving divisions turned into shifts,
    /// trimmed.
    pub fn strength_reduction(&self, ir: &str) -> (r: String)
        ensures
            r@ == trim(terminated(lines(ir@).map_values(|l: Seq<char>| reduce_line(l)))),
    {
        let cs = chars_of(ir);
        let ls_exec = lines_of(cs.as_slice());
        let ghost ls = seqs_of(ls_exec@);
        let mut out: Vec<Vec<char>> = Vec::new();
        let mut i: usize = 0;
        while i < ls_exec.len()
            invariant
                ls == seqs_of(ls_exec@),
                i <= ls.len(),
                seqs_of(out@) == ls.take(i as int).map_values(|l: Seq<char>| reduce_line(l)),
            decreases ls.len() - i,
        {
            let l = &ls_exec[i];
            let ghost t = ls.take(i + 1);
            assert(t.drop_last() =~= ls.take(i as int));
            assert(t.last() == l@);
            let m = if str_contains(l.as_slice(), "mul i64 ") && str_contains(l.as_slice(), ", 2") {
                replace_str(l.as_slice(), "mul i64 ", "shl i64 ")
            } else if str_contains(l.as_slice(), "div i64 ") && str_contains(l.as_slice(), ", 2") {
                replace_str(l.as_slice(), "div i64 ", "shr i64 ")
            } else {
                l.clone()
            };
            proof {
                lemma_seqs_of_push(out@, m);
                assert(t.map_values(|l: Seq<char>| reduce_line(l)) =~= ls.take(i as int).map_values(
                    |l: Seq<char>| reduce_line(l),
                ).push(m@));
            }
            out.push(m);
            i += 1;
        }
        assert(ls.take(ls.len() as int) =~= ls);
        let joined = terminated_exec(&out);
        let t = trim_exec(joined.as_slice());
        string_of(t.as_slice())
    }

    pub fn get_statistics(&self) -> (r: LoopOptStats)
        ensures
            r == self.statistics,
    {
        self.statistics
    }

    pub fn clear_statistics(&mut self)
        ensures
            final(self).statistics == (LoopOptStats {
                loops_unrolled: 0,
                invariants_hoisted: 0,
                iterations_reduced: 0,
                peeling_applied: 0,
            }),
    {
        self.statistics = LoopOptStats {
            loops_unrolled: 0,
            invariants_hoisted: 0,
            iterations_reduced: 0,
            peeling_applied: 0,
        };
    }
}

proof fn lemma_counted_len(ls: Seq<Seq<char>>, k: int)
    requires
        0 <= k,
    ensures
        counted_lines(ls, k).len() <= k,
    decreases k,
{
    if k > 0 {
        lemma_counted_len(ls, k - 1);
    }
}

proof fn lemma_unroll_count_len(ls: Seq<Seq<char>>, idxs: Seq<usize>, threshold: usize)
    ensures
        unroll_count(ls, idxs, threshold) <= idxs.len(),
    decreases idxs.len(),
{
    if idxs.len() > 0 {
        lemma_unroll_count_len(ls, idxs.drop_last(), threshold);
    }
}

impl LoopOptimizer {
    /// A note for each counted loop of at most `threshold` iterations, in line order,
    /// then the text; counts those loops as unrolled (and the counting as iteration
    /// analysis does).
    pub fn unroll_small_loops(&mut self, ir: &str, threshold: usize) -> (r: String)
        requires
            old(self).statistics.iterations_reduced + lines(ir@).len() <= usize::MAX,
            old(self).statistics.loops_unrolled + lines(ir@).len() <= usize::MAX,
        ensures
            ({
                let ls = lines(ir@);
                let idxs = counted_lines(ls, ls.len() as int);
                &&& r@ == unroll_notes(ls, idxs, threshold) + ir@
                &&& final(self).statistics == (LoopOptStats {
                    iterations_reduced: (old(self).statistics.iterations_reduced + short_counts(
                        ls,
                        ls.len() as int,
                    )) as usize,
                    loops_unrolled: (old(self).statistics.loops_unrolled + unroll_count(ls, idxs, threshold)) as usize,
                    ..old(self).statistics
                })
            }),
    {
        let cs = chars_of(ir);
        let ls_exec = lines_of(cs.as_slice());
        let ghost ls = seqs_of(ls_exec@);
        let counts = self.count_lines(&ls_exec);
        let ghost idxs = counts.keys();
        proof {
            lemma_counted_len(ls, ls.len() as int);
            lemma_unroll_count_len(ls, idxs, threshold);
        }
        let ghost st = self.statistics;
        let mut out: Vec<char> = Vec::new();
        let mut i: usize = 0;
        while i < counts.len()
            invariant
                ls == seqs_of(ls_exec@),
                counts.wf(),
                idxs == counts.keys(),
                idxs == counted_lines(ls, ls.len() as int),
                forall|j: int|
                    0 <= j < counts.keys().len() ==> Some(#[trigger] counts.vals()[j]) == iteration_count(
                        ls[counts.keys()[j] as int],
                    ),
                i <= idxs.len(),
                out@ == unroll_notes(ls, idxs.take(i as int), threshold),
                self.statistics == (LoopOptStats {
                    loops_unrolled: (st.loops_unrolled + unroll_count(ls, idxs.take(i as int), threshold)) as usize,
                    ..st
                }),
                st.loops_unrolled + ls.len() <= usize::MAX,
                idxs.len() <= ls.len(),
            decreases idxs.len() - i,
        {
            let idx = counts.key_at(i);
            let count = *counts.val_at(i);
            let ghost t = idxs.take(i + 1);
            assert(t.drop_last() =~= idxs.take(i as int));
            assert(t.last() == idx);
            assert(Some(count) == iteration_count(ls[idx as int]));
            proof {
                lemma_unroll_count_len(ls, t, threshold);
            }
            if count <= threshold {
                append_str(&mut out, "; unrolled loop ");
                push_usize(&mut out, idx);
                append_str(&mut out, " (");
                push_usize(&mut out, count);
                append_str(&mut out, " iterations)\n");
                self.statistics.loops_unrolled = self.statistics.loops_unrolled + 1;
            }
            i += 1;
        }
        assert(idxs.take(idxs.len() as int) =~= idxs);
        append_str(&mut out, ir);
        string_of(out.as_slice())
    }
}

proof fn lemma_latch_from(ls: Seq<Seq<char>>, start: int, cur: int)
    requires
        latch_from(ls, start, cur) is Some,
    ensures
        cur <= latch_from(ls, start, cur)->0 < ls.len(),
        contains(ls[latch_from(ls, start, cur)->0], "br label%"@),
    decreases ls.len() - cur,
{
    if cur >= 0 && cur < ls.len() && !(contains(ls[cur], "br label%"@) && marker_seen(ls, start, cur)) {
        lemma_latch_from(ls, start, cur + 1);
    }
}

proof fn lemma_body_upto(ls: Seq<Seq<char>>, start: int, c: int)
    requires
        0 <= start,
        c < ls.len(),
        ls.len() <= usize::MAX,
    ensures
        forall|m: int|
            0 <= m < body_upto(ls, start, c).len() ==> start < #[trigger] body_upto(ls, start, c)[m] <= c,
    decreases c - start,
{
    if c > start {
        lemma_body_upto(ls, start, c - 1);
        let r = body_upto(ls, start, c - 1);
        assert forall|m: int| 0 <= m < body_upto(ls, start, c).len() implies start < #[trigger] body_upto(
            ls,
            start,
            c,
        )[m] <= c by {
            if m < r.len() {
                assert(body_upto(ls, start, c)[m] == r[m]);
            }
        }
    }
}

/// A loop found at a header ends at a latch line, at or after the header, that branches to
/// a label, and its body lies after the header and up to the latch.
pub proof fn law_loop_shape(ls: Seq<Seq<char>>, h: int)
    requires
        0 <= h,
        ls.len() <= usize::MAX,
        latch_from(ls, h, h) is Some,
    ensures
        h <= latch_from(ls, h, h)->0 < ls.len(),
        contains(ls[latch_from(ls, h, h)->0], "br label%"@),
        forall|m: int|
            0 <= m < loop_body(ls, h).len() ==> h < #[trigger] loop_body(ls, h)[m] <= latch_from(ls, h, h)->0,
{
    lemma_latch_from(ls, h, h);
    lemma_body_upto(ls, h, latch_from(ls, h, h)->0);
}

} // verus!
