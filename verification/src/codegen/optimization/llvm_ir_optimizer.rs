//! Text-level passes over LLVM IR, run in groups by optimization level: unreachable-line
//! removal, constant simplification, dead code removal, block merging and inlining marks.
use vstd::prelude::*;
use crate::codegen::optimization::dead_code_elim::{is_value_word, reached_flags, reached_lines};
use crate::names::NameSet;
use crate::text::{
    append_chars, append_str, chars_eq, chars_of, contains, join, join_exec, lemma_seqs_of_push,
    lemma_split_on_len, lemma_terminated_concat, lines, lines_of, replace, replace_str, seqs_of,
    split_char, split_on, split_whitespace, starts_with, str_contains, str_starts_with, string_of,
    terminated, terminated_exec, trim, trim_exec, words,
};

verus! {

/// How much optimization to run.
#[derive(Debug, Clone, Copy, PartialEq, Eq, Structural)]
pub enum OptimizationLevel {
    O0,
    O1,
    O2,
    O3,
}

/// What the passes have done so far.
#[derive(Debug, Clone, Copy)]
pub struct OptimizationStats {
    pub insts_removed: usize,
    pub insts_simplified: usize,
    pub blocks_merged: usize,
    pub branches_eliminated: usize,
}

pub open spec fn simplify_add(l: Seq<char>) -> Seq<char> {
    if contains(l, "add i64 0,"@) {
        replace(l, "add i64 0,"@, "move "@)
    } else if contains(l, "add i64 "@) && contains(l, ", 0"@) {
        replace(l, " 0"@, ""@)
    } else {
        l
    }
}

pub open spec fn simplify_mul(l: Seq<char>) -> Seq<char> {
    if contains(l, "mul i64 1,"@) {
        replace(l, "mul i64 1,"@, "move "@)
    } else if contains(l, "mul i64 0,"@) {
        replace(l, "mul i64 0,"@, "move i64 0 ->"@)
    } else if contains(l, "mul i64 "@) && contains(l, ", 1"@) {
        replace(l, " 1"@, ""@)
    } else {
        l
    }
}

pub open spec fn simplify_and(l: Seq<char>) -> Seq<char> {
    if contains(l, "and i64 0,"@) {
        replace(l, "and i64 0,"@, "move i64 0 ->"@)
    } else {
        l
    }
}

pub open spec fn simplify_or(l: Seq<char>) -> Seq<char> {
    if contains(l, "or i64 0,"@) {
        replace(l, "or i64 0,"@, "move "@)
    } else {
        l
    }
}

pub open spec fn simplify_xor(l: Seq<char>) -> Seq<char> {
    if contains(l, "xor i64 "@) && contains(l, " 0"@) {
        replace(replace(l, "xor i64 "@, "move "@), " 0"@, ""@)
    } else {
        l
    }
}

/// One line after constant simplification; the first operation named decides.
pub open spec fn simplify_line(l: Seq<char>) -> Seq<char> {
    if contains(l, "add i64"@) {
        simplify_add(l)
    } else if contains(l, "mul i64"@) {
        simplify_mul(l)
    } else if contains(l, "and i64"@) {
        simplify_and(l)
    } else if contains(l, "or i64"@) {
        simplify_or(l)
    } else if contains(l, "xor i64"@) {
        simplify_xor(l)
    } else {
        l
    }
}

/// Each line simplified.
pub open spec fn simplified_lines(ls: Seq<Seq<char>>) -> Seq<Seq<char>> {
    ls.map_values(|l: Seq<char>| simplify_line(l))
}

/// How many lines simplification changes.
pub open spec fn changed_count(ls: Seq<Seq<char>>) -> nat
    decreases ls.len(),
{
    if ls.len() == 0 {
        0
    } else {
        changed_count(ls.drop_last()) + if simplify_line(ls.last()) != ls.last() {
            1nat
        } else {
            0nat
        }
    }
}

proof fn lemma_changed_bound(ls: Seq<Seq<char>>)
    ensures
        changed_count(ls) <= ls.len(),
    decreases ls.len(),
{
    if ls.len() > 0 {
        lemma_changed_bound(ls.drop_last());
    }
}

fn copy_chars(l: &[char]) -> (r: Vec<char>)
    ensures
        r@ == l@,
{
    let mut r: Vec<char> = Vec::new();
    append_chars(&mut r, l);
    assert(r@ =~= l@);
    r
}

fn add_exec(l: &[char]) -> (r: Vec<char>)
    ensures
        r@ == simplify_add(l@),
{
    if str_contains(l, "add i64 0,") {
        replace_str(l, "add i64 0,", "move ")
    } else if str_contains(l, "add i64 ") && str_contains(l, ", 0") {
        replace_str(l, " 0", "")
    } else {
        copy_chars(l)
    }
}

fn mul_exec(l: &[char]) -> (r: Vec<char>)
    ensures
        r@ == simplify_mul(l@),
{
    if str_contains(l, "mul i64 1,") {
        replace_str(l, "mul i64 1,", "move ")
    } else if str_contains(l, "mul i64 0,") {
        replace_str(l, "mul i64 0,", "move i64 0 ->")
    } else if str_contains(l, "mul i64 ") && str_contains(l, ", 1") {
        replace_str(l, " 1", "")
    } else {
        copy_chars(l)
    }
}

fn and_exec(l: &[char]) -> (r: Vec<char>)
    ensures
        r@ == simplify_and(l@),
{
    if str_contains(l, "and i64 0,") {
        replace_str(l, "and i64 0,", "move i64 0 ->")
    } else {
        copy_chars(l)
    }
}

fn or_exec(l: &[char]) -> (r: Vec<char>)
    ensures
        r@ == simplify_or(l@),
{
    if str_contains(l, "or i64 0,") {
        replace_str(l, "or i64 0,", "move ")
    } else {
        copy_chars(l)
    }
}

fn xor_exec(l: &[char]) -> (r: Vec<char>)
    ensures
        r@ == simplify_xor(l@),
{
    if str_contains(l, "xor i64 ") && str_contains(l, " 0") {
        let m = replace_str(l, "xor i64 ", "move ");
        replace_str(m.as_slice(), " 0", "")
    } else {
        copy_chars(l)
    }
}

fn simplify_line_exec(l: &[char]) -> (r: Vec<char>)
    ensures
        r@ == simplify_line(l@),
{
    if str_contains(l, "add i64") {
        add_exec(l)
    } else if str_contains(l, "mul i64") {
        mul_exec(l)
    } else if str_contains(l, "and i64") {
        and_exec(l)
    } else if str_contains(l, "or i64") {
        or_exec(l)
    } else if str_contains(l, "xor i64") {
        xor_exec(l)
    } else {
        copy_chars(l)
    }
}

/// The text with only the lines that line 0 reaches, joined by line feeds.
pub open spec fn unreachable_text(t: Seq<char>) -> Seq<char> {
    join(reached_lines(lines(t), "br "@, lines(t).len() as int), seq!['\n'])
}

/// The text with each line simplified, trimmed.
pub open spec fn simplify_text(t: Seq<char>) -> Seq<char> {
    trim(terminated(simplified_lines(lines(t))))
}

/// The last word of a line, or nothing.
pub open spec fn last_word(l: Seq<char>) -> Seq<char> {
    if words(l).len() > 0 {
        words(l).last()
    } else {
        seq![]
    }
}

/// The trimmed text before a line's first `=` (the whole line when it has none).
pub open spec fn defined_name(l: Seq<char>) -> Seq<char> {
    trim(split_on(l, '=')[0])
}

/// Some value word of `l` is in `u`.
pub open spec fn names_used(u: Set<Seq<char>>, l: Seq<char>) -> bool {
    exists|k: int| 0 <= k < words(l).len() && is_value_word(words(l)[k]) && u.contains(#[trigger] words(l)[k])
}

/// The backward scan of dead code removal over `ls`: the values found used, and the lines
/// kept, in the order the scan meets them (last line first).
pub open spec fn dce_scan(ls: Seq<Seq<char>>) -> (Set<Seq<char>>, Seq<Seq<char>>)
    decreases ls.len(),
{
    if ls.len() == 0 {
        (Set::empty(), seq![])
    } else {
        let (u0, kept) = dce_scan(ls.drop_first());
        let l = ls[0];
        let u1 = if contains(l, "ret "@) {
            u0.insert(last_word(l))
        } else {
            u0
        };
        if names_used(u1, l) || contains(l, "ret "@) || contains(l, "call "@) {
            let v = defined_name(l);
            (if is_value_word(v) {
                u1.insert(v)
            } else {
                u1
            }, kept.push(l))
        } else {
            (u1, kept)
        }
    }
}

/// The text after dead code removal: the kept lines, last first, joined by line feeds.
pub open spec fn dce_text(t: Seq<char>) -> Seq<char> {
    join(lines(terminated(dce_scan(lines(t)).1)), seq!['\n'])
}

/// Line `i` branches to labels and the next line starts a label.
pub open spec fn merges_next(ls: Seq<Seq<char>>, i: int) -> bool {
    i + 1 < ls.len() && contains(ls[i], "br label%"@) && starts_with(ls[i + 1], "label%"@)
}

/// The lines from `i` on, each label line that follows a branch to labels dropped.
pub open spec fn merged(ls: Seq<Seq<char>>, i: int) -> Seq<Seq<char>>
    decreases ls.len() - i,
{
    if i < 0 || i >= ls.len() {
        seq![]
    } else if merges_next(ls, i) {
        seq![ls[i]] + merged(ls, i + 2)
    } else {
        seq![ls[i]] + merged(ls, i + 1)
    }
}

/// How many lines from `i` on are merged away.
pub open spec fn merge_count(ls: Seq<Seq<char>>, i: int) -> nat
    decreases ls.len() - i,
{
    if i < 0 || i >= ls.len() {
        0
    } else if merges_next(ls, i) {
        1 + merge_count(ls, i + 2)
    } else {
        merge_count(ls, i + 1)
    }
}

pub open spec fn merge_text(t: Seq<char>) -> Seq<char> {
    trim(terminated(merged(lines(t), 0)))
}

/// A call of a function other than `printf` and `malloc`, in at most four words.
pub open spec fn inlinable_call(l: Seq<char>) -> bool {
    contains(l, "call "@) && !contains(l, "@printf"@) && !contains(l, "@malloc"@) && words(l).len() <= 4
}

pub open spec fn inline_line(l: Seq<char>) -> Seq<char> {
    if inlinable_call(l) {
        "; inlined: "@ + l
    } else {
        l
    }
}

pub open spec fn inline_count(ls: Seq<Seq<char>>) -> nat
    decreases ls.len(),
{
    if ls.len() == 0 {
        0
    } else {
        inline_count(ls.drop_last()) + if inlinable_call(ls.last()) {
            1nat
        } else {
            0nat
        }
    }
}

pub open spec fn inline_text(t: Seq<char>) -> Seq<char> {
    trim(terminated(lines(t).map_values(|l: Seq<char>| inline_line(l))))
}

pub open spec fn vector_line(l: Seq<char>) -> Seq<char> {
    if contains(l, "i64"@) && contains(l, "add "@) {
        "; VECTORIZABLE: "@ + l
    } else {
        l
    }
}

pub open spec fn vector_text(t: Seq<char>) -> Seq<char> {
    trim(terminated(lines(t).map_values(|l: Seq<char>| vector_line(l))))
}

fn unreachable_exec(t: &[char]) -> (r: Vec<char>)
    ensures
        r@ == unreachable_text(t@),
{
    let ls_exec = lines_of(t);
    let ghost ls = seqs_of(ls_exec@);
    let flags = reached_flags(&ls_exec, "br ");
    let mut kept: Vec<Vec<char>> = Vec::new();
    let mut i: usize = 0;
    while i < ls_exec.len()
        invariant
            i <= ls_exec@.len(),
            ls == seqs_of(ls_exec@),
            flags@.len() == ls.len(),
            forall|j: int|
                0 <= j < flags@.len() ==> (flags@[j] <==> crate::codegen::optimization::dead_code_elim::reaches(
                    ls,
                    "br "@,
                    j,
                )),
            seqs_of(kept@) == reached_lines(ls, "br "@, i as int),
        decreases ls_exec.len() - i,
    {
        if flags[i] {
            let c = copy_chars(ls_exec[i].as_slice());
            proof {
                lemma_seqs_of_push(kept@, c);
            }
            kept.push(c);
        }
        i += 1;
    }
    let nl = vec!['\n'];
    assert(nl@ =~= seq!['\n']);
    join_exec(&kept, nl.as_slice())
}

fn simplify_exec(t: &[char]) -> (r: (Vec<char>, usize))
    ensures
        r.0@ == simplify_text(t@),
        r.1 == changed_count(lines(t@)),
{
    let ls_exec = lines_of(t);
    let ghost ls = seqs_of(ls_exec@);
    let mut out: Vec<Vec<char>> = Vec::new();
    let mut n: usize = 0;
    let mut i: usize = 0;
    while i < ls_exec.len()
        invariant
            i <= ls_exec@.len(),
            ls == seqs_of(ls_exec@),
            seqs_of(out@) == simplified_lines(ls.take(i as int)),
            n == changed_count(ls.take(i as int)),
            n <= i,
        decreases ls_exec.len() - i,
    {
        let l = &ls_exec[i];
        let sl = simplify_line_exec(l.as_slice());
        let ghost t1 = ls.take(i + 1);
        assert(t1.drop_last() =~= ls.take(i as int));
        assert(t1.last() == l@);
        if !chars_eq(sl.as_slice(), l.as_slice()) {
            n += 1;
        }
        proof {
            lemma_seqs_of_push(out@, sl);
            assert(simplified_lines(t1) =~= simplified_lines(ls.take(i as int)).push(sl@));
        }
        out.push(sl);
        i += 1;
    }
    assert(ls.take(ls_exec.len() as int) =~= ls);
    let joined = terminated_exec(&out);
    (trim_exec(joined.as_slice()), n)
}

fn dce_exec(t: &[char]) -> (r: (Vec<char>, usize))
    ensures
        r.0@ == dce_text(t@),
        r.1 == dce_scan(lines(t@)).1.len(),
{
    let ls_exec = lines_of(t);
    let ghost ls = seqs_of(ls_exec@);
    let mut used = NameSet::new();
    let mut kept: Vec<Vec<char>> = Vec::new();
    let mut i: usize = ls_exec.len();
    assert(ls.skip(i as int) =~= Seq::<Seq<char>>::empty());
    while i > 0
        invariant
            i <= ls_exec@.len(),
            ls == seqs_of(ls_exec@),
            used.wf(),
            forall|x: Seq<char>| #[trigger] used.has(x) <==> dce_scan(ls.skip(i as int)).0.contains(x),
            seqs_of(kept@) == dce_scan(ls.skip(i as int)).1,
        decreases i,
    {
        i -= 1;
        let l = &ls_exec[i];
        let ghost sk = ls.skip(i as int);
        assert(sk.drop_first() =~= ls.skip(i + 1));
        assert(sk[0] == l@);
        let ghost u0 = dce_scan(ls.skip(i + 1)).0;
        let ws = split_whitespace(l.as_slice());
        let is_ret = str_contains(l.as_slice(), "ret ");
        if is_ret {
            let w = if ws.len() > 0 {
                string_of(ws[ws.len() - 1].as_slice())
            } else {
                string_of(Vec::<char>::new().as_slice())
            };
            proof {
                if ws@.len() > 0 {
                    assert(seqs_of(ws@).last() == ws@[ws@.len() - 1]@);
                }
            }
            used.insert(w);
        }
        let ghost u1 = if contains(l@, "ret "@) {
            u0.insert(last_word(l@))
        } else {
            u0
        };
        assert(forall|x: Seq<char>| #[trigger] used.has(x) <==> u1.contains(x));
        let mut keep = false;
        let mut k: usize = 0;
        while k < ws.len()
            invariant
                k <= ws@.len(),
                seqs_of(ws@) == words(l@),
                used.wf(),
                forall|x: Seq<char>| #[trigger] used.has(x) <==> u1.contains(x),
                keep <==> exists|m: int|
                    0 <= m < k && is_value_word(words(l@)[m]) && u1.contains(#[trigger] words(l@)[m]),
            decreases ws@.len() - k,
        {
            assert(ws@[k as int]@ == words(l@)[k as int]);
            if str_starts_with(ws[k].as_slice(), "%") && used.contains(
                string_of(ws[k].as_slice()).as_str(),
            ) {
                keep = true;
            }
            k += 1;
        }
        if keep || is_ret || str_contains(l.as_slice(), "call ") {
            let pieces = split_char(l.as_slice(), '=');
            proof {
                lemma_split_on_len(l@, '=');
            }
            let v = trim_exec(pieces[0].as_slice());
            assert(v@ == defined_name(l@));
            if str_starts_with(v.as_slice(), "%") {
                used.insert(string_of(v.as_slice()));
            }
            let c = copy_chars(l.as_slice());
            proof {
                lemma_seqs_of_push(kept@, c);
            }
            kept.push(c);
        }
    }
    assert(ls.skip(0) =~= ls);
    let joined = terminated_exec(&kept);
    let back = lines_of(joined.as_slice());
    let nl = vec!['\n'];
    assert(nl@ =~= seq!['\n']);
    (join_exec(&back, nl.as_slice()), kept.len())
}

proof fn lemma_merge_bound(ls: Seq<Seq<char>>, i: int)
    requires
        0 <= i,
    ensures
        i <= ls.len() ==> merge_count(ls, i) + i <= ls.len(),
        merge_count(ls, i) <= ls.len(),
    decreases ls.len() - i,
{
    if i < ls.len() {
        if merges_next(ls, i) {
            lemma_merge_bound(ls, i + 2);
        } else {
            lemma_merge_bound(ls, i + 1);
        }
    }
}

fn merge_exec(t: &[char]) -> (r: (Vec<char>, usize))
    ensures
        r.0@ == merge_text(t@),
        r.1 == merge_count(lines(t@), 0),
{
    let ls_exec = lines_of(t);
    let ghost ls = seqs_of(ls_exec@);
    let mut out: Vec<Vec<char>> = Vec::new();
    let mut n: usize = 0;
    let mut i: usize = 0;
    proof {
        lemma_merge_bound(ls, 0);
        assert(seqs_of(out@) + merged(ls, 0) =~= merged(ls, 0));
    }
    while i < ls_exec.len()
        invariant
            ls == seqs_of(ls_exec@),
            i <= ls.len(),
            merged(ls, 0) == seqs_of(out@) + merged(ls, i as int),
            merge_count(ls, 0) == n + merge_count(ls, i as int),
            merge_count(ls, 0) <= ls.len(),
        decreases ls.len() - i,
    {
        let cur = &ls_exec[i];
        let c = copy_chars(cur.as_slice());
        let ghost before = seqs_of(out@);
        proof {
            lemma_seqs_of_push(out@, c);
        }
        out.push(c);
        let skip = i + 1 < ls_exec.len() && str_contains(cur.as_slice(), "br label%")
            && str_starts_with(ls_exec[i + 1].as_slice(), "label%");
        if skip {
            assert(merges_next(ls, i as int));
            assert(merged(ls, i as int) == seq![ls[i as int]] + merged(ls, i + 2));
            assert(before + merged(ls, i as int) =~= before.push(ls[i as int]) + merged(ls, i + 2));
            n += 1;
            i += 1;
        } else {
            assert(merged(ls, i as int) == seq![ls[i as int]] + merged(ls, i + 1));
            assert(before + merged(ls, i as int) =~= before.push(ls[i as int]) + merged(ls, i + 1));
        }
        i += 1;
    }
    assert(merged(ls, i as int) =~= Seq::<Seq<char>>::empty());
    assert(seqs_of(out@) + merged(ls, i as int) =~= seqs_of(out@));
    let joined = terminated_exec(&out);
    (trim_exec(joined.as_slice()), n)
}

fn inline_exec(t: &[char]) -> (r: (Vec<char>, usize))
    ensures
        r.0@ == inline_text(t@),
        r.1 == inline_count(lines(t@)),
{
    let ls_exec = lines_of(t);
    let ghost ls = seqs_of(ls_exec@);
    let mut out: Vec<Vec<char>> = Vec::new();
    let mut n: usize = 0;
    let mut i: usize = 0;
    while i < ls_exec.len()
        invariant
            i <= ls_exec@.len(),
            ls == seqs_of(ls_exec@),
            seqs_of(out@) == ls.take(i as int).map_values(|l: Seq<char>| inline_line(l)),
            n == inline_count(ls.take(i as int)),
            n <= i,
        decreases ls_exec.len() - i,
    {
        let l = &ls_exec[i];
        let ghost t1 = ls.take(i + 1);
        assert(t1.drop_last() =~= ls.take(i as int));
        assert(t1.last() == l@);
        let mut line: Vec<char> = Vec::new();
        let ws = split_whitespace(l.as_slice());
        if str_contains(l.as_slice(), "call ") && !str_contains(l.as_slice(), "@printf")
            && !str_contains(l.as_slice(), "@malloc") && ws.len() <= 4 {
            append_str(&mut line, "; inlined: ");
            n += 1;
        }
        append_chars(&mut line, l.as_slice());
        proof {
            lemma_seqs_of_push(out@, line);
            assert(t1.map_values(|l: Seq<char>| inline_line(l)) =~= ls.take(i as int).map_values(
                |l: Seq<char>| inline_line(l),
            ).push(line@));
        }
        out.push(line);
        i += 1;
    }
    assert(ls.take(ls_exec.len() as int) =~= ls);
    let joined = terminated_exec(&out);
    (trim_exec(joined.as_slice()), n)
}

fn vector_exec(t: &[char]) -> (r: Vec<char>)
    ensures
        r@ == vector_text(t@),
{
    let ls_exec = lines_of(t);
    let ghost ls = seqs_of(ls_exec@);
    let mut out: Vec<Vec<char>> = Vec::new();
    let mut i: usize = 0;
    while i < ls_exec.len()
        invariant
            i <= ls_exec@.len(),
            ls == seqs_of(ls_exec@),
            seqs_of(out@) == ls.take(i as int).map_values(|l: Seq<char>| vector_line(l)),
        decreases ls_exec.len() - i,
    {
        let l = &ls_exec[i];
        let ghost t1 = ls.take(i + 1);
        assert(t1.drop_last() =~= ls.take(i as int));
        assert(t1.last() == l@);
        let mut line: Vec<char> = Vec::new();
        if str_contains(l.as_slice(), "i64") && str_contains(l.as_slice(), "add ") {
            append_str(&mut line, "; VECTORIZABLE: ");
        }
        append_chars(&mut line, l.as_slice());
        proof {
            lemma_seqs_of_push(out@, line);
            assert(t1.map_values(|l: Seq<char>| vector_line(l)) =~= ls.take(i as int).map_values(
                |l: Seq<char>| vector_line(l),
            ).push(line@));
        }
        out.push(line);
        i += 1;
    }
    assert(ls.take(ls_exec.len() as int) =~= ls);
    let joined = terminated_exec(&out);
    trim_exec(joined.as_slice())
}

/// The text after the level-1 passes.
pub open spec fn level1_text(t: Seq<char>) -> Seq<char> {
    simplify_text(unreachable_text(t))
}

/// The text after the level-2 passes.
pub open spec fn level2_text(t: Seq<char>) -> Seq<char> {
    inline_text(merge_text(dce_text(level1_text(t))))
}

/// The text `optimize_ir` answers at `level`.
pub open spec fn level_text(level: OptimizationLevel, t: Seq<char>) -> Seq<char> {
    match level {
        OptimizationLevel::O0 => t,
        OptimizationLevel::O1 => level1_text(t),
        OptimizationLevel::O2 => level2_text(t),
        OptimizationLevel::O3 => vector_text(level2_text(t)),
    }
}

/// What the level-2 passes add to the removed count.
pub open spec fn level2_removed(t: Seq<char>) -> nat {
    let a = level1_text(t);
    dce_scan(lines(a)).1.len() + inline_count(lines(merge_text(dce_text(a))))
}

/// What the level-2 passes add to the merged count.
pub open spec fn level2_merged(t: Seq<char>) -> nat {
    merge_count(lines(dce_text(level1_text(t))), 0)
}

/// What the level-1 passes add to the simplified count.
pub open spec fn level1_simplified(t: Seq<char>) -> nat {
    changed_count(lines(unreachable_text(t)))
}

/// `stats` with the counts of the passes that `level` runs on `t` added.
pub open spec fn stats_after(level: OptimizationLevel, stats: OptimizationStats, t: Seq<char>) -> OptimizationStats {
    match level {
        OptimizationLevel::O0 => stats,
        OptimizationLevel::O1 => OptimizationStats {
            insts_simplified: (stats.insts_simplified + level1_simplified(t)) as usize,
            ..stats
        },
        _ => OptimizationStats {
            insts_simplified: (stats.insts_simplified + level1_simplified(t)) as usize,
            insts_removed: (stats.insts_removed + level2_removed(t)) as usize,
            blocks_merged: (stats.blocks_merged + level2_merged(t)) as usize,
            ..stats
        },
    }
}

/// The counts that `level` adds on `t` all fit.
pub open spec fn counts_fit(level: OptimizationLevel, stats: OptimizationStats, t: Seq<char>) -> bool {
    &&& stats.insts_simplified + level1_simplified(t) <= usize::MAX
    &&& stats.insts_removed + level2_removed(t) <= usize::MAX
    &&& stats.blocks_merged + level2_merged(t) <= usize::MAX
}

/// The IR optimizer: a level and its counts.
#[derive(Debug, Clone)]
pub struct LLVMIROptimizer {
    pub optimization_level: OptimizationLevel,
    pub stats: OptimizationStats,
}

impl LLVMIROptimizer {
    pub fn new(level: OptimizationLevel) -> (r: Self)
        ensures
            r.optimization_level == level,
            r.stats == (OptimizationStats {
                insts_removed: 0,
                insts_simplified: 0,
                blocks_merged: 0,
                branches_eliminated: 0,
            }),
    {
        LLVMIROptimizer {
            optimization_level: level,
            stats: OptimizationStats {
                insts_removed: 0,
                insts_simplified: 0,
                blocks_merged: 0,
                branches_eliminated: 0,
            },
        }
    }

    /// Runs the passes of the optimizer's level on `ir`.
    pub fn optimize_ir(&mut self, ir: &str) -> (r: String)
        requires
            counts_fit(old(self).optimization_level, old(self).stats, ir@),
        ensures
            r@ == level_text(old(self).optimization_level, ir@),
            final(self).optimization_level == old(self).optimization_level,
            final(self).stats == stats_after(old(self).optimization_level, old(self).stats, ir@),
    {
        match self.optimization_level {
            OptimizationLevel::O0 => ir.to_string(),
            OptimizationLevel::O1 => self.optimize_level_1(ir),
            OptimizationLevel::O2 => self.optimize_level_2(ir),
            OptimizationLevel::O3 => self.optimize_level_3(ir),
        }
    }

    fn optimize_level_1(&mut self, ir: &str) -> (r: String)
        requires
            old(self).stats.insts_simplified + level1_simplified(ir@) <= usize::MAX,
        ensures
            r@ == level1_text(ir@),
            final(self).optimization_level == old(self).optimization_level,
            final(self).stats == stats_after(OptimizationLevel::O1, old(self).stats, ir@),
    {
        let result = self.eliminate_unreachable_blocks(ir);
        self.simplify_constants(result.as_str())
    }

    fn optimize_level_2(&mut self, ir: &str) -> (r: String)
        requires
            counts_fit(OptimizationLevel::O2, old(self).stats, ir@),
        ensures
            r@ == level2_text(ir@),
            final(self).optimization_level == old(self).optimization_level,
            final(self).stats == stats_after(OptimizationLevel::O2, old(self).stats, ir@),
    {
        let a = self.optimize_level_1(ir);
        let b = self.eliminate_dead_code(a.as_str());
        let c = self.merge_basic_blocks(b.as_str());
        self.inline_small_functions(c.as_str())
    }

    fn optimize_level_3(&mut self, ir: &str) -> (r: String)
        requires
            counts_fit(OptimizationLevel::O3, old(self).stats, ir@),
        ensures
            r@ == vector_text(level2_text(ir@)),
            final(self).optimization_level == old(self).optimization_level,
            final(self).stats == stats_after(OptimizationLevel::O3, old(self).stats, ir@),
    {
        let a = self.optimize_level_2(ir);
        let b = self.vectorization_analysis(a.as_str());
        let c = self.loop_unrolling(b.as_str());
        self.aggressive_inlining(c.as_str())
    }

    /// The lines that line 0 reaches, following the labels of branches and falling
    /// through lines that neither branch nor return, joined by line feeds.
    pub fn eliminate_unreachable_blocks(&mut self, ir: &str) -> (r: String)
        ensures
            r@ == unreachable_text(ir@),
            *final(self) == *old(self),
    {
        let cs = chars_of(ir);
        string_of(unreachable_exec(cs.as_slice()).as_slice())
    }

    /// Each line with its constant operation simplified, trimmed; counts the lines changed.
    pub fn simplify_constants(&mut self, ir: &str) -> (r: String)
        requires
            old(self).stats.insts_simplified + changed_count(lines(ir@)) <= usize::MAX,
        ensures
            r@ == simplify_text(ir@),
            final(self).optimization_level == old(self).optimization_level,
            final(self).stats == (OptimizationStats {
                insts_simplified: (old(self).stats.insts_simplified + changed_count(lines(ir@))) as usize,
                ..old(self).stats
            }),
    {
        let cs = chars_of(ir);
        let (t, n) = simplify_exec(cs.as_slice());
        self.stats.insts_simplified = self.stats.insts_simplified + n;
        string_of(t.as_slice())
    }

    pub fn simplify_add(&self, line: &str) -> (r: String)
        ensures
            r@ == simplify_add(line@),
    {
        let cs = chars_of(line);
        string_of(add_exec(cs.as_slice()).as_slice())
    }

    pub fn simplify_mul(&self, line: &str) -> (r: String)
        ensures
            r@ == simplify_mul(line@),
    {
        let cs = chars_of(line);
        string_of(mul_exec(cs.as_slice()).as_slice())
    }

    pub fn simplify_and(&self, line: &str) -> (r: String)
        ensures
            r@ == simplify_and(line@),
    {
        let cs = chars_of(line);
        string_of(and_exec(cs.as_slice()).as_slice())
    }

    pub fn simplify_or(&self, line: &str) -> (r: String)
        ensures
            r@ == simplify_or(line@),
    {
        let cs = chars_of(line);
        string_of(or_exec(cs.as_slice()).as_slice())
    }

    pub fn simplify_xor(&self, line: &str) -> (r: String)
        ensures
            r@ == simplify_xor(line@),
    {
        let cs = chars_of(line);
        string_of(xor_exec(cs.as_slice()).as_slice())
    }

    /// Scans the lines backwards keeping returns, calls and lines that name a used value,
    /// and marking the value each kept line defines as used; answers the kept lines in the
    /// order met, joined by line feeds, and adds their number to the removed count.
    pub fn eliminate_dead_code(&mut self, ir: &str) -> (r: String)
        requires
            old(self).stats.insts_removed + dce_scan(lines(ir@)).1.len() <= usize::MAX,
        ensures
            r@ == dce_text(ir@),
            final(self).optimization_level == old(self).optimization_level,
            final(self).stats == (OptimizationStats {
                insts_removed: (old(self).stats.insts_removed + dce_scan(lines(ir@)).1.len()) as usize,
                ..old(self).stats
            }),
    {
        let cs = chars_of(ir);
        let (t, n) = dce_exec(cs.as_slice());
        self.stats.insts_removed = self.stats.insts_removed + n;
        string_of(t.as_slice())
    }

    /// Drops each label line that directly follows a branch to labels, trimmed; counts
    /// the merges.
    pub fn merge_basic_blocks(&mut self, ir: &str) -> (r: String)
        requires
            old(self).stats.blocks_merged + merge_count(lines(ir@), 0) <= usize::MAX,
        ensures
            r@ == merge_text(ir@),
            final(self).optimization_level == old(self).optimization_level,
            final(self).stats == (OptimizationStats {
                blocks_merged: (old(self).stats.blocks_merged + merge_count(lines(ir@), 0)) as usize,
                ..old(self).stats
            }),
    {
        let cs = chars_of(ir);
        let (t, n) = merge_exec(cs.as_slice());
        self.stats.blocks_merged = self.stats.blocks_merged + n;
        string_of(t.as_slice())
    }

    /// Marks each short call of a function other than `printf` and `malloc` as inlined,
    /// trimmed; counts the marks as removed instructions.
    pub fn inline_small_functions(&mut self, ir: &str) -> (r: String)
        requires
            old(self).stats.insts_removed + inline_count(lines(ir@)) <= usize::MAX,
        ensures
            r@ == inline_text(ir@),
            final(self).optimization_level == old(self).optimization_level,
            final(self).stats == (OptimizationStats {
                insts_removed: (old(self).stats.insts_removed + inline_count(lines(ir@))) as usize,
                ..old(self).stats
            }),
    {
        let cs = chars_of(ir);
        let (t, n) = inline_exec(cs.as_slice());
        self.stats.insts_removed = self.stats.insts_removed + n;
        string_of(t.as_slice())
    }

    /// Marks each 64-bit addition as vectorizable, trimmed.
    pub fn vectorization_analysis(&mut self, ir: &str) -> (r: String)
        ensures
            r@ == vector_text(ir@),
            *final(self) == *old(self),
    {
        let cs = chars_of(ir);
        string_of(vector_exec(cs.as_slice()).as_slice())
    }

    /// Loops are left as they are.
    pub fn loop_unrolling(&mut self, ir: &str) -> (r: String)
        ensures
            r@ == ir@,
            *final(self) == *old(self),
    {
        ir.to_string()
    }

    /// Calls are left as they are.
    pub fn aggressive_inlining(&mut self, ir: &str) -> (r: String)
        ensures
            r@ == ir@,
            *final(self) == *old(self),
    {
        ir.to_string()
    }

    pub fn get_stats(&self) -> (r: OptimizationStats)
        ensures
            r == self.stats,
    {
        self.stats
    }
}

/// Block merging accounts for every line: each is kept or counted as merged.
pub proof fn law_merge_accounts_for_every_line(ls: Seq<Seq<char>>, i: int)
    requires
        0 <= i <= ls.len(),
    ensures
        merged(ls, i).len() + merge_count(ls, i) == ls.len() - i,
    decreases ls.len() - i,
{
    if i < ls.len() {
        if merges_next(ls, i) {
            law_merge_accounts_for_every_line(ls, i + 2);
        } else {
            law_merge_accounts_for_every_line(ls, i + 1);
        }
    }
}

/// Constant simplification leaves lines that name no 64-bit operation as they are.
pub proof fn law_simplify_keeps_other_lines(l: Seq<char>)
    requires
        !contains(l, "add i64"@),
        !contains(l, "mul i64"@),
        !contains(l, "and i64"@),
        !contains(l, "or i64"@),
        !contains(l, "xor i64"@),
    ensures
        simplify_line(l) == l,
{
}

} // verus!
