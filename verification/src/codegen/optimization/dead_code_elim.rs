//! Dead code elimination over LLVM-style IR text, line by line: definitions nobody reads,
//! blocks no branch reaches, and variables no return or call uses.
use vstd::prelude::*;
use vstd::utf8::encode_utf8;
use crate::names::NameSet;
use crate::text::{
    chars_of, contains, lines, lines_of, seqs_of, split_whitespace, starts_with,
    str_contains, str_starts_with, string_of, terminated, trim, trim_exec, words,
};

verus! {

/// What the passes have removed so far.
#[derive(Debug, Clone, Copy)]
pub struct DCEStats {
    pub lines_removed: usize,
    pub variables_eliminated: usize,
    pub blocks_removed: usize,
    pub bytes_saved: usize,
}

/// A word that names an IR value.
pub open spec fn is_value_word(w: Seq<char>) -> bool {
    starts_with(w, "%"@)
}

/// A line whose effect is more than the value it defines.
pub open spec fn side_effects(l: Seq<char>) -> bool {
    ||| contains(l, "call "@)
    ||| contains(l, "store "@)
    ||| contains(l, "ret "@)
    ||| contains(l, "br "@)
    ||| contains(l, "printf"@)
}

/// The value a line defines: the trimmed text before its first `=`, when that starts
/// with `%`.
pub open spec fn definition(l: Seq<char>) -> Option<Seq<char>> {
    match l.index_of_first('=') {
        Some(e) => {
            let lhs = trim(l.take(e));
            if is_value_word(lhs) {
                Some(lhs)
            } else {
                None
            }
        },
        None => None,
    }
}

/// `w` without its trailing commas.
pub open spec fn strip_commas(w: Seq<char>) -> Seq<char>
    decreases w.len(),
{
    if w.len() > 0 && w.last() == ',' {
        strip_commas(w.drop_last())
    } else {
        w
    }
}

/// The values read among the words `ws` of line `l`: value words, without trailing commas,
/// that `l` does not define.
pub open spec fn uses_among(ws: Seq<Seq<char>>, l: Seq<char>) -> Seq<Seq<char>>
    decreases ws.len(),
{
    if ws.len() == 0 {
        seq![]
    } else {
        let r = uses_among(ws.drop_last(), l);
        let w = ws.last();
        if is_value_word(w) && !contains(l, strip_commas(w) + " ="@) {
            r.push(strip_commas(w))
        } else {
            r
        }
    }
}

/// The values a line reads.
pub open spec fn uses(l: Seq<char>) -> Seq<Seq<char>> {
    uses_among(words(l), l)
}

fn strip_commas_exec(w: &[char]) -> (r: Vec<char>)
    ensures
        r@ == strip_commas(w@),
{
    let mut n: usize = w.len();
    assert(w@.take(n as int) =~= w@);
    while n > 0 && w[n - 1] == ','
        invariant
            n <= w.len(),
            strip_commas(w@) == strip_commas(w@.take(n as int)),
        decreases n,
    {
        assert(w@.take(n as int).drop_last() =~= w@.take(n - 1));
        n -= 1;
    }
    let mut r: Vec<char> = Vec::new();
    let mut i: usize = 0;
    while i < n
        invariant
            i <= n <= w.len(),
            r@ == w@.take(i as int),
        decreases n - i,
    {
        r.push(w[i]);
        i += 1;
        assert(r@ =~= w@.take(i as int));
    }
    assert(n == 0 || w@.take(n as int).last() != ',');
    r
}

/// `String::find('=')` on characters: the first position of `=`.
fn first_eq(l: &[char]) -> (r: Option<usize>)
    ensures
        match r {
            Some(i) => i < l@.len() && l@.index_of_first('=') == Some(i as int),
            None => l@.index_of_first('=') is None,
        },
{
    let mut i: usize = 0;
    while i < l.len()
        invariant
            i <= l.len(),
            forall|j: int| 0 <= j < i ==> l@[j] != '=',
        decreases l.len() - i,
    {
        if l[i] == '=' {
            proof {
                l@.index_of_first_ensures('=');
                match l@.index_of_first('=') {
                    Some(k) => {
                        assert(k == i);
                    },
                    None => {
                        assert(l@.contains('='));
                    },
                }
            }
            return Some(i);
        }
        i += 1;
    }
    proof {
        l@.index_of_first_ensures('=');
        match l@.index_of_first('=') {
            Some(k) => {
                assert(l@[k] == '=');
            },
            None => {},
        }
    }
    None
}

fn take_chars(l: &[char], n: usize) -> (r: Vec<char>)
    requires
        n <= l.len(),
    ensures
        r@ == l@.take(n as int),
{
    let mut r: Vec<char> = Vec::new();
    let mut i: usize = 0;
    while i < n
        invariant
            i <= n <= l.len(),
            r@ == l@.take(i as int),
        decreases n - i,
    {
        r.push(l[i]);
        i += 1;
        assert(r@ =~= l@.take(i as int));
    }
    r
}

/// The value `l` defines, as characters.
fn definition_chars(l: &[char]) -> (r: Option<Vec<char>>)
    ensures
        match r {
            Some(v) => definition(l@) == Some(v@),
            None => definition(l@) is None,
        },
{
    match first_eq(l) {
        Some(e) => {
            let lhs = take_chars(l, e);
            let t = trim_exec(lhs.as_slice());
            if str_starts_with(t.as_slice(), "%") {
                Some(t)
            } else {
                None
            }
        },
        None => None,
    }
}

/// Whether `l` has an effect beyond the value it defines.
fn side_effects_exec(l: &[char]) -> (r: bool)
    ensures
        r == side_effects(l@),
{
    str_contains(l, "call ") || str_contains(l, "store ") || str_contains(l, "ret ")
        || str_contains(l, "br ") || str_contains(l, "printf")
}

/// The values `l` reads, in order.
fn uses_exec(l: &[char]) -> (r: Vec<Vec<char>>)
    ensures
        seqs_of(r@) == uses(l@),
{
    let ws = split_whitespace(l);
    let mut r: Vec<Vec<char>> = Vec::new();
    let mut i: usize = 0;
    while i < ws.len()
        invariant
            i <= ws.len(),
            seqs_of(ws@) == words(l@),
            seqs_of(r@) == uses_among(seqs_of(ws@).take(i as int), l@),
        decreases ws.len() - i,
    {
        let ghost t = seqs_of(ws@).take(i + 1);
        assert(t.drop_last() =~= seqs_of(ws@).take(i as int));
        assert(t.last() == ws@[i as int]@);
        if str_starts_with(ws[i].as_slice(), "%") {
            let c = strip_commas_exec(ws[i].as_slice());
            let mut pat = c.clone();
            pat.push(' ');
            pat.push('=');
            proof {
                assert(pat@ =~= c@ + " ="@) by {
                    reveal_strlit(" =");
                }
            }
            if !crate::text::contains_exec(l, pat.as_slice()) {
                proof {
                    crate::text::lemma_seqs_of_push(r@, c);
                }
                r.push(c);
            }
        }
        i += 1;
    }
    assert(seqs_of(ws@).take(ws.len() as int) =~= seqs_of(ws@));
    r
}

/// Adds each of `ws` that names a value.
fn insert_value_words(set: &mut NameSet, ws: &Vec<Vec<char>>)
    requires
        old(set).wf(),
    ensures
        final(set).wf(),
        forall|x: Seq<char>| #[trigger] final(set).has(x) <==> old(set).has(x) || (seqs_of(
            ws@,
        ).contains(x) && is_value_word(x)),
{
    let mut i: usize = 0;
    while i < ws.len()
        invariant
            i <= ws.len(),
            set.wf(),
            forall|x: Seq<char>| #[trigger] set.has(x) <==> old(set).has(x) || (seqs_of(
                ws@,
            ).take(i as int).contains(x) && is_value_word(x)),
        decreases ws.len() - i,
    {
        let ghost t = seqs_of(ws@).take(i + 1);
        assert(t =~= seqs_of(ws@).take(i as int).push(ws@[i as int]@));
        proof {
            crate::names::lemma_push_contains(seqs_of(ws@).take(i as int), ws@[i as int]@);
        }
        if str_starts_with(ws[i].as_slice(), "%") {
            set.insert(string_of(ws[i].as_slice()));
        }
        i += 1;
    }
    assert(seqs_of(ws@).take(ws.len() as int) =~= seqs_of(ws@));
}

/// Adds all of `ws`.
fn insert_all(set: &mut NameSet, ws: &Vec<Vec<char>>)
    requires
        old(set).wf(),
    ensures
        final(set).wf(),
        forall|x: Seq<char>| #[trigger] final(set).has(x) <==> old(set).has(x) || seqs_of(ws@).contains(x),
{
    let mut i: usize = 0;
    while i < ws.len()
        invariant
            i <= ws.len(),
            set.wf(),
            forall|x: Seq<char>| #[trigger] set.has(x) <==> old(set).has(x) || seqs_of(ws@).take(
                i as int,
            ).contains(x),
        decreases ws.len() - i,
    {
        let ghost t = seqs_of(ws@).take(i + 1);
        assert(t =~= seqs_of(ws@).take(i as int).push(ws@[i as int]@));
        proof {
            crate::names::lemma_push_contains(seqs_of(ws@).take(i as int), ws@[i as int]@);
        }
        set.insert(string_of(ws[i].as_slice()));
        i += 1;
    }
    assert(seqs_of(ws@).take(ws.len() as int) =~= seqs_of(ws@));
}

/// What a line makes live before its own definition is checked: the last word of a
/// return, and each value word of a call, print, store or branch.
pub open spec fn early_live(l: Seq<char>, x: Seq<char>) -> bool {
    ||| contains(l, "ret "@) && words(l).len() > 0 && x == words(l).last()
    ||| (contains(l, "printf"@) || contains(l, "call "@) || contains(l, "store "@) || contains(
        l,
        "br "@,
    )) && words(l).contains(x) && is_value_word(x)
}

/// What a line makes live: its early values and the values it reads.
pub open spec fn makes_live(l: Seq<char>, x: Seq<char>) -> bool {
    early_live(l, x) || uses(l).contains(x)
}

/// `x` is live at line `i`, scanning backwards: live before, or made live by line `i` or
/// a later one.
pub open spec fn live_from(pre: NameSet, ls: Seq<Seq<char>>, i: int, x: Seq<char>) -> bool {
    pre.has(x) || exists|j: int| i <= j < ls.len() && #[trigger] makes_live(ls[j], x)
}

/// Line `i` defines a value that is not live when the backward scan reaches it.
pub open spec fn found_dead(pre: NameSet, ls: Seq<Seq<char>>, i: int) -> bool {
    match definition(ls[i]) {
        Some(v) => !(live_from(pre, ls, i + 1, v) || early_live(ls[i], v)),
        None => false,
    }
}

/// How many of the lines from `i` on are found dead.
pub open spec fn dead_definitions(pre: NameSet, ls: Seq<Seq<char>>, i: int) -> nat
    decreases ls.len() - i,
{
    if 0 <= i < ls.len() {
        dead_definitions(pre, ls, i + 1) + if found_dead(pre, ls, i) {
            1nat
        } else {
            0nat
        }
    } else {
        0
    }
}

proof fn lemma_dead_definitions_bound(pre: NameSet, ls: Seq<Seq<char>>, i: int)
    requires
        0 <= i <= ls.len(),
    ensures
        dead_definitions(pre, ls, i) <= ls.len() - i,
    decreases ls.len() - i,
{
    if i < ls.len() {
        lemma_dead_definitions_bound(pre, ls, i + 1);
    }
}

/// The line indices, below `k`, whose definition is not live (as `live` says) and that
/// have no other effect.
pub open spec fn dead_lines(ls: Seq<Seq<char>>, live: spec_fn(Seq<char>) -> bool, k: int) -> Seq<usize>
    decreases k,
{
    if k <= 0 {
        seq![]
    } else {
        let r = dead_lines(ls, live, k - 1);
        let l = ls[k - 1];
        if definition(l) is Some && !live(definition(l)->0) && !side_effects(l) {
            r.push((k - 1) as usize)
        } else {
            r
        }
    }
}

/// The lines whose index is not among `dead`, in order.
pub open spec fn kept_lines(ls: Seq<Seq<char>>, dead: Seq<usize>) -> Seq<Seq<char>>
    decreases ls.len(),
{
    if ls.len() == 0 {
        seq![]
    } else {
        let r = kept_lines(ls.drop_last(), dead);
        if dead.contains((ls.len() - 1) as usize) {
            r
        } else {
            r.push(ls.last())
        }
    }
}

/// How many lines have their index among `dead`.
pub open spec fn removed_count(ls: Seq<Seq<char>>, dead: Seq<usize>) -> nat
    decreases ls.len(),
{
    if ls.len() == 0 {
        0
    } else {
        removed_count(ls.drop_last(), dead) + if dead.contains((ls.len() - 1) as usize) {
            1nat
        } else {
            0nat
        }
    }
}

/// The UTF-8 length of the lines whose index is among `dead`.
pub open spec fn removed_bytes(ls: Seq<Seq<char>>, dead: Seq<usize>) -> nat
    decreases ls.len(),
{
    if ls.len() == 0 {
        0
    } else {
        removed_bytes(ls.drop_last(), dead) + if dead.contains((ls.len() - 1) as usize) {
            encode_utf8(ls.last()).len()
        } else {
            0nat
        }
    }
}

/// Whether `v` holds `x`.
fn holds_index(v: &Vec<usize>, x: usize) -> (r: bool)
    ensures
        r == v@.contains(x),
{
    let mut i: usize = 0;
    while i < v.len()
        invariant
            i <= v.len(),
            forall|j: int| 0 <= j < i ==> v@[j] != x,
        decreases v.len() - i,
    {
        if v[i] == x {
            assert(v@[i as int] == x);
            return true;
        }
        i += 1;
    }
    false
}

/// The UTF-8 length of all the lines.
pub open spec fn total_bytes(ls: Seq<Seq<char>>) -> nat
    decreases ls.len(),
{
    if ls.len() == 0 {
        0
    } else {
        total_bytes(ls.drop_last()) + encode_utf8(ls.last()).len()
    }
}

proof fn lemma_removed_bounds(ls: Seq<Seq<char>>, dead: Seq<usize>)
    ensures
        removed_bytes(ls, dead) <= total_bytes(ls),
        removed_count(ls, dead) <= ls.len(),
    decreases ls.len(),
{
    if ls.len() > 0 {
        lemma_removed_bounds(ls.drop_last(), dead);
    }
}

/// The dead code eliminator and what it has learned: the values found live, and the line
/// indices found dead.
#[derive(Debug)]
pub struct DeadCodeEliminator {
    pub live_variables: NameSet,
    pub dead_instructions: Vec<usize>,
    pub statistics: DCEStats,
}

impl DeadCodeEliminator {
    pub fn new() -> (r: Self)
        ensures
            r.live_variables.wf(),
            r.live_variables.elems().len() == 0,
            r.dead_instructions@.len() == 0,
            r.statistics == (DCEStats {
                lines_removed: 0,
                variables_eliminated: 0,
                blocks_removed: 0,
                bytes_saved: 0,
            }),
    {
        DeadCodeEliminator {
            live_variables: NameSet::new(),
            dead_instructions: Vec::new(),
            statistics: DCEStats {
                lines_removed: 0,
                variables_eliminated: 0,
                blocks_removed: 0,
                bytes_saved: 0,
            },
        }
    }

    /// Scans `lines` from the last to the first, adding the values each line makes live
    /// and counting the definitions found dead on the way.
    pub fn collect_live_variables(&mut self, lines: &Vec<Vec<char>>)
        requires
            old(self).live_variables.wf(),
            old(self).statistics.variables_eliminated + lines@.len() <= usize::MAX,
        ensures
            final(self).live_variables.wf(),
            forall|x: Seq<char>| #[trigger] final(self).live_variables.has(x) <==> live_from(
                old(self).live_variables,
                seqs_of(lines@),
                0,
                x,
            ),
            final(self).statistics == (DCEStats {
                variables_eliminated: (old(self).statistics.variables_eliminated + dead_definitions(
                    old(self).live_variables,
                    seqs_of(lines@),
                    0,
                )) as usize,
                ..old(self).statistics
            }),
            final(self).dead_instructions == old(self).dead_instructions,
    {
        let ghost pre = self.live_variables;
        let ghost ls = seqs_of(lines@);
        let ghost base = self.statistics.variables_eliminated;
        let ghost st = self.statistics;
        let mut i: usize = lines.len();
        while i > 0
            invariant
                i <= lines@.len(),
                ls == seqs_of(lines@),
                self.live_variables.wf(),
                forall|x: Seq<char>| #[trigger] self.live_variables.has(x) <==> live_from(
                    pre,
                    ls,
                    i as int,
                    x,
                ),
                self.statistics.variables_eliminated == base + dead_definitions(pre, ls, i as int),
                base + lines@.len() <= usize::MAX,
                self.statistics == (DCEStats {
                    variables_eliminated: self.statistics.variables_eliminated,
                    ..st
                }),
                self.dead_instructions == old(self).dead_instructions,
            decreases i,
        {
            i -= 1;
            let line = &lines[i];
            let ghost l = ls[i as int];
            assert(line@ == l);
            let ws = split_whitespace(line.as_slice());
            let ghost mid0 = self.live_variables;
            if str_contains(line.as_slice(), "ret ") && ws.len() > 0 {
                self.live_variables.insert(string_of(ws[ws.len() - 1].as_slice()));
            }
            let ghost mid1 = self.live_variables;
            if str_contains(line.as_slice(), "printf") || str_contains(line.as_slice(), "call ")
                || str_contains(line.as_slice(), "store ") || str_contains(line.as_slice(), "br ") {
                insert_value_words(&mut self.live_variables, &ws);
            }
            proof {
                assert forall|x: Seq<char>| #[trigger] self.live_variables.has(x) <==> (live_from(
                    pre,
                    ls,
                    i + 1,
                    x,
                ) || early_live(l, x)) by {
                    if contains(l, "ret "@) && ws@.len() > 0 {
                        assert(seqs_of(ws@).last() == ws@[ws@.len() - 1]@);
                    }
                }
                lemma_dead_definitions_bound(pre, ls, i as int);
            }
            match definition_chars(line.as_slice()) {
                Some(v) => {
                    if !self.live_variables.contains(string_of(v.as_slice()).as_str()) {
                        self.statistics.variables_eliminated += 1;
                    }
                },
                None => {},
            }
            let us = uses_exec(line.as_slice());
            insert_all(&mut self.live_variables, &us);
            proof {
                assert forall|x: Seq<char>| #[trigger] self.live_variables.has(x) <==> live_from(
                    pre,
                    ls,
                    i as int,
                    x,
                ) by {
                    if live_from(pre, ls, i as int, x) && !pre.has(x) {
                        let j = choose|j: int| i <= j < ls.len() && #[trigger] makes_live(ls[j], x);
                        if j > i {
                            assert(live_from(pre, ls, i + 1, x));
                        }
                    }
                    if live_from(pre, ls, i + 1, x) && !pre.has(x) {
                        let j = choose|j: int| i + 1 <= j < ls.len() && #[trigger] makes_live(ls[j], x);
                        assert(i <= j < ls.len() && makes_live(ls[j], x));
                    }
                    if makes_live(l, x) {
                        assert(makes_live(ls[i as int], x));
                    }
                }
            }
        }
    }
}

impl DeadCodeEliminator {
    /// Records, after the indices already there, the index of each line whose definition
    /// is not live and that has no other effect.
    pub fn mark_dead_instructions(&mut self, lines: &Vec<Vec<char>>)
        requires
            old(self).live_variables.wf(),
        ensures
            final(self).live_variables == old(self).live_variables,
            final(self).statistics == old(self).statistics,
            final(self).dead_instructions@ == old(self).dead_instructions@ + dead_lines(
                seqs_of(lines@),
                |x: Seq<char>| old(self).live_variables.has(x),
                lines@.len() as int,
            ),
    {
        let ghost ls = seqs_of(lines@);
        let ghost live = |x: Seq<char>| self.live_variables.has(x);
        let ghost d0 = self.dead_instructions@;
        let mut i: usize = 0;
        while i < lines.len()
            invariant
                i <= lines@.len(),
                ls == seqs_of(lines@),
                self.live_variables.wf(),
                self.live_variables == old(self).live_variables,
                self.statistics == old(self).statistics,
                live == (|x: Seq<char>| old(self).live_variables.has(x)),
                d0 == old(self).dead_instructions@,
                self.dead_instructions@ == d0 + dead_lines(ls, live, i as int),
            decreases lines.len() - i,
        {
            let line = &lines[i];
            assert(line@ == ls[i as int]);
            match definition_chars(line.as_slice()) {
                Some(v) => {
                    let live_v = self.live_variables.contains(string_of(v.as_slice()).as_str());
                    if !live_v && !side_effects_exec(line.as_slice()) {
                        self.dead_instructions.push(i);
                    }
                },
                None => {},
            }
            i += 1;
        }
    }

    /// Drops the definitions nobody reads: scans the lines backwards for live values,
    /// marks dead definitions, and answers the text without the marked lines (by index,
    /// marks of earlier runs included), trimmed.
    pub fn eliminate(&mut self, ir: &str) -> (r: String)
        requires
            old(self).live_variables.wf(),
            old(self).statistics.variables_eliminated + lines(ir@).len() <= usize::MAX,
            old(self).statistics.lines_removed + lines(ir@).len() <= usize::MAX,
            old(self).statistics.bytes_saved + total_bytes(lines(ir@)) <= usize::MAX,
        ensures
            ({
                let ls = lines(ir@);
                let live = |x: Seq<char>| live_from(old(self).live_variables, ls, 0, x);
                let dead = old(self).dead_instructions@ + dead_lines(ls, live, ls.len() as int);
                &&& final(self).live_variables.wf()
                &&& forall|x: Seq<char>| #[trigger] final(self).live_variables.has(x) <==> live(x)
                &&& final(self).dead_instructions@ == dead
                &&& r@ == trim(terminated(kept_lines(ls, dead)))
                &&& final(self).statistics == (DCEStats {
                    variables_eliminated: (old(self).statistics.variables_eliminated
                        + dead_definitions(old(self).live_variables, ls, 0)) as usize,
                    lines_removed: (old(self).statistics.lines_removed + removed_count(ls, dead)) as usize,
                    bytes_saved: (old(self).statistics.bytes_saved + removed_bytes(ls, dead)) as usize,
                    ..old(self).statistics
                })
            }),
    {
        let cs = chars_of(ir);
        let ir_lines = lines_of(cs.as_slice());
        let ghost ls = seqs_of(ir_lines@);
        assert(ls == lines(ir@));
        self.collect_live_variables(&ir_lines);
        let ghost live = |x: Seq<char>| live_from(old(self).live_variables, ls, 0, x);
        assert(live =~= (|x: Seq<char>| self.live_variables.has(x)));
        self.mark_dead_instructions(&ir_lines);
        let ghost dead = self.dead_instructions@;
        proof {
            lemma_removed_bounds(ls, dead);
        }
        let ghost st = self.statistics;
        let ghost lv = self.live_variables;
        let mut out: Vec<char> = Vec::new();
        let mut idx: usize = 0;
        while idx < ir_lines.len()
            invariant
                idx <= ir_lines@.len(),
                ls == seqs_of(ir_lines@),
                dead == self.dead_instructions@,
                self.live_variables == lv,
                out@ == terminated(kept_lines(ls.take(idx as int), dead)),
                self.statistics == (DCEStats {
                    lines_removed: (st.lines_removed + removed_count(ls.take(idx as int), dead)) as usize,
                    bytes_saved: (st.bytes_saved + removed_bytes(ls.take(idx as int), dead)) as usize,
                    ..st
                }),
                st.lines_removed + ls.len() <= usize::MAX,
                st.bytes_saved + total_bytes(ls) <= usize::MAX,
                removed_bytes(ls, dead) <= total_bytes(ls),
            decreases ir_lines.len() - idx,
        {
            let ghost t = ls.take(idx + 1);
            assert(t.drop_last() =~= ls.take(idx as int));
            assert(t.last() == ls[idx as int]);
            proof {
                lemma_removed_bounds(t, dead);
                lemma_prefix_removed(ls, dead, idx + 1);
            }
            let line = &ir_lines[idx];
            let ghost k0 = kept_lines(ls.take(idx as int), dead);
            assert((t.len() - 1) as usize == idx);
            if !holds_index(&self.dead_instructions, idx) {
                crate::text::append_chars(&mut out, line.as_slice());
                out.push('\n');
                assert(kept_lines(t, dead) == k0.push(line@));
                assert(k0.push(line@).drop_last() =~= k0);
                assert(out@ =~= terminated(k0) + line@ + seq!['\n']);
            } else {
                let s = string_of(line.as_slice());
                let n = s.as_str().len();
                assert(n == encode_utf8(line@).len());
                self.statistics.lines_removed += 1;
                self.statistics.bytes_saved += n;
            }
            idx += 1;
        }
        assert(ls.take(ir_lines.len() as int) =~= ls);
        assert(self.statistics.variables_eliminated == (old(self).statistics.variables_eliminated
            + dead_definitions(old(self).live_variables, ls, 0)) as usize);
        let t = trim_exec(out.as_slice());
        string_of(t.as_slice())
    }
}

proof fn lemma_prefix_removed(ls: Seq<Seq<char>>, dead: Seq<usize>, k: int)
    requires
        0 <= k <= ls.len(),
    ensures
        removed_bytes(ls.take(k), dead) <= removed_bytes(ls, dead),
        removed_count(ls.take(k), dead) <= removed_count(ls, dead),
    decreases ls.len(),
{
    if k < ls.len() {
        assert(ls.drop_last().take(k) =~= ls.take(k));
        lemma_prefix_removed(ls.drop_last(), dead, k);
    } else {
        assert(ls.take(k) =~= ls);
    }
}

/// The block index a word such as `label%3` names.
pub open spec fn label_target(w: Seq<char>) -> Option<usize> {
    if starts_with(w, "label%"@) {
        crate::text::parse_usize_spec(w.skip(6))
    } else {
        None
    }
}

/// Control passes from line `a` to line `b`: a branch to labels names `b`, or `a` neither
/// returns nor branches and `b` is the next line.
pub open spec fn flows_to(ls: Seq<Seq<char>>, br: Seq<char>, a: int, b: int) -> bool {
    &&& 0 <= a < ls.len()
    &&& 0 <= b
    &&& if contains(ls[a], br) {
        exists|k: int|
            0 <= k < words(ls[a]).len() && #[trigger] label_target(words(ls[a])[k]) == Some(
                b as usize,
            )
    } else {
        !contains(ls[a], "ret "@) && !contains(ls[a], "br "@) && b == a + 1
    }
}

/// `p` is a walk from line to line along `flows_to`.
pub open spec fn is_flow_path(ls: Seq<Seq<char>>, br: Seq<char>, p: Seq<int>) -> bool {
    &&& p.len() > 0
    &&& forall|i: int| 0 <= i < p.len() - 1 ==> #[trigger] flows_to(ls, br, p[i], p[i + 1])
}

/// Line `x` can be reached from line 0.
pub open spec fn reaches(ls: Seq<Seq<char>>, br: Seq<char>, x: int) -> bool {
    exists|p: Seq<int>| #[trigger] is_flow_path(ls, br, p) && p[0] == 0 && p.last() == x
}

/// The lines, below `k`, that line 0 reaches, in order.
pub open spec fn reached_lines(ls: Seq<Seq<char>>, br: Seq<char>, k: int) -> Seq<Seq<char>>
    decreases k,
{
    if k <= 0 {
        seq![]
    } else if reaches(ls, br, k - 1) {
        reached_lines(ls, br, k - 1).push(ls[k - 1])
    } else {
        reached_lines(ls, br, k - 1)
    }
}

/// How many lines, below `k`, line 0 does not reach.
pub open spec fn unreached_count(ls: Seq<Seq<char>>, br: Seq<char>, k: int) -> nat
    decreases k,
{
    if k <= 0 {
        0
    } else {
        unreached_count(ls, br, k - 1) + if reaches(ls, br, k - 1) {
            0nat
        } else {
            1nat
        }
    }
}

proof fn lemma_unreached_bound(ls: Seq<Seq<char>>, br: Seq<char>, k: int)
    requires
        k >= 0,
    ensures
        unreached_count(ls, br, k) <= k,
    decreases k,
{
    if k > 0 {
        lemma_unreached_bound(ls, br, k - 1);
    }
}

/// How many entries are still `false`.
pub open spec fn count_false(s: Seq<bool>) -> nat
    decreases s.len(),
{
    if s.len() == 0 {
        0
    } else {
        count_false(s.drop_last()) + if s.last() {
            0nat
        } else {
            1nat
        }
    }
}

proof fn lemma_count_false_set(s: Seq<bool>, i: int)
    requires
        0 <= i < s.len(),
        !s[i],
    ensures
        count_false(s.update(i, true)) + 1 == count_false(s),
    decreases s.len(),
{
    if i < s.len() - 1 {
        assert(s.update(i, true).drop_last() =~= s.drop_last().update(i, true));
        lemma_count_false_set(s.drop_last(), i);
    } else {
        assert(s.update(i, true).drop_last() =~= s.drop_last());
    }
}

proof fn lemma_reach_start(ls: Seq<Seq<char>>, br: Seq<char>)
    ensures
        reaches(ls, br, 0),
{
    let p = seq![0int];
    assert(is_flow_path(ls, br, p));
}

proof fn lemma_reach_step(ls: Seq<Seq<char>>, br: Seq<char>, a: int, b: int)
    requires
        reaches(ls, br, a),
        flows_to(ls, br, a, b),
    ensures
        reaches(ls, br, b),
{
    let p = choose|p: Seq<int>| #[trigger] is_flow_path(ls, br, p) && p[0] == 0 && p.last() == a;
    let q = p.push(b);
    assert forall|i: int| 0 <= i < q.len() - 1 implies #[trigger] flows_to(ls, br, q[i], q[i + 1]) by {
        if i < p.len() - 1 {
            assert(q[i] == p[i] && q[i + 1] == p[i + 1]);
        }
    }
    assert(is_flow_path(ls, br, q));
}

proof fn lemma_flow_path_closed(ls: Seq<Seq<char>>, br: Seq<char>, vis: Seq<bool>, p: Seq<int>, k: int)
    requires
        vis.len() == ls.len(),
        is_flow_path(ls, br, p),
        p[0] == 0,
        vis.len() > 0 && vis[0],
        forall|a: int, b: int|
            0 <= a < vis.len() && 0 <= b < vis.len() && vis[a] && #[trigger] flows_to(ls, br, a, b)
                ==> vis[b],
        0 <= k < p.len(),
        0 <= p[k] < vis.len(),
    ensures
        vis[p[k]],
    decreases k,
{
    if k > 0 {
        let i = k - 1;
        assert(flows_to(ls, br, p[i], p[i + 1]));
        lemma_flow_path_closed(ls, br, vis, p, k - 1);
    }
}

fn skip_chars(l: &[char], n: usize) -> (r: Vec<char>)
    requires
        n <= l.len(),
    ensures
        r@ == l@.skip(n as int),
{
    let mut r: Vec<char> = Vec::new();
    let mut i: usize = n;
    while i < l.len()
        invariant
            n <= i <= l.len(),
            r@ == l@.subrange(n as int, i as int),
        decreases l.len() - i,
    {
        r.push(l[i]);
        i += 1;
        assert(r@ =~= l@.subrange(n as int, i as int));
    }
    assert(l@.subrange(n as int, l.len() as int) =~= l@.skip(n as int));
    r
}

/// Which lines line 0 reaches.
pub(crate) fn reached_flags(ls_exec: &Vec<Vec<char>>, br: &str) -> (r: Vec<bool>)
    ensures
        r@.len() == ls_exec@.len(),
        forall|i: int| 0 <= i < r@.len() ==> (r@[i] <==> reaches(seqs_of(ls_exec@), br@, i)),
{
    let ghost ls = seqs_of(ls_exec@);
    let n = ls_exec.len();
    let mut visited: Vec<bool> = Vec::new();
    let mut i: usize = 0;
    while i < n
        invariant
            i <= n,
            n == ls_exec@.len(),
            visited@.len() == i,
            forall|j: int| 0 <= j < i ==> !visited@[j],
        decreases n - i,
    {
        visited.push(false);
        i += 1;
    }
    if n == 0 {
        return visited;
    }
    let mut work: Vec<usize> = vec![0];
    proof {
        lemma_reach_start(ls, br@);
        assert(work@[0] == 0);
    }
    loop
        invariant
            n == ls_exec@.len(),
            n > 0,
            ls == seqs_of(ls_exec@),
            visited@.len() == n,
            forall|j: int| 0 <= j < n ==> #[trigger] visited@[j] ==> reaches(ls, br@, j),
            forall|k: int| 0 <= k < work@.len() ==> #[trigger] work@[k] < n && reaches(ls, br@, work@[k] as int),
            forall|a: int, b: int|
                0 <= a < n && 0 <= b < n && visited@[a] && #[trigger] flows_to(ls, br@, a, b)
                    ==> visited@[b] || work@.contains(b as usize),
            visited@[0] || work@.contains(0),
        ensures
            work@.len() == 0,
        decreases count_false(visited@), work@.len(),
    {
        if work.len() == 0 {
            break;
        }
        let ghost wold = work@;
        let a = work.pop().unwrap();
        assert(wold == work@.push(a));
        assert(wold[wold.len() - 1] == a);
        let ghost rest = work@;
        assert forall|b: usize| wold.contains(b) && b != a implies rest.contains(b) by {
            let k = choose|k: int| 0 <= k < wold.len() && wold[k] == b;
            assert(k < rest.len());
            assert(rest[k] == b);
        }
        if visited[a] {
            continue;
        }
        let ghost vold = visited@;
        proof {
            lemma_count_false_set(vold, a as int);
        }
        visited.set(a, true);
        let line = &ls_exec[a];
        assert(line@ == ls[a as int]);
        if str_contains(line.as_slice(), br) {
            let ws = split_whitespace(line.as_slice());
            let mut k: usize = 0;
            while k < ws.len()
                invariant
                    n == ls_exec@.len(),
                    ls == seqs_of(ls_exec@),
                    line@ == ls[a as int],
                    a < n,
                    contains(ls[a as int], br@),
                    reaches(ls, br@, a as int),
                    seqs_of(ws@) == words(ls[a as int]),
                    k <= ws@.len(),
                    visited@.len() == n,
                    visited@[a as int],
                    forall|j: int| 0 <= j < n ==> #[trigger] visited@[j] ==> reaches(ls, br@, j),
                    forall|q: int| 0 <= q < work@.len() ==> #[trigger] work@[q] < n && reaches(ls, br@, work@[q] as int),
                    forall|b: usize| rest.contains(b) ==> work@.contains(b),
                    forall|j: int|
                        0 <= j < k ==> match #[trigger] label_target(words(ls[a as int])[j]) {
                            Some(b) => b < n ==> visited@[b as int] || work@.contains(b),
                            None => true,
                        },
                decreases ws@.len() - k,
            {
                let w = &ws[k];
                assert(w@ == words(ls[a as int])[k as int]);
                if str_starts_with(w.as_slice(), "label%") {
                    proof {
                        reveal_strlit("label%");
                    }
                    let num = skip_chars(w.as_slice(), 6);
                    match crate::text::parse_usize(num.as_slice()) {
                        Some(b) => {
                            if b < n && !visited[b] {
                                let ghost wb = work@;
                                proof {
                                    assert(label_target(words(ls[a as int])[k as int]) == Some(b));
                                    assert(flows_to(ls, br@, a as int, b as int));
                                    lemma_reach_step(ls, br@, a as int, b as int);
                                }
                                work.push(b);
                                proof {
                                    assert(work@[wb.len() as int] == b);
                                    assert forall|x: usize| wb.contains(x) implies work@.contains(x) by {
                                        let q = choose|q: int| 0 <= q < wb.len() && wb[q] == x;
                                        assert(work@[q] == x);
                                    }
                                }
                            }
                        },
                        None => {},
                    }
                }
                k += 1;
            }
            proof {
                assert forall|b: int| 0 <= b < n && #[trigger] flows_to(ls, br@, a as int, b) implies visited@[b]
                    || work@.contains(b as usize) by {
                    let j = choose|j: int|
                        0 <= j < words(ls[a as int]).len() && #[trigger] label_target(words(ls[a as int])[j])
                            == Some(b as usize);
                }
            }
        } else if !str_contains(line.as_slice(), "ret ") && !str_contains(line.as_slice(), "br ") {
            if a + 1 < n && !visited[a + 1] {
                proof {
                    assert(flows_to(ls, br@, a as int, a + 1));
                    lemma_reach_step(ls, br@, a as int, a + 1);
                }
                work.push(a + 1);
                proof {
                    assert(work@[rest.len() as int] == a + 1);
                }
            }
            proof {
                assert forall|x: usize| rest.contains(x) implies work@.contains(x) by {
                    let q = choose|q: int| 0 <= q < rest.len() && rest[q] == x;
                    assert(work@[q] == x);
                }
            }
        }
        proof {
            assert forall|x: int, y: int|
                0 <= x < n && 0 <= y < n && visited@[x] && #[trigger] flows_to(ls, br@, x, y) implies visited@[y]
                    || work@.contains(y as usize) by {
                if x != a {
                    assert(vold[x]);
                    if !vold[y] && y != a {
                        assert(wold.contains(y as usize));
                        assert(rest.contains(y as usize));
                    }
                }
            }
            if !visited@[0] {
                assert(wold.contains(0));
                assert(rest.contains(0));
            }
        }
    }
    proof {
        assert forall|i: int| 0 <= i < n implies (visited@[i] <==> reaches(ls, br@, i)) by {
            if reaches(ls, br@, i) {
                let p = choose|p: Seq<int>| #[trigger] is_flow_path(ls, br@, p) && p[0] == 0 && p.last() == i;
                assert(visited@[0]);
                lemma_flow_path_closed(ls, br@, visited@, p, p.len() - 1);
            }
        }
    }
    visited
}

/// A value word on a line that returns or calls.
pub open spec fn used_by_ret_or_call(ls: Seq<Seq<char>>, x: Seq<char>) -> bool {
    exists|j: int|
        0 <= j < ls.len() && (contains(ls[j], "ret "@) || contains(ls[j], "call "@)) && #[trigger] words(
            ls[j],
        ).contains(x) && is_value_word(x)
}

/// A line survives unused-variable elimination: it defines nothing, defines a value a
/// return or call uses, or has another effect.
pub open spec fn keeps_line(ls: Seq<Seq<char>>, l: Seq<char>) -> bool {
    match definition(l) {
        Some(v) => used_by_ret_or_call(ls, v) || side_effects(l),
        None => true,
    }
}

/// The lines of `ls`, below `k`, that survive unused-variable elimination.
pub open spec fn used_lines(ls: Seq<Seq<char>>, k: int) -> Seq<Seq<char>>
    decreases k,
{
    if k <= 0 {
        seq![]
    } else if keeps_line(ls, ls[k - 1]) {
        used_lines(ls, k - 1).push(ls[k - 1])
    } else {
        used_lines(ls, k - 1)
    }
}

impl DeadCodeEliminator {
    /// The value `line` defines: the trimmed text before its first `=`, when it starts
    /// with `%`.
    pub fn extract_definition(&self, line: &str) -> (r: Option<String>)
        ensures
            match r {
                Some(v) => definition(line@) == Some(v@),
                None => definition(line@) is None,
            },
    {
        let cs = chars_of(line);
        match definition_chars(cs.as_slice()) {
            Some(v) => Some(string_of(v.as_slice())),
            None => None,
        }
    }

    /// The values `line` reads, in order.
    pub fn extract_uses(&self, line: &str) -> (r: Vec<String>)
        ensures
            crate::names::views(r@) == uses(line@),
    {
        let cs = chars_of(line);
        let us = uses_exec(cs.as_slice());
        let mut r: Vec<String> = Vec::new();
        let mut i: usize = 0;
        while i < us.len()
            invariant
                i <= us.len(),
                crate::names::views(r@) == seqs_of(us@).take(i as int),
            decreases us.len() - i,
        {
            let s = string_of(us[i].as_slice());
            let ghost before = r@;
            r.push(s);
            assert(crate::names::views(r@) =~= crate::names::views(before).push(s@));
            assert(seqs_of(us@).take(i + 1) =~= seqs_of(us@).take(i as int).push(us@[i as int]@));
            i += 1;
        }
        assert(seqs_of(us@).take(us.len() as int) =~= seqs_of(us@));
        r
    }

    /// Whether `line` calls, stores, returns, branches or prints.
    pub fn has_side_effects(&self, line: &str) -> (r: bool)
        ensures
            r == side_effects(line@),
    {
        let cs = chars_of(line);
        side_effects_exec(cs.as_slice())
    }

    /// Keeps the lines that line 0 reaches, following labelled branches and falling
    /// through lines that neither return nor branch; answers them trimmed and counts the
    /// others as removed blocks.
    pub fn eliminate_unreachable_blocks(&mut self, ir: &str) -> (r: String)
        requires
            old(self).statistics.blocks_removed + lines(ir@).len() <= usize::MAX,
        ensures
            r@ == trim(terminated(reached_lines(lines(ir@), "br label%"@, lines(ir@).len() as int))),
            final(self).statistics == (DCEStats {
                blocks_removed: (old(self).statistics.blocks_removed + unreached_count(
                    lines(ir@),
                    "br label%"@,
                    lines(ir@).len() as int,
                )) as usize,
                ..old(self).statistics
            }),
            final(self).live_variables == old(self).live_variables,
            final(self).dead_instructions == old(self).dead_instructions,
    {
        let cs = chars_of(ir);
        let ls_exec = lines_of(cs.as_slice());
        let ghost ls = seqs_of(ls_exec@);
        let flags = reached_flags(&ls_exec, "br label%");
        let ghost st = self.statistics;
        let mut out: Vec<char> = Vec::new();
        let mut idx: usize = 0;
        while idx < ls_exec.len()
            invariant
                idx <= ls_exec@.len(),
                ls == seqs_of(ls_exec@),
                flags@.len() == ls.len(),
                forall|i: int| 0 <= i < flags@.len() ==> (flags@[i] <==> reaches(ls, "br label%"@, i)),
                out@ == terminated(reached_lines(ls, "br label%"@, idx as int)),
                self.statistics == (DCEStats {
                    blocks_removed: (st.blocks_removed + unreached_count(ls, "br label%"@, idx as int)) as usize,
                    ..st
                }),
                st.blocks_removed + ls.len() <= usize::MAX,
                self.live_variables == old(self).live_variables,
                self.dead_instructions == old(self).dead_instructions,
            decreases ls_exec.len() - idx,
        {
            proof {
                lemma_unreached_bound(ls, "br label%"@, idx + 1);
            }
            let line = &ls_exec[idx];
            assert(line@ == ls[idx as int]);
            if flags[idx] {
                let ghost k0 = reached_lines(ls, "br label%"@, idx as int);
                crate::text::append_chars(&mut out, line.as_slice());
                out.push('\n');
                assert(k0.push(line@).drop_last() =~= k0);
                assert(out@ =~= terminated(k0) + line@ + seq!['\n']);
            } else {
                self.statistics.blocks_removed += 1;
            }
            idx += 1;
        }
        let t = trim_exec(out.as_slice());
        string_of(t.as_slice())
    }

    /// Keeps the lines that define nothing, define a value some return or call line
    /// names, or have another effect; answers them trimmed.
    pub fn eliminate_unused_variables(&mut self, ir: &str) -> (r: String)
        ensures
            r@ == trim(terminated(used_lines(lines(ir@), lines(ir@).len() as int))),
            *final(self) == *old(self),
    {
        let cs = chars_of(ir);
        let ls_exec = lines_of(cs.as_slice());
        let ghost ls = seqs_of(ls_exec@);
        let mut used = NameSet::new();
        let mut i: usize = 0;
        while i < ls_exec.len()
            invariant
                i <= ls_exec@.len(),
                ls == seqs_of(ls_exec@),
                used.wf(),
                forall|x: Seq<char>| #[trigger] used.has(x) <==> used_by_ret_or_call(ls.take(i as int), x),
            decreases ls_exec.len() - i,
        {
            let line = &ls_exec[i];
            assert(line@ == ls[i as int]);
            let ghost before = used;
            if str_contains(line.as_slice(), "ret ") || str_contains(line.as_slice(), "call ") {
                let ws = split_whitespace(line.as_slice());
                insert_value_words(&mut used, &ws);
            }
            proof {
                let t = ls.take(i + 1);
                assert forall|x: Seq<char>| #[trigger] used.has(x) <==> used_by_ret_or_call(t, x) by {
                    if used_by_ret_or_call(t, x) {
                        let j = choose|j: int|
                            0 <= j < t.len() && (contains(t[j], "ret "@) || contains(t[j], "call "@))
                                && #[trigger] words(t[j]).contains(x) && is_value_word(x);
                        if j < i {
                            assert(ls.take(i as int)[j] == t[j]);
                            assert(used_by_ret_or_call(ls.take(i as int), x));
                        }
                    }
                    if used_by_ret_or_call(ls.take(i as int), x) {
                        let j = choose|j: int|
                            0 <= j < i && (contains(ls.take(i as int)[j], "ret "@) || contains(
                                ls.take(i as int)[j],
                                "call "@,
                            )) && #[trigger] words(ls.take(i as int)[j]).contains(x) && is_value_word(x);
                        assert(t[j] == ls.take(i as int)[j]);
                    }
                    if !before.has(x) && used.has(x) {
                        assert(t[i as int] == ls[i as int]);
                    }
                }
            }
            i += 1;
        }
        assert(ls.take(ls.len() as int) =~= ls);
        let mut out: Vec<char> = Vec::new();
        let mut idx: usize = 0;
        while idx < ls_exec.len()
            invariant
                idx <= ls_exec@.len(),
                ls == seqs_of(ls_exec@),
                used.wf(),
                forall|x: Seq<char>| #[trigger] used.has(x) <==> used_by_ret_or_call(ls, x),
                out@ == terminated(used_lines(ls, idx as int)),
            decreases ls_exec.len() - idx,
        {
            let line = &ls_exec[idx];
            assert(line@ == ls[idx as int]);
            let keep = match definition_chars(line.as_slice()) {
                Some(v) => used.contains(string_of(v.as_slice()).as_str()) || side_effects_exec(
                    line.as_slice(),
                ),
                None => true,
            };
            if keep {
                let ghost k0 = used_lines(ls, idx as int);
                crate::text::append_chars(&mut out, line.as_slice());
                out.push('\n');
                assert(k0.push(line@).drop_last() =~= k0);
                assert(out@ =~= terminated(k0) + line@ + seq!['\n']);
            }
            idx += 1;
        }
        let t = trim_exec(out.as_slice());
        string_of(t.as_slice())
    }

    pub fn get_statistics(&self) -> (r: DCEStats)
        ensures
            r == self.statistics,
    {
        self.statistics
    }

    pub fn clear_statistics(&mut self)
        ensures
            final(self).statistics == (DCEStats {
                lines_removed: 0,
                variables_eliminated: 0,
                blocks_removed: 0,
                bytes_saved: 0,
            }),
            final(self).live_variables == old(self).live_variables,
            final(self).dead_instructions == old(self).dead_instructions,
    {
        self.statistics = DCEStats {
            lines_removed: 0,
            variables_eliminated: 0,
            blocks_removed: 0,
            bytes_saved: 0,
        };
    }
}

/// Only lines that define a value nobody keeps live and that have no other effect are
/// marked dead: calls, stores, returns, branches and prints are never removed.
pub proof fn law_dead_lines_have_no_effects(ls: Seq<Seq<char>>, live: spec_fn(Seq<char>) -> bool, k: int)
    requires
        k <= ls.len() <= usize::MAX,
    ensures
        forall|m: int|
            0 <= m < dead_lines(ls, live, k).len() ==> {
                let i = #[trigger] dead_lines(ls, live, k)[m] as int;
                &&& 0 <= i < k
                &&& !side_effects(ls[i])
                &&& definition(ls[i]) is Some
                &&& !live(definition(ls[i])->0)
            },
    decreases k,
{
    if k > 0 {
        law_dead_lines_have_no_effects(ls, live, k - 1);
        let r = dead_lines(ls, live, k - 1);
        assert forall|m: int| 0 <= m < dead_lines(ls, live, k).len() implies {
            let i = #[trigger] dead_lines(ls, live, k)[m] as int;
            &&& 0 <= i < k
            &&& !side_effects(ls[i])
            &&& definition(ls[i]) is Some
            &&& !live(definition(ls[i])->0)
        } by {
            if m < r.len() {
                assert(dead_lines(ls, live, k)[m] == r[m]);
            } else {
                assert(dead_lines(ls, live, k)[m] == (k - 1) as usize);
            }
        }
    }
}

/// Line 0 is always kept by unreachable-block elimination.
pub proof fn law_first_line_reached(ls: Seq<Seq<char>>, br: Seq<char>)
    ensures
        reaches(ls, br, 0),
{
    lemma_reach_start(ls, br);
}

} // verus!
