//! Memory optimizations: escape analysis of locals, reference-count chain reduction, and
//! struct field layout.
use vstd::prelude::*;
use crate::mir::{BasicBlock, Place, Statement, Terminator};
use crate::names::{
    IdMap, NameMap, NameSet, copy_string, keys_where, lemma_index_of, lemma_insert_facts, select, str_eq, views,
};
use crate::seqs::collapse;
use crate::text::{append_str, cat_str, chars_of, dec, push_usize, string_of};

verus! {

/// Where a value may escape to.
#[derive(Debug, Clone, Copy, PartialEq, Eq, Structural)]
pub enum EscapeStatus {
    DoesNotEscape,
    MayEscapeReturn,
    EscapesToMemory,
    EscapesThread,
}

/// How a statement uses a local.
#[derive(Debug, Clone, Copy, PartialEq, Eq, Structural)]
pub enum UsageKind {
    Read,
    Write,
    FieldAccess,
    MethodCall,
    Return,
}

/// A use of a local: its block, its statement within the block, and how it is used.
#[derive(Debug, Clone, Copy)]
pub struct UsageSite {
    pub block_idx: usize,
    pub stmt_idx: usize,
    pub kind: UsageKind,
}

/// What escape analysis tracks.
#[derive(Debug, Clone, Copy)]
pub struct EscapeAnalysisConfig {
    pub track_field_escapes: bool,
    pub track_returns: bool,
    pub track_thread_escapes: bool,
}

impl Default for EscapeAnalysisConfig {
    /// Fields and returns tracked, threads not.
    fn default() -> (r: Self)
        ensures
            r.track_field_escapes && r.track_returns && !r.track_thread_escapes,
    {
        EscapeAnalysisConfig { track_field_escapes: true, track_returns: true, track_thread_escapes: false }
    }
}

/// The statement writes the local called `x`.
pub open spec fn writes_local(st: Statement, x: Seq<char>) -> bool {
    match st.place {
        Place::Local(n) => n@ == x,
        _ => false,
    }
}

/// The positions `(block, statement)` in block `bi`'s statements that write `x`, in order.
pub open spec fn sites_in(stmts: Seq<Statement>, bi: usize, x: Seq<char>) -> Seq<(usize, usize)>
    decreases stmts.len(),
{
    if stmts.len() == 0 {
        seq![]
    } else {
        let r = sites_in(stmts.drop_last(), bi, x);
        if writes_local(stmts.last(), x) {
            r.push((bi, (stmts.len() - 1) as usize))
        } else {
            r
        }
    }
}

/// The positions in all blocks that write `x`, block by block.
pub open spec fn all_sites(blocks: Seq<BasicBlock>, x: Seq<char>) -> Seq<(usize, usize)>
    decreases blocks.len(),
{
    if blocks.len() == 0 {
        seq![]
    } else {
        all_sites(blocks.drop_last(), x) + sites_in(blocks.last().statements@, (blocks.len() - 1) as usize, x)
    }
}

/// Some statement writes the local `x`.
pub open spec fn mentioned(blocks: Seq<BasicBlock>, x: Seq<char>) -> bool {
    exists|b: int, s: int|
        0 <= b < blocks.len() && 0 <= s < blocks[b].statements@.len() && #[trigger] writes_local(
            blocks[b].statements@[s],
            x,
        )
}

/// The block ends by returning a value.
pub open spec fn returns_some(t: Terminator) -> bool {
    t matches Terminator::Return(Some(_))
}

/// Some block returns a value.
pub open spec fn returns_value(blocks: Seq<BasicBlock>) -> bool {
    exists|b: int| 0 <= b < blocks.len() && #[trigger] returns_some(blocks[b].terminator)
}

/// Every local is written only, so it escapes just when a returned value is tracked.
pub open spec fn local_status(blocks: Seq<BasicBlock>, cfg: EscapeAnalysisConfig) -> EscapeStatus {
    if cfg.track_returns && returns_value(blocks) {
        EscapeStatus::MayEscapeReturn
    } else {
        EscapeStatus::DoesNotEscape
    }
}

/// The positions of a list of usage sites, when all are writes.
pub open spec fn write_positions(us: Seq<UsageSite>) -> Seq<(usize, usize)> {
    us.map_values(|u: UsageSite| (u.block_idx, u.stmt_idx))
}

pub open spec fn all_writes(us: Seq<UsageSite>) -> bool {
    forall|k: int| 0 <= k < us.len() ==> #[trigger] us[k].kind == UsageKind::Write
}

/// Escape analysis over the locals of one function.
pub struct EscapeAnalysis {
    pub escapes: NameMap<EscapeStatus>,
    pub usage_sites: NameMap<Vec<UsageSite>>,
    pub heap_required: NameSet,
    pub config: EscapeAnalysisConfig,
}

impl EscapeAnalysis {
    pub open spec fn wf(&self) -> bool {
        self.escapes.wf() && self.usage_sites.wf() && self.heap_required.wf()
    }

    pub fn new(config: EscapeAnalysisConfig) -> (r: Self)
        ensures
            r.wf(),
            r.escapes.keys().len() == 0,
            r.usage_sites.keys().len() == 0,
            r.heap_required.elems().len() == 0,
            r.config == config,
    {
        EscapeAnalysis { escapes: NameMap::new(), usage_sites: NameMap::new(), heap_required: NameSet::new(), config }
    }

    /// Sets the escape status of a local.
    pub fn insert_escape_status(&mut self, local_name: String, status: EscapeStatus)
        requires
            old(self).wf(),
        ensures
            final(self).wf(),
            final(self).escapes.has(local_name@),
            final(self).escapes.at(local_name@) == status,
            forall|x: Seq<char>| x != local_name@ ==> (#[trigger] final(self).escapes.has(x) == old(self).escapes.has(x)
                && (old(self).escapes.has(x) ==> final(self).escapes.at(x) == old(self).escapes.at(x))),
            final(self).usage_sites == old(self).usage_sites,
            final(self).heap_required == old(self).heap_required,
    {
        let ghost ok = self.escapes.keys();
        let ghost ov = self.escapes.vals();
        let ghost n = local_name@;
        self.escapes.insert(local_name, status);
        proof {
            lemma_insert_facts(ok, ov, self.escapes.keys(), self.escapes.vals(), n, status);
        }
    }

    /// Marks a local as needing the heap.
    pub fn mark_heap_required(&mut self, local_name: String)
        requires
            old(self).wf(),
        ensures
            final(self).wf(),
            forall|x: Seq<char>| #[trigger] final(self).heap_required.has(x) <==> old(self).heap_required.has(x) || x
                == local_name@,
            final(self).escapes == old(self).escapes,
            final(self).usage_sites == old(self).usage_sites,
    {
        self.heap_required.insert(local_name);
    }

    /// Analyzes every local that some statement writes: records where it is written and
    /// its escape status; other locals keep what they had.
    pub fn analyze_function(&mut self, blocks: &[BasicBlock])
        requires
            old(self).wf(),
        ensures
            final(self).wf(),
            final(self).config == old(self).config,
            final(self).heap_required == old(self).heap_required,
            forall|x: Seq<char>| #[trigger] final(self).escapes.has(x) <==> old(self).escapes.has(x) || mentioned(blocks@, x),
            forall|x: Seq<char>| #[trigger] final(self).usage_sites.has(x) <==> old(self).usage_sites.has(x) || mentioned(
                blocks@,
                x,
            ),
            forall|x: Seq<char>| #[trigger] mentioned(blocks@, x) ==> final(self).escapes.at(x) == local_status(
                blocks@,
                old(self).config,
            ) && write_positions(final(self).usage_sites.at(x)@) == all_sites(blocks@, x) && all_writes(
                final(self).usage_sites.at(x)@,
            ),
            forall|x: Seq<char>| !mentioned(blocks@, x) && #[trigger] old(self).escapes.has(x) ==> final(self).escapes.at(x)
                == old(self).escapes.at(x),
            forall|x: Seq<char>| !mentioned(blocks@, x) && #[trigger] old(self).usage_sites.has(x) ==> final(self).usage_sites.at(x) == old(self).usage_sites.at(x),
    {
        let status = status_of(blocks, &self.config);
        let mut seen = NameSet::new();
        let nb = blocks.len();
        let mut b: usize = 0;
        while b < nb
            invariant
                self.wf(),
                seen.wf(),
                nb == blocks@.len(),
                b <= nb,
                status == local_status(blocks@, old(self).config),
                self.config == old(self).config,
                self.heap_required == old(self).heap_required,
                forall|x: Seq<char>| #[trigger] seen.has(x) <==> mentioned_before(blocks@, b as int, 0, x),
                forall|x: Seq<char>| #[trigger] self.escapes.has(x) <==> old(self).escapes.has(x) || seen.has(x),
                forall|x: Seq<char>| #[trigger] self.usage_sites.has(x) <==> old(self).usage_sites.has(x) || seen.has(x),
                forall|x: Seq<char>| #[trigger] seen.has(x) ==> self.escapes.at(x) == status && write_positions(
                    self.usage_sites.at(x)@,
                ) == all_sites(blocks@, x) && all_writes(self.usage_sites.at(x)@),
                forall|x: Seq<char>| !seen.has(x) && #[trigger] old(self).escapes.has(x) ==> self.escapes.at(x)
                    == old(self).escapes.at(x),
                forall|x: Seq<char>| !seen.has(x) && #[trigger] old(self).usage_sites.has(x) ==> self.usage_sites.at(x)
                    == old(self).usage_sites.at(x),
            decreases nb - b,
        {
            let stmts = &blocks[b].statements;
            let ns = stmts.len();
            let mut s: usize = 0;
            while s < ns
                invariant
                    self.wf(),
                    seen.wf(),
                    nb == blocks@.len(),
                    b < nb,
                    *stmts == blocks@[b as int].statements,
                    ns == stmts@.len(),
                    s <= ns,
                    status == local_status(blocks@, old(self).config),
                    self.config == old(self).config,
                    self.heap_required == old(self).heap_required,
                    forall|x: Seq<char>| #[trigger] seen.has(x) <==> mentioned_before(blocks@, b as int, s as int, x),
                    forall|x: Seq<char>| #[trigger] self.escapes.has(x) <==> old(self).escapes.has(x) || seen.has(x),
                    forall|x: Seq<char>| #[trigger] self.usage_sites.has(x) <==> old(self).usage_sites.has(x) || seen.has(
                        x,
                    ),
                    forall|x: Seq<char>| #[trigger] seen.has(x) ==> self.escapes.at(x) == status && write_positions(
                        self.usage_sites.at(x)@,
                    ) == all_sites(blocks@, x) && all_writes(self.usage_sites.at(x)@),
                    forall|x: Seq<char>| !seen.has(x) && #[trigger] old(self).escapes.has(x) ==> self.escapes.at(x)
                        == old(self).escapes.at(x),
                    forall|x: Seq<char>| !seen.has(x) && #[trigger] old(self).usage_sites.has(x) ==> self.usage_sites.at(
                        x,
                    ) == old(self).usage_sites.at(x),
                decreases ns - s,
            {
                proof {
                    lemma_mentioned_step(blocks@, b as int, s as int);
                }
                match &stmts[s].place {
                    Place::Local(name) => {
                        if !seen.contains(name.as_str()) {
                            let ghost ps = seen;
                            let ghost pe = self.escapes;
                            let ghost pu = self.usage_sites;
                            seen.insert(copy_string(name));
                            self.analyze_local(name, blocks, status);
                            proof {
                                assert forall|x: Seq<char>| #[trigger] seen.has(x) implies self.escapes.at(x) == status
                                    && write_positions(self.usage_sites.at(x)@) == all_sites(blocks@, x) && all_writes(
                                    self.usage_sites.at(x)@,
                                ) by {
                                    if x != name@ {
                                        assert(ps.has(x));
                                        assert(pe.has(x));
                                        assert(pu.has(x));
                                    }
                                }
                                assert forall|x: Seq<char>| !seen.has(x) && #[trigger] old(self).escapes.has(x) implies self.escapes.at(x)
                                    == old(self).escapes.at(x) by {
                                    assert(!ps.has(x));
                                    assert(pe.has(x));
                                }
                                assert forall|x: Seq<char>| !seen.has(x) && #[trigger] old(self).usage_sites.has(x) implies self.usage_sites.at(
                                    x,
                                ) == old(self).usage_sites.at(x) by {
                                    assert(!ps.has(x));
                                    assert(pu.has(x));
                                }
                            }
                        }
                    },
                    _ => {},
                }
                s += 1;
            }
            proof {
                lemma_mentioned_next_block(blocks@, b as int);
            }
            b += 1;
        }
        proof {
            assert forall|x: Seq<char>| #[trigger] mentioned(blocks@, x) <==> mentioned_before(blocks@, nb as int, 0, x) by {
                if mentioned(blocks@, x) {
                    let (bb, ss) = choose|bb: int, ss: int|
                        0 <= bb < blocks@.len() && 0 <= ss < blocks@[bb].statements@.len() && #[trigger] writes_local(
                            blocks@[bb].statements@[ss],
                            x,
                        );
                    assert(position_before(bb, ss, nb as int, 0));
                }
            }
            assert forall|x: Seq<char>| #[trigger] mentioned(blocks@, x) implies self.escapes.at(x) == local_status(
                blocks@,
                old(self).config,
            ) && write_positions(self.usage_sites.at(x)@) == all_sites(blocks@, x) && all_writes(
                self.usage_sites.at(x)@,
            ) by {
                assert(mentioned_before(blocks@, nb as int, 0, x));
                assert(seen.has(x));
            }
        }
    }

    /// Records the writes of one local and its status.
    fn analyze_local(&mut self, local_name: &String, blocks: &[BasicBlock], status: EscapeStatus)
        requires
            old(self).wf(),
        ensures
            final(self).wf(),
            final(self).config == old(self).config,
            status != EscapeStatus::EscapesToMemory && status != EscapeStatus::EscapesThread ==> final(self).heap_required
                == old(self).heap_required,
            forall|x: Seq<char>| #[trigger] final(self).escapes.has(x) <==> old(self).escapes.has(x) || x == local_name@,
            forall|x: Seq<char>| #[trigger] final(self).usage_sites.has(x) <==> old(self).usage_sites.has(x) || x
                == local_name@,
            final(self).escapes.at(local_name@) == status,
            write_positions(final(self).usage_sites.at(local_name@)@) == all_sites(blocks@, local_name@),
            all_writes(final(self).usage_sites.at(local_name@)@),
            forall|x: Seq<char>| x != local_name@ && #[trigger] old(self).escapes.has(x) ==> final(self).escapes.at(x)
                == old(self).escapes.at(x),
            forall|x: Seq<char>| x != local_name@ && #[trigger] old(self).usage_sites.has(x) ==> final(self).usage_sites.at(
                x,
            ) == old(self).usage_sites.at(x),
    {
        let sites = collect_sites(blocks, local_name.as_str());
        let ghost sv = sites;
        let ghost uk = self.usage_sites.keys();
        let ghost uv = self.usage_sites.vals();
        self.usage_sites.insert(copy_string(local_name), sites);
        proof {
            lemma_insert_facts(uk, uv, self.usage_sites.keys(), self.usage_sites.vals(), local_name@, sv);
        }
        let ghost ek = self.escapes.keys();
        let ghost ev = self.escapes.vals();
        self.escapes.insert(copy_string(local_name), status);
        proof {
            lemma_insert_facts(ek, ev, self.escapes.keys(), self.escapes.vals(), local_name@, status);
        }
        if status == EscapeStatus::EscapesToMemory || status == EscapeStatus::EscapesThread {
            self.heap_required.insert(copy_string(local_name));
        }
    }

    pub fn get_escape_status(&self, local_name: &str) -> (r: Option<EscapeStatus>)
        requires
            self.wf(),
        ensures
            r == self.escapes.lookup(local_name@),
    {
        match self.escapes.get(local_name) {
            Some(s) => Some(*s),
            None => None,
        }
    }

    pub fn requires_heap(&self, local_name: &str) -> (r: bool)
        ensures
            r == self.heap_required.has(local_name@),
    {
        self.heap_required.contains(local_name)
    }

    pub fn get_usage_sites(&self, local_name: &str) -> (r: Option<&[UsageSite]>)
        requires
            self.wf(),
        ensures
            match r {
                Some(v) => self.usage_sites.has(local_name@) && v@ == self.usage_sites.at(local_name@)@,
                None => !self.usage_sites.has(local_name@),
            },
    {
        match self.usage_sites.get(local_name) {
            Some(v) => Some(v.as_slice()),
            None => None,
        }
    }

    /// The locals by escape status, in registration order, and their number.
    pub fn report_allocations(&self) -> (r: AllocationReport)
        requires
            self.wf(),
        ensures
            views(r.stack_candidates@) == select(self.escapes.keys(), self.escapes.vals(), |s: EscapeStatus| s
                == EscapeStatus::DoesNotEscape),
            views(r.escape_to_return@) == select(self.escapes.keys(), self.escapes.vals(), |s: EscapeStatus| s
                == EscapeStatus::MayEscapeReturn),
            views(r.heap_required@) == select(self.escapes.keys(), self.escapes.vals(), |s: EscapeStatus| s
                == EscapeStatus::EscapesToMemory || s == EscapeStatus::EscapesThread),
            r.total_locals == self.escapes.keys().len(),
    {
        let stack_candidates = keys_where(&EscapeStatus::DoesNotEscape, &self.escapes, is_status, Ghost(|s: EscapeStatus| s == EscapeStatus::DoesNotEscape));
        let escape_to_return = keys_where(&EscapeStatus::MayEscapeReturn, &self.escapes, is_status, Ghost(|s: EscapeStatus| s == EscapeStatus::MayEscapeReturn));
        let heap_required = keys_where(&(), &self.escapes, is_heap_status, Ghost(|s: EscapeStatus| s == EscapeStatus::EscapesToMemory || s == EscapeStatus::EscapesThread));
        AllocationReport { stack_candidates, heap_required, escape_to_return, total_locals: self.escapes.len() }
    }
}

fn is_status(want: &EscapeStatus, s: &EscapeStatus) -> (r: bool)
    ensures
        r == (*s == *want),
{
    *s == *want
}

fn is_heap_status(_c: &(), s: &EscapeStatus) -> (r: bool)
    ensures
        r == (*s == EscapeStatus::EscapesToMemory || *s == EscapeStatus::EscapesThread),
{
    *s == EscapeStatus::EscapesToMemory || *s == EscapeStatus::EscapesThread
}

/// `(bb, ss)` comes before `(b, s)` in block-major order.
pub open spec fn position_before(bb: int, ss: int, b: int, s: int) -> bool {
    bb < b || (bb == b && ss < s)
}

/// Some statement before position `(b, s)` writes `x`.
pub open spec fn mentioned_before(blocks: Seq<BasicBlock>, b: int, s: int, x: Seq<char>) -> bool {
    exists|bb: int, ss: int|
        0 <= bb < blocks.len() && 0 <= ss < blocks[bb].statements@.len() && position_before(bb, ss, b, s)
            && #[trigger] writes_local(blocks[bb].statements@[ss], x)
}

proof fn lemma_mentioned_step(blocks: Seq<BasicBlock>, b: int, s: int)
    requires
        0 <= b < blocks.len(),
        0 <= s < blocks[b].statements@.len(),
    ensures
        forall|x: Seq<char>| #[trigger] mentioned_before(blocks, b, s + 1, x) <==> mentioned_before(blocks, b, s, x)
            || writes_local(blocks[b].statements@[s], x),
{
    assert forall|x: Seq<char>| #[trigger] mentioned_before(blocks, b, s + 1, x) <==> mentioned_before(blocks, b, s, x)
        || writes_local(blocks[b].statements@[s], x) by {
        if mentioned_before(blocks, b, s + 1, x) {
            let (bb, ss) = choose|bb: int, ss: int|
                0 <= bb < blocks.len() && 0 <= ss < blocks[bb].statements@.len() && position_before(bb, ss, b, s + 1)
                    && #[trigger] writes_local(blocks[bb].statements@[ss], x);
            if !(bb == b && ss == s) {
                assert(position_before(bb, ss, b, s));
            }
        }
        if writes_local(blocks[b].statements@[s], x) {
            assert(position_before(b, s, b, s + 1));
        }
        if mentioned_before(blocks, b, s, x) {
            let (bb, ss) = choose|bb: int, ss: int|
                0 <= bb < blocks.len() && 0 <= ss < blocks[bb].statements@.len() && position_before(bb, ss, b, s)
                    && #[trigger] writes_local(blocks[bb].statements@[ss], x);
            assert(position_before(bb, ss, b, s + 1));
        }
    }
}

proof fn lemma_mentioned_next_block(blocks: Seq<BasicBlock>, b: int)
    requires
        0 <= b < blocks.len(),
    ensures
        forall|x: Seq<char>| #[trigger] mentioned_before(blocks, b + 1, 0, x) <==> mentioned_before(
            blocks,
            b,
            blocks[b].statements@.len() as int,
            x,
        ),
{
    assert forall|x: Seq<char>| #[trigger] mentioned_before(blocks, b + 1, 0, x) <==> mentioned_before(
        blocks,
        b,
        blocks[b].statements@.len() as int,
        x,
    ) by {
        if mentioned_before(blocks, b + 1, 0, x) {
            let (bb, ss) = choose|bb: int, ss: int|
                0 <= bb < blocks.len() && 0 <= ss < blocks[bb].statements@.len() && position_before(bb, ss, b + 1, 0)
                    && #[trigger] writes_local(blocks[bb].statements@[ss], x);
            assert(position_before(bb, ss, b, blocks[b].statements@.len() as int));
        }
        if mentioned_before(blocks, b, blocks[b].statements@.len() as int, x) {
            let (bb, ss) = choose|bb: int, ss: int|
                0 <= bb < blocks.len() && 0 <= ss < blocks[bb].statements@.len() && position_before(
                    bb,
                    ss,
                    b,
                    blocks[b].statements@.len() as int,
                ) && #[trigger] writes_local(blocks[bb].statements@[ss], x);
            assert(position_before(bb, ss, b + 1, 0));
        }
    }
}

/// The escape status every local of these blocks gets.
fn status_of(blocks: &[BasicBlock], config: &EscapeAnalysisConfig) -> (r: EscapeStatus)
    ensures
        r == local_status(blocks@, *config),
{
    if !config.track_returns {
        return EscapeStatus::DoesNotEscape;
    }
    let mut b: usize = 0;
    while b < blocks.len()
        invariant
            b <= blocks@.len(),
            config.track_returns,
            forall|k: int| 0 <= k < b ==> !#[trigger] returns_some(blocks@[k].terminator),
        decreases blocks@.len() - b,
    {
        match &blocks[b].terminator {
            Terminator::Return(Some(_)) => {
                assert(returns_some(blocks@[b as int].terminator));
                return EscapeStatus::MayEscapeReturn;
            },
            _ => {},
        }
        b += 1;
    }
    EscapeStatus::DoesNotEscape
}

/// Every position that writes `name`, as write sites.
fn collect_sites(blocks: &[BasicBlock], name: &str) -> (r: Vec<UsageSite>)
    ensures
        write_positions(r@) == all_sites(blocks@, name@),
        all_writes(r@),
{
    let mut r: Vec<UsageSite> = Vec::new();
    let mut b: usize = 0;
    while b < blocks.len()
        invariant
            b <= blocks@.len(),
            write_positions(r@) == all_sites(blocks@.take(b as int), name@),
            all_writes(r@),
        decreases blocks@.len() - b,
    {
        let stmts = &blocks[b].statements;
        let ghost base = r@;
        let mut s: usize = 0;
        while s < stmts.len()
            invariant
                b < blocks@.len(),
                *stmts == blocks@[b as int].statements,
                s <= stmts@.len(),
                write_positions(r@) == write_positions(base) + sites_in(stmts@.take(s as int), b, name@),
                all_writes(r@),
            decreases stmts@.len() - s,
        {
            assert(stmts@.take(s + 1).drop_last() =~= stmts@.take(s as int));
            let hit = match &stmts[s].place {
                Place::Local(n) => str_eq(n.as_str(), name),
                _ => false,
            };
            if hit {
                let ghost before = r@;
                r.push(UsageSite { block_idx: b, stmt_idx: s, kind: UsageKind::Write });
                assert(write_positions(r@) =~= write_positions(before).push((b, s)));
            }
            s += 1;
        }
        proof {
            assert(stmts@.take(stmts@.len() as int) =~= stmts@);
            assert(blocks@.take(b + 1).drop_last() =~= blocks@.take(b as int));
            assert(blocks@.take(b + 1).last() == blocks@[b as int]);
        }
        b += 1;
    }
    assert(blocks@.take(blocks@.len() as int) =~= blocks@);
    r
}

/// Allocation recommendations.
#[derive(Debug, Clone)]
pub struct AllocationReport {
    pub stack_candidates: Vec<String>,
    pub heap_required: Vec<String>,
    pub escape_to_return: Vec<String>,
    pub total_locals: usize,
}

/// A reference-count operation.
#[derive(Debug, Clone, Copy, PartialEq, Eq, Structural)]
pub enum RefCountOp {
    Increment,
    Decrement,
}

/// What reference-count optimization may do.
#[derive(Debug, Clone, Copy)]
pub struct RefCountConfig {
    pub enable_chain_fusion: bool,
    pub enable_move_semantics: bool,
}

impl Default for RefCountConfig {
    /// Both enabled.
    fn default() -> (r: Self)
        ensures
            r.enable_chain_fusion && r.enable_move_semantics,
    {
        RefCountConfig { enable_chain_fusion: true, enable_move_semantics: true }
    }
}

/// The chain with every increment that is followed by its decrement cancelled, nested
/// pairs included: reading left to right, a decrement cancels the increment just before it
/// in what is left so far. No increment directly followed by a decrement remains.
pub open spec fn cancel_pairs(s: Seq<RefCountOp>) -> Seq<RefCountOp>
    decreases s.len(),
{
    if s.len() == 0 {
        seq![]
    } else {
        let r = cancel_pairs(s.drop_last());
        if s.last() == RefCountOp::Decrement && r.len() > 0 && r.last() == RefCountOp::Increment {
            r.drop_last()
        } else {
            r.push(s.last())
        }
    }
}

/// How many increment-decrement pairs `cancel_pairs` drops.
pub open spec fn pairs_cancelled(s: Seq<RefCountOp>) -> nat
    decreases s.len(),
{
    if s.len() == 0 {
        0
    } else {
        let r = cancel_pairs(s.drop_last());
        if s.last() == RefCountOp::Decrement && r.len() > 0 && r.last() == RefCountOp::Increment {
            pairs_cancelled(s.drop_last()) + 1
        } else {
            pairs_cancelled(s.drop_last())
        }
    }
}

/// No increment is directly followed by a decrement.
pub open spec fn no_inc_dec_pair(s: Seq<RefCountOp>) -> bool {
    forall|i: int| #![trigger s[i], s[i + 1]] 0 <= i && i + 1 < s.len() ==> !(s[i] == RefCountOp::Increment && s[i + 1]
        == RefCountOp::Decrement)
}

/// Cancelling leaves no increment-decrement pair behind, and every operation that goes is
/// one of a counted pair.
pub proof fn law_cancelling_reaches_a_fixpoint(s: Seq<RefCountOp>)
    ensures
        no_inc_dec_pair(cancel_pairs(s)),
        cancel_pairs(s).len() + 2 * pairs_cancelled(s) == s.len(),
        cancel_pairs(cancel_pairs(s)) == cancel_pairs(s),
    decreases s.len(),
{
    lemma_cancel_len(s);
    lemma_cancel_no_pair(s);
    lemma_cancel_stable(cancel_pairs(s));
}

proof fn lemma_cancel_no_pair(s: Seq<RefCountOp>)
    ensures
        no_inc_dec_pair(cancel_pairs(s)),
    decreases s.len(),
{
    if s.len() > 0 {
        lemma_cancel_no_pair(s.drop_last());
        let r = cancel_pairs(s.drop_last());
        if s.last() == RefCountOp::Decrement && r.len() > 0 && r.last() == RefCountOp::Increment {
            let q = r.drop_last();
            assert forall|i: int| #![trigger q[i], q[i + 1]] 0 <= i && i + 1 < q.len() implies !(q[i] == RefCountOp::Increment
                && q[i + 1] == RefCountOp::Decrement) by {
                assert(q[i] == r[i] && q[i + 1] == r[i + 1]);
            }
        } else {
            let q = r.push(s.last());
            assert forall|i: int| #![trigger q[i], q[i + 1]] 0 <= i && i + 1 < q.len() implies !(q[i] == RefCountOp::Increment
                && q[i + 1] == RefCountOp::Decrement) by {
                if i + 1 < r.len() {
                    assert(q[i] == r[i] && q[i + 1] == r[i + 1]);
                } else {
                    assert(q[i] == r.last());
                }
            }
        }
    }
}

/// A chain with no pair left is its own cancellation.
proof fn lemma_cancel_stable(s: Seq<RefCountOp>)
    requires
        no_inc_dec_pair(s),
    ensures
        cancel_pairs(s) == s,
    decreases s.len(),
{
    if s.len() > 0 {
        let t = s.drop_last();
        assert forall|i: int| #![trigger t[i], t[i + 1]] 0 <= i && i + 1 < t.len() implies !(t[i] == RefCountOp::Increment
            && t[i + 1] == RefCountOp::Decrement) by {
            assert(t[i] == s[i] && t[i + 1] == s[i + 1]);
        }
        lemma_cancel_stable(t);
        if s.len() >= 2 {
            assert(s[s.len() - 2] == t.last());
            assert(!(s[s.len() - 2] == RefCountOp::Increment && s[s.len() - 2 + 1] == RefCountOp::Decrement));
        }
        assert(t.push(s.last()) =~= s);
    }
}

/// Runs of one operation collapsed to a single operation.
pub open spec fn fuse_runs(s: Seq<RefCountOp>) -> Seq<RefCountOp> {
    collapse(s, |a: RefCountOp, b: RefCountOp| a == b)
}

/// A chain after optimization.
pub open spec fn optimized_chain(s: Seq<RefCountOp>, fusion: bool) -> Seq<RefCountOp> {
    if fusion {
        fuse_runs(cancel_pairs(s))
    } else {
        cancel_pairs(s)
    }
}

/// The number of operations over all chains.
pub open spec fn total_ops(vs: Seq<Vec<RefCountOp>>) -> int
    decreases vs.len(),
{
    if vs.len() == 0 {
        0
    } else {
        total_ops(vs.drop_last()) + vs.last()@.len()
    }
}

/// The pairs cancelled over all chains.
pub open spec fn total_pairs(vs: Seq<Vec<RefCountOp>>) -> int
    decreases vs.len(),
{
    if vs.len() == 0 {
        0
    } else {
        total_pairs(vs.drop_last()) + pairs_cancelled(vs.last()@)
    }
}

/// The operations fused away over all chains.
pub open spec fn total_fused(vs: Seq<Vec<RefCountOp>>, fusion: bool) -> int
    decreases vs.len(),
{
    if vs.len() == 0 {
        0
    } else {
        total_fused(vs.drop_last(), fusion) + if fusion {
            cancel_pairs(vs.last()@).len() - fuse_runs(cancel_pairs(vs.last()@)).len()
        } else {
            0
        }
    }
}

proof fn lemma_cancel_len(s: Seq<RefCountOp>)
    ensures
        cancel_pairs(s).len() + 2 * pairs_cancelled(s) == s.len(),
    decreases s.len(),
{
    if s.len() > 0 {
        lemma_cancel_len(s.drop_last());
    }
}

proof fn lemma_totals_bound(vs: Seq<Vec<RefCountOp>>, fusion: bool)
    ensures
        0 <= total_pairs(vs) <= total_ops(vs),
        0 <= total_fused(vs, fusion) <= total_ops(vs),
        total_pairs(vs) + total_fused(vs, fusion) <= total_ops(vs),
    decreases vs.len(),
{
    if vs.len() > 0 {
        lemma_totals_bound(vs.drop_last(), fusion);
        lemma_cancel_len(vs.last()@);
        crate::seqs::lemma_collapse_len(cancel_pairs(vs.last()@), |a: RefCountOp, b: RefCountOp| a == b);
    }
}

/// Cancels pairs in one chain; returns the chain and how many pairs went.
fn cancel_chain(s: &Vec<RefCountOp>) -> (r: (Vec<RefCountOp>, usize))
    ensures
        r.0@ == cancel_pairs(s@),
        r.1 == pairs_cancelled(s@),
{
    let n = s.len();
    let mut out: Vec<RefCountOp> = Vec::new();
    let mut count: usize = 0;
    let mut i: usize = 0;
    proof {
        lemma_cancel_len(s@);
    }
    while i < n
        invariant
            n == s@.len(),
            i <= n,
            out@ == cancel_pairs(s@.take(i as int)),
            count == pairs_cancelled(s@.take(i as int)),
            cancel_pairs(s@.take(i as int)).len() + 2 * pairs_cancelled(s@.take(i as int)) == i,
        decreases n - i,
    {
        proof {
            assert(s@.take(i + 1).drop_last() =~= s@.take(i as int));
            lemma_cancel_len(s@.take(i + 1));
        }
        let op = s[i];
        if op == RefCountOp::Decrement && out.len() > 0 && out[out.len() - 1] == RefCountOp::Increment {
            let ghost before = out@;
            out.pop();
            assert(out@ =~= before.drop_last());
            count += 1;
        } else {
            out.push(op);
        }
        i += 1;
    }
    assert(s@.take(n as int) =~= s@);
    (out, count)
}

fn same_op(a: &RefCountOp, b: &RefCountOp) -> (r: bool)
    ensures
        r == (*a == *b),
{
    *a == *b
}

/// Reduces reference-count operations, chain by chain.
pub struct RefCountOptimizer {
    refcount_chains: IdMap<Vec<RefCountOp>>,
    config: RefCountConfig,
}

impl RefCountOptimizer {
    /// The operations recorded for each local, in order.
    pub closed spec fn chains(&self) -> IdMap<Vec<RefCountOp>> {
        self.refcount_chains
    }

    pub closed spec fn cfg(&self) -> RefCountConfig {
        self.config
    }

    pub fn new(config: RefCountConfig) -> (r: Self)
        ensures
            r.chains().wf(),
            r.chains().keys().len() == 0,
            r.cfg() == config,
    {
        RefCountOptimizer { refcount_chains: IdMap::new(), config }
    }

    pub fn get_chains_mut(&mut self) -> (r: &mut IdMap<Vec<RefCountOp>>)
        ensures
            *r == old(self).chains(),
            final(self).chains() == *final(r),
            final(self).cfg() == old(self).cfg(),
    {
        &mut self.refcount_chains
    }

    /// Cancels every increment-decrement pair in each chain, nested pairs included, then, when
    /// fusion is on, collapses runs of one operation; counts both.
    pub fn optimize_chains(&mut self) -> (r: RefCountOptimizationResult)
        requires
            old(self).chains().wf(),
            total_ops(old(self).chains().vals()) <= usize::MAX,
        ensures
            final(self).chains().wf(),
            final(self).cfg() == old(self).cfg(),
            final(self).chains().keys() == old(self).chains().keys(),
            forall|k: int| 0 <= k < old(self).chains().keys().len() ==> #[trigger] final(self).chains().vals()[k]@
                == optimized_chain(old(self).chains().vals()[k]@, old(self).cfg().enable_chain_fusion),
            r.pairs_eliminated == total_pairs(old(self).chains().vals()),
            r.operations_fused == total_fused(old(self).chains().vals(), old(self).cfg().enable_chain_fusion),
    {
        let ghost ov = self.refcount_chains.vals();
        let fusion = self.config.enable_chain_fusion;
        let n = self.refcount_chains.len();
        let mut eliminated: usize = 0;
        let mut fused: usize = 0;
        let mut i: usize = 0;
        proof {
            lemma_totals_bound(ov, fusion);
        }
        while i < n
            invariant
                self.refcount_chains.wf(),
                self.config == old(self).config,
                fusion == self.config.enable_chain_fusion,
                self.refcount_chains.keys() == old(self).chains().keys(),
                ov == old(self).chains().vals(),
                n == ov.len(),
                n == self.refcount_chains.keys().len(),
                i <= n,
                total_ops(ov) <= usize::MAX,
                forall|k: int| 0 <= k < i ==> #[trigger] self.refcount_chains.vals()[k]@ == optimized_chain(ov[k]@, fusion),
                forall|k: int| i <= k < n ==> #[trigger] self.refcount_chains.vals()[k] == ov[k],
                eliminated == total_pairs(ov.take(i as int)),
                fused == total_fused(ov.take(i as int), fusion),
            decreases n - i,
        {
            proof {
                assert(ov.take(i + 1).drop_last() =~= ov.take(i as int));
                lemma_totals_bound(ov.take(i + 1), fusion);
                lemma_total_prefix(ov, i + 1, fusion);
            }
            let chain = self.refcount_chains.replace_val(i, Vec::new());
            let (cancelled, pairs) = cancel_chain(&chain);
            eliminated = eliminated + pairs;
            let result = if fusion && cancelled.len() > 0 {
                let m = cancelled.len();
                let f = crate::seqs::collapse_vec(cancelled, same_op, Ghost(|a: RefCountOp, b: RefCountOp| a == b));
                proof {
                    crate::seqs::lemma_collapse_len(cancel_pairs(chain@), |a: RefCountOp, b: RefCountOp| a == b);
                }
                fused = fused + (m - f.len());
                f
            } else {
                proof {
                    if fusion {
                        assert(cancel_pairs(chain@).len() == 0);
                        assert(fuse_runs(cancel_pairs(chain@)) =~= cancel_pairs(chain@));
                    }
                }
                cancelled
            };
            let _ = self.refcount_chains.replace_val(i, result);
            i += 1;
        }
        assert(ov.take(n as int) =~= ov);
        RefCountOptimizationResult { pairs_eliminated: eliminated, operations_fused: fused }
    }

    /// Appends an operation to the chain of local `local_idx`.
    pub fn add_operation(&mut self, local_idx: usize, op: RefCountOp)
        requires
            old(self).chains().wf(),
        ensures
            final(self).chains().wf(),
            final(self).cfg() == old(self).cfg(),
            final(self).chains().has(local_idx),
            final(self).chains().at(local_idx)@ == (if old(self).chains().has(local_idx) {
                old(self).chains().at(local_idx)@
            } else {
                Seq::<RefCountOp>::empty()
            }).push(op),
            forall|k: usize| k != local_idx ==> #[trigger] final(self).chains().has(k) == old(self).chains().has(k),
            forall|k: usize| k != local_idx && old(self).chains().has(k) ==> #[trigger] final(self).chains().at(k) == old(
                self,
            ).chains().at(k),
    {
        let ghost oc = self.refcount_chains;
        match self.refcount_chains.index_of(local_idx) {
            Some(i) => {
                let mut v = self.refcount_chains.replace_val(i, Vec::new());
                v.push(op);
                let _ = self.refcount_chains.replace_val(i, v);
                proof {
                    lemma_index_of(oc.keys(), local_idx);
                    assert(self.refcount_chains.keys() == oc.keys());
                    assert forall|k: usize| #![trigger self.chains().has(k)] #![trigger self.chains().at(k)] k != local_idx implies (self.chains().has(k) == old(self).chains().has(k) && (
                        old(self).chains().has(k) ==> self.chains().at(k) == old(self).chains().at(k))) by {
                        if oc.has(k) {
                            lemma_index_of(oc.keys(), k);
                            let j = oc.keys().index_of(k);
                            assert(j != i);
                            assert(self.refcount_chains.vals()[j] == oc.vals()[j]);
                        }
                    }
                    assert(oc == old(self).chains());
                }
            },
            None => {
                let mut v: Vec<RefCountOp> = Vec::new();
                v.push(op);
                let ghost ok = oc.keys();
                let ghost vv = v;
                self.refcount_chains.insert(local_idx, v);
                proof {
                    assert(self.refcount_chains.keys()[ok.len() as int] == local_idx);
                    lemma_index_of(self.refcount_chains.keys(), local_idx);
                    assert(v@ =~= Seq::<RefCountOp>::empty().push(op));
                    assert forall|k: usize| #![trigger self.chains().has(k)] #![trigger self.chains().at(k)] k != local_idx implies (self.chains().has(k) == old(self).chains().has(k) && (
                        old(self).chains().has(k) ==> self.chains().at(k) == old(self).chains().at(k))) by {
                        if oc.has(k) {
                            lemma_index_of(oc.keys(), k);
                            let j = oc.keys().index_of(k);
                            assert(self.refcount_chains.keys()[j] == k);
                            lemma_index_of(self.refcount_chains.keys(), k);
                            assert(self.refcount_chains.keys().index_of(k) == j);
                            assert(self.refcount_chains.vals()[j] == oc.vals()[j]);
                        }
                        if self.refcount_chains.has(k) {
                            lemma_index_of(self.refcount_chains.keys(), k);
                            let j = self.refcount_chains.keys().index_of(k);
                            assert(j < ok.len());
                            assert(oc.keys()[j] == k);
                        }
                    }
                }
            },
        }
    }

    /// Move semantics can replace reference counting when enabled and the local has at most
    /// two recorded operations (or none).
    pub fn can_use_move_semantics(&self, local_idx: usize) -> (r: bool)
        requires
            self.chains().wf(),
        ensures
            r == (self.cfg().enable_move_semantics && (!self.chains().has(local_idx) || self.chains().at(local_idx)@.len()
                <= 2)),
    {
        if !self.config.enable_move_semantics {
            return false;
        }
        match self.refcount_chains.get(local_idx) {
            Some(chain) => chain.len() <= 2,
            None => true,
        }
    }
}

proof fn lemma_total_prefix(vs: Seq<Vec<RefCountOp>>, i: int, fusion: bool)
    requires
        0 <= i <= vs.len(),
    ensures
        total_ops(vs.take(i)) <= total_ops(vs),
    decreases vs.len(),
{
    if i < vs.len() {
        assert(vs.take(i) =~= vs.drop_last().take(i));
        lemma_total_prefix(vs.drop_last(), i, fusion);
    } else {
        assert(vs.take(i) =~= vs);
    }
}

/// What reference-count optimization removed.
#[derive(Debug, Clone)]
pub struct RefCountOptimizationResult {
    pub pairs_eliminated: usize,
    pub operations_fused: usize,
}

/// The scope a memory pool lives for.
#[derive(Debug, Clone, Copy, PartialEq, Eq, Hash, Structural)]
pub enum LifetimeScope {
    Function,
    Loop,
    Block,
}

/// An allocation from a pool.
#[derive(Debug, Clone)]
pub struct PoolAllocation {
    pub scope: LifetimeScope,
    pub size: usize,
    pub offset: usize,
}

/// A pool's settings; `G` says how the pool grows and is carried along unread.
#[derive(Debug, Clone, Copy)]
pub struct PoolConfig<G> {
    pub initial_size: usize,
    pub growth_strategy: G,
    pub enable_reuse: bool,
}

/// The size a pool for `s` starts with: 16 KiB for a function, 4 KiB for a loop, 1 KiB for a
/// block.
pub open spec fn scope_pool_size(s: LifetimeScope) -> usize {
    match s {
        LifetimeScope::Function => 16384,
        LifetimeScope::Loop => 4096,
        LifetimeScope::Block => 1024,
    }
}

/// The name of a scope as `Debug` writes it.
pub open spec fn scope_name(s: LifetimeScope) -> Seq<char> {
    match s {
        LifetimeScope::Function => "Function"@,
        LifetimeScope::Loop => "Loop"@,
        LifetimeScope::Block => "Block"@,
    }
}

/// Memory pools by lifetime scope, each made from one base configuration.
#[derive(Debug, Clone)]
pub struct MemoryPoolAllocator<G> {
    function_pool: Option<PoolConfig<G>>,
    loop_pool: Option<PoolConfig<G>>,
    block_pool: Option<PoolConfig<G>>,
    config: PoolConfig<G>,
}

/// The pools there are, with their total capacity.
#[derive(Debug, Clone)]
pub struct MemoryPoolReport<G> {
    pub total_pools: usize,
    pub total_capacity: usize,
    /// The pools in the order function, loop, block.
    pub pools: Vec<(LifetimeScope, PoolConfig<G>)>,
}

/// The pools of `f`, `l` and `b` that exist, in that order.
pub open spec fn present_pools<G>(
    f: Option<PoolConfig<G>>,
    l: Option<PoolConfig<G>>,
    b: Option<PoolConfig<G>>,
) -> Seq<(LifetimeScope, PoolConfig<G>)> {
    let s0 = Seq::<(LifetimeScope, PoolConfig<G>)>::empty();
    let s1 = if f is Some { s0.push((LifetimeScope::Function, f.unwrap())) } else { s0 };
    let s2 = if l is Some { s1.push((LifetimeScope::Loop, l.unwrap())) } else { s1 };
    if b is Some { s2.push((LifetimeScope::Block, b.unwrap())) } else { s2 }
}

/// The sum of the initial sizes of `ps`.
pub open spec fn pool_capacity<G>(ps: Seq<(LifetimeScope, PoolConfig<G>)>) -> int
    decreases ps.len(),
{
    if ps.len() == 0 {
        0
    } else {
        pool_capacity(ps.drop_last()) + ps.last().1.initial_size
    }
}

impl<G: Copy> MemoryPoolAllocator<G> {
    /// The pool for `s`, if it was set up.
    pub closed spec fn pool(&self, s: LifetimeScope) -> Option<PoolConfig<G>> {
        match s {
            LifetimeScope::Function => self.function_pool,
            LifetimeScope::Loop => self.loop_pool,
            LifetimeScope::Block => self.block_pool,
        }
    }

    /// The configuration new pools are made from.
    pub closed spec fn base(&self) -> PoolConfig<G> {
        self.config
    }

    /// Every pool has the size of its scope.
    pub open spec fn wf(&self) -> bool {
        forall|s: LifetimeScope| #[trigger] self.pool(s) is Some ==> self.pool(s).unwrap().initial_size == scope_pool_size(s)
    }

    /// The pools, in the order function, loop, block.
    pub open spec fn pools(&self) -> Seq<(LifetimeScope, PoolConfig<G>)> {
        present_pools(self.pool(LifetimeScope::Function), self.pool(LifetimeScope::Loop), self.pool(LifetimeScope::Block))
    }

    /// No pools yet.
    pub fn new(config: PoolConfig<G>) -> (r: Self)
        ensures
            r.wf(),
            r.base() == config,
            forall|s: LifetimeScope| #[trigger] r.pool(s) is None,
    {
        MemoryPoolAllocator { function_pool: None, loop_pool: None, block_pool: None, config }
    }

    /// Sets up the pool for `scope` from the base configuration, with the scope's size.
    pub fn init_pool(&mut self, scope: LifetimeScope)
        requires
            old(self).wf(),
        ensures
            final(self).wf(),
            final(self).base() == old(self).base(),
            final(self).pool(scope) == Some(PoolConfig { initial_size: scope_pool_size(scope), ..old(self).base() }),
            forall|s: LifetimeScope| s != scope ==> #[trigger] final(self).pool(s) == old(self).pool(s),
    {
        let size: usize = match scope {
            LifetimeScope::Function => 16384,
            LifetimeScope::Loop => 4096,
            LifetimeScope::Block => 1024,
        };
        let pool_config = PoolConfig {
            initial_size: size,
            growth_strategy: self.config.growth_strategy,
            enable_reuse: self.config.enable_reuse,
        };
        match scope {
            LifetimeScope::Function => self.function_pool = Some(pool_config),
            LifetimeScope::Loop => self.loop_pool = Some(pool_config),
            LifetimeScope::Block => self.block_pool = Some(pool_config),
        }
        assert forall|s: LifetimeScope| #[trigger] self.pool(s) is Some implies self.pool(s).unwrap().initial_size
            == scope_pool_size(s) by {
            if s != scope {
                assert(old(self).pool(s) == self.pool(s));
            }
        }
    }

    fn pool_ref(&self, scope: LifetimeScope) -> (r: &Option<PoolConfig<G>>)
        ensures
            *r == self.pool(scope),
    {
        match scope {
            LifetimeScope::Function => &self.function_pool,
            LifetimeScope::Loop => &self.loop_pool,
            LifetimeScope::Block => &self.block_pool,
        }
    }

    /// Allocates `size` bytes at offset 0 of the pool for `scope`; refused when that pool
    /// was not set up or is smaller than `size`.
    pub fn allocate(&self, scope: LifetimeScope, size: usize) -> (r: Result<PoolAllocation, String>)
        ensures
            match self.pool(scope) {
                None => r matches Err(m) && m@ == "Pool for scope "@ + scope_name(scope) + " not initialized"@,
                Some(p) => if size <= p.initial_size {
                    r matches Ok(a) && a.scope == scope && a.size == size && a.offset == 0
                } else {
                    r matches Err(m) && m@ == "Allocation "@ + dec(size as nat) + " exceeds pool size "@ + dec(
                        p.initial_size as nat,
                    )
                },
            },
    {
        match self.pool_ref(scope) {
            Some(pool) => {
                if size <= pool.initial_size {
                    Ok(PoolAllocation { scope, size, offset: 0 })
                } else {
                    let mut v = chars_of("Allocation ");
                    push_usize(&mut v, size);
                    append_str(&mut v, " exceeds pool size ");
                    push_usize(&mut v, pool.initial_size);
                    Err(string_of(v.as_slice()))
                }
            },
            None => {
                let name: &str = match scope {
                    LifetimeScope::Function => "Function",
                    LifetimeScope::Loop => "Loop",
                    LifetimeScope::Block => "Block",
                };
                Err(cat_str("Pool for scope ", name, " not initialized"))
            },
        }
    }

    /// How many pools there are, their total initial size, and the pools themselves.
    pub fn report(&self) -> (r: MemoryPoolReport<G>)
        requires
            self.wf(),
        ensures
            r.pools@ == self.pools(),
            r.total_pools == self.pools().len(),
            r.total_capacity == pool_capacity(self.pools()),
    {
        let mut pools: Vec<(LifetimeScope, PoolConfig<G>)> = Vec::new();
        let mut total: usize = 0;
        let ghost f = self.pool(LifetimeScope::Function);
        let ghost l = self.pool(LifetimeScope::Loop);
        let ghost b = self.pool(LifetimeScope::Block);
        let ghost s0 = Seq::<(LifetimeScope, PoolConfig<G>)>::empty();
        let ghost s1 = if f is Some { s0.push((LifetimeScope::Function, f.unwrap())) } else { s0 };
        let ghost s2 = if l is Some { s1.push((LifetimeScope::Loop, l.unwrap())) } else { s1 };
        assert(pools@ == s0);
        assert(f is Some ==> f.unwrap().initial_size == 16384);
        assert(l is Some ==> l.unwrap().initial_size == 4096);
        assert(b is Some ==> b.unwrap().initial_size == 1024);
        if let Some(p) = self.pool_ref(LifetimeScope::Function) {
            pools.push((LifetimeScope::Function, *p));
            total = p.initial_size;
            assert(s1.drop_last() == s0);
            assert(pool_capacity(s0) == 0);
            assert(pools@ == s1);
        }
        assert(pools@ == s1);
        assert(total == pool_capacity(s1));
        assert(total <= 16384);
        if let Some(p) = self.pool_ref(LifetimeScope::Loop) {
            pools.push((LifetimeScope::Loop, *p));
            total = total + p.initial_size;
            assert(s2.drop_last() == s1);
        }
        assert(pools@ == s2 && total == pool_capacity(s2) && total <= 16384 + 4096);
        if let Some(p) = self.pool_ref(LifetimeScope::Block) {
            pools.push((LifetimeScope::Block, *p));
            total = total + p.initial_size;
            assert(self.pools().drop_last() == s2);
        }
        MemoryPoolReport { total_pools: pools.len(), total_capacity: total, pools }
    }
}

/// After fusing runs, no two neighbouring operations of a chain are equal.
pub proof fn law_fused_chain_has_no_repeats(s: Seq<RefCountOp>, k: int)
    requires
        0 <= k < fuse_runs(s).len() - 1,
    ensures
        fuse_runs(s)[k] != fuse_runs(s)[k + 1],
{
    lemma_collapse_no_repeats(s, k);
}

proof fn lemma_collapse_no_repeats(s: Seq<RefCountOp>, k: int)
    requires
        0 <= k < fuse_runs(s).len() - 1,
    ensures
        fuse_runs(s)[k] != fuse_runs(s)[k + 1],
    decreases s.len(),
{
    let p = |a: RefCountOp, b: RefCountOp| a == b;
    let r = collapse(s.drop_last(), p);
    if r.len() > 0 && p(r.last(), s.last()) {
        lemma_collapse_no_repeats(s.drop_last(), k);
    } else {
        if k < r.len() - 1 {
            lemma_collapse_no_repeats(s.drop_last(), k);
        } else {
            assert(collapse(s, p) == r.push(s.last()));
        }
    }
}

/// A field's place in a struct.
#[derive(Debug, Clone)]
pub struct FieldLayout {
    pub name: String,
    pub typ: String,
    pub size: usize,
    pub alignment: usize,
    pub offset: usize,
}

/// A struct's fields after reordering, with its sizes before and after.
#[derive(Debug, Clone)]
pub struct StructLayout {
    pub name: String,
    pub fields: Vec<FieldLayout>,
    pub current_size: usize,
    pub optimized_size: usize,
    pub padding_bytes: usize,
}

/// The first position of `r` whose alignment is below `a` (or the end).
pub open spec fn first_smaller(r: Seq<FieldLayout>, a: usize) -> int
    decreases r.len(),
{
    if r.len() == 0 {
        0
    } else if r[0].alignment < a {
        0
    } else {
        1 + first_smaller(r.drop_first(), a)
    }
}

/// The fields ordered by alignment, largest first; fields of equal alignment keep their order.
pub open spec fn by_alignment(s: Seq<FieldLayout>) -> Seq<FieldLayout>
    decreases s.len(),
{
    if s.len() == 0 {
        seq![]
    } else {
        let r = by_alignment(s.drop_last());
        r.insert(first_smaller(r, s.last().alignment), s.last())
    }
}

/// `o` rounded up to a multiple of `a`.
pub open spec fn align_up(o: int, a: int) -> int {
    if o % a == 0 {
        o
    } else {
        o + (a - o % a)
    }
}

/// Where the fields end when each is placed at the next offset aligned for it.
pub open spec fn placed_end(fs: Seq<FieldLayout>) -> int
    decreases fs.len(),
{
    if fs.len() == 0 {
        0
    } else {
        align_up(placed_end(fs.drop_last()), fs.last().alignment as int) + fs.last().size
    }
}

/// The sum of the field sizes.
pub open spec fn size_total(fs: Seq<FieldLayout>) -> int
    decreases fs.len(),
{
    if fs.len() == 0 {
        0
    } else {
        size_total(fs.drop_last()) + fs.last().size
    }
}

/// Every alignment is positive.
pub open spec fn aligned_fields(fs: Seq<FieldLayout>) -> bool {
    forall|k: int| 0 <= k < fs.len() ==> #[trigger] fs[k].alignment > 0
}

/// A field as plain values: name, type, size, alignment, offset.
pub open spec fn field_view(f: FieldLayout) -> (Seq<char>, Seq<char>, usize, usize, usize) {
    (f.name@, f.typ@, f.size, f.alignment, f.offset)
}

/// `r` is `s` with each field placed: same fields in order, each at its aligned offset.
pub open spec fn placed(s: Seq<FieldLayout>, r: Seq<FieldLayout>) -> bool {
    &&& r.len() == s.len()
    &&& forall|k: int| 0 <= k < s.len() ==> #[trigger] field_view(r[k]) == (s[k].name@, s[k].typ@, s[k].size, s[k].alignment, align_up(placed_end(s.take(k)), s[k].alignment as int) as usize)
}

proof fn lemma_insert_sum(r: Seq<FieldLayout>, j: int, x: FieldLayout)
    requires
        0 <= j <= r.len(),
    ensures
        size_total(r.insert(j, x)) == size_total(r) + x.size,
    decreases r.len(),
{
    if j == r.len() {
        assert(r.insert(j, x) =~= r.push(x));
        assert(r.push(x).drop_last() =~= r);
    } else {
        lemma_insert_sum(r.drop_last(), j, x);
        assert(r.insert(j, x).drop_last() =~= r.drop_last().insert(j, x));
        assert(r.insert(j, x).last() == r.last());
    }
}

proof fn lemma_sort_sum(s: Seq<FieldLayout>)
    ensures
        size_total(by_alignment(s)) == size_total(s),
        by_alignment(s).len() == s.len(),
        aligned_fields(s) ==> aligned_fields(by_alignment(s)),
    decreases s.len(),
{
    if s.len() > 0 {
        let r = by_alignment(s.drop_last());
        lemma_sort_sum(s.drop_last());
        lemma_first_smaller_range(r, s.last().alignment);
        lemma_insert_sum(r, first_smaller(r, s.last().alignment), s.last());
        if aligned_fields(s) {
            assert(aligned_fields(s.drop_last())) by {
                assert forall|k: int| 0 <= k < s.drop_last().len() implies #[trigger] s.drop_last()[k].alignment > 0 by {
                    assert(s[k].alignment > 0);
                }
            }
            let j = first_smaller(r, s.last().alignment);
            assert forall|k: int| 0 <= k < r.insert(j, s.last()).len() implies #[trigger] r.insert(j, s.last())[k].alignment > 0 by {
                if k < j {
                    assert(r.insert(j, s.last())[k] == r[k]);
                } else if k > j {
                    assert(r.insert(j, s.last())[k] == r[k - 1]);
                } else {
                    assert(s[s.len() - 1].alignment > 0);
                }
            }
        }
    }
}

proof fn lemma_first_smaller_range(r: Seq<FieldLayout>, a: usize)
    ensures
        0 <= first_smaller(r, a) <= r.len(),
        forall|k: int| 0 <= k < first_smaller(r, a) ==> #[trigger] r[k].alignment >= a,
        first_smaller(r, a) < r.len() ==> r[first_smaller(r, a)].alignment < a,
    decreases r.len(),
{
    if r.len() > 0 && r[0].alignment >= a {
        lemma_first_smaller_range(r.drop_first(), a);
        assert forall|k: int| 0 <= k < first_smaller(r, a) implies #[trigger] r[k].alignment >= a by {
            if k > 0 {
                assert(r[k] == r.drop_first()[k - 1]);
            }
        }
    }
}

proof fn lemma_end_bounds(fs: Seq<FieldLayout>, i: int)
    requires
        aligned_fields(fs),
        0 <= i <= fs.len(),
    ensures
        placed_end(fs.take(i)) <= placed_end(fs),
        size_total(fs) <= placed_end(fs),
        0 <= placed_end(fs.take(i)),
    decreases fs.len(),
{
    if fs.len() > 0 {
        let a = fs.last().alignment as int;
        assert(aligned_fields(fs.drop_last())) by {
            assert forall|k: int| 0 <= k < fs.drop_last().len() implies #[trigger] fs.drop_last()[k].alignment > 0 by {
                assert(fs[k].alignment > 0);
            }
        }
        assert(fs[fs.len() - 1].alignment > 0);
        lemma_end_bounds(fs.drop_last(), 0);
        lemma_align_up_ge(placed_end(fs.drop_last()), a);
        if i < fs.len() {
            assert(fs.take(i) =~= fs.drop_last().take(i));
            lemma_end_bounds(fs.drop_last(), i);
        } else {
            assert(fs.take(i) =~= fs);
            lemma_end_bounds(fs.drop_last(), 0);
        }
        lemma_end_bounds(fs.drop_last(), fs.len() - 1);
        assert(fs.drop_last().take(fs.len() - 1) =~= fs.drop_last());
    } else {
        assert(fs.take(i) =~= fs);
    }
}

proof fn lemma_align_up_ge(o: int, a: int)
    requires
        a > 0,
        o >= 0,
    ensures
        o <= align_up(o, a) < o + a,
        align_up(o, a) % a == 0,
{
    assert(0 <= o % a < a) by (nonlinear_arith)
        requires
            a > 0,
    ;
    if o % a != 0 {
        assert((o + (a - o % a)) % a == 0) by (nonlinear_arith)
            requires
                a > 0,
        ;
    }
}

/// The fields in `by_alignment` order, from an owned list.
fn sort_fields(v: Vec<FieldLayout>) -> (r: Vec<FieldLayout>)
    ensures
        r@ == by_alignment(v@),
{
    let ghost orig = v@;
    let n = v.len();
    let mut rev = crate::seqs::reversed(v);
    let mut out: Vec<FieldLayout> = Vec::new();
    let mut i: usize = 0;
    while i < n
        invariant
            n == orig.len(),
            rev@.len() == n - i,
            i <= n,
            forall|k: int| 0 <= k < rev@.len() ==> #[trigger] rev@[k] == orig[n - 1 - k],
            out@ == by_alignment(orig.take(i as int)),
        decreases n - i,
    {
        assert(orig.take(i + 1).drop_last() =~= orig.take(i as int));
        assert(rev@[rev@.len() - 1] == orig[i as int]);
        let x = rev.pop().unwrap();
        let mut j: usize = 0;
        proof {
            lemma_first_smaller_range(out@, x.alignment);
        }
        while j < out.len() && out[j].alignment >= x.alignment
            invariant
                j <= out@.len(),
                forall|k: int| 0 <= k < j ==> #[trigger] out@[k].alignment >= x.alignment,
                first_smaller(out@, x.alignment) >= j,
                0 <= first_smaller(out@, x.alignment) <= out@.len(),
                first_smaller(out@, x.alignment) < out@.len() ==> out@[first_smaller(out@, x.alignment)].alignment
                    < x.alignment,
            decreases out@.len() - j,
        {
            j += 1;
        }
        proof {
            lemma_first_smaller_range(out@, x.alignment);
        }
        assert(j == first_smaller(out@, x.alignment));
        out.insert(j, x);
        i += 1;
    }
    assert(orig.take(n as int) =~= orig);
    out
}

/// Places the fields in order, each at the next offset aligned for it.
fn place_fields(v: Vec<FieldLayout>) -> (r: (Vec<FieldLayout>, usize))
    requires
        aligned_fields(v@),
        placed_end(v@) <= usize::MAX,
    ensures
        placed(v@, r.0@),
        r.1 == placed_end(v@),
{
    let ghost orig = v@;
    let n = v.len();
    let mut fs = v;
    let mut offset: usize = 0;
    let mut i: usize = 0;
    while i < n
        invariant
            n == orig.len(),
            fs@.len() == n,
            i <= n,
            aligned_fields(orig),
            placed_end(orig) <= usize::MAX,
            offset == placed_end(orig.take(i as int)),
            forall|k: int| i <= k < n ==> #[trigger] fs@[k] == orig[k],
            forall|k: int| 0 <= k < i ==> #[trigger] field_view(fs@[k]) == (orig[k].name@, orig[k].typ@, orig[k].size, orig[k].alignment, align_up(placed_end(orig.take(k)), orig[k].alignment as int) as usize),
        decreases n - i,
    {
        proof {
            lemma_end_bounds(orig, i + 1);
            lemma_end_bounds(orig, i as int);
            assert(orig.take(i + 1).drop_last() =~= orig.take(i as int));
            assert(orig[i as int].alignment > 0);
            lemma_align_up_ge(offset as int, orig[i as int].alignment as int);
        }
        let mut f = crate::seqs::take_at(&mut fs, i, FieldLayout {
            name: String::new(),
            typ: String::new(),
            size: 0,
            alignment: 1,
            offset: 0,
        });
        let align = f.alignment;
        if offset % align != 0 {
            let pad = align - (offset % align);
            offset = offset + pad;
        }
        f.offset = offset;
        offset = offset + f.size;
        let _ = crate::seqs::take_at(&mut fs, i, f);
        i += 1;
    }
    assert(orig.take(n as int) =~= orig);
    (fs, offset)
}

/// Reorders struct fields for tighter packing and records the layouts.
pub struct LayoutOptimizer {
    layouts: NameMap<StructLayout>,
}

impl LayoutOptimizer {
    /// The layout of each analyzed struct.
    pub closed spec fn layouts(&self) -> NameMap<StructLayout> {
        self.layouts
    }

    pub fn new() -> (r: Self)
        ensures
            r.layouts().wf(),
            r.layouts().keys().len() == 0,
    {
        LayoutOptimizer { layouts: NameMap::new() }
    }

    /// Lays out the fields by decreasing alignment (stable among equals), each at the next
    /// aligned offset, and records the struct's sizes before and after.
    pub fn analyze_struct(&mut self, name: String, fields: Vec<FieldLayout>)
        requires
            old(self).layouts().wf(),
            aligned_fields(fields@),
            placed_end(by_alignment(fields@)) <= usize::MAX,
        ensures
            final(self).layouts().wf(),
            final(self).layouts().has(name@),
            ({
                let l = final(self).layouts().at(name@);
                let sorted = by_alignment(fields@);
                &&& l.name@ == name@
                &&& placed(sorted, l.fields@)
                &&& l.current_size == size_total(fields@)
                &&& l.optimized_size == placed_end(sorted)
                &&& l.optimized_size >= l.current_size
                &&& l.padding_bytes == (if placed_end(sorted) > 0 {
                    placed_end(sorted) - size_total(fields@)
                } else {
                    0
                })
            }),
            forall|k: Seq<char>| k != name@ ==> #[trigger] final(self).layouts().has(k) == old(self).layouts().has(k),
            forall|k: Seq<char>| k != name@ && old(self).layouts().has(k) ==> #[trigger] final(self).layouts().at(k)
                == old(self).layouts().at(k),
    {
        proof {
            lemma_sort_sum(fields@);
            lemma_end_bounds(by_alignment(fields@), 0);
        }
        let mut current_size: usize = 0;
        let mut i: usize = 0;
        while i < fields.len()
            invariant
                i <= fields@.len(),
                current_size == size_total(fields@.take(i as int)),
                size_total(fields@) <= usize::MAX,
            decreases fields@.len() - i,
        {
            proof {
                assert(fields@.take(i + 1).drop_last() =~= fields@.take(i as int));
                lemma_size_prefix(fields@, i + 1);
            }
            current_size = current_size + fields[i].size;
            i += 1;
        }
        assert(fields@.take(fields@.len() as int) =~= fields@);
        let sorted = sort_fields(fields);
        let (placed_fields, optimized_size) = place_fields(sorted);
        let padding_bytes = if optimized_size > 0 {
            optimized_size - current_size
        } else {
            0
        };
        let layout = StructLayout {
            name: copy_string(&name),
            fields: placed_fields,
            current_size,
            optimized_size,
            padding_bytes,
        };
        let ghost ok = self.layouts.keys();
        let ghost ov = self.layouts.vals();
        let ghost lv = layout;
        let ghost nv = name@;
        self.layouts.insert(name, layout);
        proof {
            lemma_insert_facts(ok, ov, self.layouts.keys(), self.layouts.vals(), nv, lv);
        }
    }

    pub fn get_layout(&self, name: &str) -> (r: Option<&StructLayout>)
        requires
            self.layouts().wf(),
        ensures
            match r {
                Some(l) => self.layouts().has(name@) && *l == self.layouts().at(name@),
                None => !self.layouts().has(name@),
            },
    {
        self.layouts.get(name)
    }

    /// Every layout, in the order the structs were first analyzed.
    pub fn get_all_layouts(&self) -> (r: Vec<&StructLayout>)
        requires
            self.layouts().wf(),
        ensures
            r@.len() == self.layouts().vals().len(),
            forall|k: int| 0 <= k < r@.len() ==> *#[trigger] r@[k] == self.layouts().vals()[k],
    {
        let n = self.layouts.len();
        let mut r: Vec<&StructLayout> = Vec::new();
        let mut i: usize = 0;
        while i < n
            invariant
                self.layouts().wf(),
                n == self.layouts().keys().len(),
                i <= n,
                r@.len() == i,
                forall|k: int| 0 <= k < i ==> *#[trigger] r@[k] == self.layouts().vals()[k],
            decreases n - i,
        {
            r.push(self.layouts.val_at(i));
            i += 1;
        }
        r
    }

    /// How many structs were analyzed and how many bytes reordering saved over all of them.
    pub fn report(&self) -> (r: LayoutOptimizationReport)
        requires
            self.layouts().wf(),
            saved_total(self.layouts().vals()) <= usize::MAX,
        ensures
            r.structs_analyzed == self.layouts().keys().len(),
            r.total_bytes_saved == saved_total(self.layouts().vals()),
    {
        let n = self.layouts.len();
        let mut total: usize = 0;
        let mut i: usize = 0;
        while i < n
            invariant
                self.layouts().wf(),
                n == self.layouts().keys().len(),
                i <= n,
                saved_total(self.layouts().vals()) <= usize::MAX,
                total == saved_total(self.layouts().vals().take(i as int)),
            decreases n - i,
        {
            proof {
                assert(self.layouts().vals().take(i + 1).drop_last() =~= self.layouts().vals().take(i as int));
                lemma_saved_prefix(self.layouts().vals(), i + 1);
            }
            let l = self.layouts.val_at(i);
            let saved = if l.current_size > l.optimized_size {
                l.current_size - l.optimized_size
            } else {
                0
            };
            total = total + saved;
            i += 1;
        }
        assert(self.layouts().vals().take(n as int) =~= self.layouts().vals());
        LayoutOptimizationReport { structs_analyzed: n, total_bytes_saved: total }
    }
}

/// Bytes saved by each layout, summed: the shrinkage where the optimized size is smaller.
pub open spec fn saved_total(ls: Seq<StructLayout>) -> int
    decreases ls.len(),
{
    if ls.len() == 0 {
        0
    } else {
        saved_total(ls.drop_last()) + if ls.last().current_size > ls.last().optimized_size {
            ls.last().current_size - ls.last().optimized_size
        } else {
            0
        }
    }
}

/// Layouts whose optimized size is never below their current size, as `analyze_struct`
/// records them, save nothing in total.
pub proof fn law_recorded_layouts_save_nothing(ls: Seq<StructLayout>)
    requires
        forall|k: int| 0 <= k < ls.len() ==> #[trigger] ls[k].optimized_size >= ls[k].current_size,
    ensures
        saved_total(ls) == 0,
    decreases ls.len(),
{
    if ls.len() > 0 {
        let q = ls.drop_last();
        assert forall|k: int| 0 <= k < q.len() implies #[trigger] q[k].optimized_size >= q[k].current_size by {
            assert(q[k] == ls[k]);
        }
        law_recorded_layouts_save_nothing(q);
        assert(ls.last().optimized_size >= ls.last().current_size);
    }
}

proof fn lemma_saved_prefix(ls: Seq<StructLayout>, i: int)
    requires
        0 <= i <= ls.len(),
    ensures
        0 <= saved_total(ls.take(i)) <= saved_total(ls),
    decreases ls.len(),
{
    if i < ls.len() {
        assert(ls.take(i) =~= ls.drop_last().take(i));
        lemma_saved_prefix(ls.drop_last(), i);
    } else {
        assert(ls.take(i) =~= ls);
        if ls.len() > 0 {
            lemma_saved_prefix(ls.drop_last(), 0);
        }
    }
}

proof fn lemma_size_prefix(fs: Seq<FieldLayout>, i: int)
    requires
        0 <= i <= fs.len(),
    ensures
        0 <= size_total(fs.take(i)) <= size_total(fs),
    decreases fs.len(),
{
    if i < fs.len() {
        assert(fs.take(i) =~= fs.drop_last().take(i));
        lemma_size_prefix(fs.drop_last(), i);
    } else {
        assert(fs.take(i) =~= fs);
        if fs.len() > 0 {
            lemma_size_prefix(fs.drop_last(), 0);
        }
    }
}

/// How many structs were analyzed and how many bytes were saved.
#[derive(Debug, Clone)]
pub struct LayoutOptimizationReport {
    pub structs_analyzed: usize,
    pub total_bytes_saved: usize,
}

/// Placing fields never overlaps them: each field starts at or after the end of the one before.
pub proof fn law_fields_do_not_overlap(s: Seq<FieldLayout>, k: int)
    requires
        aligned_fields(s),
        0 < k < s.len(),
    ensures
        align_up(placed_end(s.take(k - 1)), s[k - 1].alignment as int) + s[k - 1].size <= align_up(
            placed_end(s.take(k)),
            s[k].alignment as int,
        ),
        align_up(placed_end(s.take(k)), s[k].alignment as int) % (s[k].alignment as int) == 0,
{
    assert(s.take(k).drop_last() =~= s.take(k - 1));
    assert(s.take(k).last() == s[k - 1]);
    lemma_end_bounds(s, k);
    assert(s[k].alignment > 0);
    lemma_align_up_ge(placed_end(s.take(k)), s[k].alignment as int);
}

/// Reordered fields come in order of non-increasing alignment.
pub proof fn law_fields_by_decreasing_alignment(s: Seq<FieldLayout>)
    ensures
        forall|i: int, j: int| 0 <= i < j < by_alignment(s).len() ==> #[trigger] by_alignment(s)[i].alignment
            >= #[trigger] by_alignment(s)[j].alignment,
    decreases s.len(),
{
    if s.len() > 0 {
        let r = by_alignment(s.drop_last());
        let x = s.last();
        law_fields_by_decreasing_alignment(s.drop_last());
        lemma_first_smaller_range(r, x.alignment);
        let p = first_smaller(r, x.alignment);
        let t = r.insert(p, x);
        assert forall|i: int, j: int| 0 <= i < j < t.len() implies #[trigger] t[i].alignment >= #[trigger] t[j].alignment by {
            if j < p {
                assert(t[i] == r[i] && t[j] == r[j]);
            } else if j == p {
                assert(t[i] == r[i]);
            } else if i == p {
                assert(t[j] == r[j - 1]);
                assert(r[p].alignment < x.alignment);
                if j - 1 > p {
                    assert(r[p].alignment >= r[j - 1].alignment);
                }
            } else if i < p {
                assert(t[i] == r[i] && t[j] == r[j - 1]);
            } else {
                assert(t[i] == r[i - 1] && t[j] == r[j - 1]);
            }
        }
    }
}

} // verus!
