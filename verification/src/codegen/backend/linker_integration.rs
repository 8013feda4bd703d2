//! Link-time symbol management: which symbols survive, where they are laid out,
//! and what the call graph between them looks like.
use vstd::prelude::*;
use crate::codegen::optimization::lto::{
    LinkTimeOptimizer, SymbolTable, SymbolVisibility, edge, graph_wf, insert_edge, is_path, lemma_targets,
    reachable, reachable_from, targets,
};
use crate::names::{
    NameMap, NameSet, copy_string, keys_where, lemma_index_of, lemma_insert_facts, lemma_select_contains, lemma_select_partition,
    lemma_select_full, lemma_select_nodup, lemma_select_step, lemma_sum_nonneg, bump_count, lemma_sum_prefix,
    lemma_sum_subset, select, strs, sum_of, views,
};
use crate::order::{sort_strings, sorted};
use crate::text::{append_str, lit, string_of};

verus! {

/// Metadata for a symbol (function or global).
#[derive(Debug, Clone)]
pub struct SymbolInfo {
    pub name: String,
    pub module: String,
    pub visibility: SymbolVisibility,
    pub is_function: bool,
    pub address: Option<usize>,
    pub size: usize,
    pub references: Vec<String>,
}

/// A symbol survives linking when the entry point reaches it or it is public.
pub open spec fn kept_symbol(g: NameMap<NameSet>, entry: Seq<char>) -> spec_fn(SymbolInfo) -> bool {
    |s: SymbolInfo| reachable(g, seq![entry], s.name@) || s.visibility == SymbolVisibility::Public
}

/// A symbol that linking strips.
pub open spec fn stripped_symbol(g: NameMap<NameSet>, entry: Seq<char>) -> spec_fn(SymbolInfo) -> bool {
    |s: SymbolInfo| !(reachable(g, seq![entry], s.name@) || s.visibility == SymbolVisibility::Public)
}

/// The size of the symbol filed under a name.
pub open spec fn size_in(m: NameMap<SymbolInfo>) -> spec_fn(Seq<char>) -> int {
    |n: Seq<char>| m.at(n).size as int
}

/// The code size of all registered symbols.
pub open spec fn total_size(m: NameMap<SymbolInfo>) -> int {
    sum_of(m.keys(), size_in(m))
}

/// Each symbol filed under its own name.
pub open spec fn symbols_wf(m: NameMap<SymbolInfo>) -> bool {
    &&& m.wf()
    &&& forall|i: int| 0 <= i < m.keys().len() ==> #[trigger] m.vals()[i].name@ == m.keys()[i]
}

/// An LTO-aware linker.
pub struct LtoLinker {
    pub symbol_table: SymbolTable,
    pub optimizer: LinkTimeOptimizer,
    pub symbols: NameMap<SymbolInfo>,
    pub entry_point: String,
    pub output_dir: String,
}

impl LtoLinker {
    /// The call graph reachability runs on.
    pub open spec fn graph(&self) -> NameMap<NameSet> {
        self.symbol_table.call_graph
    }

    pub open spec fn wf(&self) -> bool {
        &&& symbols_wf(self.symbols)
        &&& graph_wf(self.graph())
    }

    /// The symbols that survive linking, in registration order.
    pub open spec fn kept(&self) -> Seq<Seq<char>> {
        select(self.symbols.keys(), self.symbols.vals(), kept_symbol(self.graph(), self.entry_point@))
    }

    /// The symbols that linking strips, in registration order.
    pub open spec fn stripped(&self) -> Seq<Seq<char>> {
        select(self.symbols.keys(), self.symbols.vals(), stripped_symbol(self.graph(), self.entry_point@))
    }

    /// A linker with no symbols, the entry point `main`, writing to `output_dir`.
    pub fn new(output_dir: &str) -> (r: Self)
        ensures
            r.wf(),
            r.symbols.keys().len() == 0,
            r.entry_point@ == "main"@,
            r.output_dir@ == output_dir@,
            r.graph().keys().len() == 0,
    {
        LtoLinker {
            symbol_table: SymbolTable::new(),
            optimizer: LinkTimeOptimizer::new(SymbolTable::new()),
            symbols: NameMap::new(),
            entry_point: lit("main"),
            output_dir: lit(output_dir),
        }
    }

    /// Registers a symbol under its name, replacing an earlier one of that name.
    pub fn add_symbol(&mut self, info: SymbolInfo)
        requires
            old(self).wf(),
        ensures
            final(self).wf(),
            final(self).symbols.has(info.name@),
            final(self).symbols.at(info.name@) == info,
            forall|k: Seq<char>| k != info.name@ ==> (final(self).symbols.has(k) == old(self).symbols.has(k) && (
                old(self).symbols.has(k) ==> final(self).symbols.at(k) == old(self).symbols.at(k))),
            final(self).entry_point == old(self).entry_point,
            final(self).graph() == old(self).graph(),
    {
        let name = copy_string(&info.name);
        let ghost ok = self.symbols.keys();
        let ghost ov = self.symbols.vals();
        self.symbols.insert(name, info);
        proof {
            lemma_insert_facts(ok, ov, self.symbols.keys(), self.symbols.vals(), info.name@, info);
        }
    }

    /// Sets the entry point function.
    pub fn set_entry_point(&mut self, name: String)
        ensures
            final(self).entry_point == name,
            final(self).symbols == old(self).symbols,
            final(self).graph() == old(self).graph(),
    {
        self.entry_point = name;
    }

    /// Everything reachable from the entry points along the linker's call graph.
    pub fn analyze_reachability(&self, entry_points: &[&str]) -> (r: NameSet)
        requires
            self.wf(),
        ensures
            r.wf(),
            forall|x: Seq<char>| #[trigger] r.has(x) <==> reachable(self.graph(), strs(entry_points@), x),
    {
        reachable_from(&self.symbol_table.call_graph, entry_points)
    }

    fn kept_names(&self) -> (r: Vec<String>)
        requires
            self.wf(),
        ensures
            views(r@) == self.kept(),
    {
        let entries = [self.entry_point.as_str()];
        let reach = reachable_from(&self.symbol_table.call_graph, &entries);
        assert(strs(entries@) =~= seq![self.entry_point@]);
        keys_where(&reach, &self.symbols, is_kept, Ghost(kept_symbol(self.graph(), self.entry_point@)))
    }

    fn stripped_names(&self) -> (r: Vec<String>)
        requires
            self.wf(),
        ensures
            views(r@) == self.stripped(),
    {
        let entries = [self.entry_point.as_str()];
        let reach = reachable_from(&self.symbol_table.call_graph, &entries);
        assert(strs(entries@) =~= seq![self.entry_point@]);
        keys_where(&reach, &self.symbols, is_stripped, Ghost(stripped_symbol(self.graph(), self.entry_point@)))
    }

    /// The symbols kept by linking: those the entry point reaches and the public ones.
    pub fn compute_kept_symbols(&self) -> (r: NameSet)
        requires
            self.wf(),
        ensures
            r.wf(),
            r.elems() == self.kept(),
            forall|x: Seq<char>| #[trigger] r.has(x) <==> self.symbols.has(x) && kept_symbol(
                self.graph(),
                self.entry_point@,
            )(self.symbols.at(x)),
    {
        let v = self.kept_names();
        proof {
            lemma_select_nodup(self.symbols.keys(), self.symbols.vals(), kept_symbol(self.graph(), self.entry_point@));
        }
        let r = NameSet::from_vec(&v);
        proof {
            assert forall|x: Seq<char>| #[trigger] r.has(x) <==> self.symbols.has(x) && kept_symbol(
                self.graph(),
                self.entry_point@,
            )(self.symbols.at(x)) by {
                lemma_selected(self.symbols, kept_symbol(self.graph(), self.entry_point@), x);
            }
        }
        r
    }

    /// The symbols stripped by linking, in registration order.
    pub fn compute_stripped_symbols(&self) -> (r: Vec<String>)
        requires
            self.wf(),
        ensures
            views(r@) == self.stripped(),
    {
        self.stripped_names()
    }

    /// Kept symbols in ascending name order, each at the address after the previous one,
    /// starting at `0x1000`, with its size.
    pub fn compute_symbol_layout(&self) -> (r: NameMap<(usize, usize)>)
        requires
            self.wf(),
            0x1000 + total_size(self.symbols) <= usize::MAX,
        ensures
            r.wf(),
            sorted(r.keys()),
            forall|x: Seq<char>| #[trigger] r.has(x) <==> self.kept().contains(x),
            forall|i: int| 0 <= i < r.keys().len() ==> #[trigger] r.vals()[i] == (
                (0x1000 + sum_of(r.keys().take(i), size_in(self.symbols))) as usize,
                self.symbols.at(r.keys()[i]).size,
            ),
    {
        let ghost f = size_in(self.symbols);
        let ghost p = kept_symbol(self.graph(), self.entry_point@);
        let names = self.kept_names();
        proof {
            lemma_select_nodup(self.symbols.keys(), self.symbols.vals(), p);
        }
        let order = sort_strings(names);
        let mut layout: NameMap<(usize, usize)> = NameMap::new();
        let mut addr: usize = 0x1000;
        let mut i: usize = 0;
        proof {
            assert forall|x: Seq<char>| #[trigger] f(x) >= 0 by {}
            assert forall|k: int| 0 <= k < views(order@).len() implies self.symbols.keys().contains(
                #[trigger] views(order@)[k],
            ) by {
                let x = views(order@)[k];
                assert(views(order@).contains(x));
                lemma_select_contains(self.symbols.keys(), self.symbols.vals(), p, x);
            }
            lemma_sum_subset(views(order@), self.symbols.keys(), f);
        }
        while i < order.len()
            invariant
                self.wf(),
                f == size_in(self.symbols),
                p == kept_symbol(self.graph(), self.entry_point@),
                0x1000 + total_size(self.symbols) <= usize::MAX,
                sum_of(views(order@), f) <= total_size(self.symbols),
                forall|x: Seq<char>| #[trigger] f(x) >= 0,
                sorted(views(order@)),
                views(order@).no_duplicates(),
                forall|x: Seq<char>| #[trigger] views(order@).contains(x) <==> self.kept().contains(x),
                i <= order@.len(),
                layout.wf(),
                layout.keys() == views(order@).take(i as int),
                addr == 0x1000 + sum_of(views(order@).take(i as int), f),
                forall|k: int| 0 <= k < i ==> #[trigger] layout.vals()[k] == (
                    (0x1000 + sum_of(views(order@).take(k), f)) as usize,
                    self.symbols.at(views(order@)[k]).size,
                ),
            decreases order.len() - i,
        {
            let name = &order[i];
            let ghost x = name@;
            assert(views(order@)[i as int] == x);
            proof {
                lemma_select_contains(self.symbols.keys(), self.symbols.vals(), p, x);
                assert(views(order@).contains(x));
            }
            match self.symbols.get(name.as_str()) {
                Some(sym) => {
                    proof {
                        let t = views(order@).take(i + 1);
                        assert(t.drop_last() =~= views(order@).take(i as int));
                        lemma_sum_prefix(views(order@), f, i + 1);
                        assert(sum_of(t, f) == addr - 0x1000 + sym.size);
                    }
                    let ghost ok = layout.keys();
                    let ghost ov = layout.vals();
                    proof {
                        assert(!ok.contains(x)) by {
                            if ok.contains(x) {
                                let k = choose|k: int| 0 <= k < i && ok[k] == x;
                                assert(views(order@)[k] == views(order@)[i as int]);
                            }
                        }
                    }
                    layout.insert(copy_string(name), (addr, sym.size));
                    proof {
                        assert(layout.keys() =~= views(order@).take(i + 1));
                        assert(layout.vals() == ov.push((addr, sym.size)));
                    }
                    addr = addr + sym.size;
                },
                None => {
                    assert(false);
                },
            }
            i += 1;
        }
        assert(views(order@).take(order@.len() as int) =~= views(order@));
        layout
    }

    /// Counts and sizes of what linking keeps and strips.
    pub fn compute_statistics(&self) -> (r: LinkingStatistics)
        requires
            self.wf(),
            0x1000 + total_size(self.symbols) <= usize::MAX,
            sum_of(self.stripped(), size_in(self.symbols)) * 100 <= usize::MAX,
        ensures
            r.kept_symbols == self.kept().len(),
            r.removed_symbols == self.stripped().len(),
            r.total_code_size == sum_of(self.kept(), size_in(self.symbols)),
            r.removed_code_size == sum_of(self.stripped(), size_in(self.symbols)),
            r.estimated_savings_percent == (if r.total_code_size > 0 {
                (r.removed_code_size * 100) / (r.total_code_size + r.removed_code_size)
            } else {
                0
            }),
            r.layout_entries == self.kept().len(),
    {
        let kept = self.compute_kept_symbols();
        let stripped = self.compute_stripped_symbols();
        let layout = self.compute_symbol_layout();
        let ghost f = size_in(self.symbols);
        proof {
            assert forall|x: Seq<char>| #[trigger] f(x) >= 0 by {}
            lemma_select_nodup(self.symbols.keys(), self.symbols.vals(), kept_symbol(self.graph(), self.entry_point@));
            lemma_select_nodup(self.symbols.keys(), self.symbols.vals(), stripped_symbol(self.graph(), self.entry_point@));
            lemma_selected_in_keys(self.symbols, kept_symbol(self.graph(), self.entry_point@));
            lemma_selected_in_keys(self.symbols, stripped_symbol(self.graph(), self.entry_point@));
            lemma_sum_subset(self.kept(), self.symbols.keys(), f);
            lemma_sum_subset(self.stripped(), self.symbols.keys(), f);
            assert forall|x: Seq<char>| #[trigger] layout.keys().contains(x) <==> self.kept().contains(x) by {
                assert(layout.has(x) == layout.keys().contains(x));
            }
            lemma_layout_len(layout.keys(), self.kept());
        }
        proof {
            lemma_select_partition(
                self.symbols.keys(),
                self.symbols.vals(),
                kept_symbol(self.graph(), self.entry_point@),
                stripped_symbol(self.graph(), self.entry_point@),
                f,
            );
            lemma_sum_nonneg(self.kept(), f);
            lemma_sum_nonneg(self.stripped(), f);
        }
        let total = self.size_sum(&kept);
        let stripped_set = to_names(&stripped);
        let removed = self.size_sum(&stripped_set);
        let percent = if total > 0 {
            (removed * 100) / (total + removed)
        } else {
            0
        };
        LinkingStatistics {
            kept_symbols: kept.len(),
            removed_symbols: stripped.len(),
            total_code_size: total,
            removed_code_size: removed,
            estimated_savings_percent: percent,
            layout_entries: layout.len(),
        }
    }

    fn size_sum(&self, names: &NameSet) -> (r: usize)
        requires
            self.wf(),
            forall|k: int| 0 <= k < names.elems().len() ==> self.symbols.has(#[trigger] names.elems()[k]),
            sum_of(names.elems(), size_in(self.symbols)) <= usize::MAX,
        ensures
            r == sum_of(names.elems(), size_in(self.symbols)),
    {
        let ghost f = size_in(self.symbols);
        let mut total: usize = 0;
        let mut i: usize = 0;
        proof {
            assert forall|x: Seq<char>| #[trigger] f(x) >= 0 by {}
        }
        while i < names.len()
            invariant
                self.wf(),
                f == size_in(self.symbols),
                forall|x: Seq<char>| #[trigger] f(x) >= 0,
                forall|k: int| 0 <= k < names.elems().len() ==> self.symbols.has(#[trigger] names.elems()[k]),
                sum_of(names.elems(), f) <= usize::MAX,
                i <= names.elems().len(),
                total == sum_of(names.elems().take(i as int), f),
            decreases names.elems().len() - i,
        {
            let n = names.item_at(i);
            assert(self.symbols.has(names.elems()[i as int]));
            match self.symbols.get(n.as_str()) {
                Some(sym) => {
                    proof {
                        let t = names.elems().take(i + 1);
                        assert(t.drop_last() =~= names.elems().take(i as int));
                        lemma_sum_prefix(names.elems(), f, i + 1);
                    }
                    total = total + sym.size;
                },
                None => {
                    assert(false);
                },
            }
            i += 1;
        }
        assert(names.elems().take(names.elems().len() as int) =~= names.elems());
        total
    }

    /// The visibility of each symbol, under its name.
    pub fn generate_visibility_map(&self) -> (r: NameMap<SymbolVisibility>)
        requires
            self.wf(),
        ensures
            r.wf(),
            r.keys() == self.symbols.keys(),
            forall|i: int| 0 <= i < r.keys().len() ==> #[trigger] r.vals()[i] == self.symbols.vals()[i].visibility,
    {
        let mut r: NameMap<SymbolVisibility> = NameMap::new();
        let n = self.symbols.len();
        let mut i: usize = 0;
        while i < n
            invariant
                self.wf(),
                n == self.symbols.keys().len(),
                i <= n,
                r.wf(),
                r.keys() == self.symbols.keys().take(i as int),
                forall|k: int| 0 <= k < i ==> #[trigger] r.vals()[k] == self.symbols.vals()[k].visibility,
            decreases n - i,
        {
            let k = copy_string(self.symbols.key_at(i));
            proof {
                assert(!r.keys().contains(k@)) by {
                    if r.keys().contains(k@) {
                        let j = choose|j: int| 0 <= j < i && r.keys()[j] == k@;
                        assert(self.symbols.keys()[j] == self.symbols.keys()[i as int]);
                    }
                }
            }
            let ghost ov = r.vals();
            r.insert(k, self.symbols.val_at(i).visibility);
            assert(r.keys() =~= self.symbols.keys().take(i + 1));
            assert(r.vals() == ov.push(self.symbols.vals()[i as int].visibility));
            i += 1;
        }
        assert(self.symbols.keys().take(n as int) =~= self.symbols.keys());
        r
    }

    /// `Ok` when every reference names a registered symbol; otherwise the first bad
    /// reference, in registration order, as `Symbol <name> references undefined symbol <ref>`.
    pub fn verify_references(&self) -> (r: Result<(), String>)
        requires
            self.wf(),
        ensures
            r is Ok <==> all_references_defined(self.symbols),
            match r {
                Ok(_) => true,
                Err(e) => exists|i: int, j: int|
                    0 <= i < self.symbols.keys().len() && 0 <= j < self.symbols.vals()[i].references@.len()
                        && !self.symbols.has(#[trigger] self.symbols.vals()[i].references@[j]@) && e@ == "Symbol "@
                        + self.symbols.keys()[i] + " references undefined symbol "@
                        + self.symbols.vals()[i].references@[j]@,
            },
    {
        let n = self.symbols.len();
        let mut i: usize = 0;
        while i < n
            invariant
                self.wf(),
                n == self.symbols.keys().len(),
                i <= n,
                forall|a: int, b: int|
                    0 <= a < i && 0 <= b < self.symbols.vals()[a].references@.len() ==> self.symbols.has(
                        #[trigger] self.symbols.vals()[a].references@[b]@,
                    ),
            decreases n - i,
        {
            let info = self.symbols.val_at(i);
            let mut j: usize = 0;
            while j < info.references.len()
                invariant
                    self.wf(),
                    n == self.symbols.keys().len(),
                    i < n,
                    *info == self.symbols.vals()[i as int],
                    j <= info.references@.len(),
                    forall|a: int, b: int|
                        0 <= a < i && 0 <= b < self.symbols.vals()[a].references@.len() ==> self.symbols.has(
                            #[trigger] self.symbols.vals()[a].references@[b]@,
                        ),
                    forall|b: int| 0 <= b < j ==> self.symbols.has(#[trigger] info.references@[b]@),
                decreases info.references.len() - j,
            {
                let referenced = &info.references[j];
                if !self.symbols.contains_key(referenced.as_str()) {
                    let mut msg: Vec<char> = Vec::new();
                    append_str(&mut msg, "Symbol ");
                    append_str(&mut msg, self.symbols.key_at(i).as_str());
                    append_str(&mut msg, " references undefined symbol ");
                    append_str(&mut msg, referenced.as_str());
                    let e = string_of(msg.as_slice());
                    proof {
                        assert(e@ =~= "Symbol "@ + self.symbols.keys()[i as int] + " references undefined symbol "@
                            + self.symbols.vals()[i as int].references@[j as int]@);
                        assert(!self.symbols.has(self.symbols.vals()[i as int].references@[j as int]@));
                    }
                    return Err(e);
                }
                j += 1;
            }
            i += 1;
        }
        Ok(())
    }
}

/// Every reference of every symbol names a registered symbol.
pub open spec fn all_references_defined(m: NameMap<SymbolInfo>) -> bool {
    forall|a: int, b: int|
        0 <= a < m.keys().len() && 0 <= b < m.vals()[a].references@.len() ==> m.has(
            #[trigger] m.vals()[a].references@[b]@,
        )
}

fn is_kept(reach: &NameSet, s: &SymbolInfo) -> (b: bool)
    ensures
        b == (reach.has(s.name@) || s.visibility == SymbolVisibility::Public),
{
    reach.contains(s.name.as_str()) || s.visibility == SymbolVisibility::Public
}

fn is_stripped(reach: &NameSet, s: &SymbolInfo) -> (b: bool)
    ensures
        b == !(reach.has(s.name@) || s.visibility == SymbolVisibility::Public),
{
    !(reach.contains(s.name.as_str()) || s.visibility == SymbolVisibility::Public)
}

fn to_names(v: &Vec<String>) -> (r: NameSet)
    requires
        views(v@).no_duplicates(),
    ensures
        r.wf(),
        r.elems() == views(v@),
{
    NameSet::from_vec(v)
}

/// A name is selected from a symbol map exactly when it is filed there with a passing symbol.
proof fn lemma_selected(m: NameMap<SymbolInfo>, p: spec_fn(SymbolInfo) -> bool, x: Seq<char>)
    requires
        symbols_wf(m),
    ensures
        select(m.keys(), m.vals(), p).contains(x) <==> m.has(x) && p(m.at(x)),
{
    lemma_select_contains(m.keys(), m.vals(), p, x);
    if m.has(x) {
        lemma_index_of(m.keys(), x);
    }
}

/// What is selected from a symbol map is filed there.
proof fn lemma_selected_in_keys(m: NameMap<SymbolInfo>, p: spec_fn(SymbolInfo) -> bool)
    requires
        symbols_wf(m),
    ensures
        forall|k: int| 0 <= k < select(m.keys(), m.vals(), p).len() ==> m.keys().contains(
            #[trigger] select(m.keys(), m.vals(), p)[k],
        ),
{
    assert forall|k: int| 0 <= k < select(m.keys(), m.vals(), p).len() implies m.keys().contains(
        #[trigger] select(m.keys(), m.vals(), p)[k],
    ) by {
        let x = select(m.keys(), m.vals(), p)[k];
        assert(select(m.keys(), m.vals(), p).contains(x));
        lemma_selected(m, p, x);
    }
}

/// Two duplicate-free sequences with the same elements have the same length.
proof fn lemma_layout_len(a: Seq<Seq<char>>, b: Seq<Seq<char>>)
    requires
        a.no_duplicates(),
        b.no_duplicates(),
        forall|x: Seq<char>| #[trigger] a.contains(x) <==> b.contains(x),
    ensures
        a.len() == b.len(),
{
    assert forall|i: int| 0 <= i < a.len() implies b.contains(#[trigger] a[i]) by {
        assert(a.contains(a[i]));
    }
    assert forall|i: int| 0 <= i < b.len() implies a.contains(#[trigger] b[i]) by {
        assert(b.contains(b[i]));
    }
    crate::names::lemma_nodup_subset_len(a, b);
    crate::names::lemma_nodup_subset_len(b, a);
}

/// Statistics about the linking process.
#[derive(Debug, Clone)]
pub struct LinkingStatistics {
    pub kept_symbols: usize,
    pub removed_symbols: usize,
    pub total_code_size: usize,
    pub removed_code_size: usize,
    pub estimated_savings_percent: usize,
    pub layout_entries: usize,
}

impl LinkingStatistics {
    pub fn new() -> (r: Self)
        ensures
            r.kept_symbols == 0,
            r.removed_symbols == 0,
            r.total_code_size == 0,
            r.removed_code_size == 0,
            r.estimated_savings_percent == 0,
            r.layout_entries == 0,
    {
        LinkingStatistics {
            kept_symbols: 0,
            removed_symbols: 0,
            total_code_size: 0,
            removed_code_size: 0,
            estimated_savings_percent: 0,
            layout_entries: 0,
        }
    }
}

/// The pair `[a, b]` is an edge from `a` to `b` where `b` also reaches `a`: it closes a cycle.
pub open spec fn closes_cycle(g: NameMap<NameSet>, pair: Seq<Seq<char>>) -> bool {
    &&& pair.len() == 2
    &&& edge(g, pair[0], pair[1])
    &&& reachable(g, seq![pair[1]], pair[0])
}

/// Consecutive elements of `s` are joined by edges.
pub open spec fn chained(g: NameMap<NameSet>, s: Seq<Seq<char>>) -> bool {
    forall|i: int, j: int| #![trigger s[i], s[j]] 0 <= i && j == i + 1 && j < s.len() ==> edge(g, s[i], s[j])
}

/// How many of the sets hold `x`.
pub open spec fn count_in(vs: Seq<NameSet>, x: Seq<char>) -> nat
    decreases vs.len(),
{
    if vs.len() == 0 {
        0
    } else {
        count_in(vs.drop_last(), x) + if vs.last().has(x) {
            1nat
        } else {
            0nat
        }
    }
}

/// One for being a caller, plus one for each caller that calls it.
pub open spec fn call_frequency(g: NameMap<NameSet>, x: Seq<char>) -> nat {
    (if g.has(x) {
        1nat
    } else {
        0nat
    }) + count_in(g.vals(), x)
}

proof fn lemma_count_in_bound(vs: Seq<NameSet>, x: Seq<char>)
    ensures
        count_in(vs, x) <= vs.len(),
    decreases vs.len(),
{
    if vs.len() > 0 {
        lemma_count_in_bound(vs.drop_last(), x);
    }
}

/// Every finished name's callees are finished, each before the name itself.
pub open spec fn ranked(g: NameMap<NameSet>, fin: Map<Seq<char>, int>) -> bool {
    forall|u: Seq<char>, v: Seq<char>| #[trigger] edge(g, u, v) && fin.contains_key(u) ==> fin.contains_key(v) && fin[v] < fin[u]
}

/// The state of the search: a name is visited when it is finished or on the stack, never
/// both, and every finishing time is below `tick`.
pub open spec fn dfs_state(visited: NameSet, stack: Seq<Seq<char>>, fin: Map<Seq<char>, int>, tick: int) -> bool {
    &&& forall|x: Seq<char>| #[trigger] visited.has(x) <==> (fin.contains_key(x) || stack.contains(x))
    &&& forall|x: Seq<char>| #[trigger] fin.contains_key(x) ==> !stack.contains(x) && fin[x] < tick
}

/// Along a path from a finished name, every name is finished, each earlier than the one before.
proof fn lemma_ranked_path(g: NameMap<NameSet>, fin: Map<Seq<char>, int>, p: Seq<Seq<char>>)
    requires
        ranked(g, fin),
        is_path(g, p),
        fin.contains_key(p[0]),
    ensures
        fin.contains_key(p.last()),
        fin[p.last()] <= fin[p[0]] - (p.len() - 1),
    decreases p.len(),
{
    if p.len() > 1 {
        let q = p.drop_last();
        assert forall|i: int, j: int| #![trigger q[i], q[j]] 0 <= i && j == i + 1 && j < q.len() implies edge(g, q[i], q[j]) by {
            assert(q[i] == p[i] && q[j] == p[j]);
        }
        lemma_ranked_path(g, fin, q);
        let n = p.len() as int;
        assert(edge(g, p[n - 2], p[n - 1]));
        assert(q.last() == p[n - 2]);
    }
}

/// With every node finished and the finishing times ranked, no edge out of a name that a
/// node reaches closes a cycle.
proof fn lemma_ranked_acyclic(g: NameMap<NameSet>, fin: Map<Seq<char>, int>, nodes: Seq<Seq<char>>)
    requires
        ranked(g, fin),
        forall|k: int| 0 <= k < nodes.len() ==> fin.contains_key(#[trigger] nodes[k]),
    ensures
        forall|a: Seq<char>, b: Seq<char>| #[trigger] edge(g, a, b) && reachable(g, nodes, a) ==> !reachable(g, seq![b], a),
{
    assert forall|a: Seq<char>, b: Seq<char>| #[trigger] edge(g, a, b) && reachable(g, nodes, a) implies !reachable(g, seq![b], a) by {
        let q = choose|q: Seq<Seq<char>>| #[trigger] is_path(g, q) && nodes.contains(q[0]) && q.last() == a;
        let k = choose|k: int| 0 <= k < nodes.len() && nodes[k] == q[0];
        lemma_ranked_path(g, fin, q);
        if reachable(g, seq![b], a) {
            let p = choose|p: Seq<Seq<char>>| #[trigger] is_path(g, p) && seq![b].contains(p[0]) && p.last() == a;
            assert(p[0] == b) by {
                let i = choose|i: int| 0 <= i < 1 && seq![b][i] == p[0];
            }
            lemma_ranked_path(g, fin, p);
        }
    }
}

/// A symbol graph for whole-program analysis.
pub struct SymbolGraph {
    pub nodes: NameMap<SymbolInfo>,
    pub edges: NameMap<NameSet>,
}

impl SymbolGraph {
    pub open spec fn wf(&self) -> bool {
        &&& symbols_wf(self.nodes)
        &&& graph_wf(self.edges)
    }

    /// Every name the graph mentions: its nodes, then every callee.
    pub open spec fn universe(&self) -> Seq<Seq<char>> {
        self.nodes.keys() + targets(self.edges.vals())
    }

    pub fn new() -> (r: Self)
        ensures
            r.wf(),
            r.nodes.keys().len() == 0,
            r.edges.keys().len() == 0,
    {
        SymbolGraph { nodes: NameMap::new(), edges: NameMap::new() }
    }

    /// Adds a symbol node under its name, replacing an earlier one of that name.
    pub fn add_node(&mut self, info: SymbolInfo)
        requires
            old(self).wf(),
        ensures
            final(self).wf(),
            final(self).nodes.has(info.name@),
            final(self).nodes.at(info.name@) == info,
            forall|k: Seq<char>| k != info.name@ ==> (final(self).nodes.has(k) == old(self).nodes.has(k) && (
                old(self).nodes.has(k) ==> final(self).nodes.at(k) == old(self).nodes.at(k))),
            final(self).edges == old(self).edges,
    {
        let name = copy_string(&info.name);
        let ghost ok = self.nodes.keys();
        let ghost ov = self.nodes.vals();
        self.nodes.insert(name, info);
        proof {
            lemma_insert_facts(ok, ov, self.nodes.keys(), self.nodes.vals(), info.name@, info);
        }
    }

    /// Adds the call edge from `from` to `to`.
    pub fn add_edge(&mut self, from: String, to: String)
        requires
            old(self).wf(),
        ensures
            final(self).wf(),
            forall|a: Seq<char>, b: Seq<char>| #[trigger] edge(final(self).edges, a, b) <==> (edge(
                old(self).edges, a, b) || (a == from@ && b == to@)),
            forall|a: Seq<char>| #[trigger] final(self).edges.has(a) <==> (old(self).edges.has(a) || a == from@),
            final(self).nodes == old(self).nodes,
    {
        insert_edge(&mut self.edges, from, to);
    }

    /// Back edges found by depth-first search from each node in turn, as `[from, to]` pairs;
    /// each closes a cycle, and when none is found no cycle can be reached from a node.
    pub fn find_cycles(&self) -> (r: Vec<Vec<String>>)
        requires
            self.wf(),
        ensures
            forall|i: int| 0 <= i < r@.len() ==> closes_cycle(self.edges, #[trigger] views(r@[i]@)),
            r@.len() == 0 ==> forall|a: Seq<char>, b: Seq<char>| #[trigger] edge(self.edges, a, b) && reachable(
                self.edges,
                self.nodes.keys(),
                a,
            ) ==> !reachable(self.edges, seq![b], a),
    {
        let mut cycles: Vec<Vec<String>> = Vec::new();
        let mut visited = NameSet::new();
        let mut stack: Vec<String> = Vec::new();
        let ghost mut fin: Map<Seq<char>, int> = Map::empty();
        let ghost mut tick: int = 0;
        let n = self.nodes.len();
        let mut i: usize = 0;
        assert(views(stack@) =~= Seq::<Seq<char>>::empty());
        while i < n
            invariant
                self.wf(),
                n == self.nodes.keys().len(),
                i <= n,
                visited.wf(),
                forall|k: int| 0 <= k < visited.elems().len() ==> self.universe().contains(#[trigger] visited.elems()[k]),
                stack@.len() == 0,
                views(stack@) == Seq::<Seq<char>>::empty(),
                forall|c: int| 0 <= c < cycles@.len() ==> closes_cycle(self.edges, #[trigger] views(cycles@[c]@)),
                dfs_state(visited, views(stack@), fin, tick),
                cycles@.len() == 0 ==> ranked(self.edges, fin),
                forall|k: int| 0 <= k < i ==> visited.has(#[trigger] self.nodes.keys()[k]),
            decreases n - i,
        {
            let name = self.nodes.key_at(i);
            if !visited.contains(name.as_str()) {
                proof {
                    assert(self.universe()[i as int] == name@);
                }
                let out = self.dfs_cycles(name, &mut visited, &mut stack, &mut cycles, Ghost(fin), Ghost(tick));
                proof {
                    fin = out@.0;
                    tick = out@.1;
                }
            }
            i += 1;
        }
        proof {
            assert forall|k: int| 0 <= k < self.nodes.keys().len() implies fin.contains_key(#[trigger] self.nodes.keys()[k]) by {
                assert(visited.has(self.nodes.keys()[k]));
            }
            if cycles@.len() == 0 {
                lemma_ranked_acyclic(self.edges, fin, self.nodes.keys());
            }
        }
        cycles
    }

    fn dfs_cycles(
        &self,
        node: &String,
        visited: &mut NameSet,
        stack: &mut Vec<String>,
        cycles: &mut Vec<Vec<String>>,
        fin: Ghost<Map<Seq<char>, int>>,
        tick: Ghost<int>,
    ) -> (out: Ghost<(Map<Seq<char>, int>, int)>)
        requires
            self.wf(),
            old(visited).wf(),
            self.universe().contains(node@),
            !old(visited).has(node@),
            forall|k: int| 0 <= k < old(visited).elems().len() ==> self.universe().contains(#[trigger] old(visited).elems()[k]),
            chained(self.edges, views(old(stack)@)),
            old(stack)@.len() > 0 ==> edge(self.edges, views(old(stack)@).last(), node@),
            forall|c: int| 0 <= c < old(cycles)@.len() ==> closes_cycle(self.edges, #[trigger] views(old(cycles)@[c]@)),
            dfs_state(*old(visited), views(old(stack)@), fin@, tick@),
            old(cycles)@.len() == 0 ==> ranked(self.edges, fin@),
        ensures
            final(visited).wf(),
            final(visited).elems().len() > old(visited).elems().len(),
            forall|x: Seq<char>| #[trigger] old(visited).has(x) ==> final(visited).has(x),
            forall|k: int| 0 <= k < final(visited).elems().len() ==> self.universe().contains(#[trigger] final(visited).elems()[k]),
            views(final(stack)@) == views(old(stack)@),
            final(stack)@.len() == old(stack)@.len(),
            forall|c: int| 0 <= c < final(cycles)@.len() ==> closes_cycle(self.edges, #[trigger] views(final(cycles)@[c]@)),
            old(cycles)@.len() <= final(cycles)@.len(),
            out@.0.contains_key(node@),
            forall|x: Seq<char>| #[trigger] fin@.contains_key(x) ==> out@.0.contains_key(x) && out@.0[x] == fin@[x],
            dfs_state(*final(visited), views(final(stack)@), out@.0, out@.1),
            final(cycles)@.len() == 0 ==> ranked(self.edges, out@.0),
        decreases self.universe().len() - old(visited).elems().len(),
    {
        let ghost u = self.universe();
        let ghost entry_len = visited.elems().len();
        let ghost mut f = fin@;
        let ghost mut t = tick@;
        proof {
            crate::names::lemma_nodup_subset_len(visited.elems().push(node@), u);
        }
        visited.insert(copy_string(node));
        let ghost sv = views(stack@);
        stack.push(copy_string(node));
        assert(views(stack@) =~= sv.push(node@));
        proof {
            crate::names::lemma_push_contains(sv, node@);
            assert(!sv.contains(node@));
        }
        match self.edges.get(node.as_str()) {
            Some(ns) => {
                let m = ns.len();
                let mut j: usize = 0;
                while j < m
                    invariant
                        self.wf(),
                        u == self.universe(),
                        self.edges.has(node@),
                        *ns == self.edges.at(node@),
                        m == ns.elems().len(),
                        j <= m,
                        visited.wf(),
                        visited.has(node@),
                        visited.elems().len() >= entry_len + 1,
                        entry_len == old(visited).elems().len(),
                        forall|x: Seq<char>| #[trigger] old(visited).has(x) ==> visited.has(x),
                        forall|k: int| 0 <= k < visited.elems().len() ==> u.contains(#[trigger] visited.elems()[k]),
                        views(stack@) == sv.push(node@),
                        stack@.len() == sv.len() + 1,
                        chained(self.edges, sv.push(node@)),
                        forall|c: int| 0 <= c < cycles@.len() ==> closes_cycle(self.edges, #[trigger] views(cycles@[c]@)),
                        old(cycles)@.len() <= cycles@.len(),
                        !sv.contains(node@),
                        dfs_state(*visited, sv.push(node@), f, t),
                        forall|x: Seq<char>| #[trigger] fin@.contains_key(x) ==> f.contains_key(x) && f[x] == fin@[x],
                        cycles@.len() == 0 ==> ranked(self.edges, f),
                        cycles@.len() == 0 ==> forall|k: int| 0 <= k < j ==> f.contains_key(#[trigger] ns.elems()[k]),
                    decreases m - j,
                {
                    let nb = ns.item_at(j);
                    assert(edge(self.edges, node@, nb@)) by {
                        assert(ns.elems()[j as int] == nb@);
                    }
                    if !visited.contains(nb.as_str()) {
                        proof {
                            let gi = self.edges.keys().index_of(node@);
                            lemma_index_of(self.edges.keys(), node@);
                            lemma_targets(self.edges.vals(), gi, nb@);
                            let t2 = targets(self.edges.vals());
                            let ti = choose|ti: int| 0 <= ti < t2.len() && t2[ti] == nb@;
                            assert(u[self.nodes.keys().len() + ti] == nb@);
                            assert(views(stack@).last() == node@);
                            crate::names::lemma_nodup_subset_len(visited.elems(), u);
                        }
                        let ghost fb = f;
                        let r = self.dfs_cycles(nb, visited, stack, cycles, Ghost(f), Ghost(t));
                        proof {
                            f = r@.0;
                            t = r@.1;
                            assert forall|x: Seq<char>| #[trigger] fin@.contains_key(x) implies f.contains_key(x) && f[x] == fin@[x] by {
                                assert(fb.contains_key(x));
                            }
                            if cycles@.len() == 0 {
                                assert forall|k: int| 0 <= k < j + 1 implies f.contains_key(#[trigger] ns.elems()[k]) by {
                                    if k < j {
                                        assert(fb.contains_key(ns.elems()[k]));
                                    }
                                }
                            }
                        }
                    } else if stack_contains(stack, nb.as_str()) {
                        let ghost st = views(stack@);
                        proof {
                            let k = choose|k: int| 0 <= k < st.len() && st[k] == nb@;
                            let p = st.subrange(k, st.len() as int);
                            assert forall|a: int, b: int| #![trigger p[a], p[b]] 0 <= a && b == a + 1 && b < p.len() implies edge(self.edges, p[a], p[b]) by {
                                assert(p[a] == st[k + a] && p[b] == st[k + b]);
                            }
                            assert(is_path(self.edges, p));
                            assert(seq![nb@].contains(p[0])) by {
                                assert(seq![nb@][0] == p[0]);
                            }
                            assert(p.last() == node@);
                        }
                        let mut pair: Vec<String> = Vec::new();
                        pair.push(copy_string(node));
                        pair.push(copy_string(nb));
                        let ghost before = cycles@;
                        cycles.push(pair);
                        proof {
                            assert(views(pair@) =~= seq![node@, nb@]);
                            assert forall|c: int| 0 <= c < cycles@.len() implies closes_cycle(self.edges, #[trigger] views(cycles@[c]@)) by {
                                if c < before.len() {
                                    assert(cycles@[c] == before[c]);
                                }
                            }
                        }
                    } else {
                        proof {
                            assert(visited.has(nb@));
                            assert(f.contains_key(nb@));
                            assert(ns.elems()[j as int] == nb@);
                        }
                    }
                    j += 1;
                }
            },
            None => {},
        }
        proof {
            let f2 = f.insert(node@, t);
            assert(!f.contains_key(node@));
            if cycles@.len() == 0 {
                assert forall|a: Seq<char>, b: Seq<char>| #[trigger] edge(self.edges, a, b) && f2.contains_key(a) implies f2.contains_key(b) && f2[b] < f2[a] by {
                    if a == node@ {
                        let ns = self.edges.at(node@);
                        let k = choose|k: int| 0 <= k < ns.elems().len() && ns.elems()[k] == b;
                        assert(f.contains_key(ns.elems()[k]));
                    } else {
                        assert(f.contains_key(a));
                    }
                }
            }
            f = f2;
            t = t + 1;
        }
        let ghost before_pop = stack@;
        stack.pop();
        assert(stack@ =~= before_pop.drop_last());
        assert(views(stack@) =~= views(before_pop).drop_last());
        assert(views(stack@) =~= sv);
        proof {
            assert forall|x: Seq<char>| #[trigger] visited.has(x) <==> (f.contains_key(x) || sv.contains(x)) by {
                crate::names::lemma_push_contains(sv, node@);
            }
            assert forall|x: Seq<char>| #[trigger] f.contains_key(x) implies !sv.contains(x) && f[x] < t by {
                crate::names::lemma_push_contains(sv, node@);
            }
        }
        Ghost((f, t))
    }

    /// For each name in the graph: one if it calls anything, plus one per caller.
    pub fn compute_call_frequency(&self) -> (r: NameMap<usize>)
        requires
            self.wf(),
            2 * self.edges.keys().len() < usize::MAX,
        ensures
            r.wf(),
            forall|x: Seq<char>| #[trigger] r.has(x) <==> call_frequency(self.edges, x) > 0,
            forall|x: Seq<char>| r.has(x) ==> #[trigger] r.at(x) == call_frequency(self.edges, x),
    {
        let g = &self.edges;
        let n = g.len();
        let mut r: NameMap<usize> = NameMap::new();
        let mut i: usize = 0;
        while i < n
            invariant
                graph_wf(*g),
                n == g.keys().len(),
                2 * n < usize::MAX,
                i <= n,
                r.wf(),
                forall|x: Seq<char>| #[trigger] r.has(x) <==> partial_frequency(*g, i as int, x) > 0,
                forall|x: Seq<char>| r.has(x) ==> #[trigger] r.at(x) == partial_frequency(*g, i as int, x),
            decreases n - i,
        {
            let caller = g.key_at(i);
            let ns = g.val_at(i);
            proof {
                lemma_partial_bound(*g, i as int, caller@);
            }
            bump_count(&mut r, caller.as_str());
            let m = ns.len();
            let mut j: usize = 0;
            while j < m
                invariant
                    graph_wf(*g),
                    n == g.keys().len(),
                    2 * n < usize::MAX,
                    i < n,
                    caller@ == g.keys()[i as int],
                    *ns == g.vals()[i as int],
                    m == ns.elems().len(),
                    j <= m,
                    r.wf(),
                    forall|x: Seq<char>| #[trigger] r.has(x) <==> step_frequency(*g, i as int, j as int, x) > 0,
                    forall|x: Seq<char>| r.has(x) ==> #[trigger] r.at(x) == step_frequency(*g, i as int, j as int, x),
                decreases m - j,
            {
                let callee = ns.item_at(j);
                proof {
                    lemma_partial_bound(*g, i as int, callee@);
                    assert(ns.elems().take(j + 1) =~= ns.elems().take(j as int).push(callee@));
                    crate::names::lemma_push_contains(ns.elems().take(j as int), callee@);
                    assert(g.vals()[i as int].wf());
                    assert(!ns.elems().take(j as int).contains(callee@)) by {
                        if ns.elems().take(j as int).contains(callee@) {
                            let k = choose|k: int| 0 <= k < j && ns.elems().take(j as int)[k] == callee@;
                            assert(ns.elems()[k] == ns.elems()[j as int]);
                        }
                    }
                }
                bump_count(&mut r, callee.as_str());
                j += 1;
            }
            proof {
                assert(ns.elems().take(m as int) =~= ns.elems());
                lemma_partial_step(*g, i as int);
            }
            i += 1;
        }
        proof {
            assert(g.keys().take(n as int) =~= g.keys());
            assert(g.vals().take(n as int) =~= g.vals());
        }
        r
    }
}

/// The frequency counted over the first `i` callers.
pub open spec fn partial_frequency(g: NameMap<NameSet>, i: int, x: Seq<char>) -> nat {
    (if g.keys().take(i).contains(x) {
        1nat
    } else {
        0nat
    }) + count_in(g.vals().take(i), x)
}

/// The frequency counted over the first `i` callers, caller `i` itself, and its first `j` callees.
pub open spec fn step_frequency(g: NameMap<NameSet>, i: int, j: int, x: Seq<char>) -> nat {
    partial_frequency(g, i, x) + (if x == g.keys()[i] {
        1nat
    } else {
        0nat
    }) + (if g.vals()[i].elems().take(j).contains(x) {
        1nat
    } else {
        0nat
    })
}

proof fn lemma_partial_bound(g: NameMap<NameSet>, i: int, x: Seq<char>)
    requires
        0 <= i < g.keys().len(),
        g.wf(),
    ensures
        partial_frequency(g, i, x) <= i + 1,
{
    lemma_count_in_bound(g.vals().take(i), x);
}

proof fn lemma_partial_step(g: NameMap<NameSet>, i: int)
    requires
        graph_wf(g),
        0 <= i < g.keys().len(),
    ensures
        forall|x: Seq<char>| #[trigger] partial_frequency(g, i + 1, x) == step_frequency(g, i, g.vals()[i].elems().len() as int, x),
{
    assert forall|x: Seq<char>| #[trigger] partial_frequency(g, i + 1, x) == step_frequency(g, i, g.vals()[i].elems().len() as int, x) by {
        let ks = g.keys().take(i + 1);
        assert(ks =~= g.keys().take(i).push(g.keys()[i]));
        crate::names::lemma_push_contains(g.keys().take(i), g.keys()[i]);
        assert(!g.keys().take(i).contains(g.keys()[i])) by {
            if g.keys().take(i).contains(g.keys()[i]) {
                let k = choose|k: int| 0 <= k < i && g.keys().take(i)[k] == g.keys()[i];
                assert(g.keys()[k] == g.keys()[i]);
            }
        }
        let vs = g.vals().take(i + 1);
        assert(vs.drop_last() =~= g.vals().take(i));
        assert(g.vals()[i].elems().take(g.vals()[i].elems().len() as int) =~= g.vals()[i].elems());
    }
}

/// Whether `name` is on the stack.
fn stack_contains(stack: &Vec<String>, name: &str) -> (r: bool)
    ensures
        r == views(stack@).contains(name@),
{
    let mut i: usize = 0;
    while i < stack.len()
        invariant
            i <= stack@.len(),
            forall|k: int| 0 <= k < i ==> views(stack@)[k] != name@,
        decreases stack.len() - i,
    {
        if crate::names::str_eq(stack[i].as_str(), name) {
            assert(views(stack@)[i as int] == name@);
            return true;
        }
        i += 1;
    }
    false
}

} // verus!
