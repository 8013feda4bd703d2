//! Link-time optimization: whole-program symbol table, reachability, dead code,
//! inlining candidates, constant globals and duplicate code.
use vstd::prelude::*;
use crate::names::{
    NameMap, NameSet, copy_string, copy_strings, keys_where, lemma_index_of, lemma_insert_facts, lemma_nodup_subset_len, lemma_select_full, lemma_select_step,
    select, str_eq, strs, views,
};
use crate::text::lit;

verus! {

/// Symbol visibility in LTO context.
#[derive(Debug, Clone, Copy, PartialEq, Eq, Structural)]
pub enum SymbolVisibility {
    Public,
    Internal,
    Hidden,
}

/// A graph whose name map is well formed and whose every callee list is a set.
pub open spec fn graph_wf(g: NameMap<NameSet>) -> bool {
    &&& g.wf()
    &&& forall|i: int| 0 <= i < g.keys().len() ==> #[trigger] g.vals()[i].wf()
}

/// Adds the edge from `caller` to `callee`, adding `caller` as a node if it is new.
pub fn insert_edge(g: &mut NameMap<NameSet>, caller: String, callee: String)
    requires
        graph_wf(*old(g)),
    ensures
        graph_wf(*final(g)),
        forall|a: Seq<char>, b: Seq<char>| #[trigger] edge(*final(g), a, b) <==> (edge(*old(g), a, b) || (a
            == caller@ && b == callee@)),
        forall|a: Seq<char>| #[trigger] final(g).has(a) <==> (old(g).has(a) || a == caller@),
{
    let ghost og = *g;
    match g.index_of(caller.as_str()) {
        Some(i) => {
            let mut set = g.replace_val(i, NameSet::new());
            let ghost os = set;
            assert(set.wf());
            set.insert(callee);
            g.set_val(i, set);
            proof {
                lemma_index_of(og.keys(), caller@);
                assert forall|a: Seq<char>, b: Seq<char>| #[trigger] edge(*g, a, b) <==> (edge(
                    og, a, b) || (a == caller@ && b == callee@)) by {
                    if og.has(a) {
                        lemma_index_of(og.keys(), a);
                        if a != caller@ {
                            assert(og.keys().index_of(a) != i);
                        }
                    }
                }
                assert forall|j: int| 0 <= j < g.keys().len() implies #[trigger] g.vals()[j].wf() by {
                    if j != i {
                        assert(g.vals()[j] == og.vals()[j]);
                    }
                }
            }
        },
        None => {
            let mut set = NameSet::new();
            set.insert(callee);
            let ghost ok = og.keys();
            g.insert(caller, set);
            proof {
                assert(g.keys()[ok.len() as int] == caller@);
                lemma_index_of(g.keys(), caller@);
                assert forall|a: Seq<char>, b: Seq<char>| #[trigger] edge(*g, a, b) <==> (edge(
                    og, a, b) || (a == caller@ && b == callee@)) by {
                    if a != caller@ && og.has(a) {
                        lemma_index_of(og.keys(), a);
                        let j = og.keys().index_of(a);
                        assert(g.keys()[j] == a);
                        lemma_index_of(g.keys(), a);
                    }
                }
                assert forall|j: int| 0 <= j < g.keys().len() implies #[trigger] g.vals()[j].wf() by {
                    if j < ok.len() {
                        assert(g.vals()[j] == og.vals()[j]);
                    }
                }
            }
        },
    }
}

/// Information about a function for LTO analysis.
#[derive(Debug, Clone)]
pub struct FunctionInfo {
    pub name: String,
    pub visibility: SymbolVisibility,
    pub call_count: usize,
    pub call_sites: Vec<String>,
    pub instruction_count: usize,
    pub is_recursive: bool,
    pub uses_globals: Vec<String>,
    pub module: String,
}

/// Global variable information.
pub struct GlobalInfo {
    pub name: String,
    pub visibility: SymbolVisibility,
    pub read_count: usize,
    pub write_count: usize,
    pub readers: NameSet,
    pub writers: NameSet,
    pub is_constant: bool,
}

/// Whole-program symbol table.
pub struct SymbolTable {
    pub functions: NameMap<FunctionInfo>,
    pub globals: NameMap<GlobalInfo>,
    pub call_graph: NameMap<NameSet>,
}

impl SymbolTable {
    /// Each function and global is filed under its own name; every callee list is a set.
    pub open spec fn wf(&self) -> bool {
        &&& self.functions.wf()
        &&& self.globals.wf()
        &&& graph_wf(self.call_graph)
        &&& forall|i: int| 0 <= i < self.functions.keys().len() ==> #[trigger] self.functions.vals()[i].name@
            == self.functions.keys()[i]
        &&& forall|i: int| 0 <= i < self.globals.keys().len() ==> #[trigger] self.globals.vals()[i].name@
            == self.globals.keys()[i]
    }

    pub fn new() -> (r: Self)
        ensures
            r.wf(),
            r.functions.keys().len() == 0,
            r.globals.keys().len() == 0,
            r.call_graph.keys().len() == 0,
    {
        SymbolTable { functions: NameMap::new(), globals: NameMap::new(), call_graph: NameMap::new() }
    }

    /// Registers a function under its name, replacing an earlier entry of that name.
    pub fn add_function(&mut self, info: FunctionInfo)
        requires
            old(self).wf(),
        ensures
            final(self).wf(),
            final(self).functions.has(info.name@),
            final(self).functions.at(info.name@) == info,
            forall|k: Seq<char>| k != info.name@ ==> (final(self).functions.has(k) == old(self).functions.has(k)
                && (old(self).functions.has(k) ==> final(self).functions.at(k) == old(self).functions.at(k))),
            final(self).globals == old(self).globals,
            final(self).call_graph == old(self).call_graph,
    {
        let name = copy_string(&info.name);
        let ghost ok = self.functions.keys();
        let ghost ov = self.functions.vals();
        self.functions.insert(name, info);
        proof {
            lemma_insert_facts(ok, ov, self.functions.keys(), self.functions.vals(), info.name@, info);
        }
    }

    /// Registers a global under its name, replacing an earlier entry of that name.
    pub fn add_global(&mut self, info: GlobalInfo)
        requires
            old(self).wf(),
        ensures
            final(self).wf(),
            final(self).globals.has(info.name@),
            final(self).globals.at(info.name@) == info,
            forall|k: Seq<char>| k != info.name@ ==> (final(self).globals.has(k) == old(self).globals.has(k)
                && (old(self).globals.has(k) ==> final(self).globals.at(k) == old(self).globals.at(k))),
            final(self).functions == old(self).functions,
            final(self).call_graph == old(self).call_graph,
    {
        let name = copy_string(&info.name);
        let ghost ok = self.globals.keys();
        let ghost ov = self.globals.vals();
        self.globals.insert(name, info);
        proof {
            lemma_insert_facts(ok, ov, self.globals.keys(), self.globals.vals(), info.name@, info);
        }
    }

    /// Records that `caller` calls `callee`.
    pub fn add_call_edge(&mut self, caller: String, callee: String)
        requires
            old(self).wf(),
        ensures
            final(self).wf(),
            forall|a: Seq<char>, b: Seq<char>| #[trigger] edge(final(self).call_graph, a, b) <==> (edge(
                old(self).call_graph, a, b) || (a == caller@ && b == callee@)),
            forall|a: Seq<char>| #[trigger] final(self).call_graph.has(a) <==> (old(self).call_graph.has(a)
                || a == caller@),
            final(self).functions == old(self).functions,
            final(self).globals == old(self).globals,
    {
        insert_edge(&mut self.call_graph, caller, callee);
    }

    /// The functions that `func` calls.
    pub fn get_callees(&self, func: &str) -> (r: Option<&NameSet>)
        requires
            self.wf(),
        ensures
            match r {
                Some(s) => self.call_graph.has(func@) && *s == self.call_graph.at(func@),
                None => !self.call_graph.has(func@),
            },
    {
        self.call_graph.get(func)
    }

    /// The functions that call `target`.
    pub fn get_callers(&self, target: &str) -> (r: NameSet)
        requires
            self.wf(),
        ensures
            r.wf(),
            forall|x: Seq<char>| #[trigger] r.has(x) <==> edge(self.call_graph, x, target@),
    {
        let g = &self.call_graph;
        let n = g.len();
        let mut r = NameSet::new();
        let mut i: usize = 0;
        while i < n
            invariant
                self.wf(),
                g == &self.call_graph,
                n == g.keys().len(),
                i <= n,
                r.wf(),
                forall|x: Seq<char>| #[trigger] r.has(x) <==> exists|k: int|
                    0 <= k < i && g.keys()[k] == x && #[trigger] g.vals()[k].has(target@),
            decreases n - i,
        {
            let s = g.val_at(i);
            if s.contains(target) {
                let ghost before = r;
                r.insert(g.key_at(i).clone());
                assert forall|x: Seq<char>| #[trigger] r.has(x) <==> exists|k: int|
                    0 <= k < i + 1 && g.keys()[k] == x && #[trigger] g.vals()[k].has(target@) by {
                    if before.has(x) {
                        let k = choose|k: int| 0 <= k < i && g.keys()[k] == x && #[trigger] g.vals()[k].has(target@);
                    }
                    if x == g.keys()[i as int] {
                        assert(g.vals()[i as int].has(target@));
                    }
                }
            } else {
                assert forall|x: Seq<char>| #[trigger] r.has(x) <==> exists|k: int|
                    0 <= k < i + 1 && g.keys()[k] == x && #[trigger] g.vals()[k].has(target@) by {
                    if r.has(x) {
                        let k = choose|k: int| 0 <= k < i && g.keys()[k] == x && #[trigger] g.vals()[k].has(target@);
                    }
                }
            }
            i += 1;
        }
        assert forall|x: Seq<char>| #[trigger] r.has(x) <==> edge(self.call_graph, x, target@) by {
            if edge(self.call_graph, x, target@) {
                let k = g.keys().index_of(x);
                lemma_index_of(g.keys(), x);
                assert(g.vals()[k].has(target@));
            }
            if r.has(x) {
                let k = choose|k: int| 0 <= k < n && g.keys()[k] == x && #[trigger] g.vals()[k].has(target@);
                lemma_index_of(g.keys(), x);
            }
        }
        r
    }
}

/// `a` calls `b` in the call graph.
pub open spec fn edge(g: NameMap<NameSet>, a: Seq<char>, b: Seq<char>) -> bool {
    g.has(a) && g.at(a).has(b)
}

/// `p` is a non-empty walk along call edges.
pub open spec fn is_path(g: NameMap<NameSet>, p: Seq<Seq<char>>) -> bool {
    &&& p.len() > 0
    &&& forall|i: int, j: int| #![trigger p[i], p[j]] 0 <= i && j == i + 1 && j < p.len() ==> edge(g, p[i], p[j])
}

/// `x` can be reached from an entry point along call edges.
pub open spec fn reachable(g: NameMap<NameSet>, es: Seq<Seq<char>>, x: Seq<char>) -> bool {
    exists|p: Seq<Seq<char>>| #[trigger] is_path(g, p) && es.contains(p[0]) && p.last() == x
}

/// What is reachable from `es` is the least set of names that holds every entry point and,
/// with each name it holds, every callee of that name.
pub proof fn law_reachable_least_closed(g: NameMap<NameSet>, es: Seq<Seq<char>>, s: spec_fn(Seq<char>) -> bool)
    ensures
        forall|x: Seq<char>| es.contains(x) ==> #[trigger] reachable(g, es, x),
        forall|a: Seq<char>, b: Seq<char>| reachable(g, es, a) && #[trigger] edge(g, a, b) ==> reachable(g, es, b),
        (forall|x: Seq<char>| es.contains(x) ==> #[trigger] s(x)) && (forall|a: Seq<char>, b: Seq<char>| s(a)
            && #[trigger] edge(g, a, b) ==> s(b)) ==> forall|x: Seq<char>| #[trigger] reachable(g, es, x) ==> s(x),
{
    assert forall|x: Seq<char>| es.contains(x) implies #[trigger] reachable(g, es, x) by {
        let p = seq![x];
        assert(is_path(g, p));
    }
    assert forall|a: Seq<char>, b: Seq<char>| reachable(g, es, a) && #[trigger] edge(g, a, b) implies reachable(g, es, b) by {
        let p = choose|p: Seq<Seq<char>>| #[trigger] is_path(g, p) && es.contains(p[0]) && p.last() == a;
        let q = p.push(b);
        assert forall|i: int, j: int| #![trigger q[i], q[j]] 0 <= i && j == i + 1 && j < q.len() implies edge(g, q[i], q[j]) by {
            if j < p.len() {
                assert(q[i] == p[i] && q[j] == p[j]);
            } else {
                assert(q[i] == a);
            }
        }
        assert(is_path(g, q));
    }
    if (forall|x: Seq<char>| es.contains(x) ==> #[trigger] s(x)) && (forall|a: Seq<char>, b: Seq<char>| s(a)
        && #[trigger] edge(g, a, b) ==> s(b)) {
        assert forall|x: Seq<char>| #[trigger] reachable(g, es, x) implies s(x) by {
            let p = choose|p: Seq<Seq<char>>| #[trigger] is_path(g, p) && es.contains(p[0]) && p.last() == x;
            lemma_path_stays(g, s, p);
        }
    }
}

proof fn lemma_path_stays(g: NameMap<NameSet>, s: spec_fn(Seq<char>) -> bool, p: Seq<Seq<char>>)
    requires
        is_path(g, p),
        s(p[0]),
        forall|a: Seq<char>, b: Seq<char>| s(a) && #[trigger] edge(g, a, b) ==> s(b),
    ensures
        s(p.last()),
    decreases p.len(),
{
    if p.len() > 1 {
        let q = p.drop_last();
        assert forall|i: int, j: int| #![trigger q[i], q[j]] 0 <= i && j == i + 1 && j < q.len() implies edge(g, q[i], q[j]) by {
            assert(q[i] == p[i] && q[j] == p[j]);
        }
        lemma_path_stays(g, s, q);
        let n = p.len() as int;
        assert(edge(g, p[n - 2], p[n - 1]));
    }
}

/// Every callee named anywhere in the graph, list after list.
pub open spec fn targets(vs: Seq<NameSet>) -> Seq<Seq<char>>
    decreases vs.len(),
{
    if vs.len() == 0 {
        seq![]
    } else {
        targets(vs.drop_last()) + vs.last().elems()
    }
}

pub proof fn lemma_targets(vs: Seq<NameSet>, i: int, c: Seq<char>)
    requires
        0 <= i < vs.len(),
        vs[i].has(c),
    ensures
        targets(vs).contains(c),
    decreases vs.len(),
{
    let k = choose|k: int| 0 <= k < vs[i].elems().len() && vs[i].elems()[k] == c;
    if i == vs.len() - 1 {
        let t = targets(vs.drop_last());
        assert(targets(vs)[t.len() + k] == c);
    } else {
        lemma_targets(vs.drop_last(), i, c);
        let t = targets(vs.drop_last());
        let j = choose|j: int| 0 <= j < t.len() && t[j] == c;
        assert(targets(vs)[j] == c);
    }
}

proof fn lemma_reach_start(g: NameMap<NameSet>, es: Seq<Seq<char>>, e: Seq<char>)
    requires
        es.contains(e),
    ensures
        reachable(g, es, e),
{
    let p = seq![e];
    assert(is_path(g, p));
}

proof fn lemma_reach_step(g: NameMap<NameSet>, es: Seq<Seq<char>>, x: Seq<char>, c: Seq<char>)
    requires
        reachable(g, es, x),
        edge(g, x, c),
    ensures
        reachable(g, es, c),
{
    let p = choose|p: Seq<Seq<char>>| #[trigger] is_path(g, p) && es.contains(p[0]) && p.last() == x;
    let q = p.push(c);
    assert forall|i: int, j: int| #![trigger q[i], q[j]] 0 <= i && j == i + 1 && j < q.len() implies edge(g, q[i], q[j]) by {
        if j < p.len() {
            assert(q[i] == p[i] && q[j] == p[j]);
            assert(edge(g, p[i], p[j]));
        } else {
            assert(q[i] == x);
        }
    }
    assert(is_path(g, q));
    assert(q[0] == p[0]);
}

proof fn lemma_path_closed(g: NameMap<NameSet>, r: NameSet, p: Seq<Seq<char>>, k: int)
    requires
        is_path(g, p),
        r.has(p[0]),
        forall|a: Seq<char>, b: Seq<char>| #![trigger r.has(a), edge(g, a, b)] r.has(a) && edge(g, a, b) ==> r.has(b),
        0 <= k < p.len(),
    ensures
        r.has(p[k]),
    decreases k,
{
    if k > 0 {
        lemma_path_closed(g, r, p, k - 1);
        assert(edge(g, p[k - 1], p[k]));
    }
}

/// The names reachable from `entries` along the edges of `g`.
pub fn reachable_from(g: &NameMap<NameSet>, entries: &[&str]) -> (r: NameSet)
    requires
        g.wf(),
    ensures
        r.wf(),
        forall|x: Seq<char>| #[trigger] r.has(x) <==> reachable(*g, strs(entries@), x),
{
    let ghost es = strs(entries@);
    let ghost u = es + targets(g.vals());
    let mut reached = NameSet::new();
    let mut work: Vec<String> = Vec::new();
    let mut i: usize = 0;
    while i < entries.len()
        invariant
            i <= entries@.len(),
            es == strs(entries@),
            views(work@) == es.take(i as int),
        decreases entries.len() - i,
    {
        let ghost before = work@;
        work.push(lit(entries[i]));
        assert(views(work@) =~= views(before).push(es[i as int]));
        assert(es.take(i + 1) =~= es.take(i as int).push(es[i as int]));
        i += 1;
    }
    assert(es.take(entries@.len() as int) =~= es);
    assert forall|k: int| 0 <= k < work@.len() implies u.contains(#[trigger] work@[k]@) && reachable(
        *g,
        es,
        work@[k]@,
    ) by {
        assert(views(work@)[k] == es[k]);
        assert(u[k] == es[k]);
        assert(es.contains(es[k]));
        lemma_reach_start(*g, es, es[k]);
    }
    assert forall|e: Seq<char>| es.contains(e) implies #[trigger] reached.has(e) || views(
        work@,
    ).contains(e) by {
    }
    loop
        invariant
            g.wf(),
            reached.wf(),
            es == strs(entries@),
            u == es + targets(g.vals()),
            forall|k: int| 0 <= k < work@.len() ==> u.contains(#[trigger] work@[k]@) && reachable(
                *g,
                es,
                work@[k]@,
            ),
            forall|k: int|
                0 <= k < reached.elems().len() ==> u.contains(#[trigger] reached.elems()[k])
                    && reachable(*g, es, reached.elems()[k]),
            forall|a: Seq<char>, b: Seq<char>|
                #![trigger reached.has(a), edge(*g, a, b)]
                reached.has(a) && edge(*g, a, b) ==> reached.has(b) || views(
                    work@,
                ).contains(b),
            forall|e: Seq<char>| es.contains(e) ==> #[trigger] reached.has(e) || views(
                work@,
            ).contains(e),
        ensures
            work@.len() == 0,
        decreases u.len() - reached.elems().len(), work@.len(),
    {
        if work.len() == 0 {
            break ;
        }
        let ghost wold = work@;
        let func = work.pop().unwrap();
        let ghost rest = work@;
        let ghost rold = reached;
        assert(wold =~= rest.push(func));
        assert(wold[rest.len() as int]@ == func@);
        assert forall|b: Seq<char>| views(rest.push(func)).contains(b) && b != func@ implies views(
            rest,
        ).contains(b) by {
            let k = choose|k: int| 0 <= k < rest.len() + 1 && views(rest.push(func))[k] == b;
            assert(k < rest.len());
            assert(views(rest)[k] == b);
        }
        if !reached.contains(func.as_str()) {
            let ghost before = reached.elems();
            proof {
                lemma_nodup_subset_len(before.push(func@), u);
            }
            reached.insert(lit(func.as_str()));
            proof {
                let ghost after = reached.elems();
                assert(after == before.push(func@));
                assert(after[before.len() as int] == func@);
                assert forall|a: Seq<char>| #[trigger] reached.has(a) && a != func@ implies before.contains(a) by {
                    let k = choose|k: int| 0 <= k < after.len() && after[k] == a;
                    assert(k < before.len());
                    assert(before[k] == a);
                }
                assert forall|k: int| 0 <= k < after.len() implies u.contains(#[trigger] after[k])
                    && reachable(*g, es, after[k]) by {
                    if k == before.len() {
                        assert(wold[rest.len() as int]@ == func@);
                    } else {
                        assert(after[k] == before[k]);
                    }
                }
                assert forall|e: Seq<char>| es.contains(e) implies #[trigger] reached.has(e) || views(
                    rest,
                ).contains(e) by {
                    if e == func@ {
                        assert(after[before.len() as int] == func@);
                    } else if before.contains(e) {
                        let k = choose|k: int| 0 <= k < before.len() && before[k] == e;
                        assert(after[k] == e);
                    } else {
                        assert(rold.has(e) || views(wold).contains(e));
                        assert(views(rest.push(func)).contains(e));
                    }
                }
                assert forall|a: Seq<char>, b: Seq<char>|
                    #![trigger reached.has(a), edge(*g, a, b)]
                    reached.has(a) && edge(*g, a, b) && a != func@ implies reached.has(b) || views(
                        work@,
                    ).contains(b) by {
                    assert(before.contains(a));
                    assert(rold.has(a));
                    assert(rold.has(b) || views(wold).contains(b));
                    if rold.has(b) {
                        let k = choose|k: int| 0 <= k < before.len() && before[k] == b;
                        assert(after[k] == b);
                    } else if b == func@ {
                        assert(after[before.len() as int] == func@);
                    } else {
                        assert(views(rest.push(func)).contains(b));
                    }
                }
            }
            match g.get(func.as_str()) {
                Some(callees) => {
                    let n = callees.len();
                    let mut j: usize = 0;
                    while j < n
                        invariant
                            g.wf(),
                            reached.wf(),
                            es == strs(entries@),
                            u == es + targets(g.vals()),
                            n == callees.elems().len(),
                            g.has(func@),
                            *callees == g.at(func@),
                            j <= n,
                            reached.has(func@),
                            reachable(*g, es, func@),
                            forall|k: int|
                                0 <= k < work@.len() ==> u.contains(#[trigger] work@[k]@)
                                    && reachable(*g, es, work@[k]@),
                            forall|k: int|
                                0 <= k < reached.elems().len() ==> u.contains(
                                    #[trigger] reached.elems()[k],
                                ) && reachable(*g, es, reached.elems()[k]),
                            forall|a: Seq<char>, b: Seq<char>|
                                #![trigger reached.has(a), edge(*g, a, b)]
                                reached.has(a) && edge(*g, a, b) && a != func@
                                    ==> reached.has(b) || views(work@).contains(b),
                            forall|k: int|
                                0 <= k < j ==> reached.has(#[trigger] callees.elems()[k])
                                    || views(work@).contains(callees.elems()[k]),
                            forall|e: Seq<char>| es.contains(e) ==> #[trigger] reached.has(e)
                                || views(work@).contains(e),
                        decreases n - j,
                    {
                        let c = callees.item_at(j);
                        if !reached.contains(c.as_str()) {
                            let ghost wb = work@;
                            proof {
                                let gi = g.keys().index_of(func@);
                                assert(g.keys()[gi] == func@);
                                assert(g.vals()[gi].has(c@));
                                lemma_targets(g.vals(), gi, c@);
                                let t = targets(g.vals());
                                let ti = choose|ti: int| 0 <= ti < t.len() && t[ti] == c@;
                                assert(u[es.len() + ti] == c@);
                                lemma_reach_step(*g, es, func@, c@);
                            }
                            work.push(lit(c.as_str()));
                            proof {
                                assert(views(work@)[wb.len() as int] == c@);
                                assert forall|b: Seq<char>| views(wb).contains(b) implies views(
                                    work@,
                                ).contains(b) by {
                                    let k = choose|k: int| 0 <= k < wb.len() && views(wb)[k] == b;
                                    assert(views(work@)[k] == b);
                                }
                            }
                        }
                        j += 1;
                    }
                    assert forall|b: Seq<char>| edge(*g, func@, b) implies reached.has(b) || views(
                        work@,
                    ).contains(b) by {
                        let k = choose|k: int| 0 <= k < callees.elems().len() && callees.elems()[k] == b;
                    }
                },
                None => {},
            }
        }
    }
    proof {
        assert forall|x: Seq<char>| #[trigger] reached.has(x) <==> reachable(*g, es, x) by {
            if reached.has(x) {
                let k = choose|k: int| 0 <= k < reached.elems().len() && reached.elems()[k] == x;
                assert(reachable(*g, es, reached.elems()[k]));
            }
            if reachable(*g, es, x) {
                let p = choose|p: Seq<Seq<char>>| #[trigger] is_path(*g, p) && es.contains(p[0]) && p.last() == x;
                assert(es.contains(p[0]));
                assert(!views(work@).contains(p[0]));
                lemma_path_closed(*g, reached, p, p.len() - 1);
            }
        }
    }
    reached
}

/// An internal function that no entry point reaches.
pub open spec fn dead_function(g: NameMap<NameSet>, es: Seq<Seq<char>>) -> spec_fn(FunctionInfo) -> bool {
    |f: FunctionInfo| !reachable(g, es, f.name@) && f.visibility == SymbolVisibility::Internal
}

/// An internal global that is neither read nor written.
pub open spec fn dead_global(g: GlobalInfo) -> bool {
    g.read_count == 0 && g.write_count == 0 && g.visibility == SymbolVisibility::Internal
}

/// A global that is read and never written.
pub open spec fn read_only_global(g: GlobalInfo) -> bool {
    g.write_count == 0 && g.read_count > 0
}

/// A constant global written once and read at least once.
pub open spec fn effectively_constant_global(g: GlobalInfo) -> bool {
    g.write_count == 1 && g.read_count > 0 && g.is_constant
}

/// A global that is written and never read.
pub open spec fn write_only_global(g: GlobalInfo) -> bool {
    g.write_count > 0 && g.read_count == 0
}

/// A non-recursive function that is small, called once, or hot and at most twice the size limit.
pub open spec fn worth_inlining(f: FunctionInfo, max: usize) -> bool {
    !f.is_recursive && (f.instruction_count <= max || f.call_count == 1 || (f.call_count > 10
        && f.instruction_count <= 2 * max))
}

/// `x + y`, held at `usize::MAX`.
pub open spec fn sat_add(x: int, y: int) -> int {
    if x + y > usize::MAX {
        usize::MAX as int
    } else {
        x + y
    }
}

/// The inlining score: 100 less the size (not below 0), plus ten per call, plus 50 below
/// ten instructions, each step held at `usize::MAX`; 0 for a recursive function.
pub open spec fn inline_score(f: FunctionInfo) -> int {
    if f.is_recursive {
        0
    } else {
        let base = if f.instruction_count >= 100 {
            0
        } else {
            100 - f.instruction_count
        };
        let with_calls = sat_add(base, f.call_count * 10);
        if f.instruction_count < 10 {
            sat_add(with_calls, 50)
        } else {
            with_calls
        }
    }
}

fn worth_inlining_exec(max: &usize, f: &FunctionInfo) -> (r: bool)
    ensures
        r == worth_inlining(*f, *max),
{
    let max = *max;
    if f.is_recursive {
        return false;
    }
    if f.instruction_count <= max {
        return true;
    }
    if f.call_count == 1 {
        return true;
    }
    let half_up = f.instruction_count - f.instruction_count / 2;
    f.call_count > 10 && half_up <= max
}

fn is_unreached_internal(reach: &NameSet, f: &FunctionInfo) -> (b: bool)
    ensures
        b == (!reach.has(f.name@) && f.visibility == SymbolVisibility::Internal),
{
    !reach.contains(f.name.as_str()) && f.visibility == SymbolVisibility::Internal
}

fn is_dead_global(_c: &(), g: &GlobalInfo) -> (b: bool)
    ensures
        b == dead_global(*g),
{
    g.read_count == 0 && g.write_count == 0 && g.visibility == SymbolVisibility::Internal
}

fn is_read_only_global(_c: &(), g: &GlobalInfo) -> (b: bool)
    ensures
        b == read_only_global(*g),
{
    g.write_count == 0 && g.read_count > 0
}

fn is_constant_global(_c: &(), g: &GlobalInfo) -> (b: bool)
    ensures
        b == effectively_constant_global(*g),
{
    g.write_count == 1 && g.read_count > 0 && g.is_constant
}

fn is_write_only_global(_c: &(), g: &GlobalInfo) -> (b: bool)
    ensures
        b == write_only_global(*g),
{
    g.write_count > 0 && g.read_count == 0
}

/// Dead code analyzer: finds what no entry point reaches.
pub struct DeadCodeAnalyzer {
    symbol_table: SymbolTable,
}

impl DeadCodeAnalyzer {
    pub closed spec fn table(&self) -> SymbolTable {
        self.symbol_table
    }

    pub fn new(symbol_table: SymbolTable) -> (r: Self)
        ensures
            r.table() == symbol_table,
    {
        DeadCodeAnalyzer { symbol_table }
    }

    /// Every function reachable from the entry points along call edges.
    pub fn find_reachable_functions(&self, entry_points: &[&str]) -> (r: NameSet)
        requires
            self.table().wf(),
        ensures
            r.wf(),
            forall|x: Seq<char>| #[trigger] r.has(x) <==> reachable(self.table().call_graph, strs(entry_points@), x),
    {
        reachable_from(&self.symbol_table.call_graph, entry_points)
    }

    /// The internal functions that no entry point reaches, in registration order.
    pub fn find_dead_functions(&self, entry_points: &[&str]) -> (r: Vec<String>)
        requires
            self.table().wf(),
        ensures
            views(r@) == select(
                self.table().functions.keys(),
                self.table().functions.vals(),
                dead_function(self.table().call_graph, strs(entry_points@)),
            ),
    {
        dead_functions_of(&self.symbol_table, entry_points)
    }

    /// The internal globals that are neither read nor written.
    pub fn find_dead_globals(&self) -> (r: Vec<String>)
        requires
            self.table().wf(),
        ensures
            views(r@) == select(self.table().globals.keys(), self.table().globals.vals(), |g: GlobalInfo| dead_global(g)),
    {
        dead_globals_of(&self.symbol_table)
    }

    /// The globals that are read and never written.
    pub fn find_read_only_globals(&self) -> (r: Vec<String>)
        requires
            self.table().wf(),
        ensures
            views(r@) == select(self.table().globals.keys(), self.table().globals.vals(), |g: GlobalInfo| read_only_global(g)),
    {
        keys_where(&(), &self.symbol_table.globals, is_read_only_global, Ghost(|g: GlobalInfo| read_only_global(g)))
    }
}

fn dead_functions_of(t: &SymbolTable, entry_points: &[&str]) -> (r: Vec<String>)
    requires
        t.wf(),
    ensures
        views(r@) == select(t.functions.keys(), t.functions.vals(), dead_function(t.call_graph, strs(entry_points@))),
{
    let reach = reachable_from(&t.call_graph, entry_points);
    let ghost g = t.call_graph;
    let ghost es = strs(entry_points@);
    keys_where(&reach, &t.functions, is_unreached_internal, Ghost(dead_function(g, es)))
}

fn dead_globals_of(t: &SymbolTable) -> (r: Vec<String>)
    requires
        t.wf(),
    ensures
        views(r@) == select(t.globals.keys(), t.globals.vals(), |g: GlobalInfo| dead_global(g)),
{
    keys_where(&(), &t.globals, is_dead_global, Ghost(|g: GlobalInfo| dead_global(g)))
}

fn inlining_candidates_of(t: &SymbolTable, max: usize) -> (r: Vec<String>)
    requires
        t.wf(),
    ensures
        views(r@) == select(t.functions.keys(), t.functions.vals(), |f: FunctionInfo| worth_inlining(f, max)),
{
    keys_where(&max, &t.functions, worth_inlining_exec, Ghost(|f: FunctionInfo| worth_inlining(f, max)))
}

fn constant_globals_of(t: &SymbolTable) -> (r: Vec<String>)
    requires
        t.wf(),
    ensures
        views(r@) == select(t.globals.keys(), t.globals.vals(), |g: GlobalInfo| effectively_constant_global(g)),
{
    keys_where(&(), &t.globals, is_constant_global, Ghost(|g: GlobalInfo| effectively_constant_global(g)))
}

/// Inlining decision maker.
pub struct InliningAnalyzer {
    symbol_table: SymbolTable,
    max_inline_size: usize,
}

impl InliningAnalyzer {
    pub closed spec fn table(&self) -> SymbolTable {
        self.symbol_table
    }

    pub closed spec fn max_size(&self) -> usize {
        self.max_inline_size
    }

    pub fn new(symbol_table: SymbolTable, max_inline_size: usize) -> (r: Self)
        ensures
            r.table() == symbol_table,
            r.max_size() == max_inline_size,
    {
        InliningAnalyzer { symbol_table, max_inline_size }
    }

    /// Whether the named function is known and worth inlining.
    pub fn should_inline(&self, func_name: &str) -> (r: bool)
        requires
            self.table().wf(),
        ensures
            r == (self.table().functions.has(func_name@) && worth_inlining(
                self.table().functions.at(func_name@),
                self.max_size(),
            )),
    {
        match self.symbol_table.functions.get(func_name) {
            Some(f) => worth_inlining_exec(&self.max_inline_size, f),
            None => false,
        }
    }

    /// Every registered function worth inlining, in registration order.
    pub fn find_inlining_candidates(&self) -> (r: Vec<String>)
        requires
            self.table().wf(),
        ensures
            views(r@) == select(
                self.table().functions.keys(),
                self.table().functions.vals(),
                |f: FunctionInfo| worth_inlining(f, self.max_size()),
            ),
    {
        inlining_candidates_of(&self.symbol_table, self.max_inline_size)
    }

    /// The inlining score of the named function; 0 for an unknown one.
    pub fn inlining_score(&self, func_name: &str) -> (r: usize)
        requires
            self.table().wf(),
            self.table().functions.has(func_name@) ==> self.table().functions.at(func_name@).call_count * 10
                <= usize::MAX,
        ensures
            r == (if self.table().functions.has(func_name@) {
                inline_score(self.table().functions.at(func_name@))
            } else {
                0
            }),
    {
        match self.symbol_table.functions.get(func_name) {
            Some(func) => {
                let mut score: usize = 100;
                score = score.saturating_sub(func.instruction_count);
                score = score.saturating_add(func.call_count * 10);
                if func.instruction_count < 10 {
                    score = score.saturating_add(50);
                }
                if func.is_recursive {
                    score = 0;
                }
                score
            },
            None => 0,
        }
    }
}

/// Whole-program constant propagation over globals.
pub struct ConstantPropagationAnalyzer {
    symbol_table: SymbolTable,
}

impl ConstantPropagationAnalyzer {
    pub closed spec fn table(&self) -> SymbolTable {
        self.symbol_table
    }

    pub fn new(symbol_table: SymbolTable) -> (r: Self)
        ensures
            r.table() == symbol_table,
    {
        ConstantPropagationAnalyzer { symbol_table }
    }

    /// Constant globals written once and read at least once.
    pub fn find_effectively_constant_globals(&self) -> (r: Vec<String>)
        requires
            self.table().wf(),
        ensures
            views(r@) == select(
                self.table().globals.keys(),
                self.table().globals.vals(),
                |g: GlobalInfo| effectively_constant_global(g),
            ),
    {
        constant_globals_of(&self.symbol_table)
    }

    /// Globals that are written and never read.
    pub fn find_write_only_globals(&self) -> (r: Vec<String>)
        requires
            self.table().wf(),
        ensures
            views(r@) == select(self.table().globals.keys(), self.table().globals.vals(), |g: GlobalInfo| write_only_global(g)),
    {
        keys_where(&(), &self.symbol_table.globals, is_write_only_global, Ghost(|g: GlobalInfo| write_only_global(g)))
    }
}

/// The fingerprints of `r`, in order.
pub open spec fn fingerprints_of(r: Seq<(String, Vec<String>)>) -> Seq<Seq<char>> {
    r.map_values(|e: (String, Vec<String>)| e.0@)
}

/// Groups functions by the fingerprint of their code.
pub struct DeduplicationAnalyzer {
    code_fingerprints: NameMap<Vec<String>>,
}

impl DeduplicationAnalyzer {
    /// The functions registered under each fingerprint.
    pub closed spec fn groups(&self) -> NameMap<Vec<String>> {
        self.code_fingerprints
    }

    pub fn new() -> (r: Self)
        ensures
            r.groups().wf(),
            r.groups().keys().len() == 0,
    {
        DeduplicationAnalyzer { code_fingerprints: NameMap::new() }
    }

    /// Adds `function` to the group of `fingerprint`.
    pub fn register_code(&mut self, fingerprint: String, function: String)
        requires
            old(self).groups().wf(),
        ensures
            final(self).groups().wf(),
            forall|k: Seq<char>| #[trigger] final(self).groups().has(k) <==> old(self).groups().has(k) || k
                == fingerprint@,
            views(final(self).groups().at(fingerprint@)@) == (if old(self).groups().has(fingerprint@) {
                views(old(self).groups().at(fingerprint@)@)
            } else {
                Seq::<Seq<char>>::empty()
            }).push(function@),
            forall|k: Seq<char>| #[trigger] old(self).groups().has(k) && k != fingerprint@ ==> final(self).groups().at(k)
                == old(self).groups().at(k),
    {
        let ghost og = self.code_fingerprints;
        match self.code_fingerprints.index_of(fingerprint.as_str()) {
            Some(i) => {
                let mut v = self.code_fingerprints.replace_val(i, Vec::new());
                let ghost ov = v;
                v.push(function);
                assert(views(v@) =~= views(ov@).push(function@));
                self.code_fingerprints.set_val(i, v);
                proof {
                    lemma_index_of(og.keys(), fingerprint@);
                    assert forall|k: Seq<char>| #[trigger] og.has(k) && k != fingerprint@ implies self.code_fingerprints.at(k)
                        == og.at(k) by {
                        lemma_index_of(og.keys(), k);
                    }
                }
            },
            None => {
                let mut v: Vec<String> = Vec::new();
                v.push(function);
                assert(views(v@) =~= Seq::<Seq<char>>::empty().push(function@));
                let ghost ok = og.keys();
                self.code_fingerprints.insert(fingerprint, v);
                proof {
                    assert(self.code_fingerprints.keys()[ok.len() as int] == fingerprint@);
                    lemma_index_of(self.code_fingerprints.keys(), fingerprint@);
                    assert forall|k: Seq<char>| #[trigger] og.has(k) && k != fingerprint@ implies self.code_fingerprints.at(k)
                        == og.at(k) by {
                        lemma_index_of(og.keys(), k);
                        let j = og.keys().index_of(k);
                        assert(self.code_fingerprints.keys()[j] == k);
                        lemma_index_of(self.code_fingerprints.keys(), k);
                    }
                }
            },
        }
    }

    /// Each fingerprint shared by more than one function, with those functions, in registration order.
    pub fn find_duplicates(&self) -> (r: Vec<(String, Vec<String>)>)
        requires
            self.groups().wf(),
        ensures
            fingerprints_of(r@) == select(self.groups().keys(), self.groups().vals(), |v: Vec<String>| v.len() > 1),
            forall|j: int| 0 <= j < r@.len() ==> self.groups().has(#[trigger] r@[j].0@) && views(r@[j].1@) == views(
                self.groups().at(r@[j].0@)@,
            ),
    {
        let m = &self.code_fingerprints;
        let ghost p = |v: Vec<String>| v.len() > 1;
        let n = m.len();
        let mut r: Vec<(String, Vec<String>)> = Vec::new();
        let mut i: usize = 0;
        while i < n
            invariant
                m.wf(),
                m == &self.code_fingerprints,
                n == m.keys().len(),
                i <= n,
                p == (|v: Vec<String>| v.len() > 1),
                fingerprints_of(r@) == select(m.keys().take(i as int), m.vals().take(i as int), p),
                forall|j: int| 0 <= j < r@.len() ==> m.has(#[trigger] r@[j].0@) && views(r@[j].1@) == views(
                    m.at(r@[j].0@)@,
                ),
            decreases n - i,
        {
            proof {
                lemma_select_step(m.keys(), m.vals(), p, i as int);
            }
            let funcs = m.val_at(i);
            if funcs.len() > 1 {
                let ghost before = r@;
                let k = copy_string(m.key_at(i));
                let fs = copy_strings(funcs);
                proof {
                    assert(m.keys()[i as int] == k@);
                    lemma_index_of(m.keys(), k@);
                }
                r.push((k, fs));
                assert(fingerprints_of(r@) =~= fingerprints_of(before).push(m.keys()[i as int]));
            }
            i += 1;
        }
        proof {
            lemma_select_full(m.keys(), m.vals(), p);
        }
        r
    }
}

/// The whole link-time pipeline over one symbol table.
pub struct LinkTimeOptimizer {
    symbol_table: SymbolTable,
    max_inline_size: usize,
    dedup: DeduplicationAnalyzer,
}

impl LinkTimeOptimizer {
    pub closed spec fn table(&self) -> SymbolTable {
        self.symbol_table
    }

    /// The size limit for inlining.
    pub closed spec fn max_size(&self) -> usize {
        self.max_inline_size
    }

    /// The code groups registered for deduplication.
    pub closed spec fn code_groups(&self) -> NameMap<Vec<String>> {
        self.dedup.groups()
    }

    /// An optimizer with the inlining limit 50 and no code registered for deduplication.
    pub fn new(symbol_table: SymbolTable) -> (r: Self)
        ensures
            r.table() == symbol_table,
            r.max_size() == 50,
            r.code_groups().wf(),
            r.code_groups().keys().len() == 0,
    {
        LinkTimeOptimizer { symbol_table, max_inline_size: 50, dedup: DeduplicationAnalyzer::new() }
    }

    /// Runs every pass and counts what each found.
    pub fn optimize(&mut self, entry_points: &[&str]) -> (r: LTOResult)
        requires
            old(self).table().wf(),
            old(self).code_groups().wf(),
        ensures
            *final(self) == *old(self),
            r.dead_functions == select(
                old(self).table().functions.keys(),
                old(self).table().functions.vals(),
                dead_function(old(self).table().call_graph, strs(entry_points@)),
            ).len(),
            r.dead_globals == select(
                old(self).table().globals.keys(),
                old(self).table().globals.vals(),
                |g: GlobalInfo| dead_global(g),
            ).len(),
            r.inlined_functions == select(
                old(self).table().functions.keys(),
                old(self).table().functions.vals(),
                |f: FunctionInfo| worth_inlining(f, old(self).max_size()),
            ).len(),
            r.constants_identified == select(
                old(self).table().globals.keys(),
                old(self).table().globals.vals(),
                |g: GlobalInfo| effectively_constant_global(g),
            ).len(),
            r.duplicate_sequences == select(
                old(self).code_groups().keys(),
                old(self).code_groups().vals(),
                |v: Vec<String>| v.len() > 1,
            ).len(),
            r.estimated_size_reduction == 0,
    {
        let mut result = LTOResult::new();
        let dead_funcs = dead_functions_of(&self.symbol_table, entry_points);
        result.dead_functions = dead_funcs.len();
        let dead_globals = dead_globals_of(&self.symbol_table);
        result.dead_globals = dead_globals.len();
        let candidates = inlining_candidates_of(&self.symbol_table, self.max_inline_size);
        result.inlined_functions = candidates.len();
        let consts = constant_globals_of(&self.symbol_table);
        result.constants_identified = consts.len();
        let dups = self.dedup.find_duplicates();
        result.duplicate_sequences = dups.len();
        proof {
            assert(views(dead_funcs@).len() == dead_funcs@.len());
            assert(views(dead_globals@).len() == dead_globals@.len());
            assert(views(candidates@).len() == candidates@.len());
            assert(views(consts@).len() == consts@.len());
            assert(fingerprints_of(dups@).len() == dups@.len());
        }
        result
    }
}

/// Counts of what link-time optimization found.
#[derive(Debug, Clone)]
pub struct LTOResult {
    pub dead_functions: usize,
    pub dead_globals: usize,
    pub inlined_functions: usize,
    pub constants_identified: usize,
    pub duplicate_sequences: usize,
    pub estimated_size_reduction: usize,
}

impl LTOResult {
    pub fn new() -> (r: Self)
        ensures
            r.dead_functions == 0,
            r.dead_globals == 0,
            r.inlined_functions == 0,
            r.constants_identified == 0,
            r.duplicate_sequences == 0,
            r.estimated_size_reduction == 0,
    {
        LTOResult {
            dead_functions: 0,
            dead_globals: 0,
            inlined_functions: 0,
            constants_identified: 0,
            duplicate_sequences: 0,
            estimated_size_reduction: 0,
        }
    }

    /// The number of findings over all passes.
    pub fn total_optimizations(&self) -> (r: usize)
        requires
            self.dead_functions + self.dead_globals + self.inlined_functions + self.constants_identified
                + self.duplicate_sequences <= usize::MAX,
        ensures
            r == self.dead_functions + self.dead_globals + self.inlined_functions + self.constants_identified
                + self.duplicate_sequences,
    {
        self.dead_functions + self.dead_globals + self.inlined_functions + self.constants_identified
            + self.duplicate_sequences
    }
}


/// A global is reported dead exactly when it is filed, internal, and neither read nor
/// written: a public global is exported and never reported dead.
pub proof fn law_dead_globals_are_internal_and_unused(m: NameMap<GlobalInfo>, x: Seq<char>)
    requires
        m.wf(),
    ensures
        select(m.keys(), m.vals(), |g: GlobalInfo| dead_global(g)).contains(x) <==> m.has(x)
            && m.at(x).visibility == SymbolVisibility::Internal && m.at(x).read_count == 0 && m.at(x).write_count == 0,
        m.has(x) && m.at(x).visibility == SymbolVisibility::Public ==> !select(
            m.keys(),
            m.vals(),
            |g: GlobalInfo| dead_global(g),
        ).contains(x),
{
    let p = |g: GlobalInfo| dead_global(g);
    crate::names::lemma_select_contains(m.keys(), m.vals(), p, x);
    if m.has(x) {
        lemma_index_of(m.keys(), x);
        let i = m.keys().index_of(x);
        if m.at(x).visibility == SymbolVisibility::Internal && m.at(x).read_count == 0 && m.at(x).write_count == 0 {
            assert(p(m.vals()[i]));
            assert(select(m.keys(), m.vals(), p).contains(x));
        }
    }
    if select(m.keys(), m.vals(), p).contains(x) {
        let i = choose|i: int| 0 <= i < m.keys().len() && m.keys()[i] == x && #[trigger] p(m.vals()[i]);
        lemma_index_of(m.keys(), x);
        assert(i == m.keys().index_of(x));
        assert(dead_global(m.at(x)));
    }
}


/// A function is reported dead exactly when it is filed, internal, and its name cannot be
/// reached from an entry point; an entry point, or a public function, is never dead.
pub proof fn law_dead_functions_are_internal_and_unreached(
    m: NameMap<FunctionInfo>,
    g: NameMap<NameSet>,
    es: Seq<Seq<char>>,
    x: Seq<char>,
)
    requires
        m.wf(),
    ensures
        select(m.keys(), m.vals(), dead_function(g, es)).contains(x) <==> m.has(x) && m.at(x).visibility
            == SymbolVisibility::Internal && !reachable(g, es, m.at(x).name@),
        m.has(x) && es.contains(m.at(x).name@) ==> !select(m.keys(), m.vals(), dead_function(g, es)).contains(x),
        m.has(x) && m.at(x).visibility == SymbolVisibility::Public ==> !select(
            m.keys(),
            m.vals(),
            dead_function(g, es),
        ).contains(x),
{
    let p = dead_function(g, es);
    crate::names::lemma_select_contains(m.keys(), m.vals(), p, x);
    if m.has(x) {
        lemma_index_of(m.keys(), x);
        let i = m.keys().index_of(x);
        if m.at(x).visibility == SymbolVisibility::Internal && !reachable(g, es, m.at(x).name@) {
            assert(p(m.vals()[i]));
        }
        if es.contains(m.at(x).name@) {
            let q = seq![m.at(x).name@];
            assert(is_path(g, q));
            assert(reachable(g, es, m.at(x).name@));
        }
    }
    if select(m.keys(), m.vals(), p).contains(x) {
        let i = choose|i: int| 0 <= i < m.keys().len() && m.keys()[i] == x && #[trigger] p(m.vals()[i]);
        lemma_index_of(m.keys(), x);
        assert(i == m.keys().index_of(x));
    }
}

} // verus!
