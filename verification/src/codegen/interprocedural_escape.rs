//! Escape information across function boundaries: which parameters escape, and how
//! escaping parameters of callees propagate to their callers.
use vstd::prelude::*;
use crate::names::{
    IdMap, IdSet, NameMap, NameSet, copy_string, copy_strings, keys_where, lemma_index_of, lemma_insert_facts,
    lemma_select_full, lemma_select_step, select, views,
};

verus! {

/// Escape information for one function.
#[derive(Debug)]
pub struct FunctionEscapeInfo {
    pub name: String,
    pub escaping_params: IdSet,
    pub return_escapes: bool,
    pub field_escapes: IdMap<NameSet>,
}

/// The parameters of `f` that escape, as a set.
pub open spec fn params_of(f: FunctionEscapeInfo) -> Set<usize> {
    Set::new(|p: usize| f.escaping_params.has(p))
}

impl FunctionEscapeInfo {
    pub open spec fn wf(&self) -> bool {
        &&& self.escaping_params.wf()
        &&& self.field_escapes.wf()
        &&& forall|i: int| 0 <= i < self.field_escapes.keys().len() ==> #[trigger] self.field_escapes.vals()[i].wf()
    }

    /// No escaping parameters, fields or return value.
    pub fn new(name: String) -> (r: Self)
        ensures
            r.wf(),
            r.name == name,
            r.escaping_params.elems().len() == 0,
            !r.return_escapes,
            r.field_escapes.keys().len() == 0,
    {
        FunctionEscapeInfo { name, escaping_params: IdSet::new(), return_escapes: false, field_escapes: IdMap::new() }
    }

    pub fn param_escapes(&self, param_idx: usize) -> (r: bool)
        ensures
            r == self.escaping_params.has(param_idx),
    {
        self.escaping_params.contains(param_idx)
    }

    /// Whether field `field_name` of parameter `param_idx` escapes.
    pub fn field_escapes(&self, param_idx: usize, field_name: &str) -> (r: bool)
        requires
            self.wf(),
        ensures
            r == (self.field_escapes.has(param_idx) && self.field_escapes.at(param_idx).has(field_name@)),
    {
        match self.field_escapes.get(param_idx) {
            Some(fields) => fields.contains(field_name),
            None => false,
        }
    }

    pub fn mark_param_escapes(&mut self, param_idx: usize)
        requires
            old(self).wf(),
        ensures
            final(self).wf(),
            forall|p: usize| #[trigger] final(self).escaping_params.has(p) <==> old(self).escaping_params.has(p) || p
                == param_idx,
            final(self).name == old(self).name,
            final(self).return_escapes == old(self).return_escapes,
            final(self).field_escapes == old(self).field_escapes,
    {
        self.escaping_params.insert(param_idx);
    }

    /// Marks field `field_name` of parameter `param_idx` as escaping.
    pub fn mark_field_escapes(&mut self, param_idx: usize, field_name: String)
        requires
            old(self).wf(),
        ensures
            final(self).wf(),
            forall|p: usize, f: Seq<char>| #[trigger] field_escapes_spec(*final(self), p, f) <==> field_escapes_spec(
                *old(self),
                p,
                f,
            ) || (p == param_idx && f == field_name@),
            final(self).name == old(self).name,
            final(self).return_escapes == old(self).return_escapes,
            final(self).escaping_params == old(self).escaping_params,
    {
        let ghost old_fe = self.field_escapes;
        match self.field_escapes.index_of(param_idx) {
            Some(i) => {
                let mut fields = self.field_escapes.replace_val(i, NameSet::new());
                assert(old_fe.vals()[i as int].wf());
                fields.insert(field_name);
                let _ = self.field_escapes.replace_val(i, fields);
                proof {
                    assert forall|j: int| 0 <= j < self.field_escapes.keys().len() implies #[trigger] self.field_escapes.vals()[j].wf() by {
                        if j != i {
                            assert(self.field_escapes.vals()[j] == old_fe.vals()[j]);
                        }
                    }
                    assert forall|p: usize, f: Seq<char>| #[trigger] field_escapes_spec(*self, p, f) <==> field_escapes_spec(
                        *old(self),
                        p,
                        f,
                    ) || (p == param_idx && f == field_name@) by {
                        if old_fe.has(p) {
                            lemma_index_of(old_fe.keys(), p);
                        }
                    }
                }
            },
            None => {
                let mut fields = NameSet::new();
                fields.insert(field_name);
                let ghost ok = old_fe.keys();
                self.field_escapes.insert(param_idx, fields);
                proof {
                    assert(self.field_escapes.keys()[ok.len() as int] == param_idx);
                    lemma_index_of(self.field_escapes.keys(), param_idx);
                    assert forall|j: int| 0 <= j < self.field_escapes.keys().len() implies #[trigger] self.field_escapes.vals()[j].wf() by {
                        if j < ok.len() {
                            assert(self.field_escapes.vals()[j] == old_fe.vals()[j]);
                        }
                    }
                    assert forall|p: usize, f: Seq<char>| #[trigger] field_escapes_spec(*self, p, f) <==> field_escapes_spec(
                        *old(self),
                        p,
                        f,
                    ) || (p == param_idx && f == field_name@) by {
                        if p != param_idx && old_fe.has(p) {
                            lemma_index_of(old_fe.keys(), p);
                            let j = old_fe.keys().index_of(p);
                            assert(self.field_escapes.keys()[j] == p);
                            lemma_index_of(self.field_escapes.keys(), p);
                        }
                        if p != param_idx && self.field_escapes.has(p) {
                            lemma_index_of(self.field_escapes.keys(), p);
                        }
                    }
                }
            },
        }
    }
}

/// Field `f` of parameter `p` escapes in `info`.
pub open spec fn field_escapes_spec(info: FunctionEscapeInfo, p: usize, f: Seq<char>) -> bool {
    info.field_escapes.has(p) && info.field_escapes.at(p).has(f)
}

/// Escaping parameters by function name.
pub type EscapeView = Map<Seq<char>, Set<usize>>;

/// The escaping parameters of each registered function.
pub open spec fn escape_view(m: NameMap<FunctionEscapeInfo>) -> Map<Seq<char>, Set<usize>> {
    Map::new(|f: Seq<char>| m.has(f), |f: Seq<char>| params_of(m.at(f)))
}

/// The parameters that escape in some registered callee of `f`.
pub open spec fn from_callees(ev: Map<Seq<char>, Set<usize>>, g: NameMap<Vec<String>>, f: Seq<char>) -> Set<usize> {
    Set::new(
        |p: usize|
            g.has(f) && exists|k: int|
                0 <= k < g.at(f)@.len() && ev.contains_key(#[trigger] g.at(f)@[k]@) && ev[g.at(f)@[k]@].contains(p),
    )
}

/// One propagation round: each function gains the escaping parameters of its callees, as
/// they were before the round.
pub open spec fn round(ev: Map<Seq<char>, Set<usize>>, g: NameMap<Vec<String>>) -> Map<Seq<char>, Set<usize>> {
    Map::new(|f: Seq<char>| ev.contains_key(f), |f: Seq<char>| ev[f].union(from_callees(ev, g, f)))
}

/// Rounds until one changes nothing, at most `n` of them.
pub open spec fn propagate(ev: Map<Seq<char>, Set<usize>>, g: NameMap<Vec<String>>, n: nat) -> Map<Seq<char>, Set<usize>>
    decreases n,
{
    if n == 0 {
        ev
    } else {
        let next = round(ev, g);
        if next == ev {
            ev
        } else {
            propagate(next, g, (n - 1) as nat)
        }
    }
}

/// Escape analysis over the whole program.
pub struct InterproceduralEscapeAnalysis {
    function_escapes: NameMap<FunctionEscapeInfo>,
    call_graph: NameMap<Vec<String>>,
}

/// Each function filed under its own name, each well formed.
pub open spec fn infos_wf(m: NameMap<FunctionEscapeInfo>) -> bool {
    &&& m.wf()
    &&& forall|i: int| #![trigger m.vals()[i]] 0 <= i < m.keys().len() ==> m.vals()[i].name@ == m.keys()[i] && m.vals()[i].wf()
}

impl InterproceduralEscapeAnalysis {
    pub closed spec fn functions(&self) -> NameMap<FunctionEscapeInfo> {
        self.function_escapes
    }

    pub closed spec fn calls(&self) -> NameMap<Vec<String>> {
        self.call_graph
    }

    pub open spec fn wf(&self) -> bool {
        infos_wf(self.functions()) && self.calls().wf()
    }

    pub fn new() -> (r: Self)
        ensures
            r.wf(),
            r.functions().keys().len() == 0,
            r.calls().keys().len() == 0,
    {
        InterproceduralEscapeAnalysis { function_escapes: NameMap::new(), call_graph: NameMap::new() }
    }

    /// Registers a function under its name, replacing an earlier one.
    pub fn register_function(&mut self, info: FunctionEscapeInfo)
        requires
            old(self).wf(),
            info.wf(),
        ensures
            final(self).wf(),
            final(self).functions().has(info.name@),
            final(self).functions().at(info.name@) == info,
            forall|k: Seq<char>| k != info.name@ ==> (final(self).functions().has(k) == old(self).functions().has(k) && (
                old(self).functions().has(k) ==> final(self).functions().at(k) == old(self).functions().at(k))),
            final(self).calls() == old(self).calls(),
    {
        let name = copy_string(&info.name);
        let ghost ok = self.function_escapes.keys();
        let ghost ov = self.function_escapes.vals();
        let ghost n = info.name@;
        let ghost v = info;
        self.function_escapes.insert(name, info);
        proof {
            lemma_insert_facts(ok, ov, self.function_escapes.keys(), self.function_escapes.vals(), n, v);
        }
    }

    /// Records that `caller` calls `callee` (repeated calls are kept).
    pub fn add_call_edge(&mut self, caller: String, callee: String)
        requires
            old(self).wf(),
        ensures
            final(self).wf(),
            final(self).functions() == old(self).functions(),
            final(self).calls().has(caller@),
            views(final(self).calls().at(caller@)@) == (if old(self).calls().has(caller@) {
                views(old(self).calls().at(caller@)@)
            } else {
                Seq::<Seq<char>>::empty()
            }).push(callee@),
            forall|k: Seq<char>| k != caller@ ==> (#[trigger] final(self).calls().has(k) == old(self).calls().has(k) && (
                old(self).calls().has(k) ==> final(self).calls().at(k) == old(self).calls().at(k))),
    {
        let ghost og = self.call_graph;
        match self.call_graph.index_of(caller.as_str()) {
            Some(i) => {
                let mut v = self.call_graph.replace_val(i, Vec::new());
                let ghost ov = v;
                v.push(callee);
                assert(views(v@) =~= views(ov@).push(callee@));
                self.call_graph.set_val(i, v);
                proof {
                    lemma_index_of(og.keys(), caller@);
                    assert forall|k: Seq<char>| k != caller@ implies (#[trigger] self.call_graph.has(k) == og.has(k) && (
                        og.has(k) ==> self.call_graph.at(k) == og.at(k))) by {
                        if og.has(k) {
                            lemma_index_of(og.keys(), k);
                        }
                    }
                }
            },
            None => {
                let mut v: Vec<String> = Vec::new();
                v.push(callee);
                assert(views(v@) =~= Seq::<Seq<char>>::empty().push(callee@));
                let ghost ok = og.keys();
                let ghost ov = og.vals();
                let ghost c = caller@;
                let ghost vv = v;
                self.call_graph.insert(caller, v);
                proof {
                    lemma_insert_facts(ok, ov, self.call_graph.keys(), self.call_graph.vals(), c, vv);
                }
            },
        }
    }

    /// Gives every function the escaping parameters of the functions it calls, round after
    /// round, until a round changes nothing or ten rounds have run.
    pub fn propagate_escapes(&mut self)
        requires
            old(self).wf(),
        ensures
            final(self).wf(),
            final(self).calls() == old(self).calls(),
            final(self).functions().keys() == old(self).functions().keys(),
            escape_view(final(self).functions()) == propagate(escape_view(old(self).functions()), old(self).calls(), 10),
            forall|i: int| 0 <= i < final(self).functions().keys().len() ==> {
                let a = #[trigger] final(self).functions().vals()[i];
                let b = old(self).functions().vals()[i];
                a.name == b.name && a.return_escapes == b.return_escapes && a.field_escapes == b.field_escapes
            },
    {
        let mut iteration: usize = 0;
        let mut changed = true;
        let ghost ev0 = escape_view(self.function_escapes);
        while changed && iteration < 10
            invariant
                self.wf(),
                self.calls() == old(self).calls(),
                self.functions().keys() == old(self).functions().keys(),
                iteration <= 10,
                forall|i: int| 0 <= i < self.functions().keys().len() ==> {
                    let a = #[trigger] self.functions().vals()[i];
                    let b = old(self).functions().vals()[i];
                    a.name == b.name && a.return_escapes == b.return_escapes && a.field_escapes == b.field_escapes
                },
                propagate(ev0, self.calls(), 10) == if changed {
                    propagate(escape_view(self.functions()), self.calls(), (10 - iteration) as nat)
                } else {
                    escape_view(self.functions())
                },
                ev0 == escape_view(old(self).functions()),
            decreases 10 - iteration,
        {
            let ghost before = escape_view(self.function_escapes);
            changed = self.propagation_round();
            iteration += 1;
            proof {
                let n = (10 - (iteration - 1)) as nat;
                assert(propagate(before, self.calls(), n) == if round(before, self.calls()) == before {
                    before
                } else {
                    propagate(round(before, self.calls()), self.calls(), (n - 1) as nat)
                });
            }
        }
    }

    /// One round; answers whether it changed anything.
    fn propagation_round(&mut self) -> (changed: bool)
        requires
            old(self).wf(),
        ensures
            final(self).wf(),
            final(self).calls() == old(self).calls(),
            final(self).functions().keys() == old(self).functions().keys(),
            escape_view(final(self).functions()) == round(escape_view(old(self).functions()), old(self).calls()),
            changed == (round(escape_view(old(self).functions()), old(self).calls()) != escape_view(
                old(self).functions(),
            )),
            forall|i: int| 0 <= i < final(self).functions().keys().len() ==> {
                let a = #[trigger] final(self).functions().vals()[i];
                let b = old(self).functions().vals()[i];
                a.name == b.name && a.return_escapes == b.return_escapes && a.field_escapes == b.field_escapes
            },
    {
        let ghost ev = escape_view(self.function_escapes);
        let ghost g = self.call_graph;
        let n = self.function_escapes.len();
        // What each function gains, computed from the state before the round.
        let mut gains: Vec<Vec<usize>> = Vec::new();
        let mut i: usize = 0;
        while i < n
            invariant
                self.wf(),
                ev == escape_view(self.functions()),
                g == self.calls(),
                n == self.functions().keys().len(),
                i <= n,
                gains@.len() == i,
                forall|k: int, p: usize| 0 <= k < i ==> (#[trigger] gains@[k]@.contains(p) <==> from_callees(
                    ev,
                    g,
                    self.functions().keys()[k],
                ).contains(p)),
            decreases n - i,
        {
            let gain = self.callee_params(self.function_escapes.key_at(i).as_str());
            gains.push(gain);
            i += 1;
        }
        let mut changed = false;
        let mut j: usize = 0;
        while j < n
            invariant
                self.wf(),
                g == self.calls(),
                n == self.functions().keys().len(),
                self.functions().keys() == old(self).functions().keys(),
                j <= n,
                gains@.len() == n,
                forall|k: int, p: usize| 0 <= k < n ==> (#[trigger] gains@[k]@.contains(p) <==> from_callees(
                    ev,
                    g,
                    self.functions().keys()[k],
                ).contains(p)),
                ev == escape_view(old(self).functions()),
                forall|k: int| 0 <= k < n ==> {
                    let a = #[trigger] self.functions().vals()[k];
                    let b = old(self).functions().vals()[k];
                    a.name == b.name && a.return_escapes == b.return_escapes && a.field_escapes == b.field_escapes
                },
                forall|k: int| #![trigger self.functions().vals()[k]] 0 <= k < j ==> params_of(self.functions().vals()[k])
                    == ev[self.functions().keys()[k]].union(from_callees(ev, g, self.functions().keys()[k])),
                forall|k: int| #![trigger self.functions().vals()[k]] j <= k < n ==> self.functions().vals()[k]
                    == old(self).functions().vals()[k],
                changed == exists|k: int| 0 <= k < j && !from_callees(ev, g, self.functions().keys()[k]).subset_of(
                    ev[self.functions().keys()[k]],
                ),
            decreases n - j,
        {
            let mut info = self.function_escapes.replace_val(j, FunctionEscapeInfo::new(String::new()));
            let ghost oi = info;
            let ghost key = self.functions().keys()[j as int];
            proof {
                lemma_index_of(old(self).functions().keys(), key);
                assert(ev[key] == params_of(oi));
            }
            let g_j = &gains[j];
            let mut t: usize = 0;
            let mut grew = false;
            while t < g_j.len()
                invariant
                    info.wf(),
                    info.name == oi.name && info.return_escapes == oi.return_escapes && info.field_escapes == oi.field_escapes,
                    t <= g_j@.len(),
                    forall|p: usize| #[trigger] info.escaping_params.has(p) <==> oi.escaping_params.has(p) || exists|u: int|
                        0 <= u < t && g_j@[u] == p,
                    grew == exists|u: int| 0 <= u < t && !oi.escaping_params.has(#[trigger] g_j@[u]),
                decreases g_j@.len() - t,
            {
                let p = g_j[t];
                if !info.escaping_params.contains(p) {
                    grew = true;
                    info.mark_param_escapes(p);
                } else {
                    info.mark_param_escapes(p);
                }
                t += 1;
            }
            let _ = self.function_escapes.replace_val(j, info);
            if grew {
                changed = true;
            }
            proof {
                let ks = self.functions().keys();
                assert(params_of(self.functions().vals()[j as int]) =~= ev[ks[j as int]].union(from_callees(ev, g, ks[j as int]))) by {
                    assert forall|p: usize| params_of(self.functions().vals()[j as int]).contains(p) <==> ev[ks[j as int]].union(
                        from_callees(ev, g, ks[j as int]),
                    ).contains(p) by {
                        if from_callees(ev, g, ks[j as int]).contains(p) {
                            assert(gains@[j as int]@.contains(p));
                            let u = choose|u: int| 0 <= u < g_j@.len() && g_j@[u] == p;
                        }
                        if exists|u: int| 0 <= u < g_j@.len() && g_j@[u] == p {
                            let u = choose|u: int| 0 <= u < g_j@.len() && g_j@[u] == p;
                            assert(gains@[j as int]@.contains(p));
                        }
                    }
                }
                assert(grew == !from_callees(ev, g, ks[j as int]).subset_of(ev[ks[j as int]])) by {
                    if grew {
                        let u = choose|u: int| 0 <= u < g_j@.len() && !oi.escaping_params.has(#[trigger] g_j@[u]);
                        assert(gains@[j as int]@.contains(g_j@[u]));
                    }
                    if !from_callees(ev, g, ks[j as int]).subset_of(ev[ks[j as int]]) {
                        let p = choose|p: usize| from_callees(ev, g, ks[j as int]).contains(p) && !ev[ks[j as int]].contains(p);
                        assert(gains@[j as int]@.contains(p));
                        let u = choose|u: int| 0 <= u < g_j@.len() && g_j@[u] == p;
                    }
                }
            }
            j += 1;
        }
        proof {
            let ev1 = escape_view(self.functions());
            let r = round(ev, g);
            let ks = self.functions().keys();
            assert forall|f: Seq<char>| #[trigger] ev1.contains_key(f) implies ev1[f] == r[f] by {
                lemma_index_of(ks, f);
            }
            assert(ev1 =~= r);
            if changed {
                let k = choose|k: int| 0 <= k < n && !from_callees(ev, g, ks[k]).subset_of(ev[ks[k]]);
                let p = choose|p: usize| from_callees(ev, g, ks[k]).contains(p) && !ev[ks[k]].contains(p);
                assert(r[ks[k]].contains(p));
            } else {
                assert forall|f: Seq<char>| #[trigger] ev.contains_key(f) implies r[f] == ev[f] by {
                    lemma_index_of(ks, f);
                    let k = ks.index_of(f);
                    assert(from_callees(ev, g, ks[k]).subset_of(ev[ks[k]]));
                    assert(r[f] =~= ev[f]);
                }
                assert(r =~= ev);
            }
        }
        changed
    }

    /// The escaping parameters of the registered functions that `f` calls.
    fn callee_params(&self, f: &str) -> (r: Vec<usize>)
        requires
            self.wf(),
        ensures
            forall|p: usize| #[trigger] r@.contains(p) <==> from_callees(escape_view(self.functions()), self.calls(), f@).contains(p),
    {
        let ghost ev = escape_view(self.function_escapes);
        let ghost g = self.call_graph;
        let mut r: Vec<usize> = Vec::new();
        match self.call_graph.get(f) {
            Some(callees) => {
                let mut k: usize = 0;
                while k < callees.len()
                    invariant
                        self.wf(),
                        g.has(f@),
                        *callees == g.at(f@),
                        ev == escape_view(self.functions()),
                        g == self.calls(),
                        k <= callees@.len(),
                        forall|p: usize| #[trigger] r@.contains(p) <==> exists|q: int|
                            0 <= q < k && ev.contains_key(#[trigger] callees@[q]@) && ev[callees@[q]@].contains(p),
                    decreases callees@.len() - k,
                {
                    match self.function_escapes.get(callees[k].as_str()) {
                        Some(info) => {
                            let ghost before = r@;
                            let m = info.escaping_params.len();
                            let mut t: usize = 0;
                            while t < m
                                invariant
                                    m == info.escaping_params.elems().len(),
                                    t <= m,
                                    forall|p: usize| #[trigger] r@.contains(p) <==> before.contains(p) || exists|u: int|
                                        0 <= u < t && info.escaping_params.elems()[u] == p,
                                decreases m - t,
                            {
                                let ghost b2 = r@;
                                r.push(info.escaping_params.item_at(t));
                                proof {
                                    crate::names::lemma_push_contains(b2, info.escaping_params.elems()[t as int]);
                                }
                                t += 1;
                            }
                            proof {
                                assert forall|p: usize| #[trigger] r@.contains(p) <==> exists|q: int|
                                    0 <= q < k + 1 && ev.contains_key(#[trigger] callees@[q]@) && ev[callees@[q]@].contains(p) by {
                                    if exists|u: int| 0 <= u < m && info.escaping_params.elems()[u] == p {
                                        assert(ev.contains_key(callees@[k as int]@));
                                        assert(ev[callees@[k as int]@].contains(p));
                                    }
                                    if ev.contains_key(callees@[k as int]@) && ev[callees@[k as int]@].contains(p) {
                                        assert(info.escaping_params.has(p));
                                    }
                                }
                            }
                        },
                        None => {
                            assert forall|p: usize| #[trigger] r@.contains(p) <==> exists|q: int|
                                0 <= q < k + 1 && ev.contains_key(#[trigger] callees@[q]@) && ev[callees@[q]@].contains(p) by {
                                assert(!ev.contains_key(callees@[k as int]@));
                            }
                        },
                    }
                    k += 1;
                }
            },
            None => {},
        }
        r
    }

    pub fn get_function_escape_info(&self, name: &str) -> (r: Option<&FunctionEscapeInfo>)
        requires
            self.wf(),
        ensures
            match r {
                Some(i) => self.functions().has(name@) && *i == self.functions().at(name@),
                None => !self.functions().has(name@),
            },
    {
        self.function_escapes.get(name)
    }

    /// The functions whose return value or some parameter escapes, in registration order.
    pub fn get_heap_escaping_functions(&self) -> (r: Vec<String>)
        requires
            self.wf(),
        ensures
            views(r@) == select(self.functions().keys(), self.functions().vals(), |i: FunctionEscapeInfo| heap_escaping(i)),
    {
        keys_where(&(), &self.function_escapes, is_heap_escaping, Ghost(|i: FunctionEscapeInfo| heap_escaping(i)))
    }

    /// Counts: functions, escaping functions, escaping parameters over all functions.
    pub fn report(&self) -> (r: EscapeAnalysisReport)
        requires
            self.wf(),
            param_total(self.functions().vals()) <= usize::MAX,
        ensures
            r.total_functions == self.functions().keys().len(),
            r.escaping_functions == select(self.functions().keys(), self.functions().vals(), |i: FunctionEscapeInfo| heap_escaping(i)).len(),
            r.total_escaping_params == param_total(self.functions().vals()),
    {
        let total_functions = self.function_escapes.len();
        let escaping = self.get_heap_escaping_functions();
        let n = total_functions;
        let mut total: usize = 0;
        let mut i: usize = 0;
        while i < n
            invariant
                self.wf(),
                n == self.functions().keys().len(),
                i <= n,
                param_total(self.functions().vals()) <= usize::MAX,
                total == param_total(self.functions().vals().take(i as int)),
            decreases n - i,
        {
            proof {
                assert(self.functions().vals().take(i + 1).drop_last() =~= self.functions().vals().take(i as int));
                lemma_param_total_prefix(self.functions().vals(), i + 1);
            }
            total = total + self.function_escapes.val_at(i).escaping_params.len();
            i += 1;
        }
        assert(self.functions().vals().take(n as int) =~= self.functions().vals());
        assert(views(escaping@).len() == escaping@.len());
        EscapeAnalysisReport { total_functions, escaping_functions: escaping.len(), total_escaping_params: total }
    }
}

/// The return value or some parameter escapes.
pub open spec fn heap_escaping(i: FunctionEscapeInfo) -> bool {
    i.return_escapes || i.escaping_params.elems().len() > 0
}

fn is_heap_escaping(_c: &(), i: &FunctionEscapeInfo) -> (r: bool)
    ensures
        r == heap_escaping(*i),
{
    i.return_escapes || !i.escaping_params.is_empty()
}

/// The number of escaping parameters over all functions.
pub open spec fn param_total(vs: Seq<FunctionEscapeInfo>) -> int
    decreases vs.len(),
{
    if vs.len() == 0 {
        0
    } else {
        param_total(vs.drop_last()) + vs.last().escaping_params.elems().len()
    }
}

proof fn lemma_param_total_prefix(vs: Seq<FunctionEscapeInfo>, i: int)
    requires
        0 <= i <= vs.len(),
    ensures
        param_total(vs.take(i)) <= param_total(vs),
    decreases vs.len(),
{
    if i < vs.len() {
        assert(vs.take(i) =~= vs.drop_last().take(i));
        lemma_param_total_prefix(vs.drop_last(), i);
    } else {
        assert(vs.take(i) =~= vs);
    }
}

/// Counts from interprocedural escape analysis.
#[derive(Debug, Clone)]
pub struct EscapeAnalysisReport {
    pub total_functions: usize,
    pub escaping_functions: usize,
    pub total_escaping_params: usize,
}

/// Propagation never takes an escaping parameter away.
pub proof fn law_propagation_grows(ev: Map<Seq<char>, Set<usize>>, g: NameMap<Vec<String>>, n: nat, f: Seq<char>)
    requires
        ev.contains_key(f),
    ensures
        propagate(ev, g, n).contains_key(f),
        ev[f].subset_of(propagate(ev, g, n)[f]),
    decreases n,
{
    if n > 0 {
        let next = round(ev, g);
        if next != ev {
            law_propagation_grows(next, g, (n - 1) as nat, f);
            assert(ev[f].subset_of(next[f]));
        }
    }
}

/// When propagation stops before its round limit, every registered caller has every
/// escaping parameter of every registered callee.
pub proof fn law_fixpoint_closed(
    ev: Map<Seq<char>, Set<usize>>,
    g: NameMap<Vec<String>>,
    f: Seq<char>,
    k: int,
    p: usize,
)
    requires
        round(ev, g) == ev,
        ev.contains_key(f),
        g.has(f),
        0 <= k < g.at(f)@.len(),
        ev.contains_key(g.at(f)@[k]@),
        ev[g.at(f)@[k]@].contains(p),
    ensures
        ev[f].contains(p),
{
    assert(from_callees(ev, g, f).contains(p));
    assert(round(ev, g)[f].contains(p));
}


/// `k` rounds, with no early stop.
pub open spec fn rounds(ev: Map<Seq<char>, Set<usize>>, g: NameMap<Vec<String>>, k: nat) -> Map<Seq<char>, Set<usize>>
    decreases k,
{
    if k == 0 {
        ev
    } else {
        rounds(round(ev, g), g, (k - 1) as nat)
    }
}

/// `a` calls `b`, and `b` is registered.
pub open spec fn calls_registered(ev: Map<Seq<char>, Set<usize>>, g: NameMap<Vec<String>>, a: Seq<char>, b: Seq<char>) -> bool {
    g.has(a) && ev.contains_key(b) && exists|k: int| 0 <= k < g.at(a)@.len() && #[trigger] g.at(a)@[k]@ == b
}

/// A walk along calls through registered functions.
pub open spec fn escape_walk(ev: Map<Seq<char>, Set<usize>>, g: NameMap<Vec<String>>, w: Seq<Seq<char>>) -> bool {
    &&& w.len() >= 1
    &&& ev.contains_key(w[0])
    &&& forall|i: int| #![trigger w[i]] 0 <= i && i + 1 < w.len() ==> calls_registered(ev, g, w[i], w[i + 1])
}

/// Some walk of at most `k` calls leads from `f` to a function where `p` escapes.
pub open spec fn escapes_within(ev: Map<Seq<char>, Set<usize>>, g: NameMap<Vec<String>>, f: Seq<char>, p: usize, k: nat) -> bool {
    exists|w: Seq<Seq<char>>| #[trigger] escape_walk(ev, g, w) && w[0] == f && w.len() <= k + 1 && ev[w.last()].contains(p)
}

proof fn lemma_rounds_back(ev: Map<Seq<char>, Set<usize>>, g: NameMap<Vec<String>>, k: nat)
    ensures
        rounds(ev, g, k + 1) == round(rounds(ev, g, k), g),
    decreases k,
{
    if k > 0 {
        lemma_rounds_back(round(ev, g), g, (k - 1) as nat);
        assert(rounds(ev, g, k) == rounds(round(ev, g), g, (k - 1) as nat));
        assert(rounds(ev, g, k + 1) == rounds(round(ev, g), g, k));
        assert((k - 1) as nat + 1 == k);
    } else {
        assert(rounds(round(ev, g), g, 0) == round(ev, g));
    }
}

proof fn lemma_rounds_dom(ev: Map<Seq<char>, Set<usize>>, g: NameMap<Vec<String>>, k: nat)
    ensures
        rounds(ev, g, k).dom() == ev.dom(),
    decreases k,
{
    if k > 0 {
        lemma_rounds_dom(round(ev, g), g, (k - 1) as nat);
        assert(round(ev, g).dom() =~= ev.dom());
    }
}

/// After `k` rounds a function holds exactly the parameters that escape at the end of a
/// walk of at most `k` calls from it.
proof fn lemma_rounds_walks(ev: Map<Seq<char>, Set<usize>>, g: NameMap<Vec<String>>, k: nat, f: Seq<char>, p: usize)
    requires
        ev.contains_key(f),
    ensures
        rounds(ev, g, k)[f].contains(p) <==> escapes_within(ev, g, f, p, k),
    decreases k,
{
    if k == 0 {
        if ev[f].contains(p) {
            let w = seq![f];
            assert(escape_walk(ev, g, w));
        }
        if escapes_within(ev, g, f, p, 0) {
            let w = choose|w: Seq<Seq<char>>| #[trigger] escape_walk(ev, g, w) && w[0] == f && w.len() <= 1 && ev[w.last()].contains(p);
        }
    } else {
        let km = (k - 1) as nat;
        let prev = rounds(ev, g, km);
        lemma_rounds_back(ev, g, km);
        lemma_rounds_dom(ev, g, km);
        assert(prev.contains_key(f));
        lemma_rounds_walks(ev, g, km, f, p);
        if rounds(ev, g, k)[f].contains(p) {
            if prev[f].contains(p) {
                let w = choose|w: Seq<Seq<char>>| #[trigger] escape_walk(ev, g, w) && w[0] == f && w.len() <= km + 1 && ev[w.last()].contains(p);
                assert(w.len() <= k + 1);
            } else {
                assert(from_callees(prev, g, f).contains(p));
                let j = choose|j: int| 0 <= j < g.at(f)@.len() && prev.contains_key(#[trigger] g.at(f)@[j]@) && prev[g.at(f)@[j]@].contains(p);
                let c = g.at(f)@[j]@;
                assert(ev.contains_key(c));
                lemma_rounds_walks(ev, g, km, c, p);
                let w1 = choose|w: Seq<Seq<char>>| #[trigger] escape_walk(ev, g, w) && w[0] == c && w.len() <= km + 1 && ev[w.last()].contains(p);
                let w = seq![f] + w1;
                assert(calls_registered(ev, g, f, c));
                assert forall|i: int| #![trigger w[i]] 0 <= i && i + 1 < w.len() implies calls_registered(ev, g, w[i], w[i + 1]) by {
                    if i > 0 {
                        assert(w[i] == w1[i - 1] && w[i + 1] == w1[i]);
                        assert(calls_registered(ev, g, w1[i - 1], w1[i - 1 + 1]));
                    }
                }
                assert(escape_walk(ev, g, w));
                assert(w.last() == w1.last());
            }
        }
        if escapes_within(ev, g, f, p, k) {
            let w = choose|w: Seq<Seq<char>>| #[trigger] escape_walk(ev, g, w) && w[0] == f && w.len() <= k + 1 && ev[w.last()].contains(p);
            if w.len() == 1 {
                assert(escapes_within(ev, g, f, p, km));
            } else {
                let w1 = w.drop_first();
                assert(calls_registered(ev, g, w[0int], w[0int + 1]));
                let c = w[1];
                assert forall|i: int| #![trigger w1[i]] 0 <= i && i + 1 < w1.len() implies calls_registered(ev, g, w1[i], w1[i + 1]) by {
                    assert(w1[i] == w[i + 1] && w1[i + 1] == w[i + 2]);
                    assert(calls_registered(ev, g, w[i + 1], w[i + 1 + 1]));
                }
                assert(escape_walk(ev, g, w1));
                assert(w1.last() == w.last());
                lemma_rounds_walks(ev, g, km, c, p);
                assert(prev[c].contains(p));
                let j = choose|j: int| 0 <= j < g.at(f)@.len() && #[trigger] g.at(f)@[j]@ == c;
                assert(prev.contains_key(g.at(f)@[j]@));
                assert(from_callees(prev, g, f).contains(p));
            }
        }
    }
}

/// A walk through registered functions can be cut down to no more names than are registered.
proof fn lemma_short_walk(ev: Map<Seq<char>, Set<usize>>, g: NameMap<Vec<String>>, ks: Seq<Seq<char>>, w: Seq<Seq<char>>)
    requires
        escape_walk(ev, g, w),
        forall|x: Seq<char>| ev.contains_key(x) <==> #[trigger] ks.contains(x),
    ensures
        exists|v: Seq<Seq<char>>| #[trigger] escape_walk(ev, g, v) && v[0] == w[0] && v.last() == w.last() && v.len() <= ks.len(),
    decreases w.len(),
{
    if w.len() <= ks.len() {
        assert(escape_walk(ev, g, w));
    } else {
        assert forall|i: int| 0 <= i < w.len() implies ks.contains(#[trigger] w[i]) by {
            if i > 0 {
                assert(calls_registered(ev, g, w[i - 1], w[i - 1 + 1]));
            }
        }
        if w.no_duplicates() {
            crate::names::lemma_nodup_subset_len(w, ks);
        }
        let (a, b) = choose|a: int, b: int| 0 <= a < w.len() && 0 <= b < w.len() && a != b && w[a] == w[b];
        let i = if a < b { a } else { b };
        let j = if a < b { b } else { a };
        let v = w.take(i + 1) + w.skip(j + 1);
        assert(v.len() < w.len());
        assert forall|t: int| #![trigger v[t]] 0 <= t && t + 1 < v.len() implies calls_registered(ev, g, v[t], v[t + 1]) by {
            if t + 1 <= i {
                assert(v[t] == w[t] && v[t + 1] == w[t + 1]);
                assert(calls_registered(ev, g, w[t], w[t + 1]));
            } else if t == i {
                assert(v[t] == w[j] && v[t + 1] == w[j + 1]);
                assert(calls_registered(ev, g, w[j], w[j + 1]));
            } else {
                let u = t - i - 1 + j + 1;
                assert(v[t] == w[u] && v[t + 1] == w[u + 1]);
                assert(calls_registered(ev, g, w[u], w[u + 1]));
            }
        }
        assert(escape_walk(ev, g, v));
        assert(v.last() == w.last()) by {
            if j + 1 < w.len() {
                assert(v.last() == w[w.len() - 1]);
            } else {
                assert(v.last() == w[i]);
            }
        }
        lemma_short_walk(ev, g, ks, v);
    }
}

proof fn lemma_stops_or_runs(ev: Map<Seq<char>, Set<usize>>, g: NameMap<Vec<String>>, n: nat)
    ensures
        round(propagate(ev, g, n), g) == propagate(ev, g, n) || propagate(ev, g, n) == rounds(ev, g, n),
    decreases n,
{
    if n > 0 && round(ev, g) != ev {
        lemma_stops_or_runs(round(ev, g), g, (n - 1) as nat);
    }
}

/// With at most eleven registered functions, the ten rounds of propagation reach a fixpoint:
/// afterwards every registered caller has every escaping parameter of every registered callee.
pub proof fn law_ten_rounds_suffice(
    ev: Map<Seq<char>, Set<usize>>,
    g: NameMap<Vec<String>>,
    ks: Seq<Seq<char>>,
)
    requires
        forall|x: Seq<char>| ev.contains_key(x) <==> #[trigger] ks.contains(x),
        ks.len() <= 11,
    ensures
        round(propagate(ev, g, 10), g) == propagate(ev, g, 10),
{
    lemma_stops_or_runs(ev, g, 10);
    if round(propagate(ev, g, 10), g) != propagate(ev, g, 10) {
        let r10 = rounds(ev, g, 10);
        lemma_rounds_back(ev, g, 10);
        lemma_rounds_dom(ev, g, 10);
        lemma_rounds_dom(ev, g, 11);
        assert forall|f: Seq<char>| #[trigger] round(r10, g).contains_key(f) implies round(r10, g)[f] == r10[f] by {
            assert(ev.contains_key(f));
            assert forall|p: usize| round(r10, g)[f].contains(p) <==> #[trigger] r10[f].contains(p) by {
                lemma_rounds_walks(ev, g, 11, f, p);
                lemma_rounds_walks(ev, g, 10, f, p);
                if round(r10, g)[f].contains(p) {
                    let w = choose|w: Seq<Seq<char>>| #[trigger] escape_walk(ev, g, w) && w[0] == f && w.len() <= 12 && ev[w.last()].contains(p);
                    lemma_short_walk(ev, g, ks, w);
                    let v = choose|v: Seq<Seq<char>>| #[trigger] escape_walk(ev, g, v) && v[0] == w[0] && v.last() == w.last() && v.len() <= ks.len();
                    assert(escapes_within(ev, g, f, p, 10));
                }
                if r10[f].contains(p) {
                    assert(from_callees(r10, g, f).len() >= 0);
                }
            }
            assert(round(r10, g)[f] =~= r10[f]);
        }
        assert(round(r10, g).dom() =~= r10.dom());
        assert(round(r10, g) =~= r10);
    }
}

} // verus!
