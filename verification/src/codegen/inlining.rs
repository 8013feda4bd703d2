//! Cross-function inlining: decides, call site by call site, whether a call is inlined,
//! within a code-size budget.
use vstd::prelude::*;
use crate::names::{NameMap, NameSet, lemma_select_step, select, str_eq, strs, views};
use crate::codegen::optimization::lto::{edge, is_path, reachable, reachable_from};
use crate::text::{append_str, chars_of, lit, string_of};

verus! {

/// Function size estimate, in pseudo-instructions.
#[derive(Debug, Clone, Copy, PartialEq, Eq, PartialOrd, Ord, Structural)]
pub enum FunctionSize {
    /// 1-5 operations
    Tiny,
    /// 6-15 operations
    Small,
    /// 16-30 operations
    Medium,
    /// 31-60 operations
    Large,
    /// more than 60 operations
    VeryLarge,
}

pub open spec fn estimate_spec(s: FunctionSize) -> nat {
    match s {
        FunctionSize::Tiny => 3,
        FunctionSize::Small => 10,
        FunctionSize::Medium => 20,
        FunctionSize::Large => 45,
        FunctionSize::VeryLarge => 80,
    }
}

pub open spec fn size_class(count: nat) -> FunctionSize {
    if count <= 5 {
        FunctionSize::Tiny
    } else if count <= 15 {
        FunctionSize::Small
    } else if count <= 30 {
        FunctionSize::Medium
    } else if count <= 60 {
        FunctionSize::Large
    } else {
        FunctionSize::VeryLarge
    }
}

impl FunctionSize {
    /// Estimated operation count.
    pub fn estimate(&self) -> (r: usize)
        ensures
            r == estimate_spec(*self),
    {
        match self {
            FunctionSize::Tiny => 3,
            FunctionSize::Small => 10,
            FunctionSize::Medium => 20,
            FunctionSize::Large => 45,
            FunctionSize::VeryLarge => 80,
        }
    }

    /// Size class of a function with `count` operations.
    pub fn from_op_count(count: usize) -> (r: FunctionSize)
        ensures
            r == size_class(count as nat),
    {
        if count <= 5 {
            FunctionSize::Tiny
        } else if count <= 15 {
            FunctionSize::Small
        } else if count <= 30 {
            FunctionSize::Medium
        } else if count <= 60 {
            FunctionSize::Large
        } else {
            FunctionSize::VeryLarge
        }
    }
}

/// The estimate of a size class lies within the class: classifying the estimate gives the
/// class back.
pub proof fn law_estimate_in_class(s: FunctionSize)
    ensures
        size_class(estimate_spec(s)) == s,
{
}

/// Function call site metadata.
#[derive(Debug)]
pub struct CallSite {
    pub callee: String,
    pub caller: String,
    pub frequency: u32,
    pub in_loop: bool,
    pub call_count: u32,
}

/// Function metadata.
#[derive(Debug)]
pub struct FunctionMetadata {
    pub name: String,
    pub size: FunctionSize,
    pub param_count: usize,
    pub has_side_effects: bool,
    pub is_recursive: bool,
    pub call_sites: Vec<CallSite>,
}

/// Inlining benefit in twentieths: 5.0, 3.0, 1.5, 0.5 and 0.1 by size class, halved for a
/// function with side effects.
pub open spec fn benefit20(size: FunctionSize, side_effects: bool) -> nat {
    let base: nat = match size {
        FunctionSize::Tiny => 100,
        FunctionSize::Small => 60,
        FunctionSize::Medium => 30,
        FunctionSize::Large => 10,
        FunctionSize::VeryLarge => 2,
    };
    if side_effects {
        base / 2
    } else {
        base
    }
}

impl FunctionMetadata {
    pub fn new(name: String, size: FunctionSize, param_count: usize) -> (r: Self)
        ensures
            r.name == name,
            r.size == size,
            r.param_count == param_count,
            !r.has_side_effects,
            !r.is_recursive,
            r.call_sites@.len() == 0,
    {
        FunctionMetadata {
            name,
            size,
            param_count,
            has_side_effects: false,
            is_recursive: false,
            call_sites: Vec::new(),
        }
    }

    /// Inlining benefit in twentieths of a unit.
    pub fn inline_benefit_twentieths(&self) -> (r: u32)
        ensures
            r == benefit20(self.size, self.has_side_effects),
    {
        let base: u32 = match self.size {
            FunctionSize::Tiny => 100,
            FunctionSize::Small => 60,
            FunctionSize::Medium => 30,
            FunctionSize::Large => 10,
            FunctionSize::VeryLarge => 2,
        };
        if self.has_side_effects {
            base / 2
        } else {
            base
        }
    }
}

/// Inlining decision.
#[derive(Debug, Clone, Copy, PartialEq, Eq, Structural)]
pub enum InliningDecision {
    Inline,
    Probably,
    DontInline,
    Forbidden,
}

/// Cross-function inlining optimizer.
pub struct InliningOptimizer {
    functions: NameMap<FunctionMetadata>,
    call_graph: NameMap<Vec<String>>,
    reverse_call_graph: NameMap<Vec<String>>,
    decisions: NameMap<InliningDecision>,
    code_size_budget: usize,
    current_code_size: usize,
}

/// The key under which the decision for a call from `caller` to `callee` is kept.
pub open spec fn decision_key(caller: Seq<char>, callee: Seq<char>) -> Seq<char> {
    caller + "::"@ + callee
}

/// The decision for a known function, from its recursion, the code-size budget and its
/// benefit.
pub open spec fn fresh_decision(f: FunctionMetadata, current: nat, budget: nat) -> InliningDecision {
    if f.is_recursive {
        InliningDecision::Forbidden
    } else if current + estimate_spec(f.size) > budget {
        InliningDecision::DontInline
    } else if f.size == FunctionSize::Tiny || benefit20(f.size, f.has_side_effects) > 60 {
        InliningDecision::Inline
    } else if benefit20(f.size, f.has_side_effects) > 20 {
        InliningDecision::Probably
    } else {
        InliningDecision::DontInline
    }
}

/// How many of `ds` are `Inline`.
pub open spec fn count_inline(ds: Seq<InliningDecision>) -> nat
    decreases ds.len(),
{
    if ds.len() == 0 {
        0
    } else {
        count_inline(ds.drop_last()) + if ds.last() == InliningDecision::Inline { 1nat } else { 0nat }
    }
}

impl InliningOptimizer {
    pub closed spec fn functions(&self) -> NameMap<FunctionMetadata> {
        self.functions
    }

    pub closed spec fn call_graph(&self) -> NameMap<Vec<String>> {
        self.call_graph
    }

    pub closed spec fn reverse_call_graph(&self) -> NameMap<Vec<String>> {
        self.reverse_call_graph
    }

    pub closed spec fn decisions(&self) -> NameMap<InliningDecision> {
        self.decisions
    }

    pub closed spec fn budget(&self) -> nat {
        self.code_size_budget as nat
    }

    pub closed spec fn current(&self) -> nat {
        self.current_code_size as nat
    }

    pub open spec fn wf(&self) -> bool {
        &&& self.functions().wf()
        &&& self.call_graph().wf()
        &&& self.reverse_call_graph().wf()
        &&& self.decisions().wf()
    }

    /// The decision `decide_inline` gives for a call to `callee`, cache aside.
    pub open spec fn decision_for(&self, callee: Seq<char>) -> InliningDecision {
        if self.functions().has(callee) {
            fresh_decision(self.functions().at(callee), self.current(), self.budget())
        } else {
            InliningDecision::DontInline
        }
    }

    pub fn new(code_size_budget: usize) -> (r: Self)
        ensures
            r.wf(),
            r.functions().keys().len() == 0,
            r.call_graph().keys().len() == 0,
            r.reverse_call_graph().keys().len() == 0,
            r.decisions().keys().len() == 0,
            r.budget() == code_size_budget,
            r.current() == 0,
    {
        InliningOptimizer {
            functions: NameMap::new(),
            call_graph: NameMap::new(),
            reverse_call_graph: NameMap::new(),
            decisions: NameMap::new(),
            code_size_budget,
            current_code_size: 0,
        }
    }

    /// Registers a function; its estimated size counts against the budget.
    pub fn register_function(&mut self, metadata: FunctionMetadata)
        requires
            old(self).wf(),
            old(self).current() + estimate_spec(metadata.size) <= usize::MAX,
        ensures
            final(self).wf(),
            final(self).current() == old(self).current() + estimate_spec(metadata.size),
            final(self).functions().has(metadata.name@),
            final(self).functions().at(metadata.name@) == metadata,
            forall|k: Seq<char>|
                k != metadata.name@ ==> #[trigger] final(self).functions().lookup(k) == old(self).functions().lookup(k),
            final(self).call_graph() == old(self).call_graph(),
            final(self).reverse_call_graph() == old(self).reverse_call_graph(),
            final(self).decisions() == old(self).decisions(),
            final(self).budget() == old(self).budget(),
    {
        self.current_code_size = self.current_code_size + metadata.size.estimate();
        let name = lit(metadata.name.as_str());
        let ghost n = metadata.name@;
        let ghost m = metadata;
        let ghost of = self.functions;
        self.functions.insert(name, metadata);
        proof {
            lemma_map_insert::<FunctionMetadata>(of, self.functions, n, m);
        }
    }

    /// Records a call from `caller` to `callee` in both call graphs, and a call site on the
    /// callee when it is registered.
    pub fn register_call(&mut self, caller: &str, callee: &str, in_loop: bool, frequency: u32)
        requires
            old(self).wf(),
        ensures
            final(self).wf(),
            edges_added(old(self).call_graph(), final(self).call_graph(), caller@, callee@),
            edges_added(
                old(self).reverse_call_graph(),
                final(self).reverse_call_graph(),
                callee@,
                caller@,
            ),
            final(self).functions().keys() == old(self).functions().keys(),
            forall|k: Seq<char>|
                k != callee@ ==> #[trigger] final(self).functions().lookup(k) == old(self).functions().lookup(k),
            old(self).functions().has(callee@) ==> {
                let f0 = old(self).functions().at(callee@);
                let f1 = final(self).functions().at(callee@);
                &&& f1.name == f0.name && f1.size == f0.size && f1.param_count == f0.param_count
                &&& f1.has_side_effects == f0.has_side_effects && f1.is_recursive
                    == f0.is_recursive
                &&& f1.call_sites@.len() == f0.call_sites@.len() + 1
                &&& f1.call_sites@.take(f0.call_sites@.len() as int) == f0.call_sites@
                &&& f1.call_sites@.last().callee@ == callee@
                &&& f1.call_sites@.last().caller@ == caller@
                &&& f1.call_sites@.last().frequency == frequency
                &&& f1.call_sites@.last().in_loop == in_loop
                &&& f1.call_sites@.last().call_count == 1
            },
            final(self).decisions() == old(self).decisions(),
            final(self).budget() == old(self).budget(),
            final(self).current() == old(self).current(),
    {
        add_edge(&mut self.call_graph, caller, callee);
        add_edge(&mut self.reverse_call_graph, callee, caller);
        match self.functions.index_of(callee) {
            Some(i) => {
                let ghost of = self.functions;
                let mut f = take_metadata(&mut self.functions, i);
                let ghost f0 = f;
                f.call_sites.push(
                    CallSite {
                        callee: lit(callee),
                        caller: lit(caller),
                        frequency,
                        in_loop,
                        call_count: 1,
                    },
                );
                assert(f.call_sites@.take(f0.call_sites@.len() as int) =~= f0.call_sites@);
                self.functions.set_val(i, f);
                proof {
                    assert(self.functions.vals() =~= of.vals().update(i as int, f));
                    lemma_map_insert(of, self.functions, callee@, f);
                }
            },
            None => {},
        }
    }

    /// The decision for inlining `callee` at a call from `caller`. A decision once taken
    /// for a known callee is kept and given again.
    pub fn decide_inline(&mut self, caller: &str, callee: &str) -> (r: InliningDecision)
        requires
            old(self).wf(),
        ensures
            final(self).wf(),
            old(self).decisions().has(decision_key(caller@, callee@)) ==> r == old(self).decisions().at(decision_key(caller@, callee@)) && final(self).decisions() == old(self).decisions(),
            !old(self).decisions().has(decision_key(caller@, callee@)) ==> r == old(self).decision_for(callee@) && (old(self).functions().has(callee@) ==> final(self).decisions().keys() == old(self).decisions().keys().push(
                decision_key(caller@, callee@),
            ) && final(self).decisions().vals() == old(self).decisions().vals().push(r)) && (!old(self).functions().has(callee@) ==> final(self).decisions() == old(self).decisions()),
            final(self).functions() == old(self).functions(),
            final(self).call_graph() == old(self).call_graph(),
            final(self).reverse_call_graph() == old(self).reverse_call_graph(),
            final(self).budget() == old(self).budget(),
            final(self).current() == old(self).current(),
    {
        let mut kc = chars_of(caller);
        append_str(&mut kc, "::");
        append_str(&mut kc, callee);
        let key = string_of(kc.as_slice());
        assert(key@ =~= decision_key(caller@, callee@));
        match self.decisions.get(key.as_str()) {
            Some(d) => {
                return *d;
            },
            None => {},
        }
        let (size, side, rec) = match self.functions.get(callee) {
            Some(f) => (f.size, f.has_side_effects, f.is_recursive),
            None => {
                return InliningDecision::DontInline;
            },
        };
        if rec {
            self.decisions.insert(key, InliningDecision::Forbidden);
            return InliningDecision::Forbidden;
        }
        let inline_cost = size.estimate();
        if (self.current_code_size as u128) + (inline_cost as u128) > self.code_size_budget as u128 {
            self.decisions.insert(key, InliningDecision::DontInline);
            return InliningDecision::DontInline;
        }
        let benefit: u32 = match size {
            FunctionSize::Tiny => 100,
            FunctionSize::Small => 60,
            FunctionSize::Medium => 30,
            FunctionSize::Large => 10,
            FunctionSize::VeryLarge => 2,
        };
        let benefit = if side {
            benefit / 2
        } else {
            benefit
        };
        let decision = if size == FunctionSize::Tiny || benefit > 60 {
            InliningDecision::Inline
        } else if benefit > 20 {
            InliningDecision::Probably
        } else {
            InliningDecision::DontInline
        };
        self.decisions.insert(key, decision);
        decision
    }

    /// Decides every call in the call graph, caller by caller in registration order.
    pub fn analyze_all(&mut self)
        requires
            old(self).wf(),
        ensures
            final(self).wf(),
            final(self).functions() == old(self).functions(),
            final(self).call_graph() == old(self).call_graph(),
            final(self).reverse_call_graph() == old(self).reverse_call_graph(),
            final(self).budget() == old(self).budget(),
            final(self).current() == old(self).current(),
            decisions_extend(old(self).decisions(), final(self).decisions(), *old(self)),
            forall|i: int, j: int|
                0 <= i < old(self).call_graph().keys().len() && 0 <= j < old(self).call_graph().vals()[i]@.len() && old(self).functions().has(
                    old(self).call_graph().vals()[i]@[j]@,
                ) ==> #[trigger] final(self).decisions().has(
                    decision_key(
                        old(self).call_graph().keys()[i],
                        old(self).call_graph().vals()[i]@[j]@,
                    ),
                ),
    {
        let n = self.call_graph.len();
        let mut i: usize = 0;
        while i < n
            invariant
                self.wf(),
                n == self.call_graph().keys().len(),
                i <= n,
                self.functions() == old(self).functions(),
                self.call_graph() == old(self).call_graph(),
                self.reverse_call_graph() == old(self).reverse_call_graph(),
                self.budget() == old(self).budget(),
                self.current() == old(self).current(),
                decisions_extend(old(self).decisions(), self.decisions(), *old(self)),
                forall|a: int, b: int|
                    0 <= a < i && 0 <= b < old(self).call_graph().vals()[a]@.len() && old(self).functions().has(old(self).call_graph().vals()[a]@[b]@) ==> #[trigger] self.decisions().has(
                        decision_key(
                            old(self).call_graph().keys()[a],
                            old(self).call_graph().vals()[a]@[b]@,
                        ),
                    ),
            decreases n - i,
        {
            let m = self.call_graph.val_at(i).len();
            let mut j: usize = 0;
            while j < m
                invariant
                    self.wf(),
                    n == self.call_graph().keys().len(),
                    i < n,
                    j <= m,
                    m == self.call_graph().vals()[i as int]@.len(),
                    self.functions() == old(self).functions(),
                    self.call_graph() == old(self).call_graph(),
                    self.reverse_call_graph() == old(self).reverse_call_graph(),
                    self.budget() == old(self).budget(),
                    self.current() == old(self).current(),
                    decisions_extend(old(self).decisions(), self.decisions(), *old(self)),
                    forall|a: int, b: int|
                        ((0 <= a < i && 0 <= b < old(self).call_graph().vals()[a]@.len()) || (a
                            == i && 0 <= b < j)) && old(self).functions().has(
                            old(self).call_graph().vals()[a]@[b]@,
                        ) ==> #[trigger] self.decisions().has(
                            decision_key(
                                old(self).call_graph().keys()[a],
                                old(self).call_graph().vals()[a]@[b]@,
                            ),
                        ),
                decreases m - j,
            {
                let caller = copy_str(self.call_graph.key_at(i));
                let callee = copy_str(&self.call_graph.val_at(i)[j]);
                let ghost before = self.decisions();
                self.decide_inline(caller.as_str(), callee.as_str());
                proof {
                    lemma_extend_step(old(self).decisions(), before, self.decisions(), *old(self), caller@, callee@);
                    assert forall|a: int, b: int|
                        ((0 <= a < i && 0 <= b < old(self).call_graph().vals()[a]@.len()) || (a
                            == i && 0 <= b < j + 1)) && old(self).functions().has(
                            old(self).call_graph().vals()[a]@[b]@,
                        ) implies #[trigger] self.decisions().has(
                            decision_key(
                                old(self).call_graph().keys()[a],
                                old(self).call_graph().vals()[a]@[b]@,
                            ),
                        ) by {
                        let k = decision_key(
                            old(self).call_graph().keys()[a],
                            old(self).call_graph().vals()[a]@[b]@,
                        );
                        if !(a == i && b == j) {
                            assert(before.has(k));
                        }
                    }
                }
                j += 1;
            }
            i += 1;
        }
    }

    /// Functions small enough to be good inlining candidates (tiny or small), in
    /// registration order.
    pub fn get_candidates(&self) -> (r: Vec<String>)
        requires
            self.wf(),
        ensures
            views(r@) == select(self.functions().keys(), self.functions().vals(), small_pred()),
    {
        let ghost p = small_pred();
        let mut r: Vec<String> = Vec::new();
        let n = self.functions.len();
        let mut i: usize = 0;
        while i < n
            invariant
                self.wf(),
                i <= n,
                n == self.functions().keys().len(),
                p == small_pred(),
                views(r@) == select(self.functions().keys().take(i as int), self.functions().vals().take(i as int), p),
            decreases n - i,
        {
            proof {
                lemma_select_step(self.functions().keys(), self.functions().vals(), p, i as int);
            }
            let f = self.functions.val_at(i);
            assert(p(self.functions().vals()[i as int]) == (f.size == FunctionSize::Tiny || f.size
                == FunctionSize::Small));
            if f.size == FunctionSize::Tiny || f.size == FunctionSize::Small {
                let ghost b = views(r@);
                r.push(lit(self.functions.key_at(i).as_str()));
                assert(views(r@) =~= b.push(self.functions().keys()[i as int]));
            }
            i += 1;
        }
        proof {
            crate::names::lemma_select_full(self.functions().keys(), self.functions().vals(), p);
        }
        r
    }

    /// How many stored decisions are `Inline`.
    pub fn inline_decision_count(&self) -> (r: usize)
        requires
            self.wf(),
        ensures
            r == count_inline(self.decisions().vals()),
    {
        let n = self.decisions.len();
        let mut c: usize = 0;
        let mut i: usize = 0;
        while i < n
            invariant
                self.wf(),
                n == self.decisions().vals().len(),
                i <= n,
                c == count_inline(self.decisions().vals().take(i as int)),
                c <= i,
            decreases n - i,
        {
            let d = *self.decisions.val_at(i);
            proof {
                let t = self.decisions().vals().take(i + 1);
                assert(t.drop_last() == self.decisions().vals().take(i as int));
            }
            if d == InliningDecision::Inline {
                c = c + 1;
            }
            i += 1;
        }
        assert(self.decisions().vals().take(n as int) == self.decisions().vals());
        c
    }

    /// Current code size estimate.
    pub fn current_size(&self) -> (r: usize)
        ensures
            r == self.current(),
    {
        self.current_code_size
    }

    /// Remaining code size budget (none once the estimate exceeds it).
    pub fn remaining_budget(&self) -> (r: usize)
        ensures
            r == (if self.current() > self.budget() {
                0
            } else {
                (self.budget() - self.current()) as nat
            }),
    {
        if self.current_code_size > self.code_size_budget {
            0
        } else {
            self.code_size_budget - self.current_code_size
        }
    }

    /// Whether a decision is stored for the call from `caller` to `callee`.
    pub fn has_decision(&self, caller: &str, callee: &str) -> (r: bool)
        requires
            self.wf(),
        ensures
            r == self.decisions().has(decision_key(caller@, callee@)),
    {
        let mut kc = chars_of(caller);
        append_str(&mut kc, "::");
        append_str(&mut kc, callee);
        let key = string_of(kc.as_slice());
        assert(key@ =~= decision_key(caller@, callee@));
        self.decisions.contains_key(key.as_str())
    }

    /// Whether `callee` has been recorded as called by someone.
    pub fn has_callers(&self, callee: &str) -> (r: bool)
        requires
            self.wf(),
        ensures
            r == self.reverse_call_graph().has(callee@),
    {
        self.reverse_call_graph.contains_key(callee)
    }
}

/// Tiny and small functions.
pub open spec fn small_pred() -> spec_fn(FunctionMetadata) -> bool {
    |f: FunctionMetadata| f.size == FunctionSize::Tiny || f.size == FunctionSize::Small
}

/// `cg` records a call from `a` to `b`.
pub open spec fn calls(cg: NameMap<Vec<String>>, a: Seq<char>, b: Seq<char>) -> bool {
    cg.has(a) && views(cg.at(a)@).contains(b)
}

/// `p` is a non-empty walk along the calls of `cg`.
pub open spec fn call_walk(cg: NameMap<Vec<String>>, p: Seq<Seq<char>>) -> bool {
    &&& p.len() > 0
    &&& forall|i: int, j: int| #![trigger p[i], p[j]] 0 <= i && j == i + 1 && j < p.len() ==> calls(cg, p[i], p[j])
}

/// `f` lies on a call cycle: a walk of one call or more leads from `f` back to `f`, so `f`
/// is recursive, directly or indirectly.
pub open spec fn on_call_cycle(cg: NameMap<Vec<String>>, f: Seq<char>) -> bool {
    exists|p: Seq<Seq<char>>| #[trigger] call_walk(cg, p) && p.len() >= 2 && p[0] == f && p.last() == f
}

/// The names of `ks` that lie on a call cycle, in order.
pub open spec fn recursive_names(cg: NameMap<Vec<String>>, ks: Seq<Seq<char>>) -> Seq<Seq<char>>
    decreases ks.len(),
{
    if ks.len() == 0 {
        seq![]
    } else {
        let r = recursive_names(cg, ks.drop_last());
        if on_call_cycle(cg, ks.last()) {
            r.push(ks.last())
        } else {
            r
        }
    }
}

/// Every decision already taken stays; every new decision is the one taken fresh for some
/// call.
pub open spec fn decisions_extend(
    d0: NameMap<InliningDecision>,
    d1: NameMap<InliningDecision>,
    opt: InliningOptimizer,
) -> bool {
    &&& forall|k: Seq<char>| #[trigger] d0.has(k) ==> d1.has(k) && d1.at(k) == d0.at(k)
    &&& forall|k: Seq<char>|
        #[trigger] d1.has(k) && !d0.has(k) ==> exists|c: Seq<char>, e: Seq<char>|
            k == decision_key(c, e) && opt.functions().has(e) && d1.at(k) == opt.decision_for(e)
}

proof fn lemma_extend_step(
    d0: NameMap<InliningDecision>,
    d1: NameMap<InliningDecision>,
    d2: NameMap<InliningDecision>,
    opt: InliningOptimizer,
    caller: Seq<char>,
    callee: Seq<char>,
)
    requires
        d1.wf(),
        d2.wf(),
        decisions_extend(d0, d1, opt),
        d1.has(decision_key(caller, callee)) ==> d2 == d1,
        !d1.has(decision_key(caller, callee)) ==> (opt.functions().has(callee) ==> d2.keys()
            == d1.keys().push(decision_key(caller, callee)) && d2.vals() == d1.vals().push(
            opt.decision_for(callee),
        )) && (!opt.functions().has(callee) ==> d2 == d1),
    ensures
        decisions_extend(d0, d2, opt),
        opt.functions().has(callee) ==> d2.has(decision_key(caller, callee)),
        forall|k: Seq<char>| d1.has(k) ==> #[trigger] d2.has(k),
{
    let key = decision_key(caller, callee);
    if !d1.has(key) && opt.functions().has(callee) {
        assert(d2.keys()[d1.keys().len() as int] == key);
        assert(d2.has(key));
        assert forall|k: Seq<char>| #[trigger] d1.has(k) implies d2.has(k) && d2.at(k) == d1.at(k) by {
            let j = d1.keys().index_of(k);
            assert(d1.keys()[j] == k);
            assert(d2.keys()[j] == k);
            let jj = d2.keys().index_of(k);
            assert(d2.keys()[jj] == k);
            assert(jj == j);
        }
        let kk = d2.keys().index_of(key);
        assert(d2.keys()[kk] == key);
        assert(kk == d1.keys().len());
        assert(d2.at(key) == opt.decision_for(callee));
        assert forall|k: Seq<char>| #[trigger] d2.has(k) && !d0.has(k) implies exists|
            c: Seq<char>,
            e: Seq<char>,
        | k == decision_key(c, e) && opt.functions().has(e) && d2.at(k) == opt.decision_for(e) by {
            if k == key {
                assert(k == decision_key(caller, callee) && opt.functions().has(callee) && d2.at(k)
                    == opt.decision_for(callee));
            } else {
                let jj = d2.keys().index_of(k);
                assert(d2.keys()[jj] == k);
                assert(jj < d1.keys().len());
                assert(d1.keys()[jj] == k);
                assert(d1.has(k));
            }
        }
    }
}

/// A copy of a string's text.
fn copy_str(s: &String) -> (r: String)
    ensures
        r@ == s@,
{
    lit(s.as_str())
}

/// Calls recorded from `from`: the list under `from` grows by `to` (a new list when
/// `from` had none); other lists stay.
pub open spec fn edges_added(
    g0: NameMap<Vec<String>>,
    g1: NameMap<Vec<String>>,
    from: Seq<char>,
    to: Seq<char>,
) -> bool {
    &&& g1.has(from)
    &&& views(g1.at(from)@) == (if g0.has(from) {
        views(g0.at(from)@).push(to)
    } else {
        seq![to]
    })
    &&& forall|k: Seq<char>| k != from ==> #[trigger] g1.lookup(k) == g0.lookup(k)
    &&& g0.has(from) ==> g1.keys() == g0.keys()
    &&& !g0.has(from) ==> g1.keys() == g0.keys().push(from)
}

/// After an insert, the map holds the new value under the key and the old ones elsewhere.
pub proof fn lemma_map_insert<V>(m0: NameMap<V>, m1: NameMap<V>, k: Seq<char>, v: V)
    requires
        m0.wf(),
        m1.wf(),
        m0.has(k) ==> m1.keys() == m0.keys() && m1.vals() == m0.vals().update(
            m0.keys().index_of(k),
            v,
        ),
        !m0.has(k) ==> m1.keys() == m0.keys().push(k) && m1.vals() == m0.vals().push(v),
    ensures
        m1.has(k),
        m1.at(k) == v,
        forall|x: Seq<char>| x != k ==> #[trigger] m1.lookup(x) == m0.lookup(x),
{
    if m0.has(k) {
        let i = m0.keys().index_of(k);
        assert(m0.keys()[i] == k);
        assert(m1.keys()[i] == k);
        let j = m1.keys().index_of(k);
        assert(m1.keys()[j] == k);
        assert(i == j);
    } else {
        let n = m0.keys().len() as int;
        assert(m1.keys()[n] == k);
        let j = m1.keys().index_of(k);
        assert(m1.keys()[j] == k);
        assert(j == n);
    }
    assert forall|x: Seq<char>| x != k implies #[trigger] m1.lookup(x) == m0.lookup(x) by {
        if m0.has(x) {
            let i = m0.keys().index_of(x);
            assert(m0.keys()[i] == x);
            assert(m1.keys()[i] == x);
            let j = m1.keys().index_of(x);
            assert(m1.keys()[j] == x);
            assert(i == j);
        }
        if m1.has(x) {
            let j = m1.keys().index_of(x);
            assert(m1.keys()[j] == x);
            if !m0.has(k) {
                assert(j != m0.keys().len());
            }
            assert(m0.keys()[j] == x);
        }
    }
}

/// Takes the metadata at position `i` out of the map, leaving a placeholder.
fn take_metadata(m: &mut NameMap<FunctionMetadata>, i: usize) -> (r: FunctionMetadata)
    requires
        old(m).wf(),
        i < old(m).keys().len(),
    ensures
        final(m).wf(),
        final(m).keys() == old(m).keys(),
        final(m).vals() == old(m).vals().update(i as int, final(m).vals()[i as int]),
        r == old(m).vals()[i as int],
{
    let placeholder = FunctionMetadata::new(String::new(), FunctionSize::Tiny, 0);
    m.replace_val(i, placeholder)
}

/// Appends `to` to the list under `from`, creating the list when needed.
fn add_edge(g: &mut NameMap<Vec<String>>, from: &str, to: &str)
    requires
        old(g).wf(),
    ensures
        final(g).wf(),
        edges_added(*old(g), *final(g), from@, to@),
{
    let ghost g0 = *g;
    match g.index_of(from) {
        Some(i) => {
            let empty: Vec<String> = Vec::new();
            let mut list = g.replace_val(i, empty);
            let ghost l0 = list@;
            list.push(lit(to));
            assert(views(list@) =~= views(l0).push(to@));
            g.set_val(i, list);
            proof {
                assert(g.vals() =~= g0.vals().update(i as int, list));
                lemma_map_insert(g0, *g, from@, list);
            }
        },
        None => {
            let mut list: Vec<String> = Vec::new();
            list.push(lit(to));
            assert(views(list@) =~= seq![to@]);
            g.insert(lit(from), list);
            proof {
                lemma_map_insert(g0, *g, from@, list);
            }
        },
    }
}

/// The call graph with each call list as a set of names.
fn call_set_graph(cg: &NameMap<Vec<String>>) -> (g: NameMap<NameSet>)
    requires
        cg.wf(),
    ensures
        g.wf(),
        forall|a: Seq<char>, b: Seq<char>| #[trigger] edge(g, a, b) <==> calls(*cg, a, b),
{
    let ghost ks = cg.keys();
    let ghost vs = cg.vals();
    let mut g: NameMap<NameSet> = NameMap::new();
    let n = cg.len();
    let mut i: usize = 0;
    while i < n
        invariant
            cg.wf(),
            ks == cg.keys(),
            vs == cg.vals(),
            n == ks.len(),
            i <= n,
            g.wf(),
            g.keys() == ks.take(i as int),
            g.vals().len() == i,
            forall|k: int, x: Seq<char>| 0 <= k < i ==> (#[trigger] g.vals()[k].has(x) <==> views(vs[k]@).contains(x)),
        decreases n - i,
    {
        let name = cg.key_at(i);
        let set = NameSet::from_vec(cg.val_at(i));
        proof {
            assert(!ks.take(i as int).contains(ks[i as int])) by {
                if ks.take(i as int).contains(ks[i as int]) {
                    let k = choose|k: int| 0 <= k < i && ks.take(i as int)[k] == ks[i as int];
                    assert(ks[k] == ks[i as int]);
                }
            }
        }
        let ghost gv = g.vals();
        g.insert(lit(name.as_str()), set);
        proof {
            assert(ks.take(i + 1) =~= ks.take(i as int).push(ks[i as int]));
            assert forall|k: int, x: Seq<char>| 0 <= k < i + 1 implies (#[trigger] g.vals()[k].has(x) <==> views(
                vs[k]@,
            ).contains(x)) by {
                if k < i {
                    assert(g.vals()[k] == gv[k]);
                }
            }
        }
        i += 1;
    }
    assert(ks.take(n as int) =~= ks);
    assert forall|a: Seq<char>, b: Seq<char>| #[trigger] edge(g, a, b) <==> calls(*cg, a, b) by {
        if cg.has(a) {
            crate::names::lemma_index_of(ks, a);
        }
    }
    g
}

/// `f` is on a call cycle exactly when it reaches itself from one of its callees.
proof fn lemma_cycle_by_callees(cg: NameMap<Vec<String>>, g: NameMap<NameSet>, f: Seq<char>)
    requires
        forall|a: Seq<char>, b: Seq<char>| #[trigger] edge(g, a, b) <==> calls(cg, a, b),
        cg.has(f),
    ensures
        on_call_cycle(cg, f) <==> reachable(g, views(cg.at(f)@), f),
{
    if on_call_cycle(cg, f) {
        let p = choose|p: Seq<Seq<char>>| #[trigger] call_walk(cg, p) && p.len() >= 2 && p[0] == f && p.last() == f;
        let q = p.drop_first();
        assert forall|i: int, j: int| #![trigger q[i], q[j]] 0 <= i && j == i + 1 && j < q.len() implies edge(g, q[i], q[j]) by {
            assert(q[i] == p[i + 1] && q[j] == p[j + 1]);
            assert(calls(cg, p[i + 1], p[i + 2]));
        }
        assert(calls(cg, p[0], p[1]));
        assert(q[0] == p[1]);
        assert(is_path(g, q));
    }
    if reachable(g, views(cg.at(f)@), f) {
        let q = choose|q: Seq<Seq<char>>| #[trigger] is_path(g, q) && views(cg.at(f)@).contains(q[0]) && q.last() == f;
        let p = seq![f] + q;
        assert forall|i: int, j: int| #![trigger p[i], p[j]] 0 <= i && j == i + 1 && j < p.len() implies calls(cg, p[i], p[j]) by {
            if i == 0 {
                assert(p[j] == q[0]);
            } else {
                assert(p[i] == q[i - 1] && p[j] == q[j - 1]);
                assert(edge(g, q[i - 1], q[j - 1]));
            }
        }
        assert(call_walk(cg, p));
        assert(p.last() == q.last());
    }
}

/// The functions that lie on a call cycle, directly or through others, in call-graph order.
pub fn detect_recursion(call_graph: &NameMap<Vec<String>>) -> (r: NameSet)
    requires
        call_graph.wf(),
    ensures
        r.wf(),
        r.elems() == recursive_names(*call_graph, call_graph.keys()),
{
    let ghost ks = call_graph.keys();
    let g = call_set_graph(call_graph);
    let mut r = NameSet::new();
    let n = call_graph.len();
    let mut i: usize = 0;
    while i < n
        invariant
            call_graph.wf(),
            g.wf(),
            forall|a: Seq<char>, b: Seq<char>| #[trigger] edge(g, a, b) <==> calls(*call_graph, a, b),
            r.wf(),
            i <= n,
            n == ks.len(),
            ks == call_graph.keys(),
            r.elems() == recursive_names(*call_graph, ks.take(i as int)),
            forall|a: int| 0 <= a < r.elems().len() ==> exists|b: int| 0 <= b < i && ks[b] == #[trigger] r.elems()[a],
        decreases n - i,
    {
        assert(ks.take(i + 1).drop_last() =~= ks.take(i as int));
        let name = call_graph.key_at(i);
        let callees = call_graph.val_at(i);
        let mut entries: Vec<&str> = Vec::new();
        let mut j: usize = 0;
        while j < callees.len()
            invariant
                j <= callees@.len(),
                strs(entries@) == views(callees@).take(j as int),
            decreases callees.len() - j,
        {
            let ghost before = entries@;
            entries.push(callees[j].as_str());
            assert(strs(entries@) =~= strs(before).push(callees@[j as int]@));
            assert(views(callees@).take(j + 1) =~= views(callees@).take(j as int).push(callees@[j as int]@));
            j += 1;
        }
        assert(views(callees@).take(callees@.len() as int) =~= views(callees@));
        let reach = reachable_from(&g, entries.as_slice());
        proof {
            assert(call_graph.has(name@)) by {
                assert(ks[i as int] == name@);
            }
            crate::names::lemma_index_of(ks, name@);
            lemma_cycle_by_callees(*call_graph, g, name@);
        }
        if reach.contains(name.as_str()) {
            let ghost before = r.elems();
            proof {
                assert(!before.contains(name@)) by {
                    if before.contains(name@) {
                        let a = choose|a: int| 0 <= a < before.len() && before[a] == name@;
                        let b = choose|b: int| 0 <= b < i && ks[b] == before[a];
                        assert(ks[b] == ks[i as int]);
                    }
                }
            }
            r.insert(lit(name.as_str()));
            assert forall|a: int| 0 <= a < r.elems().len() implies exists|b: int|
                0 <= b < i + 1 && ks[b] == #[trigger] r.elems()[a] by {
                if a == before.len() {
                    assert(ks[i as int] == r.elems()[a]);
                } else {
                    assert(r.elems()[a] == before[a]);
                }
            }
        }
        i += 1;
    }
    assert(ks.take(n as int) =~= ks);
    r
}

} // verus!
