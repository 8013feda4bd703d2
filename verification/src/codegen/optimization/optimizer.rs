//! Expression-level optimizations: integer constant folding, dead definitions,
//! common subexpressions, inlining by size, and strength reduction.
use vstd::prelude::*;
use crate::names::{
    NameMap, NameSet, copy_string, lemma_index_of, lemma_insert_facts, lemma_select_full, lemma_select_step,
    select, str_eq, views,
};
use crate::text::{cat_num, cat_str, dec, lit};

verus! {

/// How hard the optimizer works.
#[derive(Debug, Clone, Copy, PartialEq, Eq, Structural)]
pub enum OptimizationLevel {
    Off,
    Basic,
    Aggressive,
    Extreme,
}

/// Why an optimization could not be applied.
#[derive(Debug, Clone, PartialEq, Eq)]
pub enum OptimizationError {
    InvalidOptimization(String),
    AnalysisFailed(String),
    TransformationFailed(String),
}

/// The value of a folded integer expression.
#[derive(Debug, Clone, Copy, PartialEq, Eq, Structural)]
pub enum FoldedValue {
    Integer(i64),
    Boolean(bool),
}

/// Division rounding toward zero, as Rust's `/` on integers does.
pub open spec fn trunc_div(x: int, d: int) -> int {
    if x == 0 {
        0
    } else if x > 0 && d > 0 {
        x / d
    } else if x < 0 && d < 0 {
        (-x) / (-d)
    } else if x < 0 {
        -((-x) / d)
    } else {
        -(x / (-d))
    }
}

/// The remainder of division rounding toward zero: it has the sign of `x`.
pub open spec fn trunc_rem(x: int, d: int) -> int {
    if x == 0 {
        0
    } else if x > 0 && d > 0 {
        x % d
    } else if x < 0 && d < 0 {
        -((-x) % (-d))
    } else if x < 0 {
        -((-x) % d)
    } else {
        x % (-d)
    }
}

/// The arithmetic of `l op r` stays within `i64` (Rust would panic otherwise).
pub open spec fn fold_in_range(l: i64, op: Seq<char>, r: i64) -> bool {
    &&& op == "+"@ ==> i64::MIN <= l + r <= i64::MAX
    &&& op == "-"@ ==> i64::MIN <= l - r <= i64::MAX
    &&& op == "*"@ ==> i64::MIN <= l * r <= i64::MAX
    &&& (op == "/"@ || op == "%"@) ==> !(l == i64::MIN && r == -1)
}

/// Folds `l op r` for two integer constants. Division and remainder truncate toward zero.
pub fn fold_integer_binary_op(l: i64, op: &str, r: i64) -> (res: Result<Option<FoldedValue>, OptimizationError>)
    requires
        fold_in_range(l, op@, r),
    ensures
        match res {
            Ok(Some(FoldedValue::Integer(v))) => (op@ == "+"@ && v == l + r) || (op@ == "-"@ && v == l - r) || (
            op@ == "*"@ && v == l * r) || (op@ == "/"@ && r != 0 && v == trunc_div(l as int, r as int)) || (op@
                == "%"@ && r != 0 && v == trunc_rem(l as int, r as int)) || (op@ == "&"@ && v == l & r) || (op@
                == "|"@ && v == l | r) || (op@ == "^"@ && v == l ^ r),
            Ok(Some(FoldedValue::Boolean(b))) => (op@ == "=="@ && b == (l == r)) || (op@ == "!="@ && b == (l != r))
                || (op@ == "<"@ && b == (l < r)) || (op@ == "<="@ && b == (l <= r)) || (op@ == ">"@ && b == (l > r))
                || (op@ == ">="@ && b == (l >= r)),
            Ok(None) => (op@ == "/"@ || op@ == "%"@) && r == 0,
            Err(e) => !known_operator(op@) && (e matches OptimizationError::InvalidOptimization(m)
                && m@ == unknown_operator_text(op@)),
        },
        res is Err <==> !known_operator(op@),
        known_operator(op@) && !((op@ == "/"@ || op@ == "%"@) && r == 0) ==> res matches Ok(Some(_)),
{
    if str_eq(op, "+") {
        Ok(Some(FoldedValue::Integer(l + r)))
    } else if str_eq(op, "-") {
        Ok(Some(FoldedValue::Integer(l - r)))
    } else if str_eq(op, "*") {
        Ok(Some(FoldedValue::Integer(l * r)))
    } else if str_eq(op, "/") {
        if r == 0 {
            Ok(None)
        } else {
            match l.checked_div(r) {
                Some(q) => Ok(Some(FoldedValue::Integer(q))),
                None => {
                    proof {
                        lemma_trunc_div_range(l, r);
                    }
                    Ok(None)
                },
            }
        }
    } else if str_eq(op, "%") {
        if r == 0 {
            Ok(None)
        } else {
            match l.checked_rem(r) {
                Some(m) => Ok(Some(FoldedValue::Integer(m))),
                None => {
                    proof {
                        lemma_trunc_rem_range(l, r);
                    }
                    Ok(None)
                },
            }
        }
    } else if str_eq(op, "==") {
        Ok(Some(FoldedValue::Boolean(l == r)))
    } else if str_eq(op, "!=") {
        Ok(Some(FoldedValue::Boolean(l != r)))
    } else if str_eq(op, "<") {
        Ok(Some(FoldedValue::Boolean(l < r)))
    } else if str_eq(op, "<=") {
        Ok(Some(FoldedValue::Boolean(l <= r)))
    } else if str_eq(op, ">") {
        Ok(Some(FoldedValue::Boolean(l > r)))
    } else if str_eq(op, ">=") {
        Ok(Some(FoldedValue::Boolean(l >= r)))
    } else if str_eq(op, "&") {
        Ok(Some(FoldedValue::Integer(l & r)))
    } else if str_eq(op, "|") {
        Ok(Some(FoldedValue::Integer(l | r)))
    } else if str_eq(op, "^") {
        Ok(Some(FoldedValue::Integer(l ^ r)))
    } else {
        Err(OptimizationError::InvalidOptimization(cat_str("Unknown operator: ", op, "")))
    }
}

proof fn lemma_trunc_div_range(l: i64, r: i64)
    requires
        r != 0,
        !(l == i64::MIN && r == -1),
    ensures
        i64::MIN <= trunc_div(l as int, r as int) <= i64::MAX,
{
    let x = l as int;
    let d = r as int;
    if x > 0 && d > 0 {
        assert(0 <= x / d <= x) by (nonlinear_arith)
            requires
                x > 0,
                d > 0,
        ;
    } else if x < 0 && d < 0 {
        assert(0 <= (-x) / (-d) <= -x) by (nonlinear_arith)
            requires
                -x > 0,
                -d > 0,
        ;
        if d == -1 {
            assert(x > i64::MIN);
        } else {
            assert((-x) / (-d) <= (-x) / 2) by (nonlinear_arith)
                requires
                    -x > 0,
                    -d >= 2,
            ;
        }
    } else if x < 0 {
        assert(0 <= (-x) / d <= -x) by (nonlinear_arith)
            requires
                -x > 0,
                d > 0,
        ;
    } else if x > 0 {
        assert(0 <= x / (-d) <= x) by (nonlinear_arith)
            requires
                x > 0,
                -d > 0,
        ;
    }
}

proof fn lemma_trunc_rem_range(l: i64, r: i64)
    requires
        r != 0,
        !(l == i64::MIN && r == -1),
    ensures
        i64::MIN <= trunc_rem(l as int, r as int) <= i64::MAX,
{
    let x = l as int;
    let d = r as int;
    if x > 0 && d > 0 {
        assert(0 <= x % d < d) by (nonlinear_arith)
            requires
                d > 0,
        ;
    } else if x < 0 && d < 0 {
        assert(0 <= (-x) % (-d) < -d) by (nonlinear_arith)
            requires
                -d > 0,
        ;
    } else if x < 0 {
        assert(0 <= (-x) % d < d) by (nonlinear_arith)
            requires
                d > 0,
        ;
    } else if x > 0 {
        assert(0 <= x % (-d) < -d) by (nonlinear_arith)
            requires
                -d > 0,
        ;
    }
}

/// The operators integer folding knows.
pub open spec fn known_operator(op: Seq<char>) -> bool {
    op == "+"@ || op == "-"@ || op == "*"@ || op == "/"@ || op == "%"@ || op == "=="@ || op == "!="@ || op == "<"@
        || op == "<="@ || op == ">"@ || op == ">="@ || op == "&"@ || op == "|"@ || op == "^"@
}

/// The message for an operator folding does not know.
pub open spec fn unknown_operator_text(op: Seq<char>) -> Seq<char> {
    "Unknown operator: "@ + op + ""@
}

/// Folds a unary operator on a constant: integer negation and boolean not.
pub fn fold_unary_op(op: &str, value: FoldedValue) -> (res: Option<FoldedValue>)
    requires
        op@ == "-"@ && value is Integer ==> value->Integer_0 != i64::MIN,
    ensures
        res == (if op@ == "-"@ && value is Integer {
            Some(FoldedValue::Integer((-value->Integer_0) as i64))
        } else if op@ == "!"@ && value is Boolean {
            Some(FoldedValue::Boolean(!value->Boolean_0))
        } else {
            None
        }),
{
    match value {
        FoldedValue::Integer(n) => if str_eq(op, "-") {
            Some(FoldedValue::Integer(-n))
        } else {
            None
        },
        FoldedValue::Boolean(b) => if str_eq(op, "!") {
            Some(FoldedValue::Boolean(!b))
        } else {
            None
        },
    }
}

/// Counts of what the optimizer did.
#[derive(Debug, Clone, Copy)]
pub struct OptimizationStats {
    pub constants_folded: usize,
    pub dead_code_removed: usize,
    pub expressions_inlined: usize,
    pub subexpressions_eliminated: usize,
    pub bytes_saved: usize,
}

impl OptimizationStats {
    pub fn new() -> (r: Self)
        ensures
            r.constants_folded == 0,
            r.dead_code_removed == 0,
            r.expressions_inlined == 0,
            r.subexpressions_eliminated == 0,
            r.bytes_saved == 0,
    {
        OptimizationStats {
            constants_folded: 0,
            dead_code_removed: 0,
            expressions_inlined: 0,
            subexpressions_eliminated: 0,
            bytes_saved: 0,
        }
    }

    /// Folded constants, removed dead code, inlined expressions and eliminated subexpressions.
    pub fn total_optimizations(&self) -> (r: usize)
        requires
            self.constants_folded + self.dead_code_removed + self.expressions_inlined
                + self.subexpressions_eliminated <= usize::MAX,
        ensures
            r == self.constants_folded + self.dead_code_removed + self.expressions_inlined
                + self.subexpressions_eliminated,
    {
        self.constants_folded + self.dead_code_removed + self.expressions_inlined + self.subexpressions_eliminated
    }
}

/// Finds definitions that nothing uses.
pub struct DeadCodeEliminator {
    used_vars: NameSet,
    definitions: NameMap<usize>,
}

impl DeadCodeEliminator {
    /// The variables marked used.
    pub closed spec fn used(&self) -> NameSet {
        self.used_vars
    }

    /// The line of each definition.
    pub closed spec fn defs(&self) -> NameMap<usize> {
        self.definitions
    }

    pub open spec fn wf(&self) -> bool {
        self.used().wf() && self.defs().wf()
    }

    pub fn new() -> (r: Self)
        ensures
            r.wf(),
            r.used().elems().len() == 0,
            r.defs().keys().len() == 0,
    {
        DeadCodeEliminator { used_vars: NameSet::new(), definitions: NameMap::new() }
    }

    pub fn mark_used(&mut self, var: String)
        requires
            old(self).wf(),
        ensures
            final(self).wf(),
            forall|x: Seq<char>| #[trigger] final(self).used().has(x) <==> old(self).used().has(x) || x == var@,
            final(self).defs() == old(self).defs(),
    {
        self.used_vars.insert(var);
    }

    /// Records the line that defines `var`, replacing an earlier one.
    pub fn register_definition(&mut self, var: String, line: usize)
        requires
            old(self).wf(),
        ensures
            final(self).wf(),
            final(self).used() == old(self).used(),
            final(self).defs().has(var@),
            final(self).defs().at(var@) == line,
            forall|x: Seq<char>| #[trigger] final(self).defs().has(x) <==> old(self).defs().has(x) || x == var@,
            forall|x: Seq<char>| x != var@ && old(self).defs().has(x) ==> #[trigger] final(self).defs().at(x)
                == old(self).defs().at(x),
    {
        let ghost ok = self.definitions.keys();
        let ghost ov = self.definitions.vals();
        let ghost v = var@;
        self.definitions.insert(var, line);
        proof {
            lemma_insert_facts(ok, ov, self.definitions.keys(), self.definitions.vals(), v, line);
        }
    }

    /// The defined variables that are not used, in definition order.
    pub fn find_dead_code(&self) -> (r: Vec<String>)
        requires
            self.wf(),
        ensures
            views(r@) == select(self.defs().keys(), self.defs().keys(), unused_in(self.used())),
    {
        let ks = &self.definitions;
        let ghost p = unused_in(self.used());
        let n = ks.len();
        let mut r: Vec<String> = Vec::new();
        let mut i: usize = 0;
        while i < n
            invariant
                ks.wf(),
                *ks == self.defs(),
                p == unused_in(self.used()),
                n == ks.keys().len(),
                i <= n,
                views(r@) == select(ks.keys().take(i as int), ks.keys().take(i as int), p),
            decreases n - i,
        {
            proof {
                lemma_select_step(ks.keys(), ks.keys(), p, i as int);
            }
            let k = ks.key_at(i);
            if !self.used_vars.contains(k.as_str()) {
                let ghost before = r@;
                r.push(copy_string(k));
                assert(views(r@) =~= views(before).push(k@));
            }
            i += 1;
        }
        proof {
            lemma_select_full(ks.keys(), ks.keys(), p);
        }
        r
    }

    /// Whether `var` is defined and never used.
    pub fn is_dead_code(&self, var: &str) -> (r: bool)
        requires
            self.wf(),
        ensures
            r == (self.defs().has(var@) && !self.used().has(var@)),
    {
        self.definitions.contains_key(var) && !self.used_vars.contains(var)
    }
}

/// Names not in `s`.
pub open spec fn unused_in(s: NameSet) -> spec_fn(Seq<char>) -> bool {
    |k: Seq<char>| !s.has(k)
}

/// Counts repeated expressions and gives each repeated one a temporary.
pub struct CommonSubexprEliminator {
    expressions: NameMap<usize>,
    occurrences: NameMap<usize>,
}

impl CommonSubexprEliminator {
    /// The temporary number of each repeated expression.
    pub closed spec fn temps(&self) -> NameMap<usize> {
        self.expressions
    }

    /// How often each expression was registered.
    pub closed spec fn counts(&self) -> NameMap<usize> {
        self.occurrences
    }

    /// Temporaries are numbered in the order expressions first repeated; exactly the
    /// expressions seen more than once have one.
    pub open spec fn wf(&self) -> bool {
        &&& self.temps().wf()
        &&& self.counts().wf()
        &&& forall|i: int| 0 <= i < self.temps().keys().len() ==> #[trigger] self.temps().vals()[i] == i
        &&& forall|x: Seq<char>| #[trigger] self.temps().has(x) <==> self.counts().has(x) && self.counts().at(x) > 1
    }

    pub fn new() -> (r: Self)
        ensures
            r.wf(),
            r.temps().keys().len() == 0,
            r.counts().keys().len() == 0,
    {
        CommonSubexprEliminator { expressions: NameMap::new(), occurrences: NameMap::new() }
    }

    /// Counts one more occurrence of `expr`; on its second occurrence it gets the next temporary.
    pub fn register_expression(&mut self, expr: String)
        requires
            old(self).wf(),
            old(self).counts().has(expr@) ==> old(self).counts().at(expr@) < usize::MAX,
        ensures
            final(self).wf(),
            final(self).counts().has(expr@),
            final(self).counts().at(expr@) == (if old(self).counts().has(expr@) {
                old(self).counts().at(expr@) + 1
            } else {
                1
            }),
            forall|x: Seq<char>| x != expr@ ==> (#[trigger] final(self).counts().has(x) == old(self).counts().has(x)
                && (old(self).counts().has(x) ==> final(self).counts().at(x) == old(self).counts().at(x))),
            forall|x: Seq<char>| #[trigger] old(self).temps().has(x) ==> final(self).temps().has(x)
                && final(self).temps().at(x) == old(self).temps().at(x),
    {
        let ghost ot = self.expressions;
        let ghost ok = self.occurrences.keys();
        let ghost ov = self.occurrences.vals();
        let count: usize = match self.occurrences.get(expr.as_str()) {
            Some(c) => *c + 1,
            None => 1,
        };
        self.occurrences.insert(lit(expr.as_str()), count);
        proof {
            lemma_insert_facts(ok, ov, self.occurrences.keys(), self.occurrences.vals(), expr@, count);
        }
        if count > 1 && !self.expressions.contains_key(expr.as_str()) {
            let id = self.expressions.len();
            let ghost tk = self.expressions.keys();
            let ghost tv = self.expressions.vals();
            self.expressions.insert(expr, id);
            proof {
                lemma_insert_facts(tk, tv, self.expressions.keys(), self.expressions.vals(), self.expressions.keys()[
                    tk.len() as int], id);
                assert(self.expressions.keys() == tk.push(self.expressions.keys()[tk.len() as int]));
                assert forall|x: Seq<char>| #[trigger] ot.has(x) implies self.expressions.has(x)
                    && self.expressions.at(x) == ot.at(x) by {
                    lemma_index_of(tk, x);
                    let j = tk.index_of(x);
                    assert(self.expressions.keys()[j] == x);
                    lemma_index_of(self.expressions.keys(), x);
                }
            }
        } else {
            proof {
                if count > 1 {
                    assert(self.expressions.has(expr@));
                }
            }
        }
    }

    /// Each expression seen more than once, with its count, in first-seen order.
    pub fn get_candidates(&self) -> (r: Vec<(String, usize)>)
        requires
            self.wf(),
        ensures
            r@.map_values(|e: (String, usize)| e.0@) == select(self.counts().keys(), self.counts().vals(), |c: usize| c > 1),
            forall|j: int| 0 <= j < r@.len() ==> self.counts().has(#[trigger] r@[j].0@) && r@[j].1 == self.counts().at(
                r@[j].0@,
            ),
    {
        let m = &self.occurrences;
        let ghost p = |c: usize| c > 1;
        let n = m.len();
        let mut r: Vec<(String, usize)> = Vec::new();
        let mut i: usize = 0;
        while i < n
            invariant
                self.wf(),
                m == &self.occurrences,
                n == m.keys().len(),
                i <= n,
                p == (|c: usize| c > 1),
                r@.map_values(|e: (String, usize)| e.0@) == select(m.keys().take(i as int), m.vals().take(i as int), p),
                forall|j: int| 0 <= j < r@.len() ==> m.has(#[trigger] r@[j].0@) && r@[j].1 == m.at(r@[j].0@),
            decreases n - i,
        {
            proof {
                lemma_select_step(m.keys(), m.vals(), p, i as int);
            }
            let count = *m.val_at(i);
            let k = m.key_at(i);
            if count > 1 && self.expressions.contains_key(k.as_str()) {
                let ghost before = r@;
                proof {
                    lemma_index_of(m.keys(), k@);
                }
                r.push((copy_string(k), count));
                assert(r@.map_values(|e: (String, usize)| e.0@) =~= before.map_values(|e: (String, usize)| e.0@).push(k@));
            } else {
                proof {
                    if count > 1 {
                        lemma_index_of(m.keys(), k@);
                        assert(self.temps().has(k@));
                    }
                }
            }
            i += 1;
        }
        proof {
            lemma_select_full(m.keys(), m.vals(), p);
        }
        r
    }

    /// The temporary that replaces a repeated expression: `_cse_tmp_<number>`.
    pub fn get_temp_var(&self, expr: &str) -> (r: Option<String>)
        requires
            self.wf(),
        ensures
            match r {
                Some(s) => self.temps().has(expr@) && s@ == "_cse_tmp_"@ + dec(self.temps().at(expr@) as nat) + ""@,
                None => !self.temps().has(expr@),
            },
    {
        match self.expressions.get(expr) {
            Some(id) => Some(cat_num("_cse_tmp_", *id, "")),
            None => None,
        }
    }
}

/// Decides inlining by a size threshold.
pub struct FunctionInliner {
    functions: NameMap<(usize, String)>,
    inline_threshold: usize,
}

/// A function whose size is within the threshold.
pub open spec fn within(threshold: usize) -> spec_fn((usize, String)) -> bool {
    |f: (usize, String)| f.0 <= threshold
}

impl FunctionInliner {
    /// The size and body of each registered function.
    pub closed spec fn functions(&self) -> NameMap<(usize, String)> {
        self.functions
    }

    pub closed spec fn threshold(&self) -> usize {
        self.inline_threshold
    }

    pub fn new(inline_threshold: usize) -> (r: Self)
        ensures
            r.functions().wf(),
            r.functions().keys().len() == 0,
            r.threshold() == inline_threshold,
    {
        FunctionInliner { functions: NameMap::new(), inline_threshold }
    }

    /// Registers a function's size and body, replacing an earlier one of that name.
    pub fn register_function(&mut self, name: String, size: usize, body: String)
        requires
            old(self).functions().wf(),
        ensures
            final(self).functions().wf(),
            final(self).threshold() == old(self).threshold(),
            final(self).functions().has(name@),
            final(self).functions().at(name@).0 == size,
            final(self).functions().at(name@).1@ == body@,
            forall|x: Seq<char>| #[trigger] final(self).functions().has(x) <==> old(self).functions().has(x) || x
                == name@,
            forall|x: Seq<char>| x != name@ && old(self).functions().has(x) ==> #[trigger] final(self).functions().at(x)
                == old(self).functions().at(x),
    {
        let ghost ok = self.functions.keys();
        let ghost ov = self.functions.vals();
        let ghost n = name@;
        let ghost v = (size, body);
        self.functions.insert(name, (size, body));
        proof {
            lemma_insert_facts(ok, ov, self.functions.keys(), self.functions.vals(), n, v);
        }
    }

    /// Whether the named function is registered and within the threshold.
    pub fn should_inline(&self, name: &str) -> (r: bool)
        requires
            self.functions().wf(),
        ensures
            r == (self.functions().has(name@) && self.functions().at(name@).0 <= self.threshold()),
    {
        match self.functions.get(name) {
            Some(f) => f.0 <= self.inline_threshold,
            None => false,
        }
    }

    /// The body of the named function.
    pub fn get_inlined_body(&self, name: &str) -> (r: Option<String>)
        requires
            self.functions().wf(),
        ensures
            match r {
                Some(b) => self.functions().has(name@) && b@ == self.functions().at(name@).1@,
                None => !self.functions().has(name@),
            },
    {
        match self.functions.get(name) {
            Some(f) => Some(copy_string(&f.1)),
            None => None,
        }
    }

    /// How many registered functions are within the threshold.
    pub fn count_inlinable(&self) -> (r: usize)
        requires
            self.functions().wf(),
        ensures
            r == select(self.functions().keys(), self.functions().vals(), within(self.threshold())).len(),
    {
        let m = &self.functions;
        let ghost p = within(self.inline_threshold);
        let n = m.len();
        let mut count: usize = 0;
        let mut i: usize = 0;
        while i < n
            invariant
                m.wf(),
                n == m.keys().len(),
                i <= n,
                p == within(self.threshold()),
                m == &self.functions,
                count == select(m.keys().take(i as int), m.vals().take(i as int), p).len(),
                count <= i,
            decreases n - i,
        {
            proof {
                lemma_select_step(m.keys(), m.vals(), p, i as int);
            }
            if m.val_at(i).0 <= self.inline_threshold {
                count += 1;
            }
            i += 1;
        }
        proof {
            lemma_select_full(m.keys(), m.vals(), p);
        }
        count
    }
}

/// The shift that replaces `op right`, for multiplying or dividing by 2 or 4.
pub open spec fn shift_for(op: Seq<char>, right: Seq<char>) -> Option<Seq<char>> {
    if op == "*"@ && right == "2"@ {
        Some(" << 1"@)
    } else if op == "/"@ && right == "2"@ {
        Some(" >> 1"@)
    } else if op == "*"@ && right == "4"@ {
        Some(" << 2"@)
    } else if op == "/"@ && right == "4"@ {
        Some(" >> 2"@)
    } else {
        None
    }
}

/// Replaces multiplications and divisions by powers of two with shifts.
pub struct StrengthReducer {
    reductions: NameMap<String>,
}

impl StrengthReducer {
    /// The registered rewrites.
    pub closed spec fn reductions(&self) -> NameMap<String> {
        self.reductions
    }

    pub fn new() -> (r: Self)
        ensures
            r.reductions().wf(),
            r.reductions().keys().len() == 0,
    {
        StrengthReducer { reductions: NameMap::new() }
    }

    /// Registers the rewrite of `from` into `to`, replacing an earlier one.
    pub fn register_reduction(&mut self, from: String, to: String)
        requires
            old(self).reductions().wf(),
        ensures
            final(self).reductions().wf(),
            final(self).reductions().has(from@),
            final(self).reductions().at(from@)@ == to@,
            forall|x: Seq<char>| #[trigger] final(self).reductions().has(x) <==> old(self).reductions().has(x) || x
                == from@,
            forall|x: Seq<char>| x != from@ && old(self).reductions().has(x) ==> #[trigger] final(self).reductions().at(x)
                == old(self).reductions().at(x),
    {
        let ghost ok = self.reductions.keys();
        let ghost ov = self.reductions.vals();
        let ghost n = from@;
        let ghost v = to;
        self.reductions.insert(from, to);
        proof {
            lemma_insert_facts(ok, ov, self.reductions.keys(), self.reductions.vals(), n, v);
        }
    }

    /// `left << 1` for `* 2`, `left >> 1` for `/ 2`, `left << 2` for `* 4`, `left >> 2` for `/ 4`;
    /// nothing otherwise.
    pub fn reduce_operation(&self, op: &str, left: &str, right: &str) -> (r: Result<Option<String>, OptimizationError>)
        ensures
            match r {
                Ok(Some(s)) => shift_for(op@, right@) is Some && s@ == left@ + shift_for(op@, right@)->Some_0,
                Ok(None) => shift_for(op@, right@) is None,
                Err(_) => false,
            },
    {
        proof {
            crate::text::lemma_empty_str();
            assert(""@ + left@ =~= left@);
        }
        if str_eq(op, "*") && str_eq(right, "2") {
            Ok(Some(cat_str("", left, " << 1")))
        } else if str_eq(op, "/") && str_eq(right, "2") {
            Ok(Some(cat_str("", left, " >> 1")))
        } else if str_eq(op, "*") && str_eq(right, "4") {
            Ok(Some(cat_str("", left, " << 2")))
        } else if str_eq(op, "/") && str_eq(right, "4") {
            Ok(Some(cat_str("", left, " >> 2")))
        } else {
            Ok(None)
        }
    }

    pub fn has_reduction(&self, expr: &str) -> (r: bool)
        requires
            self.reductions().wf(),
        ensures
            r == self.reductions().has(expr@),
    {
        self.reductions.contains_key(expr)
    }

    pub fn get_reduction(&self, expr: &str) -> (r: Option<&String>)
        requires
            self.reductions().wf(),
        ensures
            match r {
                Some(s) => self.reductions().has(expr@) && *s == self.reductions().at(expr@),
                None => !self.reductions().has(expr@),
            },
    {
        self.reductions.get(expr)
    }
}

/// The optimizer driver: a level and the counts of what it did.
pub struct Optimizer {
    pub level: OptimizationLevel,
    pub stats: OptimizationStats,
}

impl Optimizer {
    pub fn new(level: OptimizationLevel) -> (r: Self)
        ensures
            r.level == level,
            r.stats == OptimizationStats::new_spec(),
    {
        Optimizer { level, stats: OptimizationStats::new() }
    }

    pub fn get_stats(&self) -> (r: OptimizationStats)
        ensures
            r == self.stats,
    {
        self.stats
    }

    /// Hands the expression back unchanged (no folding applies to free text); at the aggressive
    /// level counts one subexpression pass, at the extreme level also one inlining pass.
    pub fn optimize_expression(&mut self, expr: &str) -> (r: Result<(String, bool), OptimizationError>)
        requires
            old(self).level == OptimizationLevel::Aggressive || old(self).level == OptimizationLevel::Extreme
                ==> old(self).stats.subexpressions_eliminated < usize::MAX,
            old(self).level == OptimizationLevel::Extreme ==> old(self).stats.expressions_inlined < usize::MAX,
        ensures
            r matches Ok((s, changed)) && s@ == expr@ && !changed,
            final(self).level == old(self).level,
            final(self).stats.constants_folded == old(self).stats.constants_folded,
            final(self).stats.dead_code_removed == old(self).stats.dead_code_removed,
            final(self).stats.bytes_saved == old(self).stats.bytes_saved,
            final(self).stats.subexpressions_eliminated == old(self).stats.subexpressions_eliminated + (if old(
                self,
            ).level == OptimizationLevel::Aggressive || old(self).level == OptimizationLevel::Extreme {
                1int
            } else {
                0int
            }),
            final(self).stats.expressions_inlined == old(self).stats.expressions_inlined + (if old(self).level
                == OptimizationLevel::Extreme {
                1int
            } else {
                0int
            }),
    {
        let optimized = lit(expr);
        match self.level {
            OptimizationLevel::Off => {},
            OptimizationLevel::Basic => {},
            OptimizationLevel::Aggressive => {
                self.stats.subexpressions_eliminated += 1;
            },
            OptimizationLevel::Extreme => {
                self.stats.subexpressions_eliminated += 1;
                self.stats.expressions_inlined += 1;
            },
        }
        Ok((optimized, false))
    }

    pub fn set_optimization_level(&mut self, level: OptimizationLevel)
        ensures
            final(self).level == level,
            final(self).stats == old(self).stats,
    {
        self.level = level;
    }
}

impl OptimizationStats {
    /// All counts zero.
    pub open spec fn new_spec() -> OptimizationStats {
        OptimizationStats {
            constants_folded: 0,
            dead_code_removed: 0,
            expressions_inlined: 0,
            subexpressions_eliminated: 0,
            bytes_saved: 0,
        }
    }
}

} // verus!
