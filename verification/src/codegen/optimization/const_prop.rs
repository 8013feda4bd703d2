//! Constant propagation over line-oriented IR: named constants, folding of binary
//! operations between them, and rewriting of assignments whose operands are known.
use vstd::prelude::*;
use crate::codegen::optimization::optimizer::{trunc_div, trunc_rem};
use crate::names::{NameMap, copy_string, lemma_insert_facts};
use crate::text::{
    append_chars, append_str, chars_eq, chars_of, dec_int, lines, lines_of, push_i64, seqs_of, split_whitespace,
    string_of, terminated, terminated_exec, trim, trim_exec, words,
};

verus! {

/// A compile-time value.
#[derive(Debug, Clone, PartialEq)]
pub enum ConstantValue {
    Integer(i64),
    Boolean(bool),
    String(String),
    Null,
}

/// What a constant value holds.
pub enum ConstV {
    Integer(i64),
    Boolean(bool),
    Text(Seq<char>),
    Null,
}

pub open spec fn cv(c: ConstantValue) -> ConstV {
    match c {
        ConstantValue::Integer(n) => ConstV::Integer(n),
        ConstantValue::Boolean(b) => ConstV::Boolean(b),
        ConstantValue::String(s) => ConstV::Text(s@),
        ConstantValue::Null => ConstV::Null,
    }
}

pub open spec fn opt_cv(o: Option<ConstantValue>) -> Option<ConstV> {
    match o {
        Some(c) => Some(cv(c)),
        None => None,
    }
}

/// The exact result of the integer operation named `op` on `x` and `y`; `None` for a
/// division or remainder by zero and for a name that is no operation.
pub open spec fn int_op(op: Seq<char>, x: i64, y: i64) -> Option<int> {
    if op == "add"@ {
        Some(x + y)
    } else if op == "sub"@ {
        Some(x - y)
    } else if op == "mul"@ {
        Some(x * y)
    } else if op == "div"@ {
        if y != 0 { Some(trunc_div(x as int, y as int)) } else { None }
    } else if op == "mod"@ {
        if y != 0 { Some(trunc_rem(x as int, y as int)) } else { None }
    } else if op == "and"@ {
        Some((x & y) as int)
    } else if op == "or"@ {
        Some((x | y) as int)
    } else if op == "xor"@ {
        Some((x ^ y) as int)
    } else {
        None
    }
}

/// Folding `a op b`: only two integers fold.
pub open spec fn fold_v(op: Seq<char>, a: ConstV, b: ConstV) -> Option<ConstV> {
    match (a, b) {
        (ConstV::Integer(x), ConstV::Integer(y)) => match int_op(op, x, y) {
            Some(v) => Some(ConstV::Integer(v as i64)),
            None => None,
        },
        _ => None,
    }
}

/// Folding `a op b` neither leaves `i64` nor divides `i64::MIN` by `-1` (Rust's integer
/// arithmetic panics on both).
pub open spec fn fold_fits(op: Seq<char>, a: ConstV, b: ConstV) -> bool {
    match (a, b) {
        (ConstV::Integer(x), ConstV::Integer(y)) => {
            &&& !(op == "mod"@ && x == i64::MIN && y == -1)
            &&& match int_op(op, x, y) {
                Some(v) => i64::MIN <= v <= i64::MAX,
                None => true,
            }
        },
        _ => true,
    }
}

/// The text of a value: decimal, `true` / `false`, the string in double quotes, `null`.
pub open spec fn const_text(c: ConstV) -> Seq<char> {
    match c {
        ConstV::Integer(n) => dec_int(n as int),
        ConstV::Boolean(b) => if b { "true"@ } else { "false"@ },
        ConstV::Text(s) => seq!['"'] + s + seq!['"'],
        ConstV::Null => "null"@,
    }
}

proof fn lemma_op_names()
    ensures
        "add"@ =~= seq!['a', 'd', 'd'],
        "sub"@ =~= seq!['s', 'u', 'b'],
        "mul"@ =~= seq!['m', 'u', 'l'],
        "div"@ =~= seq!['d', 'i', 'v'],
        "mod"@ =~= seq!['m', 'o', 'd'],
        "and"@ =~= seq!['a', 'n', 'd'],
        "or"@ =~= seq!['o', 'r'],
        "xor"@ =~= seq!['x', 'o', 'r'],
{
    reveal_strlit("add");
    reveal_strlit("sub");
    reveal_strlit("mul");
    reveal_strlit("div");
    reveal_strlit("mod");
    reveal_strlit("and");
    reveal_strlit("or");
    reveal_strlit("xor");
}

impl ConstantValue {
    /// A value equal to this one.
    pub fn copy_of(&self) -> (r: ConstantValue)
        ensures
            cv(r) == cv(*self),
    {
        match self {
            ConstantValue::Integer(n) => ConstantValue::Integer(*n),
            ConstantValue::Boolean(b) => ConstantValue::Boolean(*b),
            ConstantValue::String(s) => ConstantValue::String(copy_string(s)),
            ConstantValue::Null => ConstantValue::Null,
        }
    }

    /// The integers of two integer values, else `None`.
    fn integers(&self, other: &ConstantValue) -> (r: Option<(i64, i64)>)
        ensures
            match (cv(*self), cv(*other)) {
                (ConstV::Integer(x), ConstV::Integer(y)) => r == Some((x, y)),
                _ => r is None,
            },
    {
        match self {
            ConstantValue::Integer(a) => match other {
                ConstantValue::Integer(b) => Some((*a, *b)),
                _ => None,
            },
            _ => None,
        }
    }

    pub fn add(&self, other: &ConstantValue) -> (r: Option<ConstantValue>)
        requires
            fold_fits("add"@, cv(*self), cv(*other)),
        ensures
            opt_cv(r) == fold_v("add"@, cv(*self), cv(*other)),
    {
        match self.integers(other) {
            Some((a, b)) => Some(ConstantValue::Integer(a + b)),
            None => None,
        }
    }

    pub fn sub(&self, other: &ConstantValue) -> (r: Option<ConstantValue>)
        requires
            fold_fits("sub"@, cv(*self), cv(*other)),
        ensures
            opt_cv(r) == fold_v("sub"@, cv(*self), cv(*other)),
    {
        proof {
            lemma_op_names();
        }
        match self.integers(other) {
            Some((a, b)) => Some(ConstantValue::Integer(a - b)),
            None => None,
        }
    }

    pub fn mul(&self, other: &ConstantValue) -> (r: Option<ConstantValue>)
        requires
            fold_fits("mul"@, cv(*self), cv(*other)),
        ensures
            opt_cv(r) == fold_v("mul"@, cv(*self), cv(*other)),
    {
        proof {
            lemma_op_names();
        }
        match self.integers(other) {
            Some((a, b)) => Some(ConstantValue::Integer(a * b)),
            None => None,
        }
    }

    /// Division rounding toward zero; `None` for a zero divisor.
    pub fn div(&self, other: &ConstantValue) -> (r: Option<ConstantValue>)
        requires
            fold_fits("div"@, cv(*self), cv(*other)),
        ensures
            opt_cv(r) == fold_v("div"@, cv(*self), cv(*other)),
    {
        proof {
            lemma_op_names();
        }
        match self.integers(other) {
            Some((a, b)) => {
                if b != 0 {
                    match a.checked_div(b) {
                        Some(q) => Some(ConstantValue::Integer(q)),
                        None => None,
                    }
                } else {
                    None
                }
            },
            None => None,
        }
    }

    /// Remainder with the sign of the dividend; `None` for a zero divisor.
    pub fn modulo(&self, other: &ConstantValue) -> (r: Option<ConstantValue>)
        requires
            fold_fits("mod"@, cv(*self), cv(*other)),
        ensures
            opt_cv(r) == fold_v("mod"@, cv(*self), cv(*other)),
    {
        proof {
            lemma_op_names();
        }
        match self.integers(other) {
            Some((a, b)) => {
                if b != 0 {
                    match a.checked_rem(b) {
                        Some(m) => Some(ConstantValue::Integer(m)),
                        None => None,
                    }
                } else {
                    None
                }
            },
            None => None,
        }
    }

    pub fn bitwise_and(&self, other: &ConstantValue) -> (r: Option<ConstantValue>)
        ensures
            opt_cv(r) == fold_v("and"@, cv(*self), cv(*other)),
    {
        proof {
            lemma_op_names();
        }
        match self.integers(other) {
            Some((a, b)) => Some(ConstantValue::Integer(a & b)),
            None => None,
        }
    }

    pub fn bitwise_or(&self, other: &ConstantValue) -> (r: Option<ConstantValue>)
        ensures
            opt_cv(r) == fold_v("or"@, cv(*self), cv(*other)),
    {
        proof {
            lemma_op_names();
        }
        match self.integers(other) {
            Some((a, b)) => Some(ConstantValue::Integer(a | b)),
            None => None,
        }
    }

    pub fn bitwise_xor(&self, other: &ConstantValue) -> (r: Option<ConstantValue>)
        ensures
            opt_cv(r) == fold_v("xor"@, cv(*self), cv(*other)),
    {
        proof {
            lemma_op_names();
        }
        match self.integers(other) {
            Some((a, b)) => Some(ConstantValue::Integer(a ^ b)),
            None => None,
        }
    }

    pub fn to_string(&self) -> (r: String)
        ensures
            r@ == const_text(cv(*self)),
    {
        let mut out: Vec<char> = Vec::new();
        match self {
            ConstantValue::Integer(n) => push_i64(&mut out, *n),
            ConstantValue::Boolean(b) => {
                if *b {
                    append_str(&mut out, "true");
                } else {
                    append_str(&mut out, "false");
                }
            },
            ConstantValue::String(s) => {
                out.push('"');
                append_str(&mut out, s.as_str());
                out.push('"');
                assert(out@ =~= seq!['"'] + s@ + seq!['"']);
            },
            ConstantValue::Null => append_str(&mut out, "null"),
        }
        assert(out@ =~= const_text(cv(*self)));
        string_of(out.as_slice())
    }
}


/// Counts kept by a propagator.
#[derive(Debug, Clone, Copy)]
pub struct PropagationStats {
    pub constants_folded: usize,
    pub values_propagated: usize,
    pub instructions_eliminated: usize,
    pub savings_bytes: usize,
}

/// Known constants by name, and counts of what was folded.
pub struct ConstantPropagator {
    pub constants: NameMap<ConstantValue>,
    pub statistics: PropagationStats,
}

/// The values a map of constants holds, by name.
pub open spec fn known(m: NameMap<ConstantValue>) -> Map<Seq<char>, ConstV> {
    Map::new(|k: Seq<char>| m.has(k), |k: Seq<char>| cv(m.at(k)))
}

/// The value under `k`, if any.
pub open spec fn value_of(m: Map<Seq<char>, ConstV>, k: Seq<char>) -> Option<ConstV> {
    if m.contains_key(k) {
        Some(m[k])
    } else {
        None
    }
}

/// Folding the constants named `l` and `r` by the operation named `op`.
pub open spec fn fold_names(m: Map<Seq<char>, ConstV>, l: Seq<char>, op: Seq<char>, r: Seq<char>) -> Option<ConstV> {
    if m.contains_key(l) && m.contains_key(r) {
        fold_v(op, m[l], m[r])
    } else {
        None
    }
}

pub open spec fn names_fit(m: Map<Seq<char>, ConstV>, l: Seq<char>, op: Seq<char>, r: Seq<char>) -> bool {
    m.contains_key(l) && m.contains_key(r) ==> fold_fits(op, m[l], m[r])
}

/// Where `=` stands among an assignment's words: second, else third.
pub open spec fn assign_at(ws: Seq<Seq<char>>) -> int {
    if ws[1] == "="@ {
        1
    } else {
        2
    }
}

/// Words `x = op a b` or `ty x = op a b`: five or more, `=` second or third.
pub open spec fn is_assignment(ws: Seq<Seq<char>>) -> bool {
    ws.len() >= 5 && (ws[1] == "="@ || ws[2] == "="@)
}

/// The name assigned and its folded value, where the operands after the operation's name
/// are both known constants that fold.
pub open spec fn try_fold(m: Map<Seq<char>, ConstV>, ws: Seq<Seq<char>>) -> Option<(Seq<char>, ConstV)> {
    if ws.len() < 5 {
        None
    } else {
        let a = assign_at(ws);
        if a + 3 < ws.len() {
            match fold_names(m, ws[a + 2], ws[a + 1], ws[a + 3]) {
                Some(v) => Some((ws[a - 1], v)),
                None => None,
            }
        } else {
            None
        }
    }
}

pub open spec fn try_fits(m: Map<Seq<char>, ConstV>, ws: Seq<Seq<char>>) -> bool {
    let a = assign_at(ws);
    ws.len() >= 5 && a + 3 < ws.len() ==> names_fit(m, ws[a + 2], ws[a + 1], ws[a + 3])
}

/// One line: the constants after it, whether it was folded, and the text it becomes
/// (`x = value` when folded, else the line itself).
pub open spec fn line_step(m: Map<Seq<char>, ConstV>, line: Seq<char>) -> (Map<Seq<char>, ConstV>, bool, Seq<char>) {
    let ws = words(line);
    if is_assignment(ws) {
        match try_fold(m, ws) {
            Some((x, v)) => (m.insert(x, v), true, x + " = "@ + const_text(v)),
            None => (m, false, line),
        }
    } else {
        (m, false, line)
    }
}

pub open spec fn line_fits(m: Map<Seq<char>, ConstV>, line: Seq<char>) -> bool {
    is_assignment(words(line)) ==> try_fits(m, words(line))
}

/// The lines in order: the constants at the end, how many lines were folded, and the
/// texts of the lines.
pub open spec fn run(m: Map<Seq<char>, ConstV>, ls: Seq<Seq<char>>) -> (Map<Seq<char>, ConstV>, nat, Seq<Seq<char>>)
    decreases ls.len(),
{
    if ls.len() == 0 {
        (m, 0, seq![])
    } else {
        let p = run(m, ls.drop_last());
        let s = line_step(p.0, ls.last());
        (s.0, p.1 + if s.1 { 1nat } else { 0nat }, p.2.push(s.2))
    }
}

/// No fold along the run overflows.
pub open spec fn run_fits(m: Map<Seq<char>, ConstV>, ls: Seq<Seq<char>>) -> bool
    decreases ls.len(),
{
    ls.len() == 0 || (run_fits(m, ls.drop_last()) && line_fits(run(m, ls.drop_last()).0, ls.last()))
}

/// The text `propagate_ir` gives: each line's text followed by a line feed, trimmed.
pub open spec fn propagated_text(m: Map<Seq<char>, ConstV>, ir: Seq<char>) -> Seq<char> {
    trim(terminated(run(m, lines(ir)).2))
}

/// Propagation gives one line of text for each line of input, and folds at most one
/// operation per line.
pub proof fn law_one_line_per_line(m: Map<Seq<char>, ConstV>, ls: Seq<Seq<char>>)
    ensures
        run(m, ls).1 <= ls.len(),
        run(m, ls).2.len() == ls.len(),
    decreases ls.len(),
{
    if ls.len() > 0 {
        law_one_line_per_line(m, ls.drop_last());
    }
}

proof fn lemma_run_fits_prefix(m: Map<Seq<char>, ConstV>, ls: Seq<Seq<char>>, i: int)
    requires
        run_fits(m, ls),
        0 <= i < ls.len(),
    ensures
        line_fits(run(m, ls.take(i)).0, ls[i]),
    decreases ls.len(),
{
    if i == ls.len() - 1 {
        assert(ls.drop_last() =~= ls.take(i));
    } else {
        lemma_run_fits_prefix(m, ls.drop_last(), i);
        assert(ls.drop_last().take(i) =~= ls.take(i));
    }
}

/// A constant reads back as the value last registered under its name, and registering
/// it leaves every other name as it was.
pub proof fn law_register_then_get(m: Map<Seq<char>, ConstV>, k: Seq<char>, v: ConstV, other: Seq<char>)
    requires
        other != k,
    ensures
        value_of(m.insert(k, v), k) == Some(v),
        value_of(m.insert(k, v), other) == value_of(m, other),
{
}

/// A line that is no assignment passes through propagation unchanged and leaves the
/// constants as they were.
pub proof fn law_other_lines_kept(m: Map<Seq<char>, ConstV>, line: Seq<char>)
    requires
        !is_assignment(words(line)),
    ensures
        line_step(m, line) == (m, false, line),
{
}

pub open spec fn zero_stats() -> PropagationStats {
    PropagationStats { constants_folded: 0, values_propagated: 0, instructions_eliminated: 0, savings_bytes: 0 }
}

proof fn lemma_known_insert(o: NameMap<ConstantValue>, n: NameMap<ConstantValue>, k: Seq<char>, v: ConstantValue)
    requires
        o.wf(),
        n.wf(),
        o.has(k) ==> n.keys() == o.keys() && n.vals() == o.vals().update(o.keys().index_of(k), v),
        !o.has(k) ==> n.keys() == o.keys().push(k) && n.vals() == o.vals().push(v),
    ensures
        known(n) == known(o).insert(k, cv(v)),
{
    lemma_insert_facts(o.keys(), o.vals(), n.keys(), n.vals(), k, v);
    assert(known(n) =~= known(o).insert(k, cv(v)));
}

impl ConstantPropagator {
    /// No constants, all counts zero.
    pub fn new() -> (r: Self)
        ensures
            r.constants.wf(),
            known(r.constants) == Map::<Seq<char>, ConstV>::empty(),
            r.statistics == zero_stats(),
    {
        let r = ConstantPropagator {
            constants: NameMap::new(),
            statistics: PropagationStats {
                constants_folded: 0,
                values_propagated: 0,
                instructions_eliminated: 0,
                savings_bytes: 0,
            },
        };
        assert(known(r.constants) =~= Map::<Seq<char>, ConstV>::empty());
        r
    }

    /// Records `value` under `name`, replacing what was there.
    pub fn register_constant(&mut self, name: String, value: ConstantValue)
        requires
            old(self).constants.wf(),
        ensures
            final(self).constants.wf(),
            known(final(self).constants) == known(old(self).constants).insert(name@, cv(value)),
            final(self).statistics == old(self).statistics,
    {
        let ghost o = self.constants;
        let ghost k = name@;
        let ghost v = value;
        self.constants.insert(name, value);
        proof {
            lemma_known_insert(o, self.constants, k, v);
        }
    }

    pub fn get_constant(&self, name: &str) -> (r: Option<ConstantValue>)
        requires
            self.constants.wf(),
        ensures
            opt_cv(r) == value_of(known(self.constants), name@),
    {
        match self.constants.get(name) {
            Some(v) => Some(v.copy_of()),
            None => None,
        }
    }

    /// Folds the constants named `left_name` and `right_name` by the operation named `op`
    /// (`add`, `sub`, `mul`, `div`, `mod`, `and`, `or`, `xor`), counting each fold.
    pub fn fold_binary_op(&mut self, left_name: &str, op: &str, right_name: &str) -> (r: Option<ConstantValue>)
        requires
            old(self).constants.wf(),
            old(self).statistics.constants_folded < usize::MAX,
            names_fit(known(old(self).constants), left_name@, op@, right_name@),
        ensures
            opt_cv(r) == fold_names(known(old(self).constants), left_name@, op@, right_name@),
            final(self).constants == old(self).constants,
            final(self).statistics == (PropagationStats {
                constants_folded: (old(self).statistics.constants_folded + if r is Some { 1int } else { 0int }) as usize,
                ..old(self).statistics
            }),
    {
        let left = match self.constants.get(left_name) {
            Some(v) => v,
            None => return None,
        };
        let right = match self.constants.get(right_name) {
            Some(v) => v,
            None => return None,
        };
        let result = if crate::names::str_eq(op, "add") {
            left.add(right)
        } else if crate::names::str_eq(op, "sub") {
            left.sub(right)
        } else if crate::names::str_eq(op, "mul") {
            left.mul(right)
        } else if crate::names::str_eq(op, "div") {
            left.div(right)
        } else if crate::names::str_eq(op, "mod") {
            left.modulo(right)
        } else if crate::names::str_eq(op, "and") {
            left.bitwise_and(right)
        } else if crate::names::str_eq(op, "or") {
            left.bitwise_or(right)
        } else if crate::names::str_eq(op, "xor") {
            left.bitwise_xor(right)
        } else {
            proof {
                lemma_op_names();
            }
            None
        };
        match result {
            Some(v) => {
                self.statistics.constants_folded = self.statistics.constants_folded + 1;
                Some(v)
            },
            None => None,
        }
    }

    /// Folds an assignment line whose operands are known constants: records the result
    /// under the assigned name and gives `name = value`.
    fn try_fold_line(&mut self, line: &[char]) -> (r: Option<String>)
        requires
            old(self).constants.wf(),
            old(self).statistics.constants_folded < usize::MAX,
            try_fits(known(old(self).constants), words(line@)),
        ensures
            final(self).constants.wf(),
            match try_fold(known(old(self).constants), words(line@)) {
                Some((x, v)) => r is Some && r.unwrap()@ == x + " = "@ + const_text(v)
                    && known(final(self).constants) == known(old(self).constants).insert(x, v)
                    && final(self).statistics == (PropagationStats {
                    constants_folded: (old(self).statistics.constants_folded + 1) as usize,
                    ..old(self).statistics
                }),
                None => r is None && final(self).constants == old(self).constants && final(self).statistics
                    == old(self).statistics,
            },
    {
        let parts = split_whitespace(line);
        let ghost ws = words(line@);
        if parts.len() < 5 {
            return None;
        }
        proof {
            assert(parts@[1]@ == ws[1]);
        }
        let eq = chars_of("=");
        let assign_idx: usize = if chars_eq(parts[1].as_slice(), eq.as_slice()) {
            1
        } else {
            2
        };
        assert(assign_idx == assign_at(ws));
        if assign_idx + 3 < parts.len() {
            let var_name = string_of(parts[assign_idx - 1].as_slice());
            let op = string_of(parts[assign_idx + 1].as_slice());
            let left = string_of(parts[assign_idx + 2].as_slice());
            let right = string_of(parts[assign_idx + 3].as_slice());
            proof {
                assert(parts@[assign_idx - 1]@ == ws[assign_idx - 1]);
                assert(parts@[assign_idx + 1]@ == ws[assign_idx + 1]);
                assert(parts@[assign_idx + 2]@ == ws[assign_idx + 2]);
                assert(parts@[assign_idx + 3]@ == ws[assign_idx + 3]);
            }
            match self.fold_binary_op(left.as_str(), op.as_str(), right.as_str()) {
                Some(result) => {
                    let text = result.to_string();
                    let mut out = chars_of(var_name.as_str());
                    append_str(&mut out, " = ");
                    append_str(&mut out, text.as_str());
                    self.register_constant(var_name, result);
                    return Some(string_of(out.as_slice()));
                },
                None => {},
            }
        }
        None
    }

    /// One line of IR: an assignment that folds becomes `name = value` and is counted as
    /// propagated; any other line is kept.
    fn process_line(&mut self, line: &[char]) -> (r: Vec<char>)
        requires
            old(self).constants.wf(),
            old(self).statistics.constants_folded < usize::MAX,
            old(self).statistics.values_propagated < usize::MAX,
            line_fits(known(old(self).constants), line@),
        ensures
            final(self).constants.wf(),
            ({
                let s = line_step(known(old(self).constants), line@);
                &&& known(final(self).constants) == s.0
                &&& r@ == s.2
                &&& final(self).statistics == (PropagationStats {
                    constants_folded: (old(self).statistics.constants_folded + if s.1 { 1int } else { 0int }) as usize,
                    values_propagated: (old(self).statistics.values_propagated + if s.1 { 1int } else { 0int }) as usize,
                    ..old(self).statistics
                })
            }),
    {
        let parts = split_whitespace(line);
        let ghost ws = words(line@);
        let mut copy: Vec<char> = Vec::new();
        append_chars(&mut copy, line);
        if parts.len() == 0 {
            return copy;
        }
        if parts.len() >= 5 {
            let eq = chars_of("=");
            proof {
                assert(parts@[1]@ == ws[1]);
                assert(parts@[2]@ == ws[2]);
            }
            if chars_eq(parts[1].as_slice(), eq.as_slice()) || chars_eq(parts[2].as_slice(), eq.as_slice()) {
                match self.try_fold_line(line) {
                    Some(res) => {
                        self.statistics.values_propagated = self.statistics.values_propagated + 1;
                        return chars_of(res.as_str());
                    },
                    None => {},
                }
            }
        }
        copy
    }

    /// Each line of `ir` processed in order as `process_line` does, each followed by a line
    /// feed, and the whole trimmed.
    pub fn propagate_ir(&mut self, ir: &str) -> (r: String)
        requires
            old(self).constants.wf(),
            run_fits(known(old(self).constants), lines(ir@)),
            old(self).statistics.constants_folded + lines(ir@).len() <= usize::MAX,
            old(self).statistics.values_propagated + lines(ir@).len() <= usize::MAX,
        ensures
            final(self).constants.wf(),
            r@ == propagated_text(known(old(self).constants), ir@),
            known(final(self).constants) == run(known(old(self).constants), lines(ir@)).0,
            final(self).statistics == (PropagationStats {
                constants_folded: (old(self).statistics.constants_folded + run(
                    known(old(self).constants),
                    lines(ir@),
                ).1) as usize,
                values_propagated: (old(self).statistics.values_propagated + run(
                    known(old(self).constants),
                    lines(ir@),
                ).1) as usize,
                ..old(self).statistics
            }),
    {
        let ghost m0 = known(self.constants);
        let ghost s0 = self.statistics;
        let cs = chars_of(ir);
        let ls = lines_of(cs.as_slice());
        let ghost lsv = lines(ir@);
        let mut outs: Vec<Vec<char>> = Vec::new();
        let mut i: usize = 0;
        while i < ls.len()
            invariant
                seqs_of(ls@) == lsv,
                i <= ls.len(),
                self.constants.wf(),
                run_fits(m0, lsv),
                s0.constants_folded + lsv.len() <= usize::MAX,
                s0.values_propagated + lsv.len() <= usize::MAX,
                known(self.constants) == run(m0, lsv.take(i as int)).0,
                seqs_of(outs@) == run(m0, lsv.take(i as int)).2,
                self.statistics == (PropagationStats {
                    constants_folded: (s0.constants_folded + run(m0, lsv.take(i as int)).1) as usize,
                    values_propagated: (s0.values_propagated + run(m0, lsv.take(i as int)).1) as usize,
                    ..s0
                }),
            decreases ls.len() - i,
        {
            proof {
                law_one_line_per_line(m0, lsv.take(i as int));
                lemma_run_fits_prefix(m0, lsv, i as int);
                assert(ls@[i as int]@ == lsv[i as int]);
            }
            let o = self.process_line(ls[i].as_slice());
            let ghost before = outs@;
            outs.push(o);
            proof {
                let t = lsv.take(i + 1);
                assert(t.drop_last() =~= lsv.take(i as int));
                assert(t.last() == lsv[i as int]);
                assert(seqs_of(outs@) =~= seqs_of(before).push(o@));
            }
            i += 1;
        }
        assert(lsv.take(ls.len() as int) =~= lsv);
        let t = terminated_exec(&outs);
        let tr = trim_exec(t.as_slice());
        string_of(tr.as_slice())
    }

    pub fn get_statistics(&self) -> (r: PropagationStats)
        ensures
            r == self.statistics,
    {
        self.statistics
    }

    /// Forgets every constant and sets every count to zero.
    pub fn clear(&mut self)
        ensures
            final(self).constants.wf(),
            known(final(self).constants) == Map::<Seq<char>, ConstV>::empty(),
            final(self).statistics == zero_stats(),
    {
        self.constants = NameMap::new();
        self.statistics = PropagationStats {
            constants_folded: 0,
            values_propagated: 0,
            instructions_eliminated: 0,
            savings_bytes: 0,
        };
        assert(known(self.constants) =~= Map::<Seq<char>, ConstV>::empty());
    }
}

} // verus!
