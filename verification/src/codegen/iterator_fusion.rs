//! Iterator fusion: detecting `iter().map(..).filter(..).sum()`-style chains in MIR calls,
//! comparing and deduplicating them, and deciding which to fuse into one loop.
use vstd::prelude::*;
use crate::mir::{
    HirType, copy_operands, operands_equal, same_operand, same_operands, BasicBlock, MirFunction, Operand,
    Place, Rvalue, Statement,
};
use crate::names::{copy_string, lemma_insert_facts, str_eq, NameMap};
use crate::text::{
    cat_str, chars_of, contains, parse_usize, parse_usize_spec, starts_with, str_contains,
    str_starts_with, string_of,
};

verus! {

/// An iterator chain: a collection's `iter()`, then combinators, then perhaps a terminal
/// operation; each link holds the chain before it.
#[derive(Debug)]
#[allow(inconsistent_fields)]
pub enum IteratorChain {
    Iter { collection: String },
    Mapping { prev: Box<IteratorChain>, closure_id: usize },
    Filter { prev: Box<IteratorChain>, predicate_id: usize },
    Fold { prev: Box<IteratorChain>, init: Operand, func_id: usize },
    Sum { prev: Box<IteratorChain> },
    Collect { prev: Box<IteratorChain> },
    ForEach { prev: Box<IteratorChain>, func_id: usize },
}

/// The collection a chain starts from.
pub open spec fn root(c: IteratorChain) -> Seq<char>
    decreases c,
{
    match c {
        IteratorChain::Iter { collection } => collection@,
        IteratorChain::Mapping { prev, .. } => root(*prev),
        IteratorChain::Filter { prev, .. } => root(*prev),
        IteratorChain::Fold { prev, .. } => root(*prev),
        IteratorChain::Sum { prev } => root(*prev),
        IteratorChain::Collect { prev } => root(*prev),
        IteratorChain::ForEach { prev, .. } => root(*prev),
    }
}

/// How many maps and filters a chain has.
pub open spec fn combinators(c: IteratorChain) -> nat
    decreases c,
{
    match c {
        IteratorChain::Iter { .. } => 0,
        IteratorChain::Mapping { prev, .. } => 1 + combinators(*prev),
        IteratorChain::Filter { prev, .. } => 1 + combinators(*prev),
        IteratorChain::Fold { prev, .. } => combinators(*prev),
        IteratorChain::Sum { prev } => combinators(*prev),
        IteratorChain::Collect { prev } => combinators(*prev),
        IteratorChain::ForEach { prev, .. } => combinators(*prev),
    }
}

/// How many links a chain has after its `iter()`.
pub open spec fn depth(c: IteratorChain) -> nat
    decreases c,
{
    match c {
        IteratorChain::Iter { .. } => 0,
        IteratorChain::Mapping { prev, .. } => 1 + depth(*prev),
        IteratorChain::Filter { prev, .. } => 1 + depth(*prev),
        IteratorChain::Fold { prev, .. } => 1 + depth(*prev),
        IteratorChain::Sum { prev } => 1 + depth(*prev),
        IteratorChain::Collect { prev } => 1 + depth(*prev),
        IteratorChain::ForEach { prev, .. } => 1 + depth(*prev),
    }
}

/// Two chains with the same links over the same collection, the initial values of folds
/// the same; closure identities do not matter.
pub open spec fn equivalent(a: IteratorChain, b: IteratorChain) -> bool
    decreases a,
{
    match (a, b) {
        (IteratorChain::Iter { collection: c1 }, IteratorChain::Iter { collection: c2 }) => c1@ == c2@,
        (IteratorChain::Mapping { prev: p1, .. }, IteratorChain::Mapping { prev: p2, .. }) => equivalent(*p1, *p2),
        (IteratorChain::Filter { prev: p1, .. }, IteratorChain::Filter { prev: p2, .. }) => equivalent(
            *p1,
            *p2,
        ),
        (IteratorChain::Fold { prev: p1, init: i1, .. }, IteratorChain::Fold { prev: p2, init: i2, .. }) =>
            equivalent(*p1, *p2) && same_operand(i1, i2),
        (IteratorChain::Sum { prev: p1 }, IteratorChain::Sum { prev: p2 }) => equivalent(*p1, *p2),
        (IteratorChain::Collect { prev: p1 }, IteratorChain::Collect { prev: p2 }) => equivalent(*p1, *p2),
        (IteratorChain::ForEach { prev: p1, .. }, IteratorChain::ForEach { prev: p2, .. }) => equivalent(
            *p1,
            *p2,
        ),
        _ => false,
    }
}

/// `a` and `b` are the same chain, closure identities included.
pub open spec fn same_chain(a: IteratorChain, b: IteratorChain) -> bool
    decreases a,
{
    match (a, b) {
        (IteratorChain::Iter { collection: c1 }, IteratorChain::Iter { collection: c2 }) => c1@ == c2@,
        (IteratorChain::Mapping { prev: p1, closure_id: k1 }, IteratorChain::Mapping { prev: p2, closure_id: k2 }) =>
            k1 == k2 && same_chain(*p1, *p2),
        (
            IteratorChain::Filter { prev: p1, predicate_id: k1 },
            IteratorChain::Filter { prev: p2, predicate_id: k2 },
        ) => k1 == k2 && same_chain(*p1, *p2),
        (
            IteratorChain::Fold { prev: p1, init: i1, func_id: k1 },
            IteratorChain::Fold { prev: p2, init: i2, func_id: k2 },
        ) => k1 == k2 && same_operand(i1, i2) && same_chain(*p1, *p2),
        (IteratorChain::Sum { prev: p1 }, IteratorChain::Sum { prev: p2 }) => same_chain(*p1, *p2),
        (IteratorChain::Collect { prev: p1 }, IteratorChain::Collect { prev: p2 }) => same_chain(*p1, *p2),
        (IteratorChain::ForEach { prev: p1, func_id: k1 }, IteratorChain::ForEach { prev: p2, func_id: k2 }) =>
            k1 == k2 && same_chain(*p1, *p2),
        _ => false,
    }
}

/// The operations of a chain in source order, each with its closure (0 for none).
pub open spec fn operations(c: IteratorChain) -> Seq<(Seq<char>, usize)>
    decreases c,
{
    match c {
        IteratorChain::Iter { .. } => seq![],
        IteratorChain::Mapping { prev, closure_id } => operations(*prev).push(("map"@, closure_id)),
        IteratorChain::Filter { prev, predicate_id } => operations(*prev).push(("filter"@, predicate_id)),
        IteratorChain::Fold { prev, func_id, .. } => operations(*prev).push(("fold"@, func_id)),
        IteratorChain::Sum { prev } => operations(*prev).push(("sum"@, 0usize)),
        IteratorChain::Collect { prev } => operations(*prev).push(("collect"@, 0usize)),
        IteratorChain::ForEach { prev, func_id } => operations(*prev).push(("for_each"@, func_id)),
    }
}

impl IteratorChain {
    /// The collection the chain starts from.
    pub fn root_collection(&self) -> (r: Option<&str>)
        ensures
            r matches Some(s) && s@ == root(*self),
        decreases self,
    {
        match self {
            IteratorChain::Iter { collection } => Some(collection.as_str()),
            IteratorChain::Mapping { prev, .. } => prev.root_collection(),
            IteratorChain::Filter { prev, .. } => prev.root_collection(),
            IteratorChain::Fold { prev, .. } => prev.root_collection(),
            IteratorChain::Sum { prev } => prev.root_collection(),
            IteratorChain::Collect { prev } => prev.root_collection(),
            IteratorChain::ForEach { prev, .. } => prev.root_collection(),
        }
    }

    /// Whether the chain has any link after its `iter()`.
    pub fn is_fusible(&self) -> (r: bool)
        ensures
            r == !(*self is Iter),
    {
        match self {
            IteratorChain::Iter { .. } => false,
            _ => true,
        }
    }

    /// How many maps and filters the chain has.
    pub fn combinator_count(&self) -> (r: usize)
        requires
            depth(*self) <= usize::MAX,
        ensures
            r == combinators(*self),
        decreases self,
    {
        proof {
            lemma_combinators_le_depth(*self);
        }
        match self {
            IteratorChain::Iter { .. } => 0,
            IteratorChain::Mapping { prev, .. } => 1 + prev.combinator_count(),
            IteratorChain::Filter { prev, .. } => 1 + prev.combinator_count(),
            IteratorChain::Fold { prev, .. } => prev.combinator_count(),
            IteratorChain::Sum { prev } => prev.combinator_count(),
            IteratorChain::Collect { prev } => prev.combinator_count(),
            IteratorChain::ForEach { prev, .. } => prev.combinator_count(),
        }
    }

    /// Whether the two chains are equivalent.
    pub fn is_equivalent_to(&self, other: &IteratorChain) -> (r: bool)
        ensures
            r == equivalent(*self, *other),
        decreases self,
    {
        match (self, other) {
            (IteratorChain::Iter { collection: c1 }, IteratorChain::Iter { collection: c2 }) => str_eq(
                c1.as_str(),
                c2.as_str(),
            ),
            (IteratorChain::Mapping { prev: p1, .. }, IteratorChain::Mapping { prev: p2, .. }) => p1.is_equivalent_to(
                p2,
            ),
            (IteratorChain::Filter { prev: p1, .. }, IteratorChain::Filter { prev: p2, .. }) => p1.is_equivalent_to(
                p2,
            ),
            (
                IteratorChain::Fold { prev: p1, init: i1, .. },
                IteratorChain::Fold { prev: p2, init: i2, .. },
            ) => p1.is_equivalent_to(p2) && operands_equal(i1, i2),
            (IteratorChain::Sum { prev: p1 }, IteratorChain::Sum { prev: p2 }) => p1.is_equivalent_to(p2),
            (IteratorChain::Collect { prev: p1 }, IteratorChain::Collect { prev: p2 }) => p1.is_equivalent_to(
                p2,
            ),
            (IteratorChain::ForEach { prev: p1, .. }, IteratorChain::ForEach { prev: p2, .. }) => p1.is_equivalent_to(
                p2,
            ),
            _ => false,
        }
    }

    /// A copy of this chain.
    pub fn copy_of(&self) -> (r: IteratorChain)
        ensures
            same_chain(*self, r),
        decreases self,
    {
        match self {
            IteratorChain::Iter { collection } => IteratorChain::Iter { collection: copy_string(collection) },
            IteratorChain::Mapping { prev, closure_id } => IteratorChain::Mapping {
                prev: Box::new(prev.copy_of()),
                closure_id: *closure_id,
            },
            IteratorChain::Filter { prev, predicate_id } => IteratorChain::Filter {
                prev: Box::new(prev.copy_of()),
                predicate_id: *predicate_id,
            },
            IteratorChain::Fold { prev, init, func_id } => IteratorChain::Fold {
                prev: Box::new(prev.copy_of()),
                init: init.copy_of(),
                func_id: *func_id,
            },
            IteratorChain::Sum { prev } => IteratorChain::Sum { prev: Box::new(prev.copy_of()) },
            IteratorChain::Collect { prev } => IteratorChain::Collect { prev: Box::new(prev.copy_of()) },
            IteratorChain::ForEach { prev, func_id } => IteratorChain::ForEach {
                prev: Box::new(prev.copy_of()),
                func_id: *func_id,
            },
        }
    }
}

proof fn lemma_combinators_le_depth(c: IteratorChain)
    ensures
        combinators(c) <= depth(c),
    decreases c,
{
    match c {
        IteratorChain::Iter { .. } => {},
        IteratorChain::Mapping { prev, .. } => lemma_combinators_le_depth(*prev),
        IteratorChain::Filter { prev, .. } => lemma_combinators_le_depth(*prev),
        IteratorChain::Fold { prev, .. } => lemma_combinators_le_depth(*prev),
        IteratorChain::Sum { prev } => lemma_combinators_le_depth(*prev),
        IteratorChain::Collect { prev } => lemma_combinators_le_depth(*prev),
        IteratorChain::ForEach { prev, .. } => lemma_combinators_le_depth(*prev),
    }
}

/// The statements of the blocks, block after block.
pub open spec fn statements_of(blocks: Seq<BasicBlock>) -> Seq<Statement>
    decreases blocks.len(),
{
    if blocks.len() == 0 {
        seq![]
    } else {
        statements_of(blocks.drop_last()) + blocks.last().statements@
    }
}

/// How many statements the blocks hold, or `usize::MAX` if more.
pub open spec fn budget(blocks: Seq<BasicBlock>) -> usize
    decreases blocks.len(),
{
    if blocks.len() == 0 {
        0
    } else {
        let b = budget(blocks.drop_last());
        if b + blocks.last().statements@.len() > usize::MAX {
            usize::MAX
        } else {
            (b + blocks.last().statements@.len()) as usize
        }
    }
}

/// A call into a local: the local, the function, the arguments.
pub open spec fn local_call(st: Statement) -> Option<(Seq<char>, Seq<char>, Seq<Operand>)> {
    match (st.place, st.rvalue) {
        (Place::Local(t), Rvalue::Call(f, args)) => Some((t@, f@, args@)),
        _ => None,
    }
}

/// The function a statement calls.
pub open spec fn call_name(st: Statement) -> Option<Seq<char>> {
    match st.rvalue {
        Rvalue::Call(f, _) => Some(f@),
        _ => None,
    }
}

/// The function and arguments of the last call into `temp` among `sts`.
pub open spec fn last_call(sts: Seq<Statement>, temp: Seq<char>) -> Option<(Seq<char>, Seq<Operand>)>
    decreases sts.len(),
{
    if sts.len() == 0 {
        None
    } else {
        match local_call(sts.last()) {
            Some((t, f, a)) => if t == temp {
                Some((f, a))
            } else {
                last_call(sts.drop_last(), temp)
            },
            None => last_call(sts.drop_last(), temp),
        }
    }
}

/// The closure number a name such as `__closure_7` carries.
pub open spec fn closure_id(name: Seq<char>) -> Option<usize> {
    if starts_with(name, "__closure_"@) {
        parse_usize_spec(name.skip(10))
    } else {
        None
    }
}

/// Some statement among `sts` calls `name`.
pub open spec fn called(sts: Seq<Statement>, name: Seq<char>) -> bool {
    exists|i: int| 0 <= i < sts.len() && #[trigger] call_name(sts[i]) == Some(name)
}

/// The closure number of a called closure function.
pub open spec fn closure_of(sts: Seq<Statement>, name: Seq<char>) -> Option<usize> {
    if called(sts, name) {
        closure_id(name)
    } else {
        None
    }
}

/// The closure number of argument `idx`, when it names a called closure local.
pub open spec fn closure_arg(sts: Seq<Statement>, args: Seq<Operand>, idx: int) -> Option<usize> {
    if 0 <= idx < args.len() {
        match args[idx] {
            Operand::Copy(Place::Local(v)) => closure_of(sts, v@),
            Operand::Move(Place::Local(v)) => closure_of(sts, v@),
            _ => None,
        }
    } else {
        None
    }
}

/// The closure number of argument `idx`, or 0.
pub open spec fn closure_arg_or_zero(sts: Seq<Statement>, args: Seq<Operand>, idx: int) -> usize {
    match closure_arg(sts, args, idx) {
        Some(k) => k,
        None => 0,
    }
}

/// The chain built by the call of `func` with `args`, following the iterator argument's
/// own call in `sts` at most `fuel` times.
pub open spec fn parse_chain(sts: Seq<Statement>, func: Seq<char>, args: Seq<Operand>, fuel: nat) -> Option<
    IteratorChain,
>
    decreases fuel, 1nat,
{
    if contains(func, "::iter"@) {
        if args.len() > 0 {
            match args[0] {
                Operand::Copy(Place::Local(c)) => Some(IteratorChain::Iter { collection: c }),
                _ => None,
            }
        } else {
            None
        }
    } else if contains(func, "::map"@) {
        match prev_chain(sts, args, fuel) {
            Some(p) => Some(IteratorChain::Mapping { prev: Box::new(p), closure_id: closure_arg_or_zero(sts, args, 1) }),
            None => None,
        }
    } else if contains(func, "::filter"@) {
        match prev_chain(sts, args, fuel) {
            Some(p) => Some(IteratorChain::Filter { prev: Box::new(p), predicate_id: closure_arg_or_zero(sts, args, 1) }),
            None => None,
        }
    } else if contains(func, "::fold"@) {
        if args.len() >= 2 {
            match prev_chain(sts, args, fuel) {
                Some(p) => Some(
                    IteratorChain::Fold { prev: Box::new(p), init: args[1], func_id: closure_arg_or_zero(sts, args, 2) },
                ),
                None => None,
            }
        } else {
            None
        }
    } else if contains(func, "::sum"@) {
        match prev_chain(sts, args, fuel) {
            Some(p) => Some(IteratorChain::Sum { prev: Box::new(p) }),
            None => None,
        }
    } else if contains(func, "::collect"@) {
        match prev_chain(sts, args, fuel) {
            Some(p) => Some(IteratorChain::Collect { prev: Box::new(p) }),
            None => None,
        }
    } else if contains(func, "::for_each"@) {
        match prev_chain(sts, args, fuel) {
            Some(p) => Some(IteratorChain::ForEach { prev: Box::new(p), func_id: closure_arg_or_zero(sts, args, 1) }),
            None => None,
        }
    } else {
        None
    }
}

/// The chain of the iterator in the first argument: a copied local whose last call builds
/// a chain.
pub open spec fn prev_chain(sts: Seq<Statement>, args: Seq<Operand>, fuel: nat) -> Option<IteratorChain>
    decreases fuel, 0nat,
{
    if fuel == 0 || args.len() == 0 {
        None
    } else {
        match args[0] {
            Operand::Copy(Place::Local(p)) => match last_call(sts, p@) {
                Some((f, a)) => parse_chain(sts, f, a, (fuel - 1) as nat),
                None => None,
            },
            _ => None,
        }
    }
}

/// The chains detected among the statements `scan`, looking calls up in `sts`.
pub open spec fn detected(sts: Seq<Statement>, fuel: nat, scan: Seq<Statement>) -> Seq<(Seq<char>, IteratorChain)>
    decreases scan.len(),
{
    if scan.len() == 0 {
        seq![]
    } else {
        let r = detected(sts, fuel, scan.drop_last());
        match local_call(scan.last()) {
            Some((t, f, a)) => match parse_chain(sts, f, a, fuel) {
                Some(c) => r.push((t, c)),
                None => r,
            },
            None => r,
        }
    }
}

/// `g` maps each called local to the position of its last call among the statements.
pub open spec fn graph_ok(g: NameMap<(usize, usize)>, blocks: Seq<BasicBlock>, sts: Seq<Statement>) -> bool {
    &&& g.wf()
    &&& forall|t: Seq<char>| #[trigger] g.has(t) <==> last_call(sts, t) is Some
    &&& forall|t: Seq<char>|
        #[trigger] g.has(t) ==> {
            let (b, s) = g.at(t);
            let (f, a) = last_call(sts, t).unwrap();
            &&& b < blocks.len()
            &&& s < blocks[b as int].statements@.len()
            &&& local_call(blocks[b as int].statements@[s as int]) == Some((t, f, a))
        }
}

/// `m` gives the closure number of each called closure function.
pub open spec fn closures_ok(m: NameMap<usize>, sts: Seq<Statement>) -> bool {
    &&& m.wf()
    &&& forall|n: Seq<char>| #[trigger] m.has(n) <==> closure_of(sts, n) is Some
    &&& forall|n: Seq<char>| #[trigger] m.has(n) ==> Some(m.at(n)) == closure_of(sts, n)
}

/// What the mapping says of argument `idx`: the closure number of the local it copies or
/// moves.
pub open spec fn mapped_arg(m: NameMap<usize>, args: Seq<Operand>, idx: int) -> Option<usize> {
    if 0 <= idx < args.len() {
        match args[idx] {
            Operand::Copy(Place::Local(v)) => m.lookup(v@),
            Operand::Move(Place::Local(v)) => m.lookup(v@),
            _ => None,
        }
    } else {
        None
    }
}

proof fn lemma_statements_step(blocks: Seq<BasicBlock>, b: int)
    requires
        0 <= b < blocks.len(),
    ensures
        statements_of(blocks.take(b + 1)) == statements_of(blocks.take(b)) + blocks[b].statements@,
{
    assert(blocks.take(b + 1).drop_last() =~= blocks.take(b));
}

proof fn lemma_last_call_push(sts: Seq<Statement>, st: Statement, x: Seq<char>)
    ensures
        last_call(sts.push(st), x) == match local_call(st) {
            Some((t, f, a)) => if t == x {
                Some((f, a))
            } else {
                last_call(sts, x)
            },
            None => last_call(sts, x),
        },
{
    assert(sts.push(st).drop_last() =~= sts);
}

proof fn lemma_called_push(sts: Seq<Statement>, st: Statement, x: Seq<char>)
    ensures
        called(sts.push(st), x) == (called(sts, x) || call_name(st) == Some(x)),
{
    let t = sts.push(st);
    if called(t, x) {
        let i = choose|i: int| 0 <= i < t.len() && #[trigger] call_name(t[i]) == Some(x);
        if i < sts.len() {
            assert(sts[i] == t[i]);
        }
    }
    if called(sts, x) {
        let i = choose|i: int| 0 <= i < sts.len() && #[trigger] call_name(sts[i]) == Some(x);
        assert(t[i] == sts[i]);
    }
    if call_name(st) == Some(x) {
        assert(t[sts.len() as int] == st);
    }
}

pub struct IteratorChainDetector;

impl IteratorChainDetector {
    /// The closure number a name such as `__closure_7` carries.
    pub fn extract_closure_id_from_name(func_name: &str) -> (r: Option<usize>)
        ensures
            r == closure_id(func_name@),
    {
        let cs = chars_of(func_name);
        if str_starts_with(cs.as_slice(), "__closure_") {
            proof {
                reveal_strlit("__closure_");
            }
            let mut rest: Vec<char> = Vec::new();
            let mut i: usize = 10;
            while i < cs.len()
                invariant
                    10 <= i <= cs@.len(),
                    rest@ == cs@.subrange(10, i as int),
                decreases cs.len() - i,
            {
                rest.push(cs[i]);
                i += 1;
                assert(rest@ =~= cs@.subrange(10, i as int));
            }
            assert(rest@ =~= cs@.skip(10));
            parse_usize(rest.as_slice())
        } else {
            None
        }
    }

    /// The closure number the mapping gives the local that argument `arg_index` copies or
    /// moves.
    pub fn extract_closure_id_from_args(
        args: &[Operand],
        arg_index: usize,
        closure_mapping: &NameMap<usize>,
    ) -> (r: Option<usize>)
        requires
            closure_mapping.wf(),
        ensures
            r == mapped_arg(*closure_mapping, args@, arg_index as int),
    {
        if arg_index >= args.len() {
            return None;
        }
        match &args[arg_index] {
            Operand::Copy(Place::Local(v)) => match closure_mapping.get(v.as_str()) {
                Some(k) => Some(*k),
                None => None,
            },
            Operand::Move(Place::Local(v)) => match closure_mapping.get(v.as_str()) {
                Some(k) => Some(*k),
                None => None,
            },
            _ => None,
        }
    }

    /// Where the last call into each local stands.
    fn build_call_graph(function: &MirFunction) -> (g: NameMap<(usize, usize)>)
        ensures
            graph_ok(g, function.basic_blocks@, statements_of(function.basic_blocks@)),
    {
        let ghost blocks = function.basic_blocks@;
        let mut g: NameMap<(usize, usize)> = NameMap::new();
        let mut b: usize = 0;
        while b < function.basic_blocks.len()
            invariant
                blocks == function.basic_blocks@,
                b <= blocks.len(),
                graph_ok(g, blocks, statements_of(blocks.take(b as int))),
            decreases blocks.len() - b,
        {
            let block = &function.basic_blocks[b];
            let ghost pre = statements_of(blocks.take(b as int));
            let mut s: usize = 0;
            while s < block.statements.len()
                invariant
                    blocks == function.basic_blocks@,
                    b < blocks.len(),
                    *block == blocks[b as int],
                    s <= block.statements@.len(),
                    graph_ok(g, blocks, pre + block.statements@.take(s as int)),
                decreases block.statements@.len() - s,
            {
                let st = &block.statements[s];
                let ghost before = pre + block.statements@.take(s as int);
                assert(pre + block.statements@.take(s + 1) =~= before.push(*st));
                proof {
                    assert forall|x: Seq<char>| true implies #[trigger] last_call(before.push(*st), x) == match local_call(
                        *st,
                    ) {
                        Some((t, f, a)) => if t == x {
                            Some((f, a))
                        } else {
                            last_call(before, x)
                        },
                        None => last_call(before, x),
                    } by {
                        lemma_last_call_push(before, *st, x);
                    }
                }
                match (&st.place, &st.rvalue) {
                    (Place::Local(t), Rvalue::Call(_, _)) => {
                        let ghost ok = g.keys();
                        let ghost ov = g.vals();
                        let ghost old_g = g;
                        g.insert(copy_string(t), (b, s));
                        proof {
                            lemma_insert_facts(ok, ov, g.keys(), g.vals(), t@, (b, s));
                            assert forall|x: Seq<char>| #[trigger] g.has(x) ==> {
                                let (bb, ss) = g.at(x);
                                let (f, a) = last_call(before.push(*st), x).unwrap();
                                &&& bb < blocks.len()
                                &&& ss < blocks[bb as int].statements@.len()
                                &&& local_call(blocks[bb as int].statements@[ss as int]) == Some((x, f, a))
                            } by {
                                if g.has(x) && x != t@ {
                                    assert(old_g.has(x));
                                    assert(g.at(x) == old_g.at(x));
                                }
                            }
                        }
                    },
                    _ => {},
                }
                s += 1;
            }
            proof {
                assert(block.statements@.take(block.statements@.len() as int) =~= block.statements@);
                lemma_statements_step(blocks, b as int);
            }
            b += 1;
        }
        assert(blocks.take(blocks.len() as int) =~= blocks);
        g
    }

    /// The closure number of each closure function called.
    fn build_closure_mapping(function: &MirFunction) -> (m: NameMap<usize>)
        ensures
            closures_ok(m, statements_of(function.basic_blocks@)),
    {
        let ghost blocks = function.basic_blocks@;
        let mut m: NameMap<usize> = NameMap::new();
        let mut b: usize = 0;
        while b < function.basic_blocks.len()
            invariant
                blocks == function.basic_blocks@,
                b <= blocks.len(),
                closures_ok(m, statements_of(blocks.take(b as int))),
            decreases blocks.len() - b,
        {
            let block = &function.basic_blocks[b];
            let ghost pre = statements_of(blocks.take(b as int));
            let mut s: usize = 0;
            while s < block.statements.len()
                invariant
                    blocks == function.basic_blocks@,
                    b < blocks.len(),
                    *block == blocks[b as int],
                    s <= block.statements@.len(),
                    closures_ok(m, pre + block.statements@.take(s as int)),
                decreases block.statements@.len() - s,
            {
                let st = &block.statements[s];
                let ghost before = pre + block.statements@.take(s as int);
                assert(pre + block.statements@.take(s + 1) =~= before.push(*st));
                proof {
                    assert forall|x: Seq<char>| true implies #[trigger] called(before.push(*st), x) == (called(
                        before,
                        x,
                    ) || call_name(*st) == Some(x)) by {
                        lemma_called_push(before, *st, x);
                    }
                }
                match &st.rvalue {
                    Rvalue::Call(name, _) => {
                        match Self::extract_closure_id_from_name(name.as_str()) {
                            Some(id) => {
                                let ghost ok = m.keys();
                                let ghost ov = m.vals();
                                let ghost old_m = m;
                                m.insert(copy_string(name), id);
                                proof {
                                    lemma_insert_facts(ok, ov, m.keys(), m.vals(), name@, id);
                                    assert forall|x: Seq<char>| #[trigger] m.has(x) implies Some(m.at(x))
                                        == closure_of(before.push(*st), x) by {
                                        if x != name@ {
                                            assert(old_m.has(x));
                                        }
                                    }
                                }
                            },
                            None => {},
                        }
                    },
                    _ => {},
                }
                s += 1;
            }
            proof {
                assert(block.statements@.take(block.statements@.len() as int) =~= block.statements@);
                lemma_statements_step(blocks, b as int);
            }
            b += 1;
        }
        assert(blocks.take(blocks.len() as int) =~= blocks);
        m
    }
}

/// Two optional chains that are both absent or the same chain.
pub open spec fn same_result(spec_r: Option<IteratorChain>, r: Option<IteratorChain>) -> bool {
    match (spec_r, r) {
        (Some(d), Some(c)) => same_chain(d, c),
        (None, None) => true,
        _ => false,
    }
}

proof fn lemma_mapped_is_closure_arg(m: NameMap<usize>, sts: Seq<Statement>, args: Seq<Operand>, idx: int)
    requires
        closures_ok(m, sts),
    ensures
        mapped_arg(m, args, idx) == closure_arg(sts, args, idx),
{
    if 0 <= idx < args.len() {
        match args[idx] {
            Operand::Copy(Place::Local(v)) => {
                if m.has(v@) {
                } else {
                    assert(closure_of(sts, v@) is None);
                }
            },
            Operand::Move(Place::Local(v)) => {
                if m.has(v@) {
                } else {
                    assert(closure_of(sts, v@) is None);
                }
            },
            _ => {},
        }
    }
}

impl IteratorChainDetector {
    fn closure_or_zero(args: &Vec<Operand>, idx: usize, m: &NameMap<usize>, Ghost(sts): Ghost<Seq<Statement>>) -> (r: usize)
        requires
            closures_ok(*m, sts),
        ensures
            r == closure_arg_or_zero(sts, args@, idx as int),
    {
        proof {
            lemma_mapped_is_closure_arg(*m, sts, args@, idx as int);
        }
        match Self::extract_closure_id_from_args(args.as_slice(), idx, m) {
            Some(k) => k,
            None => 0,
        }
    }

    /// The chain of the iterator in the first argument, found through the call graph.
    fn prev_chain_exec(
        args: &Vec<Operand>,
        function: &MirFunction,
        call_graph: &NameMap<(usize, usize)>,
        closure_mapping: &NameMap<usize>,
        fuel: usize,
    ) -> (r: Option<IteratorChain>)
        requires
            graph_ok(*call_graph, function.basic_blocks@, statements_of(function.basic_blocks@)),
            closures_ok(*closure_mapping, statements_of(function.basic_blocks@)),
        ensures
            same_result(prev_chain(statements_of(function.basic_blocks@), args@, fuel as nat), r),
        decreases fuel, 0nat,
    {
        let ghost sts = statements_of(function.basic_blocks@);
        if fuel == 0 || args.len() == 0 {
            return None;
        }
        match &args[0] {
            Operand::Copy(Place::Local(p)) => match call_graph.get(p.as_str()) {
                Some(pos) => {
                    let (b, s) = *pos;
                    let st = &function.basic_blocks[b].statements[s];
                    match (&st.place, &st.rvalue) {
                        (_, Rvalue::Call(pf, pa)) => Self::try_parse_chain(
                            p.as_str(),
                            pf.as_str(),
                            pa,
                            function,
                            call_graph,
                            closure_mapping,
                            fuel - 1,
                        ),
                        _ => {
                            assert(false);
                            None
                        },
                    }
                },
                None => None,
            },
            _ => None,
        }
    }

    /// The chain the call of `func_name` with `args` builds, following iterator arguments
    /// through the call graph at most `fuel` times.
    fn try_parse_chain(
        temp: &str,
        func_name: &str,
        args: &Vec<Operand>,
        function: &MirFunction,
        call_graph: &NameMap<(usize, usize)>,
        closure_mapping: &NameMap<usize>,
        fuel: usize,
    ) -> (r: Option<IteratorChain>)
        requires
            graph_ok(*call_graph, function.basic_blocks@, statements_of(function.basic_blocks@)),
            closures_ok(*closure_mapping, statements_of(function.basic_blocks@)),
        ensures
            same_result(parse_chain(statements_of(function.basic_blocks@), func_name@, args@, fuel as nat), r),
        decreases fuel, 1nat,
    {
        let ghost sts = statements_of(function.basic_blocks@);
        let f = chars_of(func_name);
        if str_contains(f.as_slice(), "::iter") {
            if args.len() > 0 {
                match &args[0] {
                    Operand::Copy(Place::Local(c)) => {
                        return Some(IteratorChain::Iter { collection: copy_string(c) });
                    },
                    _ => {},
                }
            }
            None
        } else if str_contains(f.as_slice(), "::map") {
            match Self::prev_chain_exec(args, function, call_graph, closure_mapping, fuel) {
                Some(p) => {
                    let k = Self::closure_or_zero(args, 1, closure_mapping, Ghost(sts));
                    Some(IteratorChain::Mapping { prev: Box::new(p), closure_id: k })
                },
                None => None,
            }
        } else if str_contains(f.as_slice(), "::filter") {
            match Self::prev_chain_exec(args, function, call_graph, closure_mapping, fuel) {
                Some(p) => {
                    let k = Self::closure_or_zero(args, 1, closure_mapping, Ghost(sts));
                    Some(IteratorChain::Filter { prev: Box::new(p), predicate_id: k })
                },
                None => None,
            }
        } else if str_contains(f.as_slice(), "::fold") {
            if args.len() >= 2 {
                match Self::prev_chain_exec(args, function, call_graph, closure_mapping, fuel) {
                    Some(p) => {
                        let k = Self::closure_or_zero(args, 2, closure_mapping, Ghost(sts));
                        Some(IteratorChain::Fold { prev: Box::new(p), init: args[1].copy_of(), func_id: k })
                    },
                    None => None,
                }
            } else {
                None
            }
        } else if str_contains(f.as_slice(), "::sum") {
            match Self::prev_chain_exec(args, function, call_graph, closure_mapping, fuel) {
                Some(p) => Some(IteratorChain::Sum { prev: Box::new(p) }),
                None => None,
            }
        } else if str_contains(f.as_slice(), "::collect") {
            match Self::prev_chain_exec(args, function, call_graph, closure_mapping, fuel) {
                Some(p) => Some(IteratorChain::Collect { prev: Box::new(p) }),
                None => None,
            }
        } else if str_contains(f.as_slice(), "::for_each") {
            match Self::prev_chain_exec(args, function, call_graph, closure_mapping, fuel) {
                Some(p) => {
                    let k = Self::closure_or_zero(args, 1, closure_mapping, Ghost(sts));
                    Some(IteratorChain::ForEach { prev: Box::new(p), func_id: k })
                },
                None => None,
            }
        } else {
            None
        }
    }
}

/// The detected chains `r` are `d`: the same locals and the same chains, in order.
pub open spec fn same_detections(d: Seq<(Seq<char>, IteratorChain)>, r: Seq<(String, IteratorChain)>) -> bool {
    &&& d.len() == r.len()
    &&& forall|i: int| 0 <= i < d.len() ==> #[trigger] r[i].0@ == d[i].0 && same_chain(d[i].1, r[i].1)
}

proof fn lemma_detected_step(sts: Seq<Statement>, fuel: nat, scan: Seq<Statement>, st: Statement)
    ensures
        detected(sts, fuel, scan.push(st)) == ({
            let r = detected(sts, fuel, scan);
            match local_call(st) {
                Some((t, f, a)) => match parse_chain(sts, f, a, fuel) {
                    Some(c) => r.push((t, c)),
                    None => r,
                },
                None => r,
            }
        }),
{
    assert(scan.push(st).drop_last() =~= scan);
}

impl IteratorChainDetector {
    /// Each call into a local that builds an iterator chain, with that chain, in statement
    /// order; iterator arguments are followed through the calls at most as many times as
    /// there are statements.
    pub fn detect_chains(function: &MirFunction) -> (r: Vec<(String, IteratorChain)>)
        ensures
            same_detections(
                detected(
                    statements_of(function.basic_blocks@),
                    budget(function.basic_blocks@) as nat,
                    statements_of(function.basic_blocks@),
                ),
                r@,
            ),
    {
        let ghost blocks = function.basic_blocks@;
        let ghost sts = statements_of(blocks);
        let call_graph = Self::build_call_graph(function);
        let closure_mapping = Self::build_closure_mapping(function);
        let mut fuel: usize = 0;
        let mut b: usize = 0;
        while b < function.basic_blocks.len()
            invariant
                blocks == function.basic_blocks@,
                b <= blocks.len(),
                fuel == budget(blocks.take(b as int)),
            decreases blocks.len() - b,
        {
            assert(blocks.take(b + 1).drop_last() =~= blocks.take(b as int));
            fuel = fuel.saturating_add(function.basic_blocks[b].statements.len());
            b += 1;
        }
        assert(blocks.take(blocks.len() as int) =~= blocks);
        let ghost fl = fuel as nat;
        let mut chains: Vec<(String, IteratorChain)> = Vec::new();
        let mut b: usize = 0;
        while b < function.basic_blocks.len()
            invariant
                blocks == function.basic_blocks@,
                sts == statements_of(blocks),
                fl == fuel as nat,
                fuel == budget(blocks),
                graph_ok(call_graph, blocks, sts),
                closures_ok(closure_mapping, sts),
                b <= blocks.len(),
                same_detections(detected(sts, fl, statements_of(blocks.take(b as int))), chains@),
            decreases blocks.len() - b,
        {
            let block = &function.basic_blocks[b];
            let ghost pre = statements_of(blocks.take(b as int));
            let mut s: usize = 0;
            while s < block.statements.len()
                invariant
                    blocks == function.basic_blocks@,
                    sts == statements_of(blocks),
                    fl == fuel as nat,
                    graph_ok(call_graph, blocks, sts),
                    closures_ok(closure_mapping, sts),
                    b < blocks.len(),
                    *block == blocks[b as int],
                    s <= block.statements@.len(),
                    same_detections(detected(sts, fl, pre + block.statements@.take(s as int)), chains@),
                decreases block.statements@.len() - s,
            {
                let st = &block.statements[s];
                let ghost before = pre + block.statements@.take(s as int);
                assert(pre + block.statements@.take(s + 1) =~= before.push(*st));
                proof {
                    lemma_detected_step(sts, fl, before, *st);
                }
                match (&st.place, &st.rvalue) {
                    (Place::Local(temp), Rvalue::Call(func_name, args)) => {
                        match Self::try_parse_chain(
                            temp.as_str(),
                            func_name.as_str(),
                            args,
                            function,
                            &call_graph,
                            &closure_mapping,
                            fuel,
                        ) {
                            Some(chain) => {
                                chains.push((copy_string(temp), chain));
                            },
                            None => {},
                        }
                    },
                    _ => {},
                }
                s += 1;
            }
            proof {
                assert(block.statements@.take(block.statements@.len() as int) =~= block.statements@);
                lemma_statements_step(blocks, b as int);
            }
            b += 1;
        }
        assert(blocks.take(blocks.len() as int) =~= blocks);
        chains
    }
}

proof fn lemma_same_operand_equiv(a: Operand, b: Operand, c: Operand)
    requires
        same_operand(a, b),
    ensures
        same_operand(a, c) == same_operand(b, c),
{
}

/// Equivalence does not see the difference between a chain and its copy.
proof fn lemma_same_chain_equivalent(a: IteratorChain, b: IteratorChain, c: IteratorChain)
    requires
        same_chain(a, b),
    ensures
        equivalent(a, c) == equivalent(b, c),
    decreases a,
{
    match (a, b, c) {
        (IteratorChain::Mapping { prev: p1, .. }, IteratorChain::Mapping { prev: p2, .. }, IteratorChain::Mapping { prev: p3, .. }) => {
            lemma_same_chain_equivalent(*p1, *p2, *p3);
        },
        (IteratorChain::Filter { prev: p1, .. }, IteratorChain::Filter { prev: p2, .. }, IteratorChain::Filter { prev: p3, .. }) => {
            lemma_same_chain_equivalent(*p1, *p2, *p3);
        },
        (
            IteratorChain::Fold { prev: p1, init: i1, .. },
            IteratorChain::Fold { prev: p2, init: i2, .. },
            IteratorChain::Fold { prev: p3, init: i3, .. },
        ) => {
            lemma_same_chain_equivalent(*p1, *p2, *p3);
            lemma_same_operand_equiv(i1, i2, i3);
        },
        (IteratorChain::Sum { prev: p1 }, IteratorChain::Sum { prev: p2 }, IteratorChain::Sum { prev: p3 }) => {
            lemma_same_chain_equivalent(*p1, *p2, *p3);
        },
        (IteratorChain::Collect { prev: p1 }, IteratorChain::Collect { prev: p2 }, IteratorChain::Collect { prev: p3 }) => {
            lemma_same_chain_equivalent(*p1, *p2, *p3);
        },
        (IteratorChain::ForEach { prev: p1, .. }, IteratorChain::ForEach { prev: p2, .. }, IteratorChain::ForEach { prev: p3, .. }) => {
            lemma_same_chain_equivalent(*p1, *p2, *p3);
        },
        _ => {},
    }
}

/// The first entry of `u` whose chain is equivalent to `c`.
pub open spec fn first_equivalent(u: Seq<(Seq<char>, IteratorChain, nat)>, c: IteratorChain) -> Option<int>
    decreases u.len(),
{
    if u.len() == 0 {
        None
    } else {
        match first_equivalent(u.drop_last(), c) {
            Some(j) => Some(j),
            None => if equivalent(u.last().1, c) {
                Some(u.len() - 1)
            } else {
                None
            },
        }
    }
}

proof fn lemma_first_equivalent(u: Seq<(Seq<char>, IteratorChain, nat)>, c: IteratorChain)
    ensures
        match first_equivalent(u, c) {
            Some(j) => 0 <= j < u.len() && equivalent(u[j].1, c) && forall|k: int| 0 <= k < j ==> !#[trigger] equivalent(u[k].1, c),
            None => forall|k: int| 0 <= k < u.len() ==> !#[trigger] equivalent(u[k].1, c),
        },
    decreases u.len(),
{
    if u.len() > 0 {
        let d = u.drop_last();
        lemma_first_equivalent(d, c);
        match first_equivalent(d, c) {
            Some(j) => {
                assert(d[j] == u[j]);
                assert forall|k: int| 0 <= k < j implies !#[trigger] equivalent(u[k].1, c) by {
                    assert(d[k] == u[k]);
                }
            },
            None => {
                assert forall|k: int| 0 <= k < d.len() implies !#[trigger] equivalent(u[k].1, c) by {
                    assert(d[k] == u[k]);
                }
            },
        }
    }
}

/// The chains of `cs` up to equivalence, each with the local of its first occurrence and
/// how many of `cs` are equivalent to it, in order of first occurrence.
pub open spec fn dedup(cs: Seq<(String, IteratorChain)>) -> Seq<(Seq<char>, IteratorChain, nat)>
    decreases cs.len(),
{
    if cs.len() == 0 {
        seq![]
    } else {
        let u = dedup(cs.drop_last());
        let (n, c) = cs.last();
        match first_equivalent(u, c) {
            Some(j) => u.update(j, (u[j].0, u[j].1, u[j].2 + 1)),
            None => u.push((n@, c, 1)),
        }
    }
}

/// `r` holds the entries of `d`: same locals, same chains, same counts.
pub open spec fn same_dedup(d: Seq<(Seq<char>, IteratorChain, nat)>, r: Seq<(String, IteratorChain, usize)>) -> bool {
    &&& d.len() == r.len()
    &&& forall|i: int|
        #![trigger r[i]]
        0 <= i < d.len() ==> r[i].0@ == d[i].0 && same_chain(d[i].1, r[i].1) && r[i].2 == d[i].2
}

proof fn lemma_dedup_counts(cs: Seq<(String, IteratorChain)>)
    ensures
        forall|i: int| 0 <= i < dedup(cs).len() ==> #[trigger] dedup(cs)[i].2 <= cs.len(),
        dedup(cs).len() <= cs.len(),
    decreases cs.len(),
{
    if cs.len() > 0 {
        lemma_dedup_counts(cs.drop_last());
        let u = dedup(cs.drop_last());
        lemma_first_equivalent(u, cs.last().1);
        let d = dedup(cs);
        assert forall|i: int| 0 <= i < d.len() implies #[trigger] d[i].2 <= cs.len() by {
            if i < u.len() {
                assert(u[i].2 <= cs.len() - 1);
            }
        }
    }
}

/// The chains among `cs` with at least one link after `iter()`, in order.
/// The combinators of all chains together.
pub open spec fn combinators_total(cs: Seq<(String, IteratorChain)>) -> int
    decreases cs.len(),
{
    if cs.len() == 0 {
        0
    } else {
        combinators_total(cs.drop_last()) + combinators(cs.last().1)
    }
}

proof fn lemma_combinators_total_prefix(cs: Seq<(String, IteratorChain)>, i: int)
    requires
        0 <= i <= cs.len(),
    ensures
        0 <= combinators_total(cs.take(i)) <= combinators_total(cs),
    decreases cs.len(),
{
    if i < cs.len() {
        assert(cs.take(i) =~= cs.drop_last().take(i));
        lemma_combinators_total_prefix(cs.drop_last(), i);
    } else {
        assert(cs.take(i) =~= cs);
        if cs.len() > 0 {
            lemma_combinators_total_prefix(cs.drop_last(), i - 1);
            assert(cs.drop_last().take(i - 1) =~= cs.drop_last());
        }
    }
}

proof fn lemma_fusible_len(cs: Seq<(String, IteratorChain)>)
    ensures
        fusible_of(cs).len() <= cs.len(),
    decreases cs.len(),
{
    if cs.len() > 0 {
        lemma_fusible_len(cs.drop_last());
    }
}

pub open spec fn fusible_of(cs: Seq<(String, IteratorChain)>) -> Seq<IteratorChain>
    decreases cs.len(),
{
    if cs.len() == 0 {
        seq![]
    } else if cs.last().1 is Iter {
        fusible_of(cs.drop_last())
    } else {
        fusible_of(cs.drop_last()).push(cs.last().1)
    }
}

/// The chains detected in a function, for fusion.
pub struct IteratorFusionOptimizer {
    pub detected_chains: Vec<(String, IteratorChain)>,
}

impl IteratorFusionOptimizer {
    pub fn new() -> (r: Self)
        ensures
            r.detected_chains@.len() == 0,
    {
        IteratorFusionOptimizer { detected_chains: Vec::new() }
    }

    /// Replaces the detected chains with those of `function`.
    pub fn analyze(&mut self, function: &MirFunction)
        ensures
            same_detections(
                detected(
                    statements_of(function.basic_blocks@),
                    budget(function.basic_blocks@) as nat,
                    statements_of(function.basic_blocks@),
                ),
                final(self).detected_chains@,
            ),
    {
        self.detected_chains = IteratorChainDetector::detect_chains(function);
    }

    /// The detected chains with at least one link after `iter()`.
    pub fn fusible_chains(&self) -> (r: Vec<&IteratorChain>)
        ensures
            r@.len() == fusible_of(self.detected_chains@).len(),
            forall|i: int| 0 <= i < r@.len() ==> *(#[trigger] r@[i]) == fusible_of(self.detected_chains@)[i],
    {
        let ghost cs = self.detected_chains@;
        let mut r: Vec<&IteratorChain> = Vec::new();
        let mut i: usize = 0;
        while i < self.detected_chains.len()
            invariant
                cs == self.detected_chains@,
                i <= cs.len(),
                r@.len() == fusible_of(cs.take(i as int)).len(),
                forall|k: int| 0 <= k < r@.len() ==> *(#[trigger] r@[k]) == fusible_of(cs.take(i as int))[k],
            decreases cs.len() - i,
        {
            assert(cs.take(i + 1).drop_last() =~= cs.take(i as int));
            let c = &self.detected_chains[i].1;
            if c.is_fusible() {
                r.push(c);
            }
            i += 1;
        }
        assert(cs.take(cs.len() as int) =~= cs);
        r
    }

    /// The number of detected chains, of fusible ones, of the others, and of combinators over
    /// all chains.
    pub fn chain_counts(&self) -> (r: (usize, usize, usize, usize))
        requires
            forall|i: int| 0 <= i < self.detected_chains@.len() ==> depth(#[trigger] self.detected_chains@[i].1) <= usize::MAX,
            combinators_total(self.detected_chains@) <= usize::MAX,
        ensures
            r.0 == self.detected_chains@.len(),
            r.1 == fusible_of(self.detected_chains@).len(),
            r.2 == self.detected_chains@.len() - fusible_of(self.detected_chains@).len(),
            r.3 == combinators_total(self.detected_chains@),
    {
        let ghost cs = self.detected_chains@;
        let total = self.detected_chains.len();
        let fusible = self.fusible_chains().len();
        proof {
            lemma_fusible_len(cs);
        }
        let mut combs: usize = 0;
        let mut i: usize = 0;
        while i < total
            invariant
                cs == self.detected_chains@,
                total == cs.len(),
                i <= total,
                forall|k: int| 0 <= k < cs.len() ==> depth(#[trigger] cs[k].1) <= usize::MAX,
                combinators_total(cs) <= usize::MAX,
                combs == combinators_total(cs.take(i as int)),
            decreases total - i,
        {
            proof {
                assert(cs.take(i + 1).drop_last() =~= cs.take(i as int));
                lemma_combinators_total_prefix(cs, i + 1);
            }
            let c = self.detected_chains[i].1.combinator_count();
            combs = combs + c;
            i += 1;
        }
        assert(cs.take(total as int) =~= cs);
        (total, fusible, total - fusible, combs)
    }

    /// The detected chains up to equivalence, with the local of each first occurrence and
    /// how many detected chains are equivalent to it.
    pub fn deduplicate_chains(&self) -> (r: Vec<(String, IteratorChain, usize)>)
        ensures
            same_dedup(dedup(self.detected_chains@), r@),
    {
        let ghost cs = self.detected_chains@;
        let mut unique: Vec<(String, IteratorChain, usize)> = Vec::new();
        let mut i: usize = 0;
        while i < self.detected_chains.len()
            invariant
                cs == self.detected_chains@,
                i <= cs.len(),
                same_dedup(dedup(cs.take(i as int)), unique@),
            decreases cs.len() - i,
        {
            let ghost t = cs.take(i + 1);
            assert(t.drop_last() =~= cs.take(i as int));
            proof {
                lemma_dedup_counts(t);
                lemma_dedup_counts(cs.take(i as int));
            }
            let ghost u = dedup(cs.take(i as int));
            let (name, chain) = (&self.detected_chains[i].0, &self.detected_chains[i].1);
            assert(t.last() == (*name, *chain));
            let mut found: Option<usize> = None;
            let mut j: usize = 0;
            while j < unique.len()
                invariant
                    same_dedup(u, unique@),
                    j <= unique@.len(),
                    found is None ==> forall|k: int| 0 <= k < j ==> !#[trigger] equivalent(u[k].1, *chain),
                    found matches Some(x) ==> x < unique@.len() && equivalent(u[x as int].1, *chain) && forall|k: int|
                        0 <= k < x ==> !#[trigger] equivalent(u[k].1, *chain),
                decreases unique@.len() - j,
            {
                if found.is_none() {
                    proof {
                        assert(unique@[j as int].0@ == u[j as int].0 && same_chain(u[j as int].1, unique@[j as int].1));
                        lemma_same_chain_equivalent(u[j as int].1, unique@[j as int].1, *chain);
                    }
                    if unique[j].1.is_equivalent_to(chain) {
                        found = Some(j);
                    }
                }
                j += 1;
            }
            match found {
                Some(x) => {
                    proof {
                        lemma_first_equivalent(u, *chain);
                        match first_equivalent(u, *chain) {
                            Some(c) => {
                                if c < x {
                                    assert(!equivalent(u[c].1, *chain));
                                }
                                if c > x {
                                    assert(!equivalent(u[x as int].1, *chain));
                                }
                            },
                            None => {
                                assert(!equivalent(u[x as int].1, *chain));
                            },
                        }
                        assert(unique@[x as int].0@ == u[x as int].0);
                        assert(u[x as int].2 <= i);
                    }
                    let ghost before = unique@;
                    let filler = (String::new(), IteratorChain::Iter { collection: String::new() }, 0usize);
                    let (n0, c0, k0) = crate::seqs::take_at(&mut unique, x, filler);
                    unique.set(x, (n0, c0, k0 + 1));
                    proof {
                        let d = dedup(t);
                        assert(d == u.update(x as int, (u[x as int].0, u[x as int].1, u[x as int].2 + 1)));
                        assert forall|ii: int| #![trigger unique@[ii]] 0 <= ii < d.len() implies unique@[ii].0@ == d[ii].0
                            && same_chain(d[ii].1, unique@[ii].1) && unique@[ii].2 == d[ii].2 by {
                            if ii != x {
                                assert(unique@[ii] == before[ii]);
                                assert(before[ii].0@ == u[ii].0);
                            } else {
                                assert(before[ii].0@ == u[ii].0);
                            }
                        }
                        assert(unique@.len() == d.len());
                        assert(same_dedup(d, unique@));
                    }
                },
                None => {
                    proof {
                        lemma_first_equivalent(u, *chain);
                        match first_equivalent(u, *chain) {
                            Some(c) => {
                                assert(!equivalent(u[c].1, *chain));
                            },
                            None => {},
                        }
                    }
                    let ghost before = unique@;
                    unique.push((copy_string(name), chain.copy_of(), 1));
                    proof {
                        let d = dedup(t);
                        assert(d == u.push((name@, *chain, 1nat)));
                        assert forall|ii: int| #![trigger unique@[ii]] 0 <= ii < d.len() implies unique@[ii].0@ == d[ii].0
                            && same_chain(d[ii].1, unique@[ii].1) && unique@[ii].2 == d[ii].2 by {
                            if ii < before.len() {
                                assert(unique@[ii] == before[ii]);
                                assert(before[ii].0@ == u[ii].0);
                            }
                        }
                        assert(unique@.len() == d.len());
                        assert(same_dedup(d, unique@));
                    }
                },
            }
            i += 1;
        }
        assert(cs.take(cs.len() as int) =~= cs);
        unique
    }
}

/// Limits on which chains to fuse.
#[derive(Debug, Clone)]
pub struct FusionConfig {
    pub max_chain_length: usize,
    pub min_chain_length: usize,
    pub inline_closures: bool,
    pub unroll_loops: bool,
}

impl Default for FusionConfig {
    /// Chains of 2 to 8 combinators, closures inlined, loops not unrolled.
    fn default() -> (r: Self)
        ensures
            r == (FusionConfig { max_chain_length: 8, min_chain_length: 2, inline_closures: true, unroll_loops: false }),
    {
        FusionConfig { max_chain_length: 8, min_chain_length: 2, inline_closures: true, unroll_loops: false }
    }
}

/// A chain the configuration accepts: its combinator count is within the limits.
pub open spec fn within_limits(c: IteratorChain, config: FusionConfig) -> bool {
    config.min_chain_length <= combinators(c) <= config.max_chain_length
}

/// Decisions on fusing chains.
pub struct IteratorFusionTransformer;

impl IteratorFusionTransformer {
    /// The name of the fused loop for a chain the configuration accepts.
    pub fn fuse_chain(chain: &IteratorChain, config: &FusionConfig) -> (r: Option<String>)
        requires
            depth(*chain) <= usize::MAX,
        ensures
            within_limits(*chain, *config) ==> (r matches Some(n) && n@ == "__fused_iter_"@ + root(*chain)),
            !within_limits(*chain, *config) ==> r is None,
    {
        let combinator_count = chain.combinator_count();
        if combinator_count < config.min_chain_length || combinator_count > config.max_chain_length {
            return None;
        }
        match chain.root_collection() {
            Some(collection_name) => {
                let mut n = chars_of("__fused_iter_");
                crate::text::append_str(&mut n, collection_name);
                Some(string_of(n.as_slice()))
            },
            None => None,
        }
    }

    /// The operations of the chain in source order, each with its closure (0 for none).
    pub fn extract_operations(chain: &IteratorChain) -> (r: Vec<(String, usize)>)
        ensures
            r@.len() == operations(*chain).len(),
            forall|i: int| 0 <= i < r@.len() ==> #[trigger] r@[i].0@ == operations(*chain)[i].0 && r@[i].1 == operations(*chain)[i].1,
    {
        let mut ops: Vec<(String, usize)> = Vec::new();
        let ghost e = ops@;
        assert(e.len() == 0);
        Self::collect_operations(chain, &mut ops);
        assert forall|i: int| 0 <= i < ops@.len() implies #[trigger] ops@[i].0@ == operations(*chain)[i].0
            && ops@[i].1 == operations(*chain)[i].1 by {
            assert(ops@[e.len() + i].0@ == operations(*chain)[i].0);
        }
        ops
    }

    /// Appends the operations of the chain in source order.
    pub fn collect_operations(chain: &IteratorChain, ops: &mut Vec<(String, usize)>)
        ensures
            final(ops)@.len() == old(ops)@.len() + operations(*chain).len(),
            forall|i: int| 0 <= i < old(ops)@.len() ==> #[trigger] final(ops)@[i] == old(ops)@[i],
            forall|i: int|
                0 <= i < operations(*chain).len() ==> #[trigger] final(ops)@[old(ops)@.len() + i].0@ == operations(*chain)[i].0
                    && final(ops)@[old(ops)@.len() + i].1 == operations(*chain)[i].1,
        decreases chain,
    {
        let ghost n0 = ops@.len();
        let ghost o0 = ops@;
        let (name, id): (&str, usize) = match chain {
            IteratorChain::Iter { .. } => {
                return ;
            },
            IteratorChain::Mapping { prev, closure_id } => {
                Self::collect_operations(prev, ops);
                ("map", *closure_id)
            },
            IteratorChain::Filter { prev, predicate_id } => {
                Self::collect_operations(prev, ops);
                ("filter", *predicate_id)
            },
            IteratorChain::Fold { prev, func_id, .. } => {
                Self::collect_operations(prev, ops);
                ("fold", *func_id)
            },
            IteratorChain::Sum { prev } => {
                Self::collect_operations(prev, ops);
                ("sum", 0)
            },
            IteratorChain::Collect { prev } => {
                Self::collect_operations(prev, ops);
                ("collect", 0)
            },
            IteratorChain::ForEach { prev, func_id } => {
                Self::collect_operations(prev, ops);
                ("for_each", *func_id)
            },
        };
        let ghost mid = ops@;
        ops.push((name.to_string(), id));
        proof {
            let ps = operations(*chain);
            assert forall|i: int| 0 <= i < ps.len() implies #[trigger] ops@[n0 + i].0@ == ps[i].0 && ops@[n0 + i].1 == ps[i].1 by {
                if i < ps.len() - 1 {
                    assert(ops@[n0 + i] == mid[n0 + i]);
                }
            }
        }
    }

    /// Every detected chain is taken as safe to fuse.
    pub fn is_safe_to_fuse(chain: &IteratorChain) -> (r: bool)
        ensures
            r,
    {
        true
    }

    /// Whether the configuration accepts the chain and it has a link after `iter()`.
    pub fn should_fuse(chain: &IteratorChain, config: &FusionConfig) -> (r: bool)
        requires
            depth(*chain) <= usize::MAX,
        ensures
            r == (within_limits(*chain, *config) && !(*chain is Iter)),
    {
        let combinator_count = chain.combinator_count();
        if combinator_count < config.min_chain_length {
            return false;
        }
        if combinator_count > config.max_chain_length {
            return false;
        }
        chain.is_fusible()
    }
}

/// SIMD instruction sets for vectorized loops.
#[derive(Debug, Clone, Copy, PartialEq, Eq, Structural)]
pub enum SIMDType {
    SSE2,
    AVX2,
}

impl SIMDType {
    /// How many 64-bit lanes the instruction set has.
    pub fn vector_width(&self) -> (r: usize)
        ensures
            r == (match *self {
                SIMDType::SSE2 => 2usize,
                SIMDType::AVX2 => 4usize,
            }),
    {
        match self {
            SIMDType::SSE2 => 2,
            SIMDType::AVX2 => 4,
        }
    }
}

/// Chain equivalence is an equivalence relation.
pub proof fn law_equivalence_is_an_equivalence(a: IteratorChain, b: IteratorChain, c: IteratorChain)
    ensures
        equivalent(a, a),
        equivalent(a, b) ==> equivalent(b, a),
        equivalent(a, b) && equivalent(b, c) ==> equivalent(a, c),
{
    lemma_equivalent_refl(a);
    if equivalent(a, b) {
        lemma_equivalent_sym(a, b);
        if equivalent(b, c) {
            lemma_equivalent_trans(a, b, c);
        }
    }
}

proof fn lemma_equivalent_sym(a: IteratorChain, b: IteratorChain)
    requires
        equivalent(a, b),
    ensures
        equivalent(b, a),
    decreases a,
{
    match (a, b) {
        (IteratorChain::Mapping { prev: p1, .. }, IteratorChain::Mapping { prev: p2, .. }) => lemma_equivalent_sym(*p1, *p2),
        (IteratorChain::Filter { prev: p1, .. }, IteratorChain::Filter { prev: p2, .. }) => lemma_equivalent_sym(*p1, *p2),
        (IteratorChain::Fold { prev: p1, .. }, IteratorChain::Fold { prev: p2, .. }) => lemma_equivalent_sym(*p1, *p2),
        (IteratorChain::Sum { prev: p1 }, IteratorChain::Sum { prev: p2 }) => lemma_equivalent_sym(*p1, *p2),
        (IteratorChain::Collect { prev: p1 }, IteratorChain::Collect { prev: p2 }) => lemma_equivalent_sym(*p1, *p2),
        (IteratorChain::ForEach { prev: p1, .. }, IteratorChain::ForEach { prev: p2, .. }) => lemma_equivalent_sym(*p1, *p2),
        _ => {},
    }
}

proof fn lemma_equivalent_trans(a: IteratorChain, b: IteratorChain, c: IteratorChain)
    requires
        equivalent(a, b),
        equivalent(b, c),
    ensures
        equivalent(a, c),
    decreases a,
{
    match (a, b, c) {
        (IteratorChain::Mapping { prev: p1, .. }, IteratorChain::Mapping { prev: p2, .. }, IteratorChain::Mapping { prev: p3, .. }) => {
            lemma_equivalent_trans(*p1, *p2, *p3);
        },
        (IteratorChain::Filter { prev: p1, .. }, IteratorChain::Filter { prev: p2, .. }, IteratorChain::Filter { prev: p3, .. }) => {
            lemma_equivalent_trans(*p1, *p2, *p3);
        },
        (IteratorChain::Fold { prev: p1, .. }, IteratorChain::Fold { prev: p2, .. }, IteratorChain::Fold { prev: p3, .. }) => {
            lemma_equivalent_trans(*p1, *p2, *p3);
        },
        (IteratorChain::Sum { prev: p1 }, IteratorChain::Sum { prev: p2 }, IteratorChain::Sum { prev: p3 }) => {
            lemma_equivalent_trans(*p1, *p2, *p3);
        },
        (IteratorChain::Collect { prev: p1 }, IteratorChain::Collect { prev: p2 }, IteratorChain::Collect { prev: p3 }) => {
            lemma_equivalent_trans(*p1, *p2, *p3);
        },
        (IteratorChain::ForEach { prev: p1, .. }, IteratorChain::ForEach { prev: p2, .. }, IteratorChain::ForEach { prev: p3, .. }) => {
            lemma_equivalent_trans(*p1, *p2, *p3);
        },
        _ => {},
    }
}

proof fn lemma_equivalent_refl(a: IteratorChain)
    ensures
        equivalent(a, a),
    decreases a,
{
    match a {
        IteratorChain::Iter { .. } => {},
        IteratorChain::Mapping { prev, .. } => lemma_equivalent_refl(*prev),
        IteratorChain::Filter { prev, .. } => lemma_equivalent_refl(*prev),
        IteratorChain::Fold { prev, .. } => lemma_equivalent_refl(*prev),
        IteratorChain::Sum { prev } => lemma_equivalent_refl(*prev),
        IteratorChain::Collect { prev } => lemma_equivalent_refl(*prev),
        IteratorChain::ForEach { prev, .. } => lemma_equivalent_refl(*prev),
    }
}

/// Deduplication accounts for every detected chain: the counts add up to their number.
pub proof fn law_dedup_counts_every_chain(cs: Seq<(String, IteratorChain)>)
    ensures
        crate::names::sum_of(dedup(cs), |e: (Seq<char>, IteratorChain, nat)| e.2 as int) == cs.len(),
    decreases cs.len(),
{
    let f = |e: (Seq<char>, IteratorChain, nat)| e.2 as int;
    if cs.len() > 0 {
        law_dedup_counts_every_chain(cs.drop_last());
        let u = dedup(cs.drop_last());
        let c = cs.last().1;
        lemma_first_equivalent(u, c);
        match first_equivalent(u, c) {
            Some(j) => {
                let v = u.update(j, (u[j].0, u[j].1, u[j].2 + 1));
                crate::names::lemma_sum_remove(u, f, j);
                crate::names::lemma_sum_remove(v, f, j);
                assert(v.remove(j) =~= u.remove(j));
            },
            None => {
                assert(u.push((cs.last().0@, c, 1nat)).drop_last() =~= u);
            },
        }
    }
}

/// After deduplication no chain is equivalent to a later one.
pub proof fn law_dedup_leaves_no_equivalent_pair(cs: Seq<(String, IteratorChain)>)
    ensures
        forall|i: int, j: int|
            0 <= i < j < dedup(cs).len() ==> !equivalent(#[trigger] dedup(cs)[i].1, #[trigger] dedup(cs)[j].1),
    decreases cs.len(),
{
    if cs.len() > 0 {
        law_dedup_leaves_no_equivalent_pair(cs.drop_last());
        let u = dedup(cs.drop_last());
        let c = cs.last().1;
        lemma_first_equivalent(u, c);
        let d = dedup(cs);
        assert forall|i: int, j: int| 0 <= i < j < d.len() implies !equivalent(#[trigger] d[i].1, #[trigger] d[j].1) by {
            match first_equivalent(u, c) {
                Some(k) => {
                    assert(d[i].1 == u[i].1);
                    assert(d[j].1 == u[j].1);
                },
                None => {
                    if j < u.len() {
                        assert(d[i].1 == u[i].1);
                        assert(d[j].1 == u[j].1);
                    } else {
                        assert(d[i].1 == u[i].1);
                        assert(!equivalent(u[i].1, c));
                    }
                },
            }
        }
    }
}

/// What is known of a closure for inlining it into a fused loop: its number, parameters,
/// body statements and returned operand.
#[derive(Debug, Clone)]
pub struct ClosureMetadata {
    pub id: usize,
    pub params: Vec<(String, HirType)>,
    pub body_statements: Vec<Statement>,
    pub return_value: Option<Operand>,
}


/// The kinds of a chain's operations, in order (`map`, `filter`, `fold`, `sum`, `collect`,
/// `for_each`), without their closure identities.
pub open spec fn operation_kinds(c: IteratorChain) -> Seq<Seq<char>> {
    operations(c).map_values(|o: (Seq<char>, usize)| o.0)
}

/// Equivalent chains start from the same collection and perform the same kinds of
/// operation in the same order, so a sum is never equivalent to a collect; only closure
/// identities may differ.
pub proof fn law_equivalent_chains_do_the_same_operations(a: IteratorChain, b: IteratorChain)
    requires
        equivalent(a, b),
    ensures
        operation_kinds(a) == operation_kinds(b),
        operations(a).len() == operations(b).len(),
        root(a) == root(b),
    decreases a,
{
    match (a, b) {
        (IteratorChain::Iter { .. }, IteratorChain::Iter { .. }) => {
            assert(operation_kinds(a) =~= operation_kinds(b));
        },
        (IteratorChain::Mapping { prev: p1, .. }, IteratorChain::Mapping { prev: p2, .. }) => {
            law_equivalent_chains_do_the_same_operations(*p1, *p2);
            assert(operation_kinds(a) =~= operation_kinds(*p1).push("map"@));
            assert(operation_kinds(b) =~= operation_kinds(*p2).push("map"@));
        },
        (IteratorChain::Filter { prev: p1, .. }, IteratorChain::Filter { prev: p2, .. }) => {
            law_equivalent_chains_do_the_same_operations(*p1, *p2);
            assert(operation_kinds(a) =~= operation_kinds(*p1).push("filter"@));
            assert(operation_kinds(b) =~= operation_kinds(*p2).push("filter"@));
        },
        (IteratorChain::Fold { prev: p1, .. }, IteratorChain::Fold { prev: p2, .. }) => {
            law_equivalent_chains_do_the_same_operations(*p1, *p2);
            assert(operation_kinds(a) =~= operation_kinds(*p1).push("fold"@));
            assert(operation_kinds(b) =~= operation_kinds(*p2).push("fold"@));
        },
        (IteratorChain::Sum { prev: p1 }, IteratorChain::Sum { prev: p2 }) => {
            law_equivalent_chains_do_the_same_operations(*p1, *p2);
            assert(operation_kinds(a) =~= operation_kinds(*p1).push("sum"@));
            assert(operation_kinds(b) =~= operation_kinds(*p2).push("sum"@));
        },
        (IteratorChain::Collect { prev: p1 }, IteratorChain::Collect { prev: p2 }) => {
            law_equivalent_chains_do_the_same_operations(*p1, *p2);
            assert(operation_kinds(a) =~= operation_kinds(*p1).push("collect"@));
            assert(operation_kinds(b) =~= operation_kinds(*p2).push("collect"@));
        },
        (IteratorChain::ForEach { prev: p1, .. }, IteratorChain::ForEach { prev: p2, .. }) => {
            law_equivalent_chains_do_the_same_operations(*p1, *p2);
            assert(operation_kinds(a) =~= operation_kinds(*p1).push("for_each"@));
            assert(operation_kinds(b) =~= operation_kinds(*p2).push("for_each"@));
        },
        _ => {},
    }
}

/// A chain that sums and one that collects are never equivalent, whatever they start from.
pub proof fn law_sum_is_not_collect(p1: Box<IteratorChain>, p2: Box<IteratorChain>)
    ensures
        !equivalent(IteratorChain::Sum { prev: p1 }, IteratorChain::Collect { prev: p2 }),
        !equivalent(IteratorChain::Collect { prev: p2 }, IteratorChain::Sum { prev: p1 }),
{
    let a = IteratorChain::Sum { prev: p1 };
    let b = IteratorChain::Collect { prev: p2 };
    reveal_strlit("sum");
    reveal_strlit("collect");
    if equivalent(a, b) {
        law_equivalent_chains_do_the_same_operations(a, b);
        assert(operation_kinds(a).last() == "sum"@);
        assert(operation_kinds(b).last() == "collect"@);
    }
    if equivalent(b, a) {
        law_equivalent_chains_do_the_same_operations(b, a);
        assert(operation_kinds(a).last() == "sum"@);
        assert(operation_kinds(b).last() == "collect"@);
    }
}

} // verus!
