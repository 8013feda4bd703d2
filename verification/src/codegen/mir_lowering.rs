//! Lowering of the syntax tree to MIR: each function becomes a graph of basic blocks,
//! expressions become temporaries, and `if` statements become branches that meet again.
use vstd::prelude::*;
use crate::ast::{self, Block, Expression, Item, Parameter};
use crate::mir::{
    functions_v, function_v, blocks_v, block_v, operand_v, operands_v, place_v, rvalue_v, statement_v, terminator_v,
    BasicBlock, BinaryOp, BlockV, Constant, ConstantV, HirType, Mir, MirFunction, Operand,
    OperandV, Place, PlaceV, Rvalue, RvalueV, Statement, Terminator, TerminatorV,
};
use crate::text::dec;

verus! {

/// The state of lowering one function: its blocks, the block being filled, and how many
/// temporaries have been named.
pub struct LState {
    pub blocks: Seq<BlockV>,
    pub cur: int,
    pub temps: nat,
}

/// The MIR operator for a source operator.
pub open spec fn mir_op(op: ast::BinaryOp) -> BinaryOp {
    match op {
        ast::BinaryOp::Add => BinaryOp::Add,
        ast::BinaryOp::Subtract => BinaryOp::Subtract,
        ast::BinaryOp::Multiply => BinaryOp::Multiply,
        ast::BinaryOp::Divide => BinaryOp::Divide,
        ast::BinaryOp::Modulo => BinaryOp::Modulo,
        ast::BinaryOp::Equal => BinaryOp::Equal,
        ast::BinaryOp::NotEqual => BinaryOp::NotEqual,
        ast::BinaryOp::Less => BinaryOp::Less,
        ast::BinaryOp::LessEq => BinaryOp::LessEqual,
        ast::BinaryOp::Greater => BinaryOp::Greater,
        ast::BinaryOp::GreaterEq => BinaryOp::GreaterEqual,
        ast::BinaryOp::And => BinaryOp::And,
        ast::BinaryOp::Or => BinaryOp::Or,
        ast::BinaryOp::BitwiseAnd => BinaryOp::BitwiseAnd,
        ast::BinaryOp::BitwiseOr => BinaryOp::BitwiseOr,
        ast::BinaryOp::BitwiseXor => BinaryOp::BitwiseXor,
        ast::BinaryOp::LeftShift => BinaryOp::LeftShift,
        ast::BinaryOp::RightShift => BinaryOp::RightShift,
    }
}

/// The name of temporary `n`.
pub open spec fn temp_name(n: nat) -> Seq<char> {
    "_t"@ + dec(n)
}

/// `s` with a statement added to the block being filled, when that block exists.
pub open spec fn push_stmt(s: LState, st: (PlaceV, RvalueV)) -> LState {
    if 0 <= s.cur < s.blocks.len() {
        LState {
            blocks: s.blocks.update(
                s.cur,
                BlockV { statements: s.blocks[s.cur].statements.push(st), terminator: s.blocks[s.cur].terminator },
            ),
            ..s
        }
    } else {
        s
    }
}

/// `s` with the block being filled ending in `t`, when that block exists.
pub open spec fn set_term(s: LState, t: TerminatorV) -> LState {
    if 0 <= s.cur < s.blocks.len() {
        LState {
            blocks: s.blocks.update(s.cur, BlockV { statements: s.blocks[s.cur].statements, terminator: t }),
            ..s
        }
    } else {
        s
    }
}

/// `s` with the block being filled jumping to `target`, when it exists and has no end yet.
pub open spec fn close_with_goto(s: LState, target: usize) -> LState {
    if 0 <= s.cur < s.blocks.len() && s.blocks[s.cur].terminator is Unreachable {
        set_term(s, TerminatorV::Goto(target))
    } else {
        s
    }
}

/// An empty block with no end yet.
pub open spec fn open_block() -> BlockV {
    BlockV { statements: seq![], terminator: TerminatorV::Unreachable }
}

/// Lowering an expression: the state after, the operand that holds its value, and the
/// name of the place that holds it (empty when there is none).
pub open spec fn lower_expr(e: Expression, s: LState) -> (LState, OperandV, Seq<char>)
    decreases e,
{
    match e {
        Expression::Integer(n) => (s, OperandV::Constant(ConstantV::Integer(n)), seq![]),
        Expression::Bool(b) => (s, OperandV::Constant(ConstantV::Bool(b)), seq![]),
        Expression::String(x) => (s, OperandV::Constant(ConstantV::String(x@)), seq![]),
        Expression::Variable(x) => (s, OperandV::Copy(PlaceV::Local(x@)), x@),
        Expression::Binary { left, op, right } => {
            let (s1, lv, _) = lower_expr(*left, s);
            let (s2, rv, _) = lower_expr(*right, s1);
            let t = temp_name(s2.temps);
            let s3 = push_stmt(
                LState { temps: s2.temps + 1, ..s2 },
                (PlaceV::Local(t), RvalueV::BinaryOp(mir_op(op), lv, rv)),
            );
            (s3, OperandV::Copy(PlaceV::Local(t)), t)
        },
        Expression::FunctionCall { name, args } => {
            let (s1, vs) = lower_args(args@, s);
            let t = temp_name(s1.temps);
            let s2 = push_stmt(LState { temps: s1.temps + 1, ..s1 }, (PlaceV::Local(t), RvalueV::Call(name@, vs)));
            (s2, OperandV::Copy(PlaceV::Local(t)), t)
        },
        Expression::Block(b) => {
            let s1 = lower_stmts(b.statements@, s);
            match b.expression {
                Some(x) => {
                    let (s2, v, _) = lower_expr(*x, s1);
                    (s2, v, seq![])
                },
                None => (s1, OperandV::Constant(ConstantV::Unit), seq![]),
            }
        },
        Expression::Tuple(_) => (s, OperandV::Constant(ConstantV::Unit), seq![]),
    }
}

/// Lowering arguments left to right: the state after and their operands.
pub open spec fn lower_args(args: Seq<Expression>, s: LState) -> (LState, Seq<OperandV>)
    decreases args,
{
    if args.len() == 0 {
        (s, seq![])
    } else {
        let (s1, vs) = lower_args(args.drop_last(), s);
        let (s2, v, _) = lower_expr(args.last(), s1);
        (s2, vs.push(v))
    }
}

/// Lowering statements in order.
pub open spec fn lower_stmts(sts: Seq<ast::Statement>, s: LState) -> LState
    decreases sts,
{
    if sts.len() == 0 {
        s
    } else {
        lower_stmt(sts.last(), lower_stmts(sts.drop_last(), s))
    }
}

/// Lowering a statement: `let` stores its value, `return` ends the block, `if` branches to
/// fresh then and else blocks that both go on to a fresh block after them; other
/// statements change nothing.
pub open spec fn lower_stmt(st: ast::Statement, s: LState) -> LState
    decreases st,
{
    match st {
        ast::Statement::Let { name, initializer, .. } => {
            let (s1, v, _) = lower_expr(initializer, s);
            push_stmt(s1, (PlaceV::Local(name@), RvalueV::Use(v)))
        },
        ast::Statement::Expression(e) => lower_expr(e, s).0,
        ast::Statement::Return(Some(e)) => {
            let (s1, v, _) = lower_expr(e, s);
            set_term(s1, TerminatorV::Return(Some(v)))
        },
        ast::Statement::Return(None) => set_term(s, TerminatorV::Return(None)),
        ast::Statement::If { condition, then_body, else_body } => {
            let (s1, cv, _) = lower_expr(condition, s);
            let n = s1.blocks.len();
            let s2 = LState {
                blocks: s1.blocks.push(open_block()).push(open_block()).push(open_block()),
                ..s1
            };
            let s3 = set_term(s2, TerminatorV::If(cv, n as usize, (n + 1) as usize));
            let s4 = lower_stmts(then_body.statements@, LState { cur: n as int, ..s3 });
            let s5 = match then_body.expression {
                Some(x) => lower_expr(*x, s4).0,
                None => s4,
            };
            let s6 = close_with_goto(s5, (n + 2) as usize);
            let s7 = LState { cur: n + 1int, ..s6 };
            let s8 = match else_body {
                Some(es) => lower_stmt(*es, s7),
                None => s7,
            };
            let s9 = close_with_goto(s8, (n + 2) as usize);
            LState { cur: n + 2int, ..s9 }
        },
        ast::Statement::While { .. } => s,
    }
}

/// Lowering never takes back a temporary number.
proof fn lemma_expr_temps(e: Expression, s: LState)
    ensures
        lower_expr(e, s).0.temps >= s.temps,
    decreases e,
{
    match e {
        Expression::Binary { left, right, .. } => {
            lemma_expr_temps(*left, s);
            lemma_expr_temps(*right, lower_expr(*left, s).0);
        },
        Expression::FunctionCall { args, .. } => {
            lemma_args_temps(args@, s);
        },
        Expression::Block(b) => {
            lemma_stmts_temps(b.statements@, s);
            match b.expression {
                Some(x) => lemma_expr_temps(*x, lower_stmts(b.statements@, s)),
                None => {},
            }
        },
        _ => {},
    }
}

proof fn lemma_args_temps(args: Seq<Expression>, s: LState)
    ensures
        lower_args(args, s).0.temps >= s.temps,
    decreases args,
{
    if args.len() > 0 {
        lemma_args_temps(args.drop_last(), s);
        lemma_expr_temps(args.last(), lower_args(args.drop_last(), s).0);
    }
}

proof fn lemma_stmts_temps(sts: Seq<ast::Statement>, s: LState)
    ensures
        lower_stmts(sts, s).temps >= s.temps,
    decreases sts,
{
    if sts.len() > 0 {
        lemma_stmts_temps(sts.drop_last(), s);
        lemma_stmt_temps(sts.last(), lower_stmts(sts.drop_last(), s));
    }
}

proof fn lemma_stmt_temps(st: ast::Statement, s: LState)
    ensures
        lower_stmt(st, s).temps >= s.temps,
    decreases st,
{
    match st {
        ast::Statement::Let { initializer, .. } => lemma_expr_temps(initializer, s),
        ast::Statement::Expression(e) => lemma_expr_temps(e, s),
        ast::Statement::Return(Some(e)) => lemma_expr_temps(e, s),
        ast::Statement::If { condition, then_body, else_body } => {
            lemma_expr_temps(condition, s);
            let (s1, cv, _) = lower_expr(condition, s);
            let n = s1.blocks.len();
            let s2 = LState { blocks: s1.blocks.push(open_block()).push(open_block()).push(open_block()), ..s1 };
            let s3 = set_term(s2, TerminatorV::If(cv, n as usize, (n + 1) as usize));
            let s3c = LState { cur: n as int, ..s3 };
            lemma_stmts_temps(then_body.statements@, s3c);
            let s4 = lower_stmts(then_body.statements@, s3c);
            match then_body.expression {
                Some(x) => lemma_expr_temps(*x, s4),
                None => {},
            }
            let s5 = match then_body.expression {
                Some(x) => lower_expr(*x, s4).0,
                None => s4,
            };
            let s6 = close_with_goto(s5, (n + 2) as usize);
            let s7 = LState { cur: n + 1int, ..s6 };
            match else_body {
                Some(es) => lemma_stmt_temps(*es, s7),
                None => {},
            }
        },
        _ => {},
    }
}

/// The view of the lowering state held in `blocks`, `cur` and `temps`.
pub open spec fn view_of(blocks: Seq<BasicBlock>, cur: usize, temps: usize) -> LState {
    LState { blocks: blocks_v(blocks), cur: cur as int, temps: temps as nat }
}

/// Numbers the temporaries of one function.
pub struct LoweringState {
    pub temp_counter: usize,
}

impl LoweringState {
    pub fn new() -> (r: Self)
        ensures
            r.temp_counter == 0,
    {
        LoweringState { temp_counter: 0 }
    }

    /// The next temporary's name, `_t` and its number.
    pub fn gen_temp(&mut self) -> (r: String)
        requires
            old(self).temp_counter < usize::MAX,
        ensures
            r@ == temp_name(old(self).temp_counter as nat),
            final(self).temp_counter == old(self).temp_counter + 1,
    {
        let mut cs = crate::text::chars_of("_t");
        crate::text::push_usize(&mut cs, self.temp_counter);
        self.temp_counter = self.temp_counter + 1;
        crate::text::string_of(cs.as_slice())
    }
}

fn empty_block() -> (r: BasicBlock)
    ensures
        block_v(r) == open_block(),
{
    let r = BasicBlock { statements: Vec::new(), terminator: Terminator::Unreachable };
    assert(block_v(r).statements =~= Seq::<(PlaceV, RvalueV)>::empty());
    r
}

fn push_statement(blocks: &mut Vec<BasicBlock>, cur: usize, st: Statement)
    ensures
        blocks_v(final(blocks)@) == push_stmt(LState { blocks: blocks_v(old(blocks)@), cur: cur as int, temps: 0 }, statement_v(st)).blocks,
{
    if cur < blocks.len() {
        let ghost ob = blocks@;
        let mut b = crate::seqs::take_at(blocks, cur, BasicBlock { statements: Vec::new(), terminator: Terminator::Unreachable });
        let ghost os = b.statements@;
        b.statements.push(st);
        let ghost nb = b;
        blocks.set(cur, b);
        proof {
            assert(blocks@ == ob.update(cur as int, nb));
            assert(block_v(nb).statements =~= block_v(ob[cur as int]).statements.push(statement_v(st)));
            assert(blocks_v(blocks@) =~= blocks_v(ob).update(
                cur as int,
                BlockV { statements: blocks_v(ob)[cur as int].statements.push(statement_v(st)), terminator: blocks_v(ob)[cur as int].terminator },
            ));
        }
    }
}

fn set_terminator(blocks: &mut Vec<BasicBlock>, cur: usize, t: Terminator)
    ensures
        blocks_v(final(blocks)@) == set_term(LState { blocks: blocks_v(old(blocks)@), cur: cur as int, temps: 0 }, terminator_v(t)).blocks,
{
    if cur < blocks.len() {
        let ghost ob = blocks@;
        let mut b = crate::seqs::take_at(blocks, cur, BasicBlock { statements: Vec::new(), terminator: Terminator::Unreachable });
        b.terminator = t;
        let ghost nb = b;
        blocks.set(cur, b);
        proof {
            assert(blocks@ == ob.update(cur as int, nb));
            assert(blocks_v(blocks@) =~= blocks_v(ob).update(
                cur as int,
                BlockV { statements: blocks_v(ob)[cur as int].statements, terminator: terminator_v(t) },
            ));
        }
    }
}

fn goto_if_open(blocks: &mut Vec<BasicBlock>, cur: usize, target: usize)
    ensures
        blocks_v(final(blocks)@) == close_with_goto(LState { blocks: blocks_v(old(blocks)@), cur: cur as int, temps: 0 }, target).blocks,
{
    if cur < blocks.len() {
        let open = match &blocks[cur].terminator {
            Terminator::Unreachable => true,
            _ => false,
        };
        if open {
            set_terminator(blocks, cur, Terminator::Goto(target));
        }
    }
}

fn map_op(op: ast::BinaryOp) -> (r: BinaryOp)
    ensures
        r == mir_op(op),
{
    match op {
        ast::BinaryOp::Add => BinaryOp::Add,
        ast::BinaryOp::Subtract => BinaryOp::Subtract,
        ast::BinaryOp::Multiply => BinaryOp::Multiply,
        ast::BinaryOp::Divide => BinaryOp::Divide,
        ast::BinaryOp::Modulo => BinaryOp::Modulo,
        ast::BinaryOp::Equal => BinaryOp::Equal,
        ast::BinaryOp::NotEqual => BinaryOp::NotEqual,
        ast::BinaryOp::Less => BinaryOp::Less,
        ast::BinaryOp::LessEq => BinaryOp::LessEqual,
        ast::BinaryOp::Greater => BinaryOp::Greater,
        ast::BinaryOp::GreaterEq => BinaryOp::GreaterEqual,
        ast::BinaryOp::And => BinaryOp::And,
        ast::BinaryOp::Or => BinaryOp::Or,
        ast::BinaryOp::BitwiseAnd => BinaryOp::BitwiseAnd,
        ast::BinaryOp::BitwiseOr => BinaryOp::BitwiseOr,
        ast::BinaryOp::BitwiseXor => BinaryOp::BitwiseXor,
        ast::BinaryOp::LeftShift => BinaryOp::LeftShift,
        ast::BinaryOp::RightShift => BinaryOp::RightShift,
    }
}

proof fn lemma_args_prefix(args: Seq<Expression>, s: LState, i: int)
    requires
        0 <= i <= args.len(),
    ensures
        lower_args(args.take(i), s).0.temps <= lower_args(args, s).0.temps,
    decreases args.len() - i,
{
    if i < args.len() {
        lemma_args_prefix(args, s, i + 1);
        let t = args.take(i + 1);
        assert(t.drop_last() =~= args.take(i));
        lemma_expr_temps(t.last(), lower_args(args.take(i), s).0);
    } else {
        assert(args.take(i) =~= args);
    }
}

proof fn lemma_stmts_prefix(sts: Seq<ast::Statement>, s: LState, i: int)
    requires
        0 <= i <= sts.len(),
    ensures
        lower_stmts(sts.take(i), s).temps <= lower_stmts(sts, s).temps,
    decreases sts.len() - i,
{
    if i < sts.len() {
        lemma_stmts_prefix(sts, s, i + 1);
        let t = sts.take(i + 1);
        assert(t.drop_last() =~= sts.take(i));
        lemma_stmt_temps(t.last(), lower_stmts(sts.take(i), s));
    } else {
        assert(sts.take(i) =~= sts);
    }
}

/// The lowering state held in `blocks`, `cur` and `temps` is `s`.
pub open spec fn holds_state(blocks: Seq<BasicBlock>, cur: usize, temps: usize, s: LState) -> bool {
    &&& blocks_v(blocks) == s.blocks
    &&& cur as int == s.cur
    &&& temps as nat == s.temps
}

/// Lowers function bodies to MIR, collecting the functions lowered.
#[derive(Debug)]
pub struct MirLowerer {
    pub functions: Vec<MirFunction>,
    pub current_func_params: crate::names::NameMap<bool>,
}

impl MirLowerer {
    pub fn lower_expression(
        &mut self,
        expr: &Expression,
        blocks: &mut Vec<BasicBlock>,
        current_block: &mut usize,
        state: &mut LoweringState,
    ) -> (r: (Operand, String))
        requires
            lower_expr(*expr, view_of(old(blocks)@, *old(current_block), old(state).temp_counter)).0.temps <= usize::MAX,
        ensures
            ({
                let (s, v, nm) = lower_expr(*expr, view_of(old(blocks)@, *old(current_block), old(state).temp_counter));
                &&& holds_state(final(blocks)@, *final(current_block), final(state).temp_counter, s)
                &&& operand_v(r.0) == v
                &&& r.1@ == nm
            }),
            *final(self) == *old(self),
        decreases expr,
    {
        let ghost s0 = view_of(blocks@, *current_block, state.temp_counter);
        match expr {
            Expression::Integer(n) => (Operand::Constant(Constant::Integer(*n)), String::new()),
            Expression::Bool(b) => (Operand::Constant(Constant::Bool(*b)), String::new()),
            Expression::String(x) => (Operand::Constant(Constant::String(crate::names::copy_string(x))), String::new()),
            Expression::Variable(x) => (Operand::Copy(Place::Local(crate::names::copy_string(x))), crate::names::copy_string(x)),
            Expression::Binary { left, op, right } => {
                proof {
                    lemma_expr_temps(**right, lower_expr(**left, s0).0);
                }
                let (left_val, _) = self.lower_expression(left, blocks, current_block, state);
                let (right_val, _) = self.lower_expression(right, blocks, current_block, state);
                let temp_name = state.gen_temp();
                let st = Statement {
                    place: Place::Local(crate::names::copy_string(&temp_name)),
                    rvalue: Rvalue::BinaryOp(map_op(*op), left_val, right_val),
                };
                push_statement(blocks, *current_block, st);
                (Operand::Copy(Place::Local(crate::names::copy_string(&temp_name))), temp_name)
            },
            Expression::FunctionCall { name, args } => {
                let arg_vals = self.lower_arguments(args, blocks, current_block, state);
                let temp_name = state.gen_temp();
                let st = Statement {
                    place: Place::Local(crate::names::copy_string(&temp_name)),
                    rvalue: Rvalue::Call(crate::names::copy_string(name), arg_vals),
                };
                push_statement(blocks, *current_block, st);
                (Operand::Copy(Place::Local(crate::names::copy_string(&temp_name))), temp_name)
            },
            Expression::Block(b) => {
                proof {
                    match &b.expression {
                        Some(x) => lemma_expr_temps(**x, lower_stmts(b.statements@, s0)),
                        None => {},
                    }
                }
                self.lower_statements(&b.statements, blocks, current_block, state);
                match &b.expression {
                    Some(x) => {
                        let (v, _) = self.lower_expression(x, blocks, current_block, state);
                        (v, String::new())
                    },
                    None => (Operand::Constant(Constant::Unit), String::new()),
                }
            },
            Expression::Tuple(_) => (Operand::Constant(Constant::Unit), String::new()),
        }
    }

    fn lower_arguments(
        &mut self,
        args: &Vec<Expression>,
        blocks: &mut Vec<BasicBlock>,
        current_block: &mut usize,
        state: &mut LoweringState,
    ) -> (r: Vec<Operand>)
        requires
            lower_args(args@, view_of(old(blocks)@, *old(current_block), old(state).temp_counter)).0.temps <= usize::MAX,
        ensures
            ({
                let (s, vs) = lower_args(args@, view_of(old(blocks)@, *old(current_block), old(state).temp_counter));
                &&& holds_state(final(blocks)@, *final(current_block), final(state).temp_counter, s)
                &&& operands_v(r@) == vs
            }),
            *final(self) == *old(self),
        decreases args,
    {
        let ghost s0 = view_of(blocks@, *current_block, state.temp_counter);
        let mut vals: Vec<Operand> = Vec::new();
        let mut i: usize = 0;
        assert(args@.take(0) =~= Seq::<Expression>::empty());
        assert(operands_v(vals@) =~= Seq::<OperandV>::empty());
        while i < args.len()
            invariant
                i <= args@.len(),
                lower_args(args@, s0).0.temps <= usize::MAX,
                holds_state(blocks@, *current_block, state.temp_counter, lower_args(args@.take(i as int), s0).0),
                operands_v(vals@) == lower_args(args@.take(i as int), s0).1,
                *self == *old(self),
            decreases args@.len() - i,
        {
            proof {
                assert(decreases_to!(args => args@[i as int]));
                let t = args@.take(i + 1);
                assert(t.drop_last() =~= args@.take(i as int));
                assert(t.last() == args@[i as int]);
                lemma_args_prefix(args@, s0, i + 1);
            }
            let (v, _) = self.lower_expression(&args[i], blocks, current_block, state);
            let ghost before = vals@;
            vals.push(v);
            assert(operands_v(vals@) =~= operands_v(before).push(operand_v(v)));
            i += 1;
        }
        assert(args@.take(args@.len() as int) =~= args@);
        vals
    }

    fn lower_statements(
        &mut self,
        sts: &Vec<ast::Statement>,
        blocks: &mut Vec<BasicBlock>,
        current_block: &mut usize,
        state: &mut LoweringState,
    )
        requires
            lower_stmts(sts@, view_of(old(blocks)@, *old(current_block), old(state).temp_counter)).temps <= usize::MAX,
        ensures
            holds_state(
                final(blocks)@,
                *final(current_block),
                final(state).temp_counter,
                lower_stmts(sts@, view_of(old(blocks)@, *old(current_block), old(state).temp_counter)),
            ),
            *final(self) == *old(self),
        decreases sts,
    {
        let ghost s0 = view_of(blocks@, *current_block, state.temp_counter);
        let mut i: usize = 0;
        assert(sts@.take(0) =~= Seq::<ast::Statement>::empty());
        while i < sts.len()
            invariant
                i <= sts@.len(),
                lower_stmts(sts@, s0).temps <= usize::MAX,
                holds_state(blocks@, *current_block, state.temp_counter, lower_stmts(sts@.take(i as int), s0)),
                *self == *old(self),
            decreases sts@.len() - i,
        {
            proof {
                assert(decreases_to!(sts => sts@[i as int]));
                let t = sts@.take(i + 1);
                assert(t.drop_last() =~= sts@.take(i as int));
                assert(t.last() == sts@[i as int]);
                lemma_stmts_prefix(sts@, s0, i + 1);
            }
            self.lower_statement(&sts[i], blocks, current_block, state);
            i += 1;
        }
        assert(sts@.take(sts@.len() as int) =~= sts@);
    }

    pub fn lower_statement(
        &mut self,
        stmt: &ast::Statement,
        blocks: &mut Vec<BasicBlock>,
        current_block: &mut usize,
        state: &mut LoweringState,
    )
        requires
            lower_stmt(*stmt, view_of(old(blocks)@, *old(current_block), old(state).temp_counter)).temps <= usize::MAX,
        ensures
            holds_state(
                final(blocks)@,
                *final(current_block),
                final(state).temp_counter,
                lower_stmt(*stmt, view_of(old(blocks)@, *old(current_block), old(state).temp_counter)),
            ),
            *final(self) == *old(self),
        decreases stmt,
    {
        let ghost s0 = view_of(blocks@, *current_block, state.temp_counter);
        match stmt {
            ast::Statement::Let { name, initializer, .. } => {
                let (init_val, _) = self.lower_expression(initializer, blocks, current_block, state);
                let st = Statement { place: Place::Local(crate::names::copy_string(name)), rvalue: Rvalue::Use(init_val) };
                push_statement(blocks, *current_block, st);
            },
            ast::Statement::Expression(e) => {
                let _ = self.lower_expression(e, blocks, current_block, state);
            },
            ast::Statement::Return(Some(e)) => {
                let (val, _) = self.lower_expression(e, blocks, current_block, state);
                set_terminator(blocks, *current_block, Terminator::Return(Some(val)));
            },
            ast::Statement::Return(None) => {
                set_terminator(blocks, *current_block, Terminator::Return(None));
            },
            ast::Statement::If { condition, then_body, else_body } => {
                proof {
                    lemma_stmt_temps(*stmt, s0);
                    let (s1, cv, _) = lower_expr(*condition, s0);
                    let n = s1.blocks.len();
                    let s2 = LState { blocks: s1.blocks.push(open_block()).push(open_block()).push(open_block()), ..s1 };
                    let s3 = set_term(s2, TerminatorV::If(cv, n as usize, (n + 1) as usize));
                    let s3c = LState { cur: n as int, ..s3 };
                    lemma_stmts_temps(then_body.statements@, s3c);
                    let s4 = lower_stmts(then_body.statements@, s3c);
                    match &then_body.expression {
                        Some(x) => lemma_expr_temps(**x, s4),
                        None => {},
                    }
                    let s5 = match &then_body.expression {
                        Some(x) => lower_expr(**x, s4).0,
                        None => s4,
                    };
                    let s6 = close_with_goto(s5, (n + 2) as usize);
                    let s7 = LState { cur: n + 1int, ..s6 };
                    match else_body {
                        Some(es) => lemma_stmt_temps(**es, s7),
                        None => {},
                    }
                    lemma_expr_temps(*condition, s0);
                    lemma_stmts_temps(then_body.statements@, s3c);
                }
                let (cond_val, _) = self.lower_expression(condition, blocks, current_block, state);
                let ghost s1 = lower_expr(*condition, s0).0;
                let ghost n = s1.blocks.len();
                let ghost b1 = blocks@;
                let then_block_id = blocks.len();
                blocks.push(empty_block());
                let else_block_id = blocks.len();
                blocks.push(empty_block());
                let merge_block_id = blocks.len();
                blocks.push(empty_block());
                proof {
                    assert(blocks@ == b1.push(blocks@[n as int]).push(blocks@[n + 1int]).push(blocks@[n + 2int]));
                    assert(blocks_v(blocks@) =~= s1.blocks.push(open_block()).push(open_block()).push(open_block()));
                }
                let ghost s2 = LState { blocks: s1.blocks.push(open_block()).push(open_block()).push(open_block()), ..s1 };
                let ghost cv = lower_expr(*condition, s0).1;
                assert(operand_v(cond_val) == cv);
                set_terminator(blocks, *current_block, Terminator::If(cond_val, then_block_id, else_block_id));
                let ghost s3 = set_term(s2, TerminatorV::If(cv, n as usize, (n + 1) as usize));
                assert(blocks_v(blocks@) == s3.blocks);
                *current_block = then_block_id;
                let ghost s3c = LState { cur: n as int, ..s3 };
                assert(view_of(blocks@, *current_block, state.temp_counter) == s3c);
                self.lower_statements(&then_body.statements, blocks, current_block, state);
                let ghost s4 = lower_stmts(then_body.statements@, s3c);
                match &then_body.expression {
                    Some(x) => {
                        assert(view_of(blocks@, *current_block, state.temp_counter) == s4);
                        let _ = self.lower_expression(x, blocks, current_block, state);
                    },
                    None => {},
                }
                let ghost s5 = match &then_body.expression {
                    Some(x) => lower_expr(**x, s4).0,
                    None => s4,
                };
                goto_if_open(blocks, *current_block, merge_block_id);
                let ghost s6 = close_with_goto(s5, (n + 2) as usize);
                assert(blocks_v(blocks@) == s6.blocks);
                *current_block = else_block_id;
                let ghost s7 = LState { cur: n + 1int, ..s6 };
                assert(view_of(blocks@, *current_block, state.temp_counter) == s7);
                match else_body {
                    Some(es) => {
                        self.lower_statement(es, blocks, current_block, state);
                    },
                    None => {},
                }
                let ghost s8 = match else_body {
                    Some(es) => lower_stmt(**es, s7),
                    None => s7,
                };
                goto_if_open(blocks, *current_block, merge_block_id);
                let ghost s9 = close_with_goto(s8, (n + 2) as usize);
                assert(blocks_v(blocks@) == s9.blocks);
                *current_block = merge_block_id;
            },
            ast::Statement::While { .. } => {},
        }
    }
}

/// The state a function's lowering starts from: one empty block being filled.
pub open spec fn initial_state() -> LState {
    LState { blocks: seq![open_block()], cur: 0, temps: 0 }
}

/// The state after lowering a function body: its statements, then its final expression
/// (if any) returned from the block then being filled.
pub open spec fn body_end(body: Block) -> LState {
    let s1 = lower_stmts(body.statements@, initial_state());
    match body.expression {
        Some(e) => {
            let (s2, v, _) = lower_expr(*e, s1);
            set_term(s2, TerminatorV::Return(Some(v)))
        },
        None => set_term(s1, TerminatorV::Return(None)),
    }
}

/// A lowered function: its name, its parameters as 64-bit integers, a 64-bit return type,
/// and the blocks of its body.
pub open spec fn lowered_function(name: Seq<char>, params: Seq<Parameter>, body: Block) -> (
    Seq<char>,
    Seq<(Seq<char>, HirType)>,
    HirType,
    Seq<BlockV>,
) {
    (name, params.map_values(|p: Parameter| (p.name@, HirType::Int64)), HirType::Int64, body_end(body).blocks)
}

/// Whether the last parameter named `x` among `ps` is mutable.
pub open spec fn last_param_flag(ps: Seq<Parameter>, x: Seq<char>) -> Option<bool>
    decreases ps.len(),
{
    if ps.len() == 0 {
        None
    } else if ps.last().name@ == x {
        Some(ps.last().mutable)
    } else {
        last_param_flag(ps.drop_last(), x)
    }
}

/// The functions among `items` lowered, in order.
pub open spec fn lowered_items(items: Seq<Item>) -> Seq<(Seq<char>, Seq<(Seq<char>, HirType)>, HirType, Seq<BlockV>)>
    decreases items.len(),
{
    if items.len() == 0 {
        seq![]
    } else {
        let r = lowered_items(items.drop_last());
        match items.last() {
            Item::Function { name, params, body, .. } => r.push(lowered_function(name@, params@, body)),
            _ => r,
        }
    }
}

/// The parameters of the functions among `items`, function after function.
pub open spec fn item_params(items: Seq<Item>) -> Seq<Parameter>
    decreases items.len(),
{
    if items.len() == 0 {
        seq![]
    } else {
        let r = item_params(items.drop_last());
        match items.last() {
            Item::Function { params, .. } => r + params@,
            _ => r,
        }
    }
}

/// Each function body among `items` numbers fewer temporaries than `usize` holds.
pub open spec fn temps_fit(items: Seq<Item>) -> bool {
    forall|i: int|
        0 <= i < items.len() ==> match #[trigger] items[i] {
            Item::Function { body, .. } => body_end(body).temps <= usize::MAX,
            _ => true,
        }
}

proof fn lemma_last_param_flag_concat(a: Seq<Parameter>, b: Seq<Parameter>, x: Seq<char>)
    ensures
        last_param_flag(a + b, x) == match last_param_flag(b, x) {
            Some(f) => Some(f),
            None => last_param_flag(a, x),
        },
    decreases b.len(),
{
    if b.len() == 0 {
        assert(a + b =~= a);
    } else {
        assert((a + b).drop_last() =~= a + b.drop_last());
        lemma_last_param_flag_concat(a, b.drop_last(), x);
    }
}

impl MirLowerer {
    pub fn new() -> (r: Self)
        ensures
            r.functions@.len() == 0,
            r.current_func_params.wf(),
            r.current_func_params.keys().len() == 0,
    {
        MirLowerer { functions: Vec::new(), current_func_params: crate::names::NameMap::new() }
    }

    /// Lowers one function and adds it to the functions lowered; records the mutability
    /// of its parameters.
    fn lower_function(&mut self, name: &String, params: &Vec<Parameter>, body: &Block)
        requires
            old(self).current_func_params.wf(),
            body_end(*body).temps <= usize::MAX,
        ensures
            final(self).current_func_params.wf(),
            functions_v(final(self).functions@) == functions_v(old(self).functions@).push(
                lowered_function(name@, params@, *body),
            ),
            forall|x: Seq<char>| #[trigger] final(self).current_func_params.has(x) <==> old(self).current_func_params.has(x)
                || last_param_flag(params@, x) is Some,
            forall|x: Seq<char>| last_param_flag(params@, x) is Some ==> #[trigger] final(self).current_func_params.at(x)
                == last_param_flag(params@, x)->0,
            forall|x: Seq<char>| last_param_flag(params@, x) is None && old(self).current_func_params.has(x)
                ==> #[trigger] final(self).current_func_params.at(x) == old(self).current_func_params.at(x),
    {
        let mut blocks: Vec<BasicBlock> = Vec::new();
        blocks.push(empty_block());
        let mut state = LoweringState::new();
        let mut param_types: Vec<(String, HirType)> = Vec::new();
        let mut i: usize = 0;
        while i < params.len()
            invariant
                i <= params@.len(),
                param_types@.map_values(|p: (String, HirType)| (p.0@, p.1)) == params@.take(i as int).map_values(
                    |p: Parameter| (p.name@, HirType::Int64),
                ),
            decreases params@.len() - i,
        {
            let c = (crate::names::copy_string(&params[i].name), HirType::Int64);
            let ghost before = param_types@;
            param_types.push(c);
            assert(param_types@.map_values(|p: (String, HirType)| (p.0@, p.1)) =~= before.map_values(
                |p: (String, HirType)| (p.0@, p.1),
            ).push((c.0@, c.1)));
            assert(params@.take(i + 1).map_values(|p: Parameter| (p.name@, HirType::Int64)) =~= params@.take(
                i as int,
            ).map_values(|p: Parameter| (p.name@, HirType::Int64)).push((params@[i as int].name@, HirType::Int64)));
            i += 1;
        }
        assert(params@.take(params@.len() as int) =~= params@);
        let ghost old_map = self.current_func_params;
        let mut k: usize = 0;
        while k < params.len()
            invariant
                k <= params@.len(),
                self.current_func_params.wf(),
                self.functions == old(self).functions,
                old_map == old(self).current_func_params,
                forall|x: Seq<char>| {
                    &&& #[trigger] self.current_func_params.has(x) <==> old_map.has(x)
                        || last_param_flag(params@.take(k as int), x) is Some
                    &&& last_param_flag(params@.take(k as int), x) matches Some(f) ==> self.current_func_params.at(x) == f
                    &&& last_param_flag(params@.take(k as int), x) is None && old_map.has(x)
                        ==> self.current_func_params.at(x) == old_map.at(x)
                },
            decreases params@.len() - k,
        {
            let ghost ok = self.current_func_params.keys();
            let ghost ov = self.current_func_params.vals();
            let ghost pre = self.current_func_params;
            let key = crate::names::copy_string(&params[k].name);
            let ghost kv = key@;
            self.current_func_params.insert(key, params[k].mutable);
            proof {
                crate::names::lemma_insert_facts(ok, ov, self.current_func_params.keys(), self.current_func_params.vals(), kv, params@[k as int].mutable);
                let t = params@.take(k + 1);
                assert(t.drop_last() =~= params@.take(k as int));
                assert forall|x: Seq<char>| {
                    &&& #[trigger] self.current_func_params.has(x) <==> old_map.has(x)
                        || last_param_flag(t, x) is Some
                    &&& last_param_flag(t, x) matches Some(f) ==> self.current_func_params.at(x) == f
                    &&& last_param_flag(t, x) is None && old_map.has(x)
                        ==> self.current_func_params.at(x) == old_map.at(x)
                } by {
                    if x != kv {
                        assert(last_param_flag(t, x) == last_param_flag(params@.take(k as int), x));
                        assert(pre.has(x) <==> old_map.has(x) || last_param_flag(params@.take(k as int), x) is Some);
                        if pre.has(x) {
                            assert(self.current_func_params.at(x) == pre.at(x));
                        }
                    }
                }
            }
            k += 1;
        }
        assert(params@.take(params@.len() as int) =~= params@);
        let ghost map_after = self.current_func_params;
        assert(forall|x: Seq<char>| {
            &&& #[trigger] map_after.has(x) <==> old(self).current_func_params.has(x)
                || last_param_flag(params@, x) is Some
            &&& last_param_flag(params@, x) matches Some(f) ==> map_after.at(x) == f
            &&& last_param_flag(params@, x) is None && old(self).current_func_params.has(x)
                ==> map_after.at(x) == old(self).current_func_params.at(x)
        });
        let mut current_block: usize = 0;
        let ghost s0 = initial_state();
        assert(blocks_v(blocks@) =~= seq![open_block()]);
        assert(view_of(blocks@, current_block, state.temp_counter) == s0);
        proof {
            match &body.expression {
                Some(e) => lemma_expr_temps(**e, lower_stmts(body.statements@, s0)),
                None => {},
            }
        }
        self.lower_statements(&body.statements, &mut blocks, &mut current_block, &mut state);
        match &body.expression {
            Some(expr) => {
                let (value, _) = self.lower_expression(expr, &mut blocks, &mut current_block, &mut state);
                set_terminator(&mut blocks, current_block, Terminator::Return(Some(value)));
            },
            None => {
                set_terminator(&mut blocks, current_block, Terminator::Return(None));
            },
        }
        let f = MirFunction {
            name: crate::names::copy_string(name),
            params: param_types,
            return_type: HirType::Int64,
            basic_blocks: blocks,
        };
        let ghost before = self.functions@;
        self.functions.push(f);
        assert(functions_v(self.functions@) =~= functions_v(before).push(function_v(f)));
        assert(self.current_func_params == map_after);
        assert forall|x: Seq<char>| last_param_flag(params@, x) is Some implies #[trigger] self.current_func_params.at(x)
            == last_param_flag(params@, x)->0 by {
            assert(map_after.has(x));
        }
        assert forall|x: Seq<char>| last_param_flag(params@, x) is None && old(self).current_func_params.has(x)
            implies #[trigger] self.current_func_params.at(x) == old(self).current_func_params.at(x) by {
            assert(map_after.has(x));
        }
    }

    /// Lowers each function among `items`, in order, and answers all functions lowered so
    /// far.
    pub fn lower_program(&mut self, items: &[Item]) -> (r: Mir)
        requires
            old(self).current_func_params.wf(),
            temps_fit(items@),
        ensures
            final(self).current_func_params.wf(),
            functions_v(final(self).functions@) == functions_v(old(self).functions@) + lowered_items(items@),
            functions_v(r.functions@) == functions_v(final(self).functions@),
            forall|x: Seq<char>| #[trigger] final(self).current_func_params.has(x) <==> old(self).current_func_params.has(x)
                || last_param_flag(item_params(items@), x) is Some,
            forall|x: Seq<char>| last_param_flag(item_params(items@), x) is Some ==> #[trigger] final(self).current_func_params.at(x)
                == last_param_flag(item_params(items@), x)->0,
            forall|x: Seq<char>| last_param_flag(item_params(items@), x) is None && old(self).current_func_params.has(x)
                ==> #[trigger] final(self).current_func_params.at(x) == old(self).current_func_params.at(x),
    {
        let ghost f0 = functions_v(self.functions@);
        let ghost m0 = self.current_func_params;
        let mut i: usize = 0;
        assert(items@.take(0) =~= Seq::<Item>::empty());
        while i < items.len()
            invariant
                i <= items@.len(),
                temps_fit(items@),
                self.current_func_params.wf(),
                f0 == functions_v(old(self).functions@),
                m0 == old(self).current_func_params,
                functions_v(self.functions@) == f0 + lowered_items(items@.take(i as int)),
                forall|x: Seq<char>| #[trigger] self.current_func_params.has(x) <==> m0.has(x)
                    || last_param_flag(item_params(items@.take(i as int)), x) is Some,
                forall|x: Seq<char>| last_param_flag(item_params(items@.take(i as int)), x) is Some
                    ==> #[trigger] self.current_func_params.at(x) == last_param_flag(item_params(items@.take(i as int)), x)->0,
                forall|x: Seq<char>| last_param_flag(item_params(items@.take(i as int)), x) is None && m0.has(x)
                    ==> #[trigger] self.current_func_params.at(x) == m0.at(x),
            decreases items@.len() - i,
        {
            let ghost t = items@.take(i + 1);
            assert(t.drop_last() =~= items@.take(i as int));
            assert(t.last() == items@[i as int]);
            let ghost pre_m = self.current_func_params;
            let ghost pa = item_params(items@.take(i as int));
            match &items[i] {
                Item::Function { name, params, body, .. } => {
                    assert(body_end(*body).temps <= usize::MAX);
                    self.lower_function(name, params, body);
                    proof {
                        assert(f0 + lowered_items(t) =~= (f0 + lowered_items(items@.take(i as int))).push(
                            lowered_function(name@, params@, *body),
                        ));
                        assert(item_params(t) == pa + params@);
                        assert forall|x: Seq<char>| #[trigger] self.current_func_params.has(x) <==> m0.has(x)
                            || last_param_flag(item_params(t), x) is Some by {
                            lemma_last_param_flag_concat(pa, params@, x);
                            assert(pre_m.has(x) <==> m0.has(x) || last_param_flag(pa, x) is Some);
                        }
                        assert forall|x: Seq<char>| last_param_flag(item_params(t), x) is Some
                            implies #[trigger] self.current_func_params.at(x) == last_param_flag(item_params(t), x)->0 by {
                            lemma_last_param_flag_concat(pa, params@, x);
                            if last_param_flag(params@, x) is None {
                                assert(last_param_flag(pa, x) is Some);
                                assert(pre_m.has(x));
                                assert(self.current_func_params.at(x) == pre_m.at(x));
                            }
                        }
                        assert forall|x: Seq<char>| last_param_flag(item_params(t), x) is None && m0.has(x)
                            implies #[trigger] self.current_func_params.at(x) == m0.at(x) by {
                            lemma_last_param_flag_concat(pa, params@, x);
                            assert(pre_m.has(x));
                            assert(pre_m.at(x) == m0.at(x));
                        }
                    }
                },
                _ => {},
            }
            i += 1;
        }
        assert(items@.take(items@.len() as int) =~= items@);
        let mut out: Vec<MirFunction> = Vec::new();
        let mut j: usize = 0;
        while j < self.functions.len()
            invariant
                j <= self.functions@.len(),
                functions_v(out@) == functions_v(self.functions@.take(j as int)),
            decreases self.functions@.len() - j,
        {
            let c = self.functions[j].copy_v();
            let ghost before = out@;
            out.push(c);
            assert(functions_v(out@) =~= functions_v(before).push(function_v(c)));
            assert(functions_v(self.functions@.take(j + 1)) =~= functions_v(self.functions@.take(j as int)).push(
                function_v(self.functions@[j as int]),
            ));
            j += 1;
        }
        assert(self.functions@.take(self.functions@.len() as int) =~= self.functions@);
        Mir { functions: out }
    }
}

} // verus!
