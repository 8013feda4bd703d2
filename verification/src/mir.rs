//! The parts of mid-level IR that the analyses read: places, operands, the value a
//! statement computes, and how a block ends.
use vstd::prelude::*;
use crate::names::{copy_string, str_eq};

verus! {

/// A place a statement writes: a local variable by name, or a projection the analyses do
/// not look into.
#[derive(Debug, Clone)]
pub enum Place {
    Local(String),
    Projection(String),
}

/// A constant operand.
#[derive(Debug, Clone)]
pub enum Constant {
    Integer(i64),
    String(String),
    Bool(bool),
    Unit,
}

/// An operand: a place moved or copied, or a constant.
#[derive(Debug, Clone)]
pub enum Operand {
    Move(Place),
    Copy(Place),
    Constant(Constant),
}

/// A binary operation on two operands.
#[derive(Debug, Clone, Copy, PartialEq, Eq, Structural)]
pub enum BinaryOp {
    Add,
    Subtract,
    Multiply,
    Divide,
    Modulo,
    Equal,
    NotEqual,
    Less,
    LessEqual,
    Greater,
    GreaterEqual,
    And,
    Or,
    BitwiseAnd,
    BitwiseOr,
    BitwiseXor,
    LeftShift,
    RightShift,
}

/// The value a statement computes: an operand, a call of a named function, or a binary
/// operation.
#[derive(Debug, Clone)]
pub enum Rvalue {
    Use(Operand),
    Call(String, Vec<Operand>),
    BinaryOp(BinaryOp, Operand, Operand),
}

/// A statement: the place it writes and the value it writes there.
#[derive(Debug, Clone)]
pub struct Statement {
    pub place: Place,
    pub rvalue: Rvalue,
}

/// How a block ends: a return, with the returned operand if any, a jump, a two-way
/// branch on a condition, or nothing yet.
#[derive(Debug, Clone)]
pub enum Terminator {
    Return(Option<Operand>),
    Goto(usize),
    If(Operand, usize, usize),
    Unreachable,
}

/// A basic block.
#[derive(Debug, Clone)]
pub struct BasicBlock {
    pub statements: Vec<Statement>,
    pub terminator: Terminator,
}

/// A type as the MIR records it.
#[derive(Debug, Clone, Copy, PartialEq, Eq)]
pub enum HirType {
    Int64,
    Bool,
    String,
    Unit,
}

/// A function: its name, parameters, return type and blocks.
#[derive(Debug, Clone)]
pub struct MirFunction {
    pub name: String,
    pub params: Vec<(String, HirType)>,
    pub return_type: HirType,
    pub basic_blocks: Vec<BasicBlock>,
}

/// A program's functions.
#[derive(Debug, Clone)]
pub struct Mir {
    pub functions: Vec<MirFunction>,
}

/// Two places that name the same thing.
pub open spec fn same_place(a: Place, b: Place) -> bool {
    match (a, b) {
        (Place::Local(x), Place::Local(y)) => x@ == y@,
        (Place::Projection(x), Place::Projection(y)) => x@ == y@,
        _ => false,
    }
}

/// Two constants that are the same.
pub open spec fn same_constant(a: Constant, b: Constant) -> bool {
    match (a, b) {
        (Constant::Integer(x), Constant::Integer(y)) => x == y,
        (Constant::String(x), Constant::String(y)) => x@ == y@,
        (Constant::Bool(x), Constant::Bool(y)) => x == y,
        (Constant::Unit, Constant::Unit) => true,
        _ => false,
    }
}

/// Two operands that are the same: the same place moved, the same place copied, or the
/// same constant.
pub open spec fn same_operand(a: Operand, b: Operand) -> bool {
    match (a, b) {
        (Operand::Move(x), Operand::Move(y)) => same_place(x, y),
        (Operand::Copy(x), Operand::Copy(y)) => same_place(x, y),
        (Operand::Constant(x), Operand::Constant(y)) => same_constant(x, y),
        _ => false,
    }
}

/// Position by position, the same operands.
pub open spec fn same_operands(a: Seq<Operand>, b: Seq<Operand>) -> bool {
    &&& a.len() == b.len()
    &&& forall|i: int| 0 <= i < a.len() ==> #[trigger] same_operand(a[i], b[i])
}

/// Whether two places name the same thing.
pub fn places_equal(a: &Place, b: &Place) -> (r: bool)
    ensures
        r == same_place(*a, *b),
{
    match (a, b) {
        (Place::Local(x), Place::Local(y)) => str_eq(x.as_str(), y.as_str()),
        (Place::Projection(x), Place::Projection(y)) => str_eq(x.as_str(), y.as_str()),
        _ => false,
    }
}

/// Whether two operands are the same.
pub fn operands_equal(a: &Operand, b: &Operand) -> (r: bool)
    ensures
        r == same_operand(*a, *b),
{
    match (a, b) {
        (Operand::Move(x), Operand::Move(y)) => places_equal(x, y),
        (Operand::Copy(x), Operand::Copy(y)) => places_equal(x, y),
        (Operand::Constant(x), Operand::Constant(y)) => match (x, y) {
            (Constant::Integer(m), Constant::Integer(n)) => *m == *n,
            (Constant::String(m), Constant::String(n)) => str_eq(m.as_str(), n.as_str()),
            (Constant::Bool(m), Constant::Bool(n)) => *m == *n,
            (Constant::Unit, Constant::Unit) => true,
            _ => false,
        },
        _ => false,
    }
}

impl Place {
    /// A copy of this place.
    pub fn copy_of(&self) -> (r: Place)
        ensures
            same_place(*self, r),
    {
        match self {
            Place::Local(x) => Place::Local(copy_string(x)),
            Place::Projection(x) => Place::Projection(copy_string(x)),
        }
    }
}

impl Operand {
    /// A copy of this operand.
    pub fn copy_of(&self) -> (r: Operand)
        ensures
            same_operand(*self, r),
    {
        match self {
            Operand::Move(p) => Operand::Move(p.copy_of()),
            Operand::Copy(p) => Operand::Copy(p.copy_of()),
            Operand::Constant(c) => Operand::Constant(
                match c {
                    Constant::Integer(n) => Constant::Integer(*n),
                    Constant::String(t) => Constant::String(copy_string(t)),
                    Constant::Bool(b) => Constant::Bool(*b),
                    Constant::Unit => Constant::Unit,
                },
            ),
        }
    }
}

/// A copy of a list of operands.
pub fn copy_operands(v: &Vec<Operand>) -> (r: Vec<Operand>)
    ensures
        same_operands(v@, r@),
{
    let mut r: Vec<Operand> = Vec::new();
    let mut i: usize = 0;
    while i < v.len()
        invariant
            i <= v.len(),
            r@.len() == i,
            forall|j: int| 0 <= j < i ==> #[trigger] same_operand(v@[j], r@[j]),
        decreases v.len() - i,
    {
        r.push(v[i].copy_of());
        i += 1;
    }
    r
}

/// What a place names, as text.
pub enum PlaceV {
    Local(Seq<char>),
    Projection(Seq<char>),
}

/// A constant, with its text where it has one.
pub enum ConstantV {
    Integer(i64),
    String(Seq<char>),
    Bool(bool),
    Unit,
}

/// An operand, by what it names or holds.
pub enum OperandV {
    Move(PlaceV),
    Copy(PlaceV),
    Constant(ConstantV),
}

/// A computed value, by what it names or holds.
pub enum RvalueV {
    Use(OperandV),
    Call(Seq<char>, Seq<OperandV>),
    BinaryOp(BinaryOp, OperandV, OperandV),
}

/// How a block ends, by what it names or holds.
pub enum TerminatorV {
    Return(Option<OperandV>),
    Goto(usize),
    If(OperandV, usize, usize),
    Unreachable,
}

/// A block: its statements as (place, value) pairs and its end.
pub struct BlockV {
    pub statements: Seq<(PlaceV, RvalueV)>,
    pub terminator: TerminatorV,
}

pub open spec fn place_v(p: Place) -> PlaceV {
    match p {
        Place::Local(x) => PlaceV::Local(x@),
        Place::Projection(x) => PlaceV::Projection(x@),
    }
}

pub open spec fn constant_v(c: Constant) -> ConstantV {
    match c {
        Constant::Integer(n) => ConstantV::Integer(n),
        Constant::String(x) => ConstantV::String(x@),
        Constant::Bool(b) => ConstantV::Bool(b),
        Constant::Unit => ConstantV::Unit,
    }
}

pub open spec fn operand_v(o: Operand) -> OperandV {
    match o {
        Operand::Move(p) => OperandV::Move(place_v(p)),
        Operand::Copy(p) => OperandV::Copy(place_v(p)),
        Operand::Constant(c) => OperandV::Constant(constant_v(c)),
    }
}

pub open spec fn operands_v(os: Seq<Operand>) -> Seq<OperandV> {
    os.map_values(|o: Operand| operand_v(o))
}

pub open spec fn rvalue_v(r: Rvalue) -> RvalueV {
    match r {
        Rvalue::Use(o) => RvalueV::Use(operand_v(o)),
        Rvalue::Call(f, args) => RvalueV::Call(f@, operands_v(args@)),
        Rvalue::BinaryOp(op, a, b) => RvalueV::BinaryOp(op, operand_v(a), operand_v(b)),
    }
}

pub open spec fn terminator_v(t: Terminator) -> TerminatorV {
    match t {
        Terminator::Return(Some(o)) => TerminatorV::Return(Some(operand_v(o))),
        Terminator::Return(None) => TerminatorV::Return(None),
        Terminator::Goto(b) => TerminatorV::Goto(b),
        Terminator::If(c, a, b) => TerminatorV::If(operand_v(c), a, b),
        Terminator::Unreachable => TerminatorV::Unreachable,
    }
}

pub open spec fn statement_v(st: Statement) -> (PlaceV, RvalueV) {
    (place_v(st.place), rvalue_v(st.rvalue))
}

pub open spec fn block_v(b: BasicBlock) -> BlockV {
    BlockV { statements: b.statements@.map_values(|st: Statement| statement_v(st)), terminator: terminator_v(b.terminator) }
}

pub open spec fn blocks_v(bs: Seq<BasicBlock>) -> Seq<BlockV> {
    bs.map_values(|b: BasicBlock| block_v(b))
}

impl Operand {
    /// A copy of this operand, with the same view.
    pub fn copy_v(&self) -> (r: Operand)
        ensures
            operand_v(r) == operand_v(*self),
    {
        match self {
            Operand::Move(p) => Operand::Move(p.copy_of()),
            Operand::Copy(p) => Operand::Copy(p.copy_of()),
            Operand::Constant(c) => Operand::Constant(
                match c {
                    Constant::Integer(n) => Constant::Integer(*n),
                    Constant::String(t) => Constant::String(copy_string(t)),
                    Constant::Bool(b) => Constant::Bool(*b),
                    Constant::Unit => Constant::Unit,
                },
            ),
        }
    }
}

fn copy_operands_v(v: &Vec<Operand>) -> (r: Vec<Operand>)
    ensures
        operands_v(r@) == operands_v(v@),
{
    let mut r: Vec<Operand> = Vec::new();
    let mut i: usize = 0;
    while i < v.len()
        invariant
            i <= v.len(),
            operands_v(r@) == operands_v(v@.take(i as int)),
        decreases v.len() - i,
    {
        let c = v[i].copy_v();
        let ghost before = r@;
        r.push(c);
        assert(operands_v(r@) =~= operands_v(before).push(operand_v(c)));
        assert(operands_v(v@.take(i + 1)) =~= operands_v(v@.take(i as int)).push(operand_v(v@[i as int])));
        i += 1;
    }
    assert(v@.take(v.len() as int) =~= v@);
    r
}

impl Statement {
    /// A copy of this statement, with the same view.
    pub fn copy_v(&self) -> (r: Statement)
        ensures
            statement_v(r) == statement_v(*self),
    {
        let place = match &self.place {
            Place::Local(x) => Place::Local(copy_string(x)),
            Place::Projection(x) => Place::Projection(copy_string(x)),
        };
        let rvalue = match &self.rvalue {
            Rvalue::Use(o) => Rvalue::Use(o.copy_v()),
            Rvalue::Call(f, args) => Rvalue::Call(copy_string(f), copy_operands_v(args)),
            Rvalue::BinaryOp(op, a, b) => Rvalue::BinaryOp(*op, a.copy_v(), b.copy_v()),
        };
        Statement { place, rvalue }
    }
}

impl BasicBlock {
    /// A copy of this block, with the same view.
    pub fn copy_v(&self) -> (r: BasicBlock)
        ensures
            block_v(r) == block_v(*self),
    {
        let mut statements: Vec<Statement> = Vec::new();
        let mut i: usize = 0;
        while i < self.statements.len()
            invariant
                i <= self.statements@.len(),
                statements@.map_values(|st: Statement| statement_v(st)) == self.statements@.take(i as int).map_values(
                    |st: Statement| statement_v(st),
                ),
            decreases self.statements@.len() - i,
        {
            let c = self.statements[i].copy_v();
            let ghost before = statements@;
            statements.push(c);
            assert(statements@.map_values(|st: Statement| statement_v(st)) =~= before.map_values(
                |st: Statement| statement_v(st),
            ).push(statement_v(c)));
            assert(self.statements@.take(i + 1).map_values(|st: Statement| statement_v(st)) =~= self.statements@.take(
                i as int,
            ).map_values(|st: Statement| statement_v(st)).push(statement_v(self.statements@[i as int])));
            i += 1;
        }
        assert(self.statements@.take(self.statements@.len() as int) =~= self.statements@);
        let terminator = match &self.terminator {
            Terminator::Return(Some(o)) => Terminator::Return(Some(o.copy_v())),
            Terminator::Return(None) => Terminator::Return(None),
            Terminator::Goto(b) => Terminator::Goto(*b),
            Terminator::If(c, a, b) => Terminator::If(c.copy_v(), *a, *b),
            Terminator::Unreachable => Terminator::Unreachable,
        };
        BasicBlock { statements, terminator }
    }
}

/// A function by what it names and holds: name, parameters, return type, blocks.
pub open spec fn function_v(f: MirFunction) -> (Seq<char>, Seq<(Seq<char>, HirType)>, HirType, Seq<BlockV>) {
    (f.name@, f.params@.map_values(|p: (String, HirType)| (p.0@, p.1)), f.return_type, blocks_v(f.basic_blocks@))
}

pub open spec fn functions_v(fs: Seq<MirFunction>) -> Seq<(Seq<char>, Seq<(Seq<char>, HirType)>, HirType, Seq<BlockV>)> {
    fs.map_values(|f: MirFunction| function_v(f))
}

impl MirFunction {
    /// A copy of this function, with the same view.
    pub fn copy_v(&self) -> (r: MirFunction)
        ensures
            function_v(r) == function_v(*self),
    {
        let mut params: Vec<(String, HirType)> = Vec::new();
        let mut i: usize = 0;
        while i < self.params.len()
            invariant
                i <= self.params@.len(),
                params@.map_values(|p: (String, HirType)| (p.0@, p.1)) == self.params@.take(i as int).map_values(
                    |p: (String, HirType)| (p.0@, p.1),
                ),
            decreases self.params@.len() - i,
        {
            let c = (copy_string(&self.params[i].0), self.params[i].1);
            let ghost before = params@;
            params.push(c);
            assert(params@.map_values(|p: (String, HirType)| (p.0@, p.1)) =~= before.map_values(
                |p: (String, HirType)| (p.0@, p.1),
            ).push((c.0@, c.1)));
            assert(self.params@.take(i + 1).map_values(|p: (String, HirType)| (p.0@, p.1)) =~= self.params@.take(
                i as int,
            ).map_values(|p: (String, HirType)| (p.0@, p.1)).push((self.params@[i as int].0@, self.params@[i as int].1)));
            i += 1;
        }
        assert(self.params@.take(self.params@.len() as int) =~= self.params@);
        let mut blocks: Vec<BasicBlock> = Vec::new();
        let mut j: usize = 0;
        while j < self.basic_blocks.len()
            invariant
                j <= self.basic_blocks@.len(),
                blocks_v(blocks@) == blocks_v(self.basic_blocks@.take(j as int)),
            decreases self.basic_blocks@.len() - j,
        {
            let c = self.basic_blocks[j].copy_v();
            let ghost before = blocks@;
            blocks.push(c);
            assert(blocks_v(blocks@) =~= blocks_v(before).push(block_v(c)));
            assert(blocks_v(self.basic_blocks@.take(j + 1)) =~= blocks_v(self.basic_blocks@.take(j as int)).push(
                block_v(self.basic_blocks@[j as int]),
            ));
            j += 1;
        }
        assert(self.basic_blocks@.take(self.basic_blocks@.len() as int) =~= self.basic_blocks@);
        MirFunction {
            name: copy_string(&self.name),
            params,
            return_type: self.return_type,
            basic_blocks: blocks,
        }
    }
}

} // verus!
