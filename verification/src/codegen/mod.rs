//! Code generation: x86-64 instruction model, object files, and the
//! analysis and optimization passes that feed it.
use vstd::prelude::*;
use crate::text::{append_str, push_i64, string_of, dec_int, dec, cat_num};
use crate::names::{NameMap, copy_string, lemma_insert_facts, views};
use crate::mir::{Operand, Place, Constant, OperandV, PlaceV, ConstantV, operand_v};

pub mod cpu_detection;
pub mod object;
pub mod optimization;
pub mod backend;
pub mod dynamic_dispatch;
pub mod full_compiler;
pub mod inlining;
pub mod iterator_fusion;
pub mod loop_tiling;
pub mod library_api;
pub mod lib_api;
pub mod interprocedural_escape;
pub mod memory_optimization;
pub mod mir_lowering;
pub mod monomorphization;

verus! {

/// A code generation error.
#[derive(Debug, Clone)]
pub struct CodegenError {
    pub message: String,
}

impl CodegenError {
    /// The error's text.
    pub fn to_string(&self) -> (r: String)
        ensures
            r@ == self.message@,
    {
        self.message.clone()
    }
}

/// x86-64 general purpose registers.
#[derive(Debug, Clone, Copy, PartialEq, Eq, Hash, Structural)]
pub enum Register {
    RAX,
    RCX,
    RDX,
    RSI,
    RDI,
    R8,
    R9,
    R10,
    R11,
    RBX,
    RBP,
    R12,
    R13,
    R14,
    R15,
    RSP,
}

/// The assembler name of a register.
pub open spec fn reg_text(r: Register) -> Seq<char> {
    match r {
        Register::RAX => "rax"@,
        Register::RCX => "rcx"@,
        Register::RDX => "rdx"@,
        Register::RSI => "rsi"@,
        Register::RDI => "rdi"@,
        Register::R8 => "r8"@,
        Register::R9 => "r9"@,
        Register::R10 => "r10"@,
        Register::R11 => "r11"@,
        Register::RBX => "rbx"@,
        Register::RBP => "rbp"@,
        Register::R12 => "r12"@,
        Register::R13 => "r13"@,
        Register::R14 => "r14"@,
        Register::R15 => "r15"@,
        Register::RSP => "rsp"@,
    }
}

impl Register {
    /// The assembler name of the register.
    pub fn name(&self) -> (r: &'static str)
        ensures
            r@ == reg_text(*self),
    {
        match self {
            Register::RAX => "rax",
            Register::RCX => "rcx",
            Register::RDX => "rdx",
            Register::RSI => "rsi",
            Register::RDI => "rdi",
            Register::R8 => "r8",
            Register::R9 => "r9",
            Register::R10 => "r10",
            Register::R11 => "r11",
            Register::RBX => "rbx",
            Register::RBP => "rbp",
            Register::R12 => "r12",
            Register::R13 => "r13",
            Register::R14 => "r14",
            Register::R15 => "r15",
            Register::RSP => "rsp",
        }
    }

    /// The register as assembler text.
    pub fn to_string(&self) -> (r: String)
        ensures
            r@ == reg_text(*self),
    {
        let mut v: Vec<char> = Vec::new();
        append_str(&mut v, self.name());
        string_of(v.as_slice())
    }
}

/// An x86-64 operand.
#[derive(Debug, Clone, Copy)]
pub enum X86Operand {
    Register(Register),
    Immediate(i64),
    Memory { base: Register, offset: i64 },
}

/// An operand in Intel syntax: a register, a decimal immediate, or a qword memory reference
/// whose offset is written with its sign as ` + ` or ` - `.
pub open spec fn operand_text(o: X86Operand) -> Seq<char> {
    match o {
        X86Operand::Register(r) => reg_text(r),
        X86Operand::Immediate(v) => dec_int(v as int),
        X86Operand::Memory { base, offset } => if offset == 0 {
            "qword ptr ["@ + reg_text(base) + "]"@
        } else if offset > 0 {
            "qword ptr ["@ + reg_text(base) + " + "@ + dec_int(offset as int) + "]"@
        } else {
            "qword ptr ["@ + reg_text(base) + " - "@ + dec_int(-offset) + "]"@
        },
    }
}

/// Appends the decimal text of `-n` for a negative `n`.
fn push_negated(out: &mut Vec<char>, n: i64)
    requires
        n < 0,
    ensures
        final(out)@ == old(out)@ + dec_int(-n),
{
    if n == i64::MIN {
        crate::text::push_u64(out, 9223372036854775808u64);
    } else {
        push_i64(out, -n);
    }
}

/// Appends an operand's text.
pub fn write_operand(out: &mut Vec<char>, o: &X86Operand)
    ensures
        final(out)@ == old(out)@ + operand_text(*o),
{
    match o {
        X86Operand::Register(r) => append_str(out, r.name()),
        X86Operand::Immediate(v) => push_i64(out, *v),
        X86Operand::Memory { base, offset } => {
            append_str(out, "qword ptr [");
            append_str(out, base.name());
            if *offset == 0 {
            } else if *offset > 0 {
                append_str(out, " + ");
                push_i64(out, *offset);
            } else {
                append_str(out, " - ");
                push_negated(out, *offset);
            }
            append_str(out, "]");
        },
    }
}

impl X86Operand {
    /// The operand in Intel syntax.
    pub fn to_string(&self) -> (r: String)
        ensures
            r@ == operand_text(*self),
    {
        let mut v: Vec<char> = Vec::new();
        write_operand(&mut v, self);
        string_of(v.as_slice())
    }
}

/// An x86-64 instruction.
#[allow(inconsistent_fields)]
#[derive(Debug, Clone)]
pub enum X86Instruction {
    Mov { dst: X86Operand, src: X86Operand },
    Lea { dst: X86Operand, src: String },
    LeaMemory { dst: X86Operand, base: Register, offset: i64 },
    Add { dst: X86Operand, src: X86Operand },
    Sub { dst: X86Operand, src: X86Operand },
    IMul { dst: X86Operand, src: X86Operand },
    IDiv { src: X86Operand },
    Xor { dst: X86Operand, src: X86Operand },
    Cmp { dst: X86Operand, src: X86Operand },
    Jmp { label: String },
    Je { label: String },
    Jne { label: String },
    Jl { label: String },
    Jle { label: String },
    Jg { label: String },
    Jge { label: String },
    Sete { dst: X86Operand },
    Setne { dst: X86Operand },
    Setl { dst: X86Operand },
    Setle { dst: X86Operand },
    Setg { dst: X86Operand },
    Setge { dst: X86Operand },
    Call { func: String },
    Ret,
    Movzx { dst: Register, src: Register },
    Push { reg: Register },
    Pop { reg: Register },
    Label { name: String },
    Nop,
    Cqo,
    Neg { dst: X86Operand },
    And { dst: X86Operand, src: X86Operand },
    Or { dst: X86Operand, src: X86Operand },
    Shl { dst: X86Operand, src: X86Operand },
    Shr { dst: X86Operand, src: X86Operand },
    Sar { dst: X86Operand, src: X86Operand },
    Movsd { dst: String, src: String },
    Addsd { dst: String, src: String },
    Subsd { dst: String, src: String },
    Mulsd { dst: String, src: String },
    Divsd { dst: String, src: String },
}

/// An indented instruction with two operands: `    m a, b`.
pub open spec fn two_op(m: Seq<char>, a: Seq<char>, b: Seq<char>) -> Seq<char> {
    "    "@ + m + " "@ + a + ", "@ + b
}

/// An indented instruction with one operand: `    m a`.
pub open spec fn one_op(m: Seq<char>, a: Seq<char>) -> Seq<char> {
    "    "@ + m + " "@ + a
}

/// The operand of a `set*` instruction: the low byte of `rax`, `rbx`, `rcx` or `rdx`,
/// otherwise the operand itself.
pub open spec fn byte_operand_text(o: X86Operand) -> Seq<char> {
    match o {
        X86Operand::Register(Register::RAX) => "al"@,
        X86Operand::Register(Register::RBX) => "bl"@,
        X86Operand::Register(Register::RCX) => "cl"@,
        X86Operand::Register(Register::RDX) => "dl"@,
        _ => operand_text(o),
    }
}

/// The base of a `lea` from memory: `rbp`, or `unknown` for any other register.
pub open spec fn lea_base_text(r: Register) -> Seq<char> {
    if r == Register::RBP {
        "rbp"@
    } else {
        "unknown"@
    }
}

/// An instruction as one line of Intel-syntax assembly.
pub open spec fn instr_text(i: X86Instruction) -> Seq<char> {
    match i {
        X86Instruction::Mov { dst, src } => two_op("mov"@, operand_text(dst), operand_text(src)),
        X86Instruction::Lea { dst, src } => two_op("lea"@, operand_text(dst), "[rip + "@ + src@ + "]"@),
        X86Instruction::LeaMemory { dst, base, offset } => if offset >= 0 {
            two_op("lea"@, operand_text(dst), "["@ + lea_base_text(base) + " + "@ + dec_int(offset as int) + "]"@)
        } else {
            two_op("lea"@, operand_text(dst), "["@ + lea_base_text(base) + " - "@ + dec_int(-offset) + "]"@)
        },
        X86Instruction::Add { dst, src } => two_op("add"@, operand_text(dst), operand_text(src)),
        X86Instruction::Sub { dst, src } => two_op("sub"@, operand_text(dst), operand_text(src)),
        X86Instruction::IMul { dst, src } => two_op("imul"@, operand_text(dst), operand_text(src)),
        X86Instruction::IDiv { src } => one_op("idiv"@, operand_text(src)),
        X86Instruction::Xor { dst, src } => two_op("xor"@, operand_text(dst), operand_text(src)),
        X86Instruction::Cmp { dst, src } => two_op("cmp"@, operand_text(dst), operand_text(src)),
        X86Instruction::Jmp { label } => one_op("jmp"@, label@),
        X86Instruction::Je { label } => one_op("je"@, label@),
        X86Instruction::Jne { label } => one_op("jne"@, label@),
        X86Instruction::Jl { label } => one_op("jl"@, label@),
        X86Instruction::Jle { label } => one_op("jle"@, label@),
        X86Instruction::Jg { label } => one_op("jg"@, label@),
        X86Instruction::Jge { label } => one_op("jge"@, label@),
        X86Instruction::Sete { dst } => one_op("sete"@, byte_operand_text(dst)),
        X86Instruction::Setne { dst } => one_op("setne"@, byte_operand_text(dst)),
        X86Instruction::Setl { dst } => one_op("setl"@, byte_operand_text(dst)),
        X86Instruction::Setle { dst } => one_op("setle"@, byte_operand_text(dst)),
        X86Instruction::Setg { dst } => one_op("setg"@, byte_operand_text(dst)),
        X86Instruction::Setge { dst } => one_op("setge"@, byte_operand_text(dst)),
        X86Instruction::Call { func } => one_op("call"@, func@),
        X86Instruction::Ret => "    ret"@,
        X86Instruction::Movzx { dst, src } => two_op("movzx"@, reg_text(dst), reg_text(src)),
        X86Instruction::Push { reg } => one_op("push"@, reg_text(reg)),
        X86Instruction::Pop { reg } => one_op("pop"@, reg_text(reg)),
        X86Instruction::Label { name } => name@ + ":"@,
        X86Instruction::Nop => "    nop"@,
        X86Instruction::Cqo => "    cqo"@,
        X86Instruction::Neg { dst } => one_op("neg"@, operand_text(dst)),
        X86Instruction::And { dst, src } => two_op("and"@, operand_text(dst), operand_text(src)),
        X86Instruction::Or { dst, src } => two_op("or"@, operand_text(dst), operand_text(src)),
        X86Instruction::Shl { dst, src } => two_op("shl"@, operand_text(dst), operand_text(src)),
        X86Instruction::Shr { dst, src } => two_op("shr"@, operand_text(dst), operand_text(src)),
        X86Instruction::Sar { dst, src } => two_op("sar"@, operand_text(dst), operand_text(src)),
        X86Instruction::Movsd { dst, src } => two_op("movsd"@, dst@, src@),
        X86Instruction::Addsd { dst, src } => two_op("addsd"@, dst@, src@),
        X86Instruction::Subsd { dst, src } => two_op("subsd"@, dst@, src@),
        X86Instruction::Mulsd { dst, src } => two_op("mulsd"@, dst@, src@),
        X86Instruction::Divsd { dst, src } => two_op("divsd"@, dst@, src@),
    }
}

fn write_two(out: &mut Vec<char>, m: &str, a: &X86Operand, b: &X86Operand)
    ensures
        final(out)@ == old(out)@ + two_op(m@, operand_text(*a), operand_text(*b)),
{
    let ghost o = out@;
    append_str(out, "    ");
    append_str(out, m);
    append_str(out, " ");
    write_operand(out, a);
    append_str(out, ", ");
    write_operand(out, b);
    assert(out@ =~= o + two_op(m@, operand_text(*a), operand_text(*b)));
}

fn write_two_text(out: &mut Vec<char>, m: &str, a: &str, b: &str)
    ensures
        final(out)@ == old(out)@ + two_op(m@, a@, b@),
{
    let ghost o = out@;
    append_str(out, "    ");
    append_str(out, m);
    append_str(out, " ");
    append_str(out, a);
    append_str(out, ", ");
    append_str(out, b);
    assert(out@ =~= o + two_op(m@, a@, b@));
}

fn write_one_text(out: &mut Vec<char>, m: &str, a: &str)
    ensures
        final(out)@ == old(out)@ + one_op(m@, a@),
{
    let ghost o = out@;
    append_str(out, "    ");
    append_str(out, m);
    append_str(out, " ");
    append_str(out, a);
    assert(out@ =~= o + one_op(m@, a@));
}

fn write_one(out: &mut Vec<char>, m: &str, a: &X86Operand)
    ensures
        final(out)@ == old(out)@ + one_op(m@, operand_text(*a)),
{
    let ghost o = out@;
    append_str(out, "    ");
    append_str(out, m);
    append_str(out, " ");
    write_operand(out, a);
    assert(out@ =~= o + one_op(m@, operand_text(*a)));
}

fn write_set(out: &mut Vec<char>, m: &str, a: &X86Operand)
    ensures
        final(out)@ == old(out)@ + one_op(m@, byte_operand_text(*a)),
{
    match a {
        X86Operand::Register(Register::RAX) => write_one_text(out, m, "al"),
        X86Operand::Register(Register::RBX) => write_one_text(out, m, "bl"),
        X86Operand::Register(Register::RCX) => write_one_text(out, m, "cl"),
        X86Operand::Register(Register::RDX) => write_one_text(out, m, "dl"),
        _ => write_one(out, m, a),
    }
}

fn write_lea_memory(out: &mut Vec<char>, dst: &X86Operand, base: Register, offset: i64)
    ensures
        final(out)@ == old(out)@ + instr_text(X86Instruction::LeaMemory { dst: *dst, base, offset }),
{
    let ghost o = out@;
    let base_str = if base == Register::RBP {
        "rbp"
    } else {
        "unknown"
    };
    append_str(out, "    ");
    append_str(out, "lea");
    append_str(out, " ");
    write_operand(out, dst);
    append_str(out, ", ");
    let ghost mid = out@;
    append_str(out, "[");
    append_str(out, base_str);
    if offset >= 0 {
        append_str(out, " + ");
        push_i64(out, offset);
    } else {
        append_str(out, " - ");
        push_negated(out, offset);
    }
    append_str(out, "]");
    assert(base_str@ == lea_base_text(base));
    let ghost tail = out@.subrange(mid.len() as int, out@.len() as int);
    assert(out@ =~= mid + tail);
    assert(out@ =~= o + two_op("lea"@, operand_text(*dst), tail));
}

impl X86Instruction {
    /// The instruction as one line of Intel-syntax assembly.
    pub fn to_string(&self) -> (r: String)
        ensures
            r@ == instr_text(*self),
    {
        let mut v: Vec<char> = Vec::new();
        match self {
            X86Instruction::Mov { dst, src } => write_two(&mut v, "mov", dst, src),
            X86Instruction::Lea { dst, src } => {
                let mut w: Vec<char> = Vec::new();
                append_str(&mut w, "[rip + ");
                append_str(&mut w, src.as_str());
                append_str(&mut w, "]");
                let ws = string_of(w.as_slice());
                let mut d: Vec<char> = Vec::new();
                write_operand(&mut d, dst);
                let ds = string_of(d.as_slice());
                write_two_text(&mut v, "lea", ds.as_str(), ws.as_str());
            },
            X86Instruction::LeaMemory { dst, base, offset } => write_lea_memory(&mut v, dst, *base, *offset),
            X86Instruction::Add { dst, src } => write_two(&mut v, "add", dst, src),
            X86Instruction::Sub { dst, src } => write_two(&mut v, "sub", dst, src),
            X86Instruction::IMul { dst, src } => write_two(&mut v, "imul", dst, src),
            X86Instruction::IDiv { src } => write_one(&mut v, "idiv", src),
            X86Instruction::Xor { dst, src } => write_two(&mut v, "xor", dst, src),
            X86Instruction::Cmp { dst, src } => write_two(&mut v, "cmp", dst, src),
            X86Instruction::Jmp { label } => write_one_text(&mut v, "jmp", label.as_str()),
            X86Instruction::Je { label } => write_one_text(&mut v, "je", label.as_str()),
            X86Instruction::Jne { label } => write_one_text(&mut v, "jne", label.as_str()),
            X86Instruction::Jl { label } => write_one_text(&mut v, "jl", label.as_str()),
            X86Instruction::Jle { label } => write_one_text(&mut v, "jle", label.as_str()),
            X86Instruction::Jg { label } => write_one_text(&mut v, "jg", label.as_str()),
            X86Instruction::Jge { label } => write_one_text(&mut v, "jge", label.as_str()),
            X86Instruction::Sete { dst } => write_set(&mut v, "sete", dst),
            X86Instruction::Setne { dst } => write_set(&mut v, "setne", dst),
            X86Instruction::Setl { dst } => write_set(&mut v, "setl", dst),
            X86Instruction::Setle { dst } => write_set(&mut v, "setle", dst),
            X86Instruction::Setg { dst } => write_set(&mut v, "setg", dst),
            X86Instruction::Setge { dst } => write_set(&mut v, "setge", dst),
            X86Instruction::Call { func } => write_one_text(&mut v, "call", func.as_str()),
            X86Instruction::Ret => append_str(&mut v, "    ret"),
            X86Instruction::Movzx { dst, src } => write_two_text(&mut v, "movzx", dst.name(), src.name()),
            X86Instruction::Push { reg } => write_one_text(&mut v, "push", reg.name()),
            X86Instruction::Pop { reg } => write_one_text(&mut v, "pop", reg.name()),
            X86Instruction::Label { name } => {
                append_str(&mut v, name.as_str());
                append_str(&mut v, ":");
            },
            X86Instruction::Nop => append_str(&mut v, "    nop"),
            X86Instruction::Cqo => append_str(&mut v, "    cqo"),
            X86Instruction::Neg { dst } => write_one(&mut v, "neg", dst),
            X86Instruction::And { dst, src } => write_two(&mut v, "and", dst, src),
            X86Instruction::Or { dst, src } => write_two(&mut v, "or", dst, src),
            X86Instruction::Shl { dst, src } => write_two(&mut v, "shl", dst, src),
            X86Instruction::Shr { dst, src } => write_two(&mut v, "shr", dst, src),
            X86Instruction::Sar { dst, src } => write_two(&mut v, "sar", dst, src),
            X86Instruction::Movsd { dst, src } => write_two_text(&mut v, "movsd", dst.as_str(), src.as_str()),
            X86Instruction::Addsd { dst, src } => write_two_text(&mut v, "addsd", dst.as_str(), src.as_str()),
            X86Instruction::Subsd { dst, src } => write_two_text(&mut v, "subsd", dst.as_str(), src.as_str()),
            X86Instruction::Mulsd { dst, src } => write_two_text(&mut v, "mulsd", dst.as_str(), src.as_str()),
            X86Instruction::Divsd { dst, src } => write_two_text(&mut v, "divsd", dst.as_str(), src.as_str()),
        }
        proof {
            lemma_empty_prefix(v@, instr_text(*self));
        }
        string_of(v.as_slice())
    }
}

proof fn lemma_empty_prefix(v: Seq<char>, t: Seq<char>)
    requires
        v == Seq::<char>::empty() + t,
    ensures
        v == t,
{
    assert(Seq::<char>::empty() + t =~= t);
}

/// The fields of each struct, in declaration order, as the lowering pass registers them.
pub struct StructFieldTable {
    pub fields: NameMap<Vec<String>>,
}

/// How many fields the table lists for struct `s` (none for a struct it does not know).
pub open spec fn table_field_count(t: NameMap<Vec<String>>, s: Seq<char>) -> nat {
    if t.has(s) {
        t.at(s)@.len()
    } else {
        0
    }
}

/// The field index used when no struct type is known: by common field names.
pub open spec fn fallback_field_index(field: Seq<char>) -> usize {
    if field == "x"@ || field == "first"@ || field == "width"@ || field == "value"@ || field == "items"@ {
        0
    } else if field == "y"@ || field == "height"@ || field == "second"@ {
        1
    } else if field == "z"@ || field == "third"@ {
        2
    } else if field == "w"@ || field == "fourth"@ {
        3
    } else {
        0
    }
}

/// Where a new variable's slot goes: at the current stack offset, or just below the
/// collection region when the offset lies within or above it.
pub open spec fn slot_for(stack: i64, min_coll: i64, coll_size: i64) -> int {
    if min_coll < i64::MAX && coll_size > 0 && stack >= min_coll - coll_size {
        min_coll - coll_size - 8
    } else {
        stack as int
    }
}

/// The stack frame has room for a new slot and `extra` more bytes below it.
pub open spec fn frame_fits(stack: i64, min_coll: i64, coll_size: i64, extra: int) -> bool {
    &&& (min_coll < i64::MAX && coll_size > 0) ==> min_coll - coll_size <= i64::MAX
    &&& slot_for(stack, min_coll, coll_size) - 8 - extra >= i64::MIN
}

/// What an MIR operand becomes as an x86 operand: an integer, boolean or unit constant an
/// immediate; a local its stack slot (its struct data first, else its variable slot);
/// anything else `rax`, where the value is produced.
pub open spec fn operand_x86(structs: NameMap<i64>, vars: NameMap<i64>, o: OperandV) -> X86Operand {
    match o {
        OperandV::Constant(ConstantV::Integer(n)) => X86Operand::Immediate(n),
        OperandV::Constant(ConstantV::Bool(b)) => X86Operand::Immediate(if b { 1 } else { 0 }),
        OperandV::Constant(ConstantV::Unit) => X86Operand::Immediate(0),
        OperandV::Constant(ConstantV::String(_)) => X86Operand::Register(Register::RAX),
        OperandV::Copy(PlaceV::Local(x)) | OperandV::Move(PlaceV::Local(x)) => if structs.has(x) {
            X86Operand::Memory { base: Register::RBP, offset: structs.at(x) }
        } else if vars.has(x) {
            X86Operand::Memory { base: Register::RBP, offset: vars.at(x) }
        } else {
            X86Operand::Register(Register::RAX)
        },
        _ => X86Operand::Register(Register::RAX),
    }
}

/// The moves that copy a struct of `count` fields from the buffer `rax` points at into the
/// frame, field `i` going from `[rax + 8i]` through `r10` to `[rbp + base - 8i]`.
pub open spec fn struct_copy_code(base: int, count: nat) -> Seq<X86Instruction>
    decreases count,
{
    if count == 0 {
        seq![]
    } else {
        let i = (count - 1) as int;
        struct_copy_code(base, (count - 1) as nat) + seq![
            X86Instruction::Mov {
                dst: X86Operand::Register(Register::R10),
                src: X86Operand::Memory { base: Register::RAX, offset: (8 * i) as i64 },
            },
            X86Instruction::Mov {
                dst: X86Operand::Memory { base: Register::RBP, offset: (base - 8 * i) as i64 },
                src: X86Operand::Register(Register::R10),
            },
        ]
    }
}

/// The field count of `s`: cached, else from the table.
pub open spec fn struct_count(cache: NameMap<usize>, t: NameMap<Vec<String>>, s: Seq<char>) -> nat {
    if cache.has(s) {
        cache.at(s) as nat
    } else {
        table_field_count(t, s)
    }
}

/// The struct data of `dst` starts at its slot, which it gets if it has none.
pub open spec fn return_base(g: Codegen, dst: Seq<char>) -> int {
    if g.var_locations.has(dst) {
        g.var_locations.at(dst) as int
    } else {
        slot_for(g.stack_offset, g.min_collection_offset, g.collection_size)
    }
}

/// The frame can hold a returned struct of `c` fields for `dst`.
pub open spec fn return_fits(g: Codegen, dst: Seq<char>, c: nat) -> bool {
    &&& 8 * c <= i64::MAX
    &&& !g.var_locations.has(dst) ==> frame_fits(g.stack_offset, g.min_collection_offset, g.collection_size, (8 * c) as int)
    &&& g.var_locations.has(dst) ==> g.stack_offset - 8 * c >= i64::MIN && g.var_locations.at(dst) - 8 * c >= i64::MIN
}

/// The x86-64 code generator's state: the instructions emitted so far, the label counter,
/// the stack slots of variables and struct data, the frame's allocation point and the
/// collection region, string constants with their labels, the struct type of variables,
/// and cached struct field counts.
pub struct Codegen {
    pub instructions: Vec<X86Instruction>,
    pub label_counter: usize,
    pub var_locations: NameMap<i64>,
    pub struct_data_locations: NameMap<i64>,
    pub stack_offset: i64,
    pub min_collection_offset: i64,
    pub collection_size: i64,
    pub string_constants: NameMap<String>,
    pub var_struct_types: NameMap<String>,
    pub struct_field_counts: NameMap<usize>,
}

impl Codegen {
    pub open spec fn wf(&self) -> bool {
        &&& self.var_locations.wf()
        &&& self.struct_data_locations.wf()
        &&& self.string_constants.wf()
        &&& self.var_struct_types.wf()
        &&& self.struct_field_counts.wf()
    }

    /// Nothing emitted, no variables, the first slot at `-8`, no collection region.
    pub fn new() -> (r: Self)
        ensures
            r.wf(),
            r.instructions@.len() == 0,
            r.label_counter == 0,
            r.var_locations.keys().len() == 0,
            r.struct_data_locations.keys().len() == 0,
            r.stack_offset == -8,
            r.min_collection_offset == i64::MAX,
            r.collection_size == 0,
            r.string_constants.keys().len() == 0,
            r.var_struct_types.keys().len() == 0,
            r.struct_field_counts.keys().len() == 0,
    {
        Codegen {
            instructions: Vec::new(),
            label_counter: 0,
            var_locations: NameMap::new(),
            struct_data_locations: NameMap::new(),
            stack_offset: -8,
            min_collection_offset: i64::MAX,
            collection_size: 0,
            string_constants: NameMap::new(),
            var_struct_types: NameMap::new(),
            struct_field_counts: NameMap::new(),
        }
    }

    /// A fresh label `L<n>`.
    pub fn new_label(&mut self) -> (r: String)
        requires
            old(self).label_counter < usize::MAX,
        ensures
            r@ == "L"@ + dec(old(self).label_counter as nat),
            *final(self) == (Codegen { label_counter: (old(self).label_counter + 1) as usize, ..*old(self) }),
    {
        let label = cat_num("L", self.label_counter, "");
        proof {
            crate::text::lemma_empty_str();
        }
        assert(label@ =~= "L"@ + dec(self.label_counter as nat));
        self.label_counter = self.label_counter + 1;
        label
    }

    /// The slot of `var_name`; a new variable gets the next slot below the last, skipping
    /// below the collection region where needed.
    pub fn allocate_var(&mut self, var_name: String) -> (r: i64)
        requires
            old(self).wf(),
            !old(self).var_locations.has(var_name@) ==> frame_fits(
                old(self).stack_offset,
                old(self).min_collection_offset,
                old(self).collection_size,
                0,
            ),
        ensures
            final(self).wf(),
            old(self).var_locations.has(var_name@) ==> r == old(self).var_locations.at(var_name@) && *final(self)
                == *old(self),
            !old(self).var_locations.has(var_name@) ==> {
                &&& r == slot_for(old(self).stack_offset, old(self).min_collection_offset, old(self).collection_size)
                &&& final(self).stack_offset == r - 8
                &&& final(self).var_locations.keys() == old(self).var_locations.keys().push(var_name@)
                &&& final(self).var_locations.vals() == old(self).var_locations.vals().push(r)
                &&& *final(self) == (Codegen {
                    var_locations: final(self).var_locations,
                    stack_offset: final(self).stack_offset,
                    ..*old(self)
                })
            },
    {
        match self.var_locations.get(var_name.as_str()) {
            Some(off) => *off,
            None => {
                if self.min_collection_offset < i64::MAX && self.collection_size > 0 {
                    let collection_end = self.min_collection_offset - self.collection_size;
                    if self.stack_offset >= collection_end {
                        self.stack_offset = collection_end - 8;
                    }
                }
                let offset = self.stack_offset;
                self.var_locations.insert(var_name, offset);
                self.stack_offset = self.stack_offset - 8;
                offset
            },
        }
    }

    /// The slot of `var_name`, allocating one if it has none.
    pub fn get_var_location(&mut self, var_name: &str) -> (r: i64)
        requires
            old(self).wf(),
            !old(self).var_locations.has(var_name@) ==> frame_fits(
                old(self).stack_offset,
                old(self).min_collection_offset,
                old(self).collection_size,
                0,
            ),
        ensures
            final(self).wf(),
            old(self).var_locations.has(var_name@) ==> r == old(self).var_locations.at(var_name@) && *final(self)
                == *old(self),
            !old(self).var_locations.has(var_name@) ==> {
                &&& r == slot_for(old(self).stack_offset, old(self).min_collection_offset, old(self).collection_size)
                &&& final(self).stack_offset == r - 8
                &&& final(self).var_locations.keys() == old(self).var_locations.keys().push(var_name@)
                &&& final(self).var_locations.vals() == old(self).var_locations.vals().push(r)
                &&& *final(self) == (Codegen {
                    var_locations: final(self).var_locations,
                    stack_offset: final(self).stack_offset,
                    ..*old(self)
                })
            },
    {
        match self.var_locations.get(var_name) {
            Some(off) => *off,
            None => self.allocate_var(crate::text::lit(var_name)),
        }
    }

    /// The label of string constant `string`; a new string gets `str_<n>`.
    pub fn allocate_string(&mut self, string: String) -> (r: String)
        requires
            old(self).wf(),
            old(self).label_counter < usize::MAX,
        ensures
            final(self).wf(),
            old(self).string_constants.has(string@) ==> r@ == old(self).string_constants.at(string@)@
                && *final(self) == *old(self),
            !old(self).string_constants.has(string@) ==> {
                &&& r@ == "str_"@ + dec(old(self).label_counter as nat)
                &&& final(self).label_counter == old(self).label_counter + 1
                &&& final(self).string_constants.keys() == old(self).string_constants.keys().push(string@)
                &&& views(final(self).string_constants.vals()) == views(old(self).string_constants.vals()).push(r@)
                &&& *final(self) == (Codegen {
                    string_constants: final(self).string_constants,
                    label_counter: final(self).label_counter,
                    ..*old(self)
                })
            },
    {
        match self.string_constants.get(string.as_str()) {
            Some(label) => copy_string(label),
            None => {
                let label = cat_num("str_", self.label_counter, "");
                proof {
                    crate::text::lemma_empty_str();
                }
                assert(label@ =~= "str_"@ + dec(self.label_counter as nat));
                self.label_counter = self.label_counter + 1;
                let ghost ov = self.string_constants.vals();
                self.string_constants.insert(string, copy_string(&label));
                proof {
                    assert(views(self.string_constants.vals()) =~= views(ov).push(label@));
                }
                label
            },
        }
    }

    /// The index of `field_name` in the struct `var_name` holds: its first position in the
    /// table's fields of that struct when both are known, else by common field names; an
    /// empty field name gives 0.
    pub fn get_field_index(&self, var_name: &str, field_name: &str, table: &StructFieldTable) -> (r: usize)
        requires
            self.wf(),
            table.fields.wf(),
        ensures
            field_name@.len() == 0 ==> r == 0,
            field_name@.len() > 0 && self.var_struct_types.has(var_name@) && table.fields.has(
                self.var_struct_types.at(var_name@)@,
            ) && views(table.fields.at(self.var_struct_types.at(var_name@)@)@).contains(field_name@) ==> {
                let fs = views(table.fields.at(self.var_struct_types.at(var_name@)@)@);
                &&& r < fs.len()
                &&& fs[r as int] == field_name@
                &&& forall|j: int| 0 <= j < r ==> fs[j] != field_name@
            },
            field_name@.len() > 0 && !(self.var_struct_types.has(var_name@) && table.fields.has(
                self.var_struct_types.at(var_name@)@,
            ) && views(table.fields.at(self.var_struct_types.at(var_name@)@)@).contains(field_name@)) ==> r
                == fallback_field_index(field_name@),
    {
        proof {
            crate::text::lemma_empty_str();
        }
        if crate::names::str_eq(field_name, "") {
            return 0;
        }
        assert(field_name@.len() > 0) by {
            if field_name@.len() == 0 {
                assert(field_name@ =~= ""@);
            }
        }
        match self.var_struct_types.get(var_name) {
            Some(struct_name) => match table.fields.get(struct_name.as_str()) {
                Some(fields) => {
                    let mut j: usize = 0;
                    while j < fields.len()
                        invariant
                            j <= fields@.len(),
                            forall|k: int| 0 <= k < j ==> views(fields@)[k] != field_name@,
                            field_name@.len() > 0,
                            self.var_struct_types.has(var_name@),
                            *struct_name == self.var_struct_types.at(var_name@),
                            table.fields.has(struct_name@),
                            *fields == table.fields.at(struct_name@),
                        decreases fields.len() - j,
                    {
                        if crate::names::str_eq(fields[j].as_str(), field_name) {
                            assert(views(fields@)[j as int] == field_name@);
                            return j;
                        }
                        j += 1;
                    }
                    assert(!views(fields@).contains(field_name@)) by {
                        if views(fields@).contains(field_name@) {
                            let k = choose|k: int| 0 <= k < views(fields@).len() && views(fields@)[k] == field_name@;
                        }
                    }
                },
                None => {},
            },
            None => {},
        }
        Codegen::fallback_index(field_name)
    }

    fn fallback_index(field: &str) -> (r: usize)
        ensures
            r == fallback_field_index(field@),
    {
        if crate::names::str_eq(field, "x") || crate::names::str_eq(field, "first") || crate::names::str_eq(field, "width")
            || crate::names::str_eq(field, "value") || crate::names::str_eq(field, "items") {
            0
        } else if crate::names::str_eq(field, "y") || crate::names::str_eq(field, "height") || crate::names::str_eq(
            field,
            "second",
        ) {
            1
        } else if crate::names::str_eq(field, "z") || crate::names::str_eq(field, "third") {
            2
        } else if crate::names::str_eq(field, "w") || crate::names::str_eq(field, "fourth") {
            3
        } else {
            0
        }
    }

    /// The number of fields of `struct_name`, from the cache, else from the table (and then
    /// cached).
    pub fn get_cached_struct_field_count(&mut self, struct_name: &str, table: &StructFieldTable) -> (r: usize)
        requires
            old(self).wf(),
            table.fields.wf(),
        ensures
            final(self).wf(),
            old(self).struct_field_counts.has(struct_name@) ==> r == old(self).struct_field_counts.at(struct_name@)
                && *final(self) == *old(self),
            !old(self).struct_field_counts.has(struct_name@) ==> {
                &&& r == table_field_count(table.fields, struct_name@)
                &&& final(self).struct_field_counts.keys() == old(self).struct_field_counts.keys().push(struct_name@)
                &&& final(self).struct_field_counts.vals() == old(self).struct_field_counts.vals().push(r)
                &&& *final(self) == (Codegen { struct_field_counts: final(self).struct_field_counts, ..*old(self) })
            },
    {
        match self.struct_field_counts.get(struct_name) {
            Some(c) => *c,
            None => {
                let count = match table.fields.get(struct_name) {
                    Some(fs) => fs.len(),
                    None => 0,
                };
                self.struct_field_counts.insert(crate::text::lit(struct_name), count);
                count
            },
        }
    }

    /// The x86 operand for an MIR operand, as `operand_x86` says.
    pub fn operand_to_x86(&self, operand: &Operand) -> (r: Result<X86Operand, CodegenError>)
        requires
            self.wf(),
        ensures
            r matches Ok(x) && x == operand_x86(self.struct_data_locations, self.var_locations, operand_v(*operand)),
    {
        match operand {
            Operand::Constant(Constant::Integer(n)) => Ok(X86Operand::Immediate(*n)),
            Operand::Constant(Constant::Bool(b)) => Ok(X86Operand::Immediate(if *b { 1 } else { 0 })),
            Operand::Constant(Constant::Unit) => Ok(X86Operand::Immediate(0)),
            Operand::Constant(Constant::String(_)) => Ok(X86Operand::Register(Register::RAX)),
            Operand::Copy(Place::Local(name)) | Operand::Move(Place::Local(name)) => {
                match self.struct_data_locations.get(name.as_str()) {
                    Some(off) => Ok(X86Operand::Memory { base: Register::RBP, offset: *off }),
                    None => match self.var_locations.get(name.as_str()) {
                        Some(off) => Ok(X86Operand::Memory { base: Register::RBP, offset: *off }),
                        None => Ok(X86Operand::Register(Register::RAX)),
                    },
                }
            },
            _ => Ok(X86Operand::Register(Register::RAX)),
        }
    }

    /// After a call that returns a struct through the buffer `rax` points at: gives `dst_var`
    /// room for each field below its slot, copies the fields there, and records `dst_var`
    /// as holding struct data of type `struct_name`. A struct with no known fields is left
    /// in `rax`.
    pub fn handle_struct_return(&mut self, struct_name: &str, dst_var: &str, table: &StructFieldTable) -> (r: Result<
        (),
        CodegenError,
    >)
        requires
            old(self).wf(),
            table.fields.wf(),
            struct_count(old(self).struct_field_counts, table.fields, struct_name@) > 0 ==> return_fits(
                *old(self),
                dst_var@,
                struct_count(old(self).struct_field_counts, table.fields, struct_name@),
            ),
        ensures
            r is Ok,
            final(self).wf(),
            old(self).struct_field_counts.has(struct_name@) ==> final(self).struct_field_counts
                == old(self).struct_field_counts,
            !old(self).struct_field_counts.has(struct_name@) ==> final(self).struct_field_counts.keys() == old(
                self,
            ).struct_field_counts.keys().push(struct_name@) && final(self).struct_field_counts.vals() == old(
                self,
            ).struct_field_counts.vals().push(table_field_count(table.fields, struct_name@) as usize),
            final(self).label_counter == old(self).label_counter,
            final(self).string_constants == old(self).string_constants,
            final(self).min_collection_offset == old(self).min_collection_offset,
            final(self).collection_size == old(self).collection_size,
            ({
                let c = struct_count(old(self).struct_field_counts, table.fields, struct_name@);
                let base = return_base(*old(self), dst_var@);
                &&& c == 0 ==> final(self).instructions == old(self).instructions && final(self).var_locations
                    == old(self).var_locations && final(self).stack_offset == old(self).stack_offset
                    && final(self).var_struct_types == old(self).var_struct_types && final(self).struct_data_locations
                    == old(self).struct_data_locations
                &&& c > 0 ==> {
                    &&& final(self).instructions@ == old(self).instructions@ + struct_copy_code(base, c)
                    &&& final(self).var_locations.has(dst_var@)
                    &&& final(self).var_locations.at(dst_var@) == base
                    &&& forall|x: Seq<char>| x != dst_var@ ==> #[trigger] final(self).var_locations.lookup(x)
                        == old(self).var_locations.lookup(x)
                    &&& final(self).stack_offset == (if old(self).var_locations.has(dst_var@) {
                        old(self).stack_offset as int
                    } else {
                        base - 8
                    }) - 8 * (c - 1)
                    &&& final(self).var_struct_types.has(dst_var@)
                    &&& final(self).var_struct_types.at(dst_var@)@ == struct_name@
                    &&& forall|x: Seq<char>| x != dst_var@ ==> #[trigger] final(self).var_struct_types.lookup(x)
                        == old(self).var_struct_types.lookup(x)
                    &&& final(self).struct_data_locations.has(dst_var@)
                    &&& final(self).struct_data_locations.at(dst_var@) == base
                    &&& forall|x: Seq<char>| x != dst_var@ ==> #[trigger] final(self).struct_data_locations.lookup(x)
                        == old(self).struct_data_locations.lookup(x)
                }
            }),
    {
        let ghost g0 = *self;
        let field_count = self.get_cached_struct_field_count(struct_name, table);
        if field_count == 0 {
            return Ok(());
        }
        let ghost g1 = *self;
        let first = self.get_var_location(dst_var);
        proof {
            if g0.var_locations.has(dst_var@) {
                assert(first == g0.var_locations.at(dst_var@));
            } else {
                crate::names::lemma_insert_facts(
                    g1.var_locations.keys(),
                    g1.var_locations.vals(),
                    self.var_locations.keys(),
                    self.var_locations.vals(),
                    dst_var@,
                    first,
                );
            }
        }
        let struct_base = first;
        let ghost s1 = self.stack_offset;
        let ghost g2 = *self;
        let mut k: usize = 1;
        while k < field_count
            invariant
                1 <= k <= field_count,
                field_count == struct_count(g0.struct_field_counts, table.fields, struct_name@),
                8 * (field_count as int) <= i64::MAX,
                s1 - 8 * (field_count - 1) >= i64::MIN,
                self.stack_offset == s1 - 8 * (k - 1),
                *self == (Codegen { stack_offset: self.stack_offset, ..g2 }),
            decreases field_count - k,
        {
            self.stack_offset = self.stack_offset - 8;
            k += 1;
        }
        let ghost i0 = self.instructions@;
        let ghost g3 = *self;
        let mut i: usize = 0;
        while i < field_count
            invariant
                i <= field_count,
                8 * (field_count as int) <= i64::MAX,
                struct_base - 8 * (field_count - 1) >= i64::MIN,
                self.instructions@ == i0 + struct_copy_code(struct_base as int, i as nat),
                *self == (Codegen { instructions: self.instructions, ..g3 }),
            decreases field_count - i,
        {
            let src_off = (i as i64) * 8;
            let dst_off = struct_base - (i as i64) * 8;
            self.instructions.push(X86Instruction::Mov {
                dst: X86Operand::Register(Register::R10),
                src: X86Operand::Memory { base: Register::RAX, offset: src_off },
            });
            self.instructions.push(X86Instruction::Mov {
                dst: X86Operand::Memory { base: Register::RBP, offset: dst_off },
                src: X86Operand::Register(Register::R10),
            });
            assert(self.instructions@ =~= i0 + struct_copy_code(struct_base as int, (i + 1) as nat));
            i += 1;
        }
        let ghost t0 = self.var_struct_types;
        let sn = crate::text::lit(struct_name);
        let ghost snv = sn;
        self.var_struct_types.insert(crate::text::lit(dst_var), sn);
        let ghost d0 = self.struct_data_locations;
        self.struct_data_locations.insert(crate::text::lit(dst_var), struct_base);
        proof {
            lemma_insert_facts(t0.keys(), t0.vals(), self.var_struct_types.keys(), self.var_struct_types.vals(), dst_var@, snv);
            lemma_insert_facts(d0.keys(), d0.vals(), self.struct_data_locations.keys(), self.struct_data_locations.vals(), dst_var@, struct_base);
        }
        Ok(())
    }
}

} // verus!
