//! The instruction set: the text of each instruction, the words it encodes to,
//! and the sink that an instruction is assembled against.

use crate::fields::{
    fits_signed, Bits, Funct, Jmpop, Label, Off14, Off9, Opcode, ParseImmidiateError,
    ParseOffsetError, ParseRegisterError, Rd, Reg, Rs, Rt, Simm, StoreOff16, Uimm,
};
use crate::text::{find, split, split_once_str, split_str, str_eq, trim, trim_str, views};
use std::str::FromStr;
use vstd::prelude::*;
use vstd::string::*;

verus! {

/// One instruction of a program.
#[derive(Debug, Clone, PartialEq, Eq)]
pub enum Instruction {
    Label(Label),
    Unki(Opcode, Rd, Rs, Uimm<16>),
    Unkr(Opcode, Rd, Rs, Rt, Uimm<11>),
    Addi(Rd, Rs, Simm<16>),
    Jump(Label),
    Call(Label),
    Set0(Rd, Rs, Uimm<16>),
    Set1(Rd, Rs, Uimm<16>),
    Set2(Rd, Rs, Uimm<16>),
    Set3(Rd, Rs, Uimm<16>),
    Set32(Rd, Uimm<32>),
    Set64(Rd, Uimm<64>),
    Alur(Funct, Rd, Rs, Rt),
    Add(Rd, Rs, Rt),
    Sub(Rd, Rs, Rt),
    Subs(Rd, Rs, Rt),
    Retd,
    Ldb(Rd, Rs, Simm<16>),
    Ldq(Rd, Rs, Off14),
    Lduw(Rd, Rs, Off14),
    Ldd(Rd, Rs, Off14),
    Ldlw(Rd, Rs, Off14),
    Stb(Rt, Rs, StoreOff16),
    Std(Rd, Rs, Rt, Off9),
    Stq(Rd, Rs, Rt, Off9),
}

/// An instruction as a mathematical value: label names are sequences of
/// characters.
pub enum InstructionView {
    Label(Seq<char>),
    Unki(Opcode, Rd, Rs, Uimm<16>),
    Unkr(Opcode, Rd, Rs, Rt, Uimm<11>),
    Addi(Rd, Rs, Simm<16>),
    Jump(Seq<char>),
    Call(Seq<char>),
    Set0(Rd, Rs, Uimm<16>),
    Set1(Rd, Rs, Uimm<16>),
    Set2(Rd, Rs, Uimm<16>),
    Set3(Rd, Rs, Uimm<16>),
    Set32(Rd, Uimm<32>),
    Set64(Rd, Uimm<64>),
    Alur(Funct, Rd, Rs, Rt),
    Add(Rd, Rs, Rt),
    Sub(Rd, Rs, Rt),
    Subs(Rd, Rs, Rt),
    Retd,
    Ldb(Rd, Rs, Simm<16>),
    Ldq(Rd, Rs, Off14),
    Lduw(Rd, Rs, Off14),
    Ldd(Rd, Rs, Off14),
    Ldlw(Rd, Rs, Off14),
    Stb(Rt, Rs, StoreOff16),
    Std(Rd, Rs, Rt, Off9),
    Stq(Rd, Rs, Rt, Off9),
}

impl View for Instruction {
    type V = InstructionView;

    open spec fn view(&self) -> InstructionView {
        match *self {
            Instruction::Label(l) => InstructionView::Label(l.0@),
            Instruction::Unki(op, rd, rs, imm) => InstructionView::Unki(op, rd, rs, imm),
            Instruction::Unkr(op, rd, rs, rt, imm) => InstructionView::Unkr(op, rd, rs, rt, imm),
            Instruction::Addi(rd, rs, imm) => InstructionView::Addi(rd, rs, imm),
            Instruction::Jump(l) => InstructionView::Jump(l.0@),
            Instruction::Call(l) => InstructionView::Call(l.0@),
            Instruction::Set0(rd, rs, imm) => InstructionView::Set0(rd, rs, imm),
            Instruction::Set1(rd, rs, imm) => InstructionView::Set1(rd, rs, imm),
            Instruction::Set2(rd, rs, imm) => InstructionView::Set2(rd, rs, imm),
            Instruction::Set3(rd, rs, imm) => InstructionView::Set3(rd, rs, imm),
            Instruction::Set32(rd, imm) => InstructionView::Set32(rd, imm),
            Instruction::Set64(rd, imm) => InstructionView::Set64(rd, imm),
            Instruction::Alur(funct, rd, rs, rt) => InstructionView::Alur(funct, rd, rs, rt),
            Instruction::Add(rd, rs, rt) => InstructionView::Add(rd, rs, rt),
            Instruction::Sub(rd, rs, rt) => InstructionView::Sub(rd, rs, rt),
            Instruction::Subs(rd, rs, rt) => InstructionView::Subs(rd, rs, rt),
            Instruction::Retd => InstructionView::Retd,
            Instruction::Ldb(rd, rs, imm) => InstructionView::Ldb(rd, rs, imm),
            Instruction::Ldq(rd, rs, off) => InstructionView::Ldq(rd, rs, off),
            Instruction::Lduw(rd, rs, off) => InstructionView::Lduw(rd, rs, off),
            Instruction::Ldd(rd, rs, off) => InstructionView::Ldd(rd, rs, off),
            Instruction::Ldlw(rd, rs, off) => InstructionView::Ldlw(rd, rs, off),
            Instruction::Stb(rt, rs, off) => InstructionView::Stb(rt, rs, off),
            Instruction::Std(rd, rs, rt, off) => InstructionView::Std(rd, rs, rt, off),
            Instruction::Stq(rd, rs, rt, off) => InstructionView::Stq(rd, rs, rt, off),
        }
    }
}

/// A program as a mathematical value.
pub open spec fn program_view(instructions: Seq<Instruction>) -> Seq<InstructionView> {
    Seq::new(instructions.len(), |i: int| instructions[i]@)
}

/// Why a line is no instruction.
#[derive(Debug, Clone, Copy, PartialEq, Eq)]
pub enum ParseErrorKind {
    /// The line's first word names no instruction.
    UnknownInstruction,
    /// The instruction takes another number of operands.
    WrongOperandCount,
    Register(ParseRegisterError),
    Immidiate(ParseImmidiateError),
    Offset(ParseOffsetError),
}

/// A line that is no instruction, and why.
#[derive(Debug, Clone, PartialEq, Eq)]
pub struct ParseError {
    pub line: String,
    pub kind: ParseErrorKind,
}

/// A parse error as a mathematical value.
pub struct ParseFailure {
    pub line: Seq<char>,
    pub kind: ParseErrorKind,
}

impl View for ParseError {
    type V = ParseFailure;

    open spec fn view(&self) -> ParseFailure {
        ParseFailure { line: self.line@, kind: self.kind }
    }
}

/// Why a program cannot be assembled.
#[derive(Debug, Clone, Copy, PartialEq, Eq)]
pub enum AssembleError {
    /// A label is declared a second time.
    DuplicateLabel,
    /// A label does not lie where it was found to lie before.
    LabelMismatch,
    /// A jump or call names a label that the program does not declare.
    UndefinedLabel,
    /// A jump or call is too far from its target for a 24-bit word offset.
    OffsetOutOfRange,
    /// A word ends beyond the 32-bit address space, or a label, jump or call
    /// lies at its very end, which is no 32-bit address.
    AddressOverflow,
}

/// An operand that is a register, or why it is none.
pub open spec fn register_operand<T>(r: Result<T, ParseRegisterError>) -> Result<
    T,
    ParseErrorKind,
> {
    match r {
        Ok(v) => Ok(v),
        Err(e) => Err(ParseErrorKind::Register(e)),
    }
}

/// An operand that is an immediate, or why it is none.
pub open spec fn immidiate_operand<T>(r: Result<T, ParseImmidiateError>) -> Result<
    T,
    ParseErrorKind,
> {
    match r {
        Ok(v) => Ok(v),
        Err(e) => Err(ParseErrorKind::Immidiate(e)),
    }
}

/// An operand that is an aligned offset, or why it is none.
pub open spec fn offset_operand<T>(r: Result<T, ParseOffsetError>) -> Result<T, ParseErrorKind> {
    match r {
        Ok(v) => Ok(v),
        Err(e) => Err(ParseErrorKind::Offset(e)),
    }
}

/// The destination register that an operand names.
pub open spec fn rd(p: Seq<char>) -> Result<Rd, ParseErrorKind> {
    register_operand(Rd::spec_from_str(p))
}

/// The first source register that an operand names.
pub open spec fn rs(p: Seq<char>) -> Result<Rs, ParseErrorKind> {
    register_operand(Rs::spec_from_str(p))
}

/// The second source register that an operand names.
pub open spec fn rt(p: Seq<char>) -> Result<Rt, ParseErrorKind> {
    register_operand(Rt::spec_from_str(p))
}

/// The unsigned immediate of `BITS` bits that an operand writes.
pub open spec fn uimm<const BITS: usize>(p: Seq<char>) -> Result<Uimm<BITS>, ParseErrorKind> {
    immidiate_operand(Uimm::<BITS>::spec_from_str(p))
}

/// The signed immediate of `BITS` bits that an operand writes.
pub open spec fn simm<const BITS: usize>(p: Seq<char>) -> Result<Simm<BITS>, ParseErrorKind> {
    immidiate_operand(Simm::<BITS>::spec_from_str(p))
}

/// The first failure among two operands, or both.
pub open spec fn two<A, B>(a: Result<A, ParseErrorKind>, b: Result<B, ParseErrorKind>) -> Result<
    (A, B),
    ParseErrorKind,
> {
    match a {
        Err(e) => Err(e),
        Ok(a) => match b {
            Err(e) => Err(e),
            Ok(b) => Ok((a, b)),
        },
    }
}

/// The first failure among three operands, or all three.
pub open spec fn three<A, B, C>(
    a: Result<A, ParseErrorKind>,
    b: Result<B, ParseErrorKind>,
    c: Result<C, ParseErrorKind>,
) -> Result<(A, B, C), ParseErrorKind> {
    match two(a, b) {
        Err(e) => Err(e),
        Ok((a, b)) => match c {
            Err(e) => Err(e),
            Ok(c) => Ok((a, b, c)),
        },
    }
}

/// The first failure among four operands, or all four.
pub open spec fn four<A, B, C, D>(
    a: Result<A, ParseErrorKind>,
    b: Result<B, ParseErrorKind>,
    c: Result<C, ParseErrorKind>,
    d: Result<D, ParseErrorKind>,
) -> Result<(A, B, C, D), ParseErrorKind> {
    match three(a, b, c) {
        Err(e) => Err(e),
        Ok((a, b, c)) => match d {
            Err(e) => Err(e),
            Ok(d) => Ok((a, b, c, d)),
        },
    }
}

/// The first failure among five operands, or all five.
pub open spec fn five<A, B, C, D, E>(
    a: Result<A, ParseErrorKind>,
    b: Result<B, ParseErrorKind>,
    c: Result<C, ParseErrorKind>,
    d: Result<D, ParseErrorKind>,
    e: Result<E, ParseErrorKind>,
) -> Result<(A, B, C, D, E), ParseErrorKind> {
    match four(a, b, c, d) {
        Err(x) => Err(x),
        Ok((a, b, c, d)) => match e {
            Err(x) => Err(x),
            Ok(e) => Ok((a, b, c, d, e)),
        },
    }
}

/// The pieces trimmed, without those that are then empty.
pub open spec fn trimmed_non_empty(pieces: Seq<Seq<char>>) -> Seq<Seq<char>>
    decreases pieces.len(),
{
    if pieces.len() == 0 {
        Seq::empty()
    } else {
        let before = trimmed_non_empty(pieces.drop_last());
        let piece = trim(pieces.last());
        if piece.len() > 0 {
            before.push(piece)
        } else {
            before
        }
    }
}

/// The operands that follow a mnemonic: what stands between the commas,
/// trimmed, where anything is left.
pub open spec fn operands(rest: Seq<char>) -> Seq<Seq<char>> {
    trimmed_non_empty(split(trim(rest), ','))
}

/// The mnemonic of a trimmed line: what stands before its first space.
pub open spec fn mnemonic(line: Seq<char>) -> Seq<char> {
    line.take(find(line, ' ') as int)
}

/// What follows the first space of a trimmed line.
pub open spec fn after_mnemonic(line: Seq<char>) -> Seq<char> {
    if find(line, ' ') < line.len() {
        line.skip(find(line, ' ') as int + 1)
    } else {
        Seq::empty()
    }
}

/// An instruction with operands of three kinds, made by `make`.
pub open spec fn with_three<A, B, C>(
    p: Seq<Seq<char>>,
    parsed: Result<(A, B, C), ParseErrorKind>,
    make: spec_fn(A, B, C) -> InstructionView,
) -> Result<InstructionView, ParseErrorKind> {
    if p.len() != 3 {
        Err(ParseErrorKind::WrongOperandCount)
    } else {
        match parsed {
            Ok((a, b, c)) => Ok(make(a, b, c)),
            Err(e) => Err(e),
        }
    }
}

/// An instruction with operands of four kinds, made by `make`.
pub open spec fn with_four<A, B, C, D>(
    p: Seq<Seq<char>>,
    parsed: Result<(A, B, C, D), ParseErrorKind>,
    make: spec_fn(A, B, C, D) -> InstructionView,
) -> Result<InstructionView, ParseErrorKind> {
    if p.len() != 4 {
        Err(ParseErrorKind::WrongOperandCount)
    } else {
        match parsed {
            Ok((a, b, c, d)) => Ok(make(a, b, c, d)),
            Err(e) => Err(e),
        }
    }
}

/// The instruction that a mnemonic and its operands stand for.
pub open spec fn parse_operation(cmd: Seq<char>, p: Seq<Seq<char>>) -> Result<
    InstructionView,
    ParseErrorKind,
> {
    if cmd == "lbl"@ {
        if p.len() != 1 {
            Err(ParseErrorKind::WrongOperandCount)
        } else {
            Ok(InstructionView::Label(p[0]))
        }
    } else if cmd == "unk.i"@ {
        with_four(
            p,
            four(
                immidiate_operand(Opcode::spec_from_str(p[0])),
                rd(p[1]),
                rs(p[2]),
                uimm::<16>(p[3]),
            ),
            |a: Opcode, b: Rd, c: Rs, d: Uimm<16>| InstructionView::Unki(a, b, c, d),
        )
    } else if cmd == "unk.r"@ {
        if p.len() != 5 {
            Err(ParseErrorKind::WrongOperandCount)
        } else {
            match five(
                immidiate_operand(Opcode::spec_from_str(p[0])),
                rd(p[1]),
                rs(p[2]),
                rt(p[3]),
                uimm::<11>(p[4]),
            ) {
                Ok((a, b, c, d, e)) => Ok(InstructionView::Unkr(a, b, c, d, e)),
                Err(e) => Err(e),
            }
        }
    } else if cmd == "addi"@ {
        with_three(
            p,
            three(rd(p[0]), rs(p[1]), simm::<16>(p[2])),
            |a: Rd, b: Rs, c: Simm<16>| InstructionView::Addi(a, b, c),
        )
    } else if cmd == "jump"@ {
        if p.len() != 1 {
            Err(ParseErrorKind::WrongOperandCount)
        } else {
            Ok(InstructionView::Jump(p[0]))
        }
    } else if cmd == "call"@ {
        if p.len() != 1 {
            Err(ParseErrorKind::WrongOperandCount)
        } else {
            Ok(InstructionView::Call(p[0]))
        }
    } else if cmd == "set0"@ {
        with_three(
            p,
            three(rd(p[0]), rs(p[1]), uimm::<16>(p[2])),
            |a: Rd, b: Rs, c: Uimm<16>| InstructionView::Set0(a, b, c),
        )
    } else if cmd == "set1"@ {
        with_three(
            p,
            three(rd(p[0]), rs(p[1]), uimm::<16>(p[2])),
            |a: Rd, b: Rs, c: Uimm<16>| InstructionView::Set1(a, b, c),
        )
    } else if cmd == "set2"@ {
        with_three(
            p,
            three(rd(p[0]), rs(p[1]), uimm::<16>(p[2])),
            |a: Rd, b: Rs, c: Uimm<16>| InstructionView::Set2(a, b, c),
        )
    } else if cmd == "set3"@ {
        with_three(
            p,
            three(rd(p[0]), rs(p[1]), uimm::<16>(p[2])),
            |a: Rd, b: Rs, c: Uimm<16>| InstructionView::Set3(a, b, c),
        )
    } else if cmd == "set32"@ {
        if p.len() != 2 {
            Err(ParseErrorKind::WrongOperandCount)
        } else {
            match two(rd(p[0]), uimm::<32>(p[1])) {
                Ok((a, b)) => Ok(InstructionView::Set32(a, b)),
                Err(e) => Err(e),
            }
        }
    } else if cmd == "set64"@ {
        if p.len() != 2 {
            Err(ParseErrorKind::WrongOperandCount)
        } else {
            match two(rd(p[0]), uimm::<64>(p[1])) {
                Ok((a, b)) => Ok(InstructionView::Set64(a, b)),
                Err(e) => Err(e),
            }
        }
    } else if cmd == "alu.r"@ {
        with_four(
            p,
            four(immidiate_operand(Funct::spec_from_str(p[0])), rd(p[1]), rs(p[2]), rt(p[3])),
            |a: Funct, b: Rd, c: Rs, d: Rt| InstructionView::Alur(a, b, c, d),
        )
    } else if cmd == "add"@ {
        with_three(
            p,
            three(rd(p[0]), rs(p[1]), rt(p[2])),
            |a: Rd, b: Rs, c: Rt| InstructionView::Add(a, b, c),
        )
    } else if cmd == "sub"@ {
        with_three(
            p,
            three(rd(p[0]), rs(p[1]), rt(p[2])),
            |a: Rd, b: Rs, c: Rt| InstructionView::Sub(a, b, c),
        )
    } else if cmd == "subs"@ {
        with_three(
            p,
            three(rd(p[0]), rs(p[1]), rt(p[2])),
            |a: Rd, b: Rs, c: Rt| InstructionView::Subs(a, b, c),
        )
    } else if cmd == "ret.d"@ {
        if p.len() != 0 {
            Err(ParseErrorKind::WrongOperandCount)
        } else {
            Ok(InstructionView::Retd)
        }
    } else if cmd == "ld.b"@ {
        with_three(
            p,
            three(rd(p[0]), rs(p[1]), simm::<16>(p[2])),
            |a: Rd, b: Rs, c: Simm<16>| InstructionView::Ldb(a, b, c),
        )
    } else if cmd == "ld.q"@ {
        with_three(
            p,
            three(rd(p[0]), rs(p[1]), offset_operand(Off14::spec_from_str(p[2]))),
            |a: Rd, b: Rs, c: Off14| InstructionView::Ldq(a, b, c),
        )
    } else if cmd == "ld.uw"@ {
        with_three(
            p,
            three(rd(p[0]), rs(p[1]), offset_operand(Off14::spec_from_str(p[2]))),
            |a: Rd, b: Rs, c: Off14| InstructionView::Lduw(a, b, c),
        )
    } else if cmd == "ld.d"@ {
        with_three(
            p,
            three(rd(p[0]), rs(p[1]), offset_operand(Off14::spec_from_str(p[2]))),
            |a: Rd, b: Rs, c: Off14| InstructionView::Ldd(a, b, c),
        )
    } else if cmd == "ld.lw"@ {
        with_three(
            p,
            three(rd(p[0]), rs(p[1]), offset_operand(Off14::spec_from_str(p[2]))),
            |a: Rd, b: Rs, c: Off14| InstructionView::Ldlw(a, b, c),
        )
    } else if cmd == "st.b"@ {
        with_three(
            p,
            three(rt(p[0]), rs(p[1]), immidiate_operand(StoreOff16::spec_from_str(p[2]))),
            |a: Rt, b: Rs, c: StoreOff16| InstructionView::Stb(a, b, c),
        )
    } else if cmd == "st.d"@ {
        with_four(
            p,
            four(rd(p[0]), rs(p[1]), rt(p[2]), offset_operand(Off9::spec_from_str(p[3]))),
            |a: Rd, b: Rs, c: Rt, d: Off9| InstructionView::Std(a, b, c, d),
        )
    } else if cmd == "st.q"@ {
        with_four(
            p,
            four(rd(p[0]), rs(p[1]), rt(p[2]), offset_operand(Off9::spec_from_str(p[3]))),
            |a: Rd, b: Rs, c: Rt, d: Off9| InstructionView::Stq(a, b, c, d),
        )
    } else {
        Err(ParseErrorKind::UnknownInstruction)
    }
}

/// The instruction that a line of text stands for.
pub open spec fn parse_line(line: Seq<char>) -> Result<InstructionView, ParseErrorKind> {
    let line = trim(line);
    parse_operation(mnemonic(line), operands(after_mnemonic(line)))
}

/// Whether a line, once trimmed, is left out: an empty one, or a comment.
pub open spec fn is_skipped(line: Seq<char>) -> bool {
    line.len() == 0 || line.first() == '#'
}

/// The instructions of the lines, in order, or the first line that fails.
pub open spec fn parse_lines(lines: Seq<Seq<char>>) -> Result<Seq<InstructionView>, ParseFailure>
    decreases lines.len(),
{
    if lines.len() == 0 {
        Ok(Seq::empty())
    } else {
        match parse_lines(lines.drop_last()) {
            Err(e) => Err(e),
            Ok(before) => {
                let line = trim(lines.last());
                if is_skipped(line) {
                    Ok(before)
                } else {
                    match parse_line(line) {
                        Ok(instruction) => Ok(before.push(instruction)),
                        Err(kind) => Err(ParseFailure { line, kind }),
                    }
                }
            },
        }
    }
}

/// The program that a source text stands for: one instruction per line, empty
/// lines and lines that begin with `#` left out.
pub open spec fn parse_source(source: Seq<char>) -> Result<Seq<InstructionView>, ParseFailure> {
    parse_lines(split(source, '\n'))
}

fn read_rd(p: &str) -> (r: Result<Rd, ParseErrorKind>)
    ensures
        r == rd(p@),
{
    match Rd::from_str(p) {
        Ok(v) => Ok(v),
        Err(e) => Err(ParseErrorKind::Register(e)),
    }
}

fn read_rs(p: &str) -> (r: Result<Rs, ParseErrorKind>)
    ensures
        r == rs(p@),
{
    match Rs::from_str(p) {
        Ok(v) => Ok(v),
        Err(e) => Err(ParseErrorKind::Register(e)),
    }
}

fn read_rt(p: &str) -> (r: Result<Rt, ParseErrorKind>)
    ensures
        r == rt(p@),
{
    match Rt::from_str(p) {
        Ok(v) => Ok(v),
        Err(e) => Err(ParseErrorKind::Register(e)),
    }
}

fn read_uimm<const BITS: usize>(p: &str) -> (r: Result<Uimm<BITS>, ParseErrorKind>)
    ensures
        r == uimm::<BITS>(p@),
{
    match Uimm::<BITS>::from_str(p) {
        Ok(v) => Ok(v),
        Err(e) => Err(ParseErrorKind::Immidiate(e)),
    }
}

fn read_simm<const BITS: usize>(p: &str) -> (r: Result<Simm<BITS>, ParseErrorKind>)
    ensures
        r == simm::<BITS>(p@),
{
    match Simm::<BITS>::from_str(p) {
        Ok(v) => Ok(v),
        Err(e) => Err(ParseErrorKind::Immidiate(e)),
    }
}

fn read_opcode(p: &str) -> (r: Result<Opcode, ParseErrorKind>)
    ensures
        r == immidiate_operand(Opcode::spec_from_str(p@)),
{
    match Opcode::from_str(p) {
        Ok(v) => Ok(v),
        Err(e) => Err(ParseErrorKind::Immidiate(e)),
    }
}

fn read_funct(p: &str) -> (r: Result<Funct, ParseErrorKind>)
    ensures
        r == immidiate_operand(Funct::spec_from_str(p@)),
{
    match Funct::from_str(p) {
        Ok(v) => Ok(v),
        Err(e) => Err(ParseErrorKind::Immidiate(e)),
    }
}

fn read_store_offset(p: &str) -> (r: Result<StoreOff16, ParseErrorKind>)
    ensures
        r == immidiate_operand(StoreOff16::spec_from_str(p@)),
{
    match StoreOff16::from_str(p) {
        Ok(v) => Ok(v),
        Err(e) => Err(ParseErrorKind::Immidiate(e)),
    }
}

fn read_off9(p: &str) -> (r: Result<Off9, ParseErrorKind>)
    ensures
        r == offset_operand(Off9::spec_from_str(p@)),
{
    match Off9::from_str(p) {
        Ok(v) => Ok(v),
        Err(e) => Err(ParseErrorKind::Offset(e)),
    }
}

fn read_off14(p: &str) -> (r: Result<Off14, ParseErrorKind>)
    ensures
        r == offset_operand(Off14::spec_from_str(p@)),
{
    match Off14::from_str(p) {
        Ok(v) => Ok(v),
        Err(e) => Err(ParseErrorKind::Offset(e)),
    }
}

/// Reads the operands that follow a mnemonic.
fn read_operands<'a>(rest: &'a str) -> (ops: Vec<&'a str>)
    ensures
        views(ops@) == operands(rest@),
{
    let pieces: Vec<&'a str> = split_str(trim_str(rest), ',');
    let mut ops: Vec<&'a str> = Vec::new();
    let mut i: usize = 0;
    assert(views(pieces@).take(0) =~= Seq::<Seq<char>>::empty());
    assert(views(ops@) =~= Seq::<Seq<char>>::empty());
    while i < pieces.len()
        invariant
            i <= pieces.len(),
            views(ops@) == trimmed_non_empty(views(pieces@).take(i as int)),
        decreases pieces.len() - i,
    {
        let piece: &'a str = trim_str(pieces[i]);
        proof {
            let upto = views(pieces@).take(i + 1);
            assert(upto.drop_last() =~= views(pieces@).take(i as int));
            assert(upto.last() == pieces@[i as int]@);
            if piece@.len() > 0 {
                assert(views(ops@.push(piece)) =~= views(ops@).push(piece@));
            }
        }
        if !piece.is_empty() {
            ops.push(piece);
        }
        i += 1;
    }
    assert(views(pieces@).take(pieces@.len() as int) =~= views(pieces@));
    ops
}

/// Three registers, in the order destination, source, second source.
fn read_three_registers(ops: &Vec<&str>) -> (r: Result<(Rd, Rs, Rt), ParseErrorKind>)
    requires
        ops@.len() == 3,
    ensures
        r == three(rd(ops@[0]@), rs(ops@[1]@), rt(ops@[2]@)),
{
    let a: Rd = read_rd(ops[0])?;
    let b: Rs = read_rs(ops[1])?;
    let c: Rt = read_rt(ops[2])?;
    Ok((a, b, c))
}

/// Destination, source and an unsigned 16-bit immediate.
fn read_load_immidiate(ops: &Vec<&str>) -> (r: Result<(Rd, Rs, Uimm<16>), ParseErrorKind>)
    requires
        ops@.len() == 3,
    ensures
        r == three(rd(ops@[0]@), rs(ops@[1]@), uimm::<16>(ops@[2]@)),
{
    let a: Rd = read_rd(ops[0])?;
    let b: Rs = read_rs(ops[1])?;
    let c: Uimm<16> = read_uimm::<16>(ops[2])?;
    Ok((a, b, c))
}

/// Destination, source and a signed 16-bit immediate.
fn read_signed_immidiate(ops: &Vec<&str>) -> (r: Result<(Rd, Rs, Simm<16>), ParseErrorKind>)
    requires
        ops@.len() == 3,
    ensures
        r == three(rd(ops@[0]@), rs(ops@[1]@), simm::<16>(ops@[2]@)),
{
    let a: Rd = read_rd(ops[0])?;
    let b: Rs = read_rs(ops[1])?;
    let c: Simm<16> = read_simm::<16>(ops[2])?;
    Ok((a, b, c))
}

/// Destination, source and an aligned 16-bit offset.
fn read_load_offset(ops: &Vec<&str>) -> (r: Result<(Rd, Rs, Off14), ParseErrorKind>)
    requires
        ops@.len() == 3,
    ensures
        r == three(rd(ops@[0]@), rs(ops@[1]@), offset_operand(Off14::spec_from_str(ops@[2]@))),
{
    let a: Rd = read_rd(ops[0])?;
    let b: Rs = read_rs(ops[1])?;
    let c: Off14 = read_off14(ops[2])?;
    Ok((a, b, c))
}

/// Three registers and an aligned 11-bit offset.
fn read_store_offset_registers(ops: &Vec<&str>) -> (r: Result<(Rd, Rs, Rt, Off9), ParseErrorKind>)
    requires
        ops@.len() == 4,
    ensures
        r == four(
            rd(ops@[0]@),
            rs(ops@[1]@),
            rt(ops@[2]@),
            offset_operand(Off9::spec_from_str(ops@[3]@)),
        ),
{
    let a: Rd = read_rd(ops[0])?;
    let b: Rs = read_rs(ops[1])?;
    let c: Rt = read_rt(ops[2])?;
    let d: Off9 = read_off9(ops[3])?;
    Ok((a, b, c, d))
}

/// Reads the instruction that a mnemonic and its operands stand for.
fn read_operation(cmd: &str, ops: &Vec<&str>) -> (r: Result<Instruction, ParseErrorKind>)
    ensures
        match parse_operation(cmd@, views(ops@)) {
            Ok(instruction) => r is Ok && r->Ok_0@ == instruction,
            Err(e) => r == Err::<Instruction, ParseErrorKind>(e),
        },
{
    let n: usize = ops.len();
    let ghost p = views(ops@);
    assert(forall|i: int| 0 <= i < n ==> p[i] == ops@[i]@);
    if str_eq(cmd, "lbl") {
        if n != 1 {
            return Err(ParseErrorKind::WrongOperandCount);
        }
        Ok(Instruction::Label(Label(ops[0].to_owned())))
    } else if str_eq(cmd, "unk.i") {
        if n != 4 {
            return Err(ParseErrorKind::WrongOperandCount);
        }
        let a: Opcode = read_opcode(ops[0])?;
        let b: Rd = read_rd(ops[1])?;
        let c: Rs = read_rs(ops[2])?;
        let d: Uimm<16> = read_uimm::<16>(ops[3])?;
        Ok(Instruction::Unki(a, b, c, d))
    } else if str_eq(cmd, "unk.r") {
        if n != 5 {
            return Err(ParseErrorKind::WrongOperandCount);
        }
        let a: Opcode = read_opcode(ops[0])?;
        let b: Rd = read_rd(ops[1])?;
        let c: Rs = read_rs(ops[2])?;
        let d: Rt = read_rt(ops[3])?;
        let e: Uimm<11> = read_uimm::<11>(ops[4])?;
        Ok(Instruction::Unkr(a, b, c, d, e))
    } else if str_eq(cmd, "addi") {
        if n != 3 {
            return Err(ParseErrorKind::WrongOperandCount);
        }
        let (a, b, c): (Rd, Rs, Simm<16>) = read_signed_immidiate(ops)?;
        Ok(Instruction::Addi(a, b, c))
    } else if str_eq(cmd, "jump") {
        if n != 1 {
            return Err(ParseErrorKind::WrongOperandCount);
        }
        Ok(Instruction::Jump(Label(ops[0].to_owned())))
    } else if str_eq(cmd, "call") {
        if n != 1 {
            return Err(ParseErrorKind::WrongOperandCount);
        }
        Ok(Instruction::Call(Label(ops[0].to_owned())))
    } else if str_eq(cmd, "set0") {
        if n != 3 {
            return Err(ParseErrorKind::WrongOperandCount);
        }
        let (a, b, c): (Rd, Rs, Uimm<16>) = read_load_immidiate(ops)?;
        Ok(Instruction::Set0(a, b, c))
    } else if str_eq(cmd, "set1") {
        if n != 3 {
            return Err(ParseErrorKind::WrongOperandCount);
        }
        let (a, b, c): (Rd, Rs, Uimm<16>) = read_load_immidiate(ops)?;
        Ok(Instruction::Set1(a, b, c))
    } else if str_eq(cmd, "set2") {
        if n != 3 {
            return Err(ParseErrorKind::WrongOperandCount);
        }
        let (a, b, c): (Rd, Rs, Uimm<16>) = read_load_immidiate(ops)?;
        Ok(Instruction::Set2(a, b, c))
    } else if str_eq(cmd, "set3") {
        if n != 3 {
            return Err(ParseErrorKind::WrongOperandCount);
        }
        let (a, b, c): (Rd, Rs, Uimm<16>) = read_load_immidiate(ops)?;
        Ok(Instruction::Set3(a, b, c))
    } else if str_eq(cmd, "set32") {
        if n != 2 {
            return Err(ParseErrorKind::WrongOperandCount);
        }
        let a: Rd = read_rd(ops[0])?;
        let b: Uimm<32> = read_uimm::<32>(ops[1])?;
        Ok(Instruction::Set32(a, b))
    } else if str_eq(cmd, "set64") {
        if n != 2 {
            return Err(ParseErrorKind::WrongOperandCount);
        }
        let a: Rd = read_rd(ops[0])?;
        let b: Uimm<64> = read_uimm::<64>(ops[1])?;
        Ok(Instruction::Set64(a, b))
    } else if str_eq(cmd, "alu.r") {
        if n != 4 {
            return Err(ParseErrorKind::WrongOperandCount);
        }
        let a: Funct = read_funct(ops[0])?;
        let b: Rd = read_rd(ops[1])?;
        let c: Rs = read_rs(ops[2])?;
        let d: Rt = read_rt(ops[3])?;
        Ok(Instruction::Alur(a, b, c, d))
    } else if str_eq(cmd, "add") {
        if n != 3 {
            return Err(ParseErrorKind::WrongOperandCount);
        }
        let (a, b, c): (Rd, Rs, Rt) = read_three_registers(ops)?;
        Ok(Instruction::Add(a, b, c))
    } else if str_eq(cmd, "sub") {
        if n != 3 {
            return Err(ParseErrorKind::WrongOperandCount);
        }
        let (a, b, c): (Rd, Rs, Rt) = read_three_registers(ops)?;
        Ok(Instruction::Sub(a, b, c))
    } else if str_eq(cmd, "subs") {
        if n != 3 {
            return Err(ParseErrorKind::WrongOperandCount);
        }
        let (a, b, c): (Rd, Rs, Rt) = read_three_registers(ops)?;
        Ok(Instruction::Subs(a, b, c))
    } else if str_eq(cmd, "ret.d") {
        if n != 0 {
            return Err(ParseErrorKind::WrongOperandCount);
        }
        Ok(Instruction::Retd)
    } else if str_eq(cmd, "ld.b") {
        if n != 3 {
            return Err(ParseErrorKind::WrongOperandCount);
        }
        let (a, b, c): (Rd, Rs, Simm<16>) = read_signed_immidiate(ops)?;
        Ok(Instruction::Ldb(a, b, c))
    } else if str_eq(cmd, "ld.q") {
        if n != 3 {
            return Err(ParseErrorKind::WrongOperandCount);
        }
        let (a, b, c): (Rd, Rs, Off14) = read_load_offset(ops)?;
        Ok(Instruction::Ldq(a, b, c))
    } else if str_eq(cmd, "ld.uw") {
        if n != 3 {
            return Err(ParseErrorKind::WrongOperandCount);
        }
        let (a, b, c): (Rd, Rs, Off14) = read_load_offset(ops)?;
        Ok(Instruction::Lduw(a, b, c))
    } else if str_eq(cmd, "ld.d") {
        if n != 3 {
            return Err(ParseErrorKind::WrongOperandCount);
        }
        let (a, b, c): (Rd, Rs, Off14) = read_load_offset(ops)?;
        Ok(Instruction::Ldd(a, b, c))
    } else if str_eq(cmd, "ld.lw") {
        if n != 3 {
            return Err(ParseErrorKind::WrongOperandCount);
        }
        let (a, b, c): (Rd, Rs, Off14) = read_load_offset(ops)?;
        Ok(Instruction::Ldlw(a, b, c))
    } else if str_eq(cmd, "st.b") {
        if n != 3 {
            return Err(ParseErrorKind::WrongOperandCount);
        }
        let a: Rt = read_rt(ops[0])?;
        let b: Rs = read_rs(ops[1])?;
        let c: StoreOff16 = read_store_offset(ops[2])?;
        Ok(Instruction::Stb(a, b, c))
    } else if str_eq(cmd, "st.d") {
        if n != 4 {
            return Err(ParseErrorKind::WrongOperandCount);
        }
        let (a, b, c, d): (Rd, Rs, Rt, Off9) = read_store_offset_registers(ops)?;
        Ok(Instruction::Std(a, b, c, d))
    } else if str_eq(cmd, "st.q") {
        if n != 4 {
            return Err(ParseErrorKind::WrongOperandCount);
        }
        let (a, b, c, d): (Rd, Rs, Rt, Off9) = read_store_offset_registers(ops)?;
        Ok(Instruction::Stq(a, b, c, d))
    } else {
        Err(ParseErrorKind::UnknownInstruction)
    }
}

impl FromStr for Instruction {
    type Err = ParseErrorKind;

    /// Reads one line as an instruction.
    fn from_str(line: &str) -> (r: Result<Self, ParseErrorKind>)
        ensures
            match parse_line(line@) {
                Ok(instruction) => r is Ok && r->Ok_0@ == instruction,
                Err(e) => r == Err::<Instruction, ParseErrorKind>(e),
            },
    {
        let line: &str = trim_str(line);
        proof {
            reveal_strlit("");
            assert(""@ =~= Seq::<char>::empty());
            assert(line@.take(line@.len() as int) =~= line@);
        }
        let (cmd, rest): (&str, &str) = match split_once_str(line, ' ') {
            Some(parts) => parts,
            None => (line, ""),
        };
        let ops: Vec<&str> = read_operands(rest);
        read_operation(cmd, &ops)
    }
}

impl Instruction {
    /// Reads a program, one instruction per line. Empty lines and lines that
    /// begin with `#` are left out.
    pub fn parse(source: &str) -> (r: Result<Vec<Instruction>, ParseError>)
        ensures
            match parse_source(source@) {
                Ok(program) => r is Ok && program_view(r->Ok_0@) == program,
                Err(e) => r is Err && r->Err_0@ == e,
            },
    {
        let lines: Vec<&str> = split_str(source, '\n');
        let mut program: Vec<Instruction> = Vec::new();
        let mut i: usize = 0;
        assert(views(lines@).take(0) =~= Seq::<Seq<char>>::empty());
        assert(program_view(program@) =~= Seq::<InstructionView>::empty());
        while i < lines.len()
            invariant
                i <= lines.len(),
                parse_lines(views(lines@).take(i as int)) == Ok::<
                    Seq<InstructionView>,
                    ParseFailure,
                >(program_view(program@)),
                views(lines@) == split(source@, '\n'),
            decreases lines.len() - i,
        {
            let line: &str = trim_str(lines[i]);
            let ghost upto = views(lines@).take(i + 1);
            proof {
                assert(upto.drop_last() =~= views(lines@).take(i as int));
                assert(upto.last() == lines@[i as int]@);
            }
            let skipped: bool = line.is_empty() || line.get_char(0) == '#';
            if !skipped {
                match Instruction::from_str(line) {
                    Ok(instruction) => {
                        proof {
                            assert(program_view(program@.push(instruction)) =~= program_view(
                                program@,
                            ).push(instruction@));
                        }
                        program.push(instruction);
                    },
                    Err(kind) => {
                        proof {
                            lemma_parse_lines_fails(views(lines@), i + 1);
                        }
                        return Err(ParseError { line: line.to_owned(), kind });
                    },
                }
            }
            i += 1;
        }
        assert(views(lines@).take(lines@.len() as int) =~= views(lines@));
        Ok(program)
    }
}

/// Once some lines fail, more lines fail in the same way.
pub proof fn lemma_parse_lines_fails(lines: Seq<Seq<char>>, upto: int)
    requires
        0 <= upto <= lines.len(),
        parse_lines(lines.take(upto)) is Err,
    ensures
        parse_lines(lines) == parse_lines(lines.take(upto)),
    decreases lines.len() - upto,
{
    if upto == lines.len() {
        assert(lines.take(upto) =~= lines);
    } else {
        assert(lines.drop_last().take(upto) =~= lines.take(upto));
        lemma_parse_lines_fails(lines.drop_last(), upto);
    }
}

/// The value of sixteen bits of `value`, the lowest where `index` is 0.
pub open spec fn chunk(value: u64, index: nat) -> u64 {
    if index == 0 {
        value % 0x1_0000
    } else if index == 1 {
        (value / 0x1_0000) % 0x1_0000
    } else if index == 2 {
        (value / 0x1_0000_0000) % 0x1_0000
    } else {
        (value / 0x1_0000_0000_0000) % 0x1_0000
    }
}

impl InstructionView {
    /// The word of an instruction that encodes to one word whatever its
    /// address.
    pub open spec fn word(self) -> u32 {
        match self {
            InstructionView::Unki(op, rd, rs, imm) => op.spec_bits() | rd.spec_bits()
                | rs.spec_bits() | imm.spec_bits(),
            InstructionView::Unkr(op, rd, rs, rt, imm) => op.spec_bits() | rd.spec_bits()
                | rs.spec_bits() | rt.spec_bits() | imm.spec_bits(),
            InstructionView::Addi(rd, rs, imm) => Opcode(Uimm(0x00)).spec_bits() | rd.spec_bits()
                | rs.spec_bits() | imm.spec_bits(),
            InstructionView::Set0(rd, rs, imm) => Opcode(Uimm(0x06)).spec_bits() | rd.spec_bits()
                | rs.spec_bits() | imm.spec_bits(),
            InstructionView::Set1(rd, rs, imm) => Opcode(Uimm(0x07)).spec_bits() | rd.spec_bits()
                | rs.spec_bits() | imm.spec_bits(),
            InstructionView::Set2(rd, rs, imm) => Opcode(Uimm(0x08)).spec_bits() | rd.spec_bits()
                | rs.spec_bits() | imm.spec_bits(),
            InstructionView::Set3(rd, rs, imm) => Opcode(Uimm(0x09)).spec_bits() | rd.spec_bits()
                | rs.spec_bits() | imm.spec_bits(),
            InstructionView::Alur(funct, rd, rs, rt) => Opcode(Uimm(0x3f)).spec_bits()
                | rd.spec_bits() | rs.spec_bits() | rt.spec_bits() | funct.spec_bits(),
            InstructionView::Add(rd, rs, rt) => Opcode(Uimm(0x3f)).spec_bits() | rd.spec_bits()
                | rs.spec_bits() | rt.spec_bits() | Funct(Uimm(0x000)).spec_bits(),
            InstructionView::Sub(rd, rs, rt) => Opcode(Uimm(0x3f)).spec_bits() | rd.spec_bits()
                | rs.spec_bits() | rt.spec_bits() | Funct(Uimm(0x004)).spec_bits(),
            InstructionView::Subs(rd, rs, rt) => Opcode(Uimm(0x3f)).spec_bits() | rd.spec_bits()
                | rs.spec_bits() | rt.spec_bits() | Funct(Uimm(0x005)).spec_bits(),
            InstructionView::Retd => Opcode(Uimm(0x3f)).spec_bits() | Funct(
                Uimm(0x02d),
            ).spec_bits(),
            InstructionView::Ldb(rd, rs, imm) => Opcode(Uimm(0x18)).spec_bits() | rd.spec_bits()
                | rs.spec_bits() | imm.spec_bits(),
            InstructionView::Ldq(rd, rs, off) => Opcode(Uimm(0x19)).spec_bits() | rd.spec_bits()
                | rs.spec_bits() | off.spec_bits() | Uimm::<2>(0).spec_bits(),
            InstructionView::Lduw(rd, rs, off) => Opcode(Uimm(0x19)).spec_bits() | rd.spec_bits()
                | rs.spec_bits() | off.spec_bits() | Uimm::<2>(1).spec_bits(),
            InstructionView::Ldd(rd, rs, off) => Opcode(Uimm(0x19)).spec_bits() | rd.spec_bits()
                | rs.spec_bits() | off.spec_bits() | Uimm::<2>(2).spec_bits(),
            InstructionView::Ldlw(rd, rs, off) => Opcode(Uimm(0x19)).spec_bits() | rd.spec_bits()
                | rs.spec_bits() | off.spec_bits() | Uimm::<2>(3).spec_bits(),
            InstructionView::Stb(rt, rs, off) => Opcode(Uimm(0x1a)).spec_bits() | rs.spec_bits()
                | rt.spec_bits() | off.spec_bits(),
            InstructionView::Std(rd, rs, rt, off) => Opcode(Uimm(0x1b)).spec_bits()
                | rd.spec_bits() | rs.spec_bits() | rt.spec_bits() | off.spec_bits() | Uimm::<2>(
                2,
            ).spec_bits(),
            InstructionView::Stq(rd, rs, rt, off) => Opcode(Uimm(0x1e)).spec_bits()
                | rd.spec_bits() | rs.spec_bits() | rt.spec_bits() | off.spec_bits() | Uimm::<2>(
                0,
            ).spec_bits(),
            _ => 0,
        }
    }

    /// The instructions that a pseudo-instruction stands for, in order; any
    /// other instruction stands for itself.
    pub open spec fn expansion(self) -> Seq<InstructionView> {
        match self {
            InstructionView::Set32(rd, imm) => seq![
                InstructionView::Set2(rd, Rs(Reg(0)), Uimm(chunk(imm.0, 1))),
                InstructionView::Set3(rd, Rs(rd.0), Uimm(chunk(imm.0, 0))),
            ],
            InstructionView::Set64(rd, imm) => seq![
                InstructionView::Set0(rd, Rs(Reg(0)), Uimm(chunk(imm.0, 3))),
                InstructionView::Set1(rd, Rs(rd.0), Uimm(chunk(imm.0, 2))),
                InstructionView::Set2(rd, Rs(rd.0), Uimm(chunk(imm.0, 1))),
                InstructionView::Set3(rd, Rs(rd.0), Uimm(chunk(imm.0, 0))),
            ],
            _ => seq![self],
        }
    }

    /// Whether the instruction stands for others.
    pub open spec fn is_pseudo(self) -> bool {
        self is Set32 || self is Set64
    }

    /// The words that the instruction encodes to, where they do not depend
    /// on its address: none for a label, a jump or a call.
    pub open spec fn words(self) -> Seq<u32> {
        match self {
            InstructionView::Label(_) => Seq::empty(),
            InstructionView::Jump(_) => Seq::empty(),
            InstructionView::Call(_) => Seq::empty(),
            _ => Seq::new(self.expansion().len(), |i: int| self.expansion()[i].word()),
        }
    }
}

/// The distance in words from the instruction at `here` to `target`, rounded
/// down.
pub open spec fn jump_offset(target: u32, here: u32) -> int {
    (target - here) / 4
}

/// The word of a jump or call over `offset` words.
pub open spec fn branch_word(op: Jmpop, offset: int) -> u32 {
    Opcode(Uimm(0x25)).spec_bits() | op.spec_bits() | Simm::<24>(offset as i64).spec_bits()
}

/// What an assembler pass does with a program: it knows the address of the
/// next word, records or checks labels, resolves them, and takes the words.
pub trait Assembler: View + Sized {
    /// The invariant of the sink.
    spec fn wf(&self) -> bool;

    /// The address of the next word, where it is a 32-bit address still.
    spec fn address_of(state: Self::V) -> Result<u32, AssembleError>;

    /// The state after a label is declared at an address, or why it cannot
    /// be.
    spec fn labelled(state: Self::V, name: Seq<char>, address: u32) -> Result<
        Self::V,
        AssembleError,
    >;

    /// The address that a label resolves to, or why it does not.
    spec fn looked_up(state: Self::V, name: Seq<char>) -> Result<u32, AssembleError>;

    /// The state after a word is taken, or why it cannot be.
    spec fn emitted(state: Self::V, word: u32) -> Result<Self::V, AssembleError>;

    fn current_address(&self) -> (r: Result<u32, AssembleError>)
        requires
            self.wf(),
        ensures
            r == Self::address_of(self@),
    ;

    /// Declares a label. Where it fails, the sink is as it was.
    fn label(&mut self, name: &str, address: u32) -> (r: Result<(), AssembleError>)
        requires
            old(self).wf(),
        ensures
            final(self).wf(),
            match Self::labelled(old(self)@, name@, address) {
                Ok(state) => r is Ok && final(self)@ == state,
                Err(e) => r == Err::<(), AssembleError>(e) && final(self)@ == old(self)@,
            },
    ;

    fn lookup(&self, name: &str) -> (r: Result<u32, AssembleError>)
        requires
            self.wf(),
        ensures
            r == Self::looked_up(self@, name@),
    ;

    /// Takes a word. Where it fails, the sink is as it was.
    fn emit<B: Bits>(&mut self, bits: B) -> (r: Result<(), AssembleError>)
        requires
            old(self).wf(),
        ensures
            final(self).wf(),
            match Self::emitted(old(self)@, bits.spec_bits()) {
                Ok(state) => r is Ok && final(self)@ == state,
                Err(e) => r == Err::<(), AssembleError>(e) && final(self)@ == old(self)@,
            },
    ;
}

/// The state after the words are taken in order, or the first failure.
pub open spec fn emit_all<A: Assembler>(state: A::V, words: Seq<u32>) -> Result<
    A::V,
    AssembleError,
>
    decreases words.len(),
{
    if words.len() == 0 {
        Ok(state)
    } else {
        match A::emitted(state, words.first()) {
            Ok(next) => emit_all::<A>(next, words.drop_first()),
            Err(e) => Err(e),
        }
    }
}

/// The state after a jump or call to `name` is assembled: the label is
/// resolved, the offset from the current address must fit 24 bits, and one
/// word is taken.
pub open spec fn branch<A: Assembler>(state: A::V, op: Jmpop, name: Seq<char>) -> Result<
    A::V,
    AssembleError,
> {
    match A::looked_up(state, name) {
        Err(e) => Err(e),
        Ok(target) => match A::address_of(state) {
            Err(e) => Err(e),
            Ok(here) => {
                let offset = jump_offset(target, here);
                if fits_signed(offset, 24) {
                    A::emitted(state, branch_word(op, offset))
                } else {
                    Err(AssembleError::OffsetOutOfRange)
                }
            },
        },
    }
}

/// The state after one instruction is assembled, or why it cannot be.
pub open spec fn step<A: Assembler>(state: A::V, instruction: InstructionView) -> Result<
    A::V,
    AssembleError,
> {
    match instruction {
        InstructionView::Label(name) => match A::address_of(state) {
            Ok(here) => A::labelled(state, name, here),
            Err(e) => Err(e),
        },
        InstructionView::Jump(name) => branch::<A>(state, Jmpop::Jump, name),
        InstructionView::Call(name) => branch::<A>(state, Jmpop::Call, name),
        _ => emit_all::<A>(state, instruction.words()),
    }
}

/// The state after the words that are taken before the first that is
/// refused: after all of them where none is.
pub open spec fn emit_prefix<A: Assembler>(state: A::V, words: Seq<u32>) -> A::V
    decreases words.len(),
{
    if words.len() == 0 {
        state
    } else {
        match A::emitted(state, words.first()) {
            Ok(next) => emit_prefix::<A>(next, words.drop_first()),
            Err(_) => state,
        }
    }
}

/// The state in which assembling an instruction that fails leaves the sink:
/// as it was, but for a pseudo-instruction, whose words before the one that
/// is refused are taken.
pub open spec fn halted<A: Assembler>(state: A::V, instruction: InstructionView) -> A::V {
    if instruction.is_pseudo() {
        emit_prefix::<A>(state, instruction.words())
    } else {
        state
    }
}

/// The state in which assembling a program that fails leaves the sink: after
/// the instructions before the one that fails, and what that one leaves.
pub open spec fn stopped<A: Assembler>(state: A::V, program: Seq<InstructionView>) -> A::V
    decreases program.len(),
{
    if program.len() == 0 {
        state
    } else {
        match step::<A>(state, program.first()) {
            Ok(next) => stopped::<A>(next, program.drop_first()),
            Err(_) => halted::<A>(state, program.first()),
        }
    }
}

/// The state after a program is assembled, or the first failure.
pub open spec fn run<A: Assembler>(state: A::V, program: Seq<InstructionView>) -> Result<
    A::V,
    AssembleError,
>
    decreases program.len(),
{
    if program.len() == 0 {
        Ok(state)
    } else {
        match step::<A>(state, program.first()) {
            Ok(next) => run::<A>(next, program.drop_first()),
            Err(e) => Err(e),
        }
    }
}

/// Taking one word.
pub proof fn lemma_emit_one<A: Assembler>(state: A::V, word: u32)
    ensures
        emit_all::<A>(state, seq![word]) == A::emitted(state, word),
{
    let words = seq![word];
    assert(words.first() == word);
    assert(words.drop_first() =~= Seq::<u32>::empty());
    match A::emitted(state, word) {
        Ok(next) => {
            assert(emit_all::<A>(next, Seq::<u32>::empty()) == Ok::<A::V, AssembleError>(next));
        },
        Err(_) => {},
    }
}

/// Taking some words and then some more.
pub proof fn lemma_emit_all_append<A: Assembler>(state: A::V, first: Seq<u32>, then: Seq<u32>)
    ensures
        emit_all::<A>(state, first + then) == match emit_all::<A>(state, first) {
            Ok(next) => emit_all::<A>(next, then),
            Err(e) => Err(e),
        },
    decreases first.len(),
{
    if first.len() == 0 {
        assert(first + then =~= then);
    } else {
        assert((first + then).first() == first.first());
        assert((first + then).drop_first() =~= first.drop_first() + then);
        match A::emitted(state, first.first()) {
            Ok(next) => {
                lemma_emit_all_append::<A>(next, first.drop_first(), then);
            },
            Err(_) => {},
        }
    }
}

/// The sixteen bits of `value` from bit `16 * index` on.
fn chunk_of(value: u64, index: u32) -> (part: u64)
    requires
        index < 4,
    ensures
        part == chunk(value, index as nat),
{
    if index == 0 {
        assert(value & 0xffff == value % 0x1_0000) by (bit_vector);
        value & 0xffff
    } else if index == 1 {
        assert((value >> 16) & 0xffff == (value / 0x1_0000) % 0x1_0000) by (bit_vector);
        (value >> 16) & 0xffff
    } else if index == 2 {
        assert((value >> 32) & 0xffff == (value / 0x1_0000_0000) % 0x1_0000) by (bit_vector);
        (value >> 32) & 0xffff
    } else {
        assert((value >> 48) & 0xffff == (value / 0x1_0000_0000_0000) % 0x1_0000) by (bit_vector);
        (value >> 48) & 0xffff
    }
}

/// Assembles a jump or call to `name`. Where it fails, the sink is as it
/// was.
fn assemble_branch<Sink: Assembler>(sink: &mut Sink, op: Jmpop, name: &str) -> (r: Result<
    (),
    AssembleError,
>)
    requires
        old(sink).wf(),
    ensures
        final(sink).wf(),
        match branch::<Sink>(old(sink)@, op, name@) {
            Ok(state) => r is Ok && final(sink)@ == state,
            Err(e) => r == Err::<(), AssembleError>(e) && final(sink)@ == old(sink)@,
        },
{
    let target: u32 = sink.lookup(name)?;
    let here: u32 = sink.current_address()?;
    let distance: i64 = target as i64 - here as i64;
    let offset: i64 = if distance >= 0 {
        distance / 4
    } else {
        -((3 - distance) / 4)
    };
    assert(offset == jump_offset(target, here));
    match Simm::<24>::new(offset) {
        Ok(imm) => sink.emit(Opcode::fixed(0x25).or(op).or(imm)),
        Err(_) => Err(AssembleError::OffsetOutOfRange),
    }
}

impl Instruction {
    /// Hands the word of an instruction that encodes to one word, whatever
    /// its address, to the sink.
    fn assemble_word<Sink: Assembler>(&self, sink: &mut Sink) -> (r: Result<(), AssembleError>)
        requires
            old(sink).wf(),
            !(self@ is Label || self@ is Jump || self@ is Call || self@.is_pseudo()),
        ensures
            final(sink).wf(),
            match Sink::emitted(old(sink)@, self@.word()) {
                Ok(state) => r is Ok && final(sink)@ == state,
                Err(e) => r == Err::<(), AssembleError>(e) && final(sink)@ == old(sink)@,
            },
    {
        match self {
            Instruction::Unki(op, rd, rs, imm) => sink.emit(op.or(*rd).or(*rs).or(*imm)),
            Instruction::Unkr(op, rd, rs, rt, imm) => sink.emit(
                op.or(*rd).or(*rs).or(*rt).or(*imm),
            ),
            Instruction::Addi(rd, rs, imm) => sink.emit(
                Opcode::fixed(0x00).or(*rd).or(*rs).or(*imm),
            ),
            Instruction::Set0(rd, rs, imm) => sink.emit(
                Opcode::fixed(0x06).or(*rd).or(*rs).or(*imm),
            ),
            Instruction::Set1(rd, rs, imm) => sink.emit(
                Opcode::fixed(0x07).or(*rd).or(*rs).or(*imm),
            ),
            Instruction::Set2(rd, rs, imm) => sink.emit(
                Opcode::fixed(0x08).or(*rd).or(*rs).or(*imm),
            ),
            Instruction::Set3(rd, rs, imm) => sink.emit(
                Opcode::fixed(0x09).or(*rd).or(*rs).or(*imm),
            ),
            Instruction::Alur(funct, rd, rs, rt) => sink.emit(
                Opcode::fixed(0x3f).or(*rd).or(*rs).or(*rt).or(*funct),
            ),
            Instruction::Add(rd, rs, rt) => sink.emit(
                Opcode::fixed(0x3f).or(*rd).or(*rs).or(*rt).or(Funct::fixed(0x000)),
            ),
            Instruction::Sub(rd, rs, rt) => sink.emit(
                Opcode::fixed(0x3f).or(*rd).or(*rs).or(*rt).or(Funct::fixed(0x004)),
            ),
            Instruction::Subs(rd, rs, rt) => sink.emit(
                Opcode::fixed(0x3f).or(*rd).or(*rs).or(*rt).or(Funct::fixed(0x005)),
            ),
            Instruction::Retd => sink.emit(Opcode::fixed(0x3f).or(Funct::fixed(0x02d))),
            Instruction::Ldb(rd, rs, imm) => sink.emit(
                Opcode::fixed(0x18).or(*rd).or(*rs).or(*imm),
            ),
            Instruction::Ldq(rd, rs, off) => sink.emit(
                Opcode::fixed(0x19).or(*rd).or(*rs).or(*off).or(Uimm::<2>(0)),
            ),
            Instruction::Lduw(rd, rs, off) => sink.emit(
                Opcode::fixed(0x19).or(*rd).or(*rs).or(*off).or(Uimm::<2>(1)),
            ),
            Instruction::Ldd(rd, rs, off) => sink.emit(
                Opcode::fixed(0x19).or(*rd).or(*rs).or(*off).or(Uimm::<2>(2)),
            ),
            Instruction::Ldlw(rd, rs, off) => sink.emit(
                Opcode::fixed(0x19).or(*rd).or(*rs).or(*off).or(Uimm::<2>(3)),
            ),
            Instruction::Stb(rt, rs, off) => sink.emit(
                Opcode::fixed(0x1a).or(*rs).or(*rt).or(*off),
            ),
            Instruction::Std(rd, rs, rt, off) => sink.emit(
                Opcode::fixed(0x1b).or(*rd).or(*rs).or(*rt).or(*off).or(Uimm::<2>(2)),
            ),
            Instruction::Stq(rd, rs, rt, off) => sink.emit(
                Opcode::fixed(0x1e).or(*rd).or(*rs).or(*rt).or(*off).or(Uimm::<2>(0)),
            ),
            _ => Ok(()),
        }
    }

    /// Hands the words of a 32-bit load to the sink: those of the two
    /// instructions it stands for. Where a word is refused, those before it
    /// are taken.
    fn assemble_set32<Sink: Assembler>(rd: Rd, imm: Uimm<32>, sink: &mut Sink) -> (r: Result<
        (),
        AssembleError,
    >)
        requires
            old(sink).wf(),
        ensures
            final(sink).wf(),
            match emit_all::<Sink>(old(sink)@, InstructionView::Set32(rd, imm).words()) {
                Ok(state) => r is Ok && final(sink)@ == state,
                Err(e) => r == Err::<(), AssembleError>(e) && final(sink)@ == emit_prefix::<Sink>(
                    old(sink)@,
                    InstructionView::Set32(rd, imm).words(),
                ),
            },
    {
        let first = Instruction::Set2(rd, Rs(Reg(0)), Uimm(chunk_of(imm.0, 1)));
        let second = Instruction::Set3(rd, Rs(rd.0), Uimm(chunk_of(imm.0, 0)));
        proof {
            lemma_words_of_two(InstructionView::Set32(rd, imm));
            lemma_emit_two::<Sink>(sink@, first@.word(), second@.word());
        }
        first.assemble_word(sink)?;
        second.assemble_word(sink)
    }

    /// Hands the words of a 64-bit load to the sink: those of the four
    /// instructions it stands for. Where a word is refused, those before it
    /// are taken.
    fn assemble_set64<Sink: Assembler>(rd: Rd, imm: Uimm<64>, sink: &mut Sink) -> (r: Result<
        (),
        AssembleError,
    >)
        requires
            old(sink).wf(),
        ensures
            final(sink).wf(),
            match emit_all::<Sink>(old(sink)@, InstructionView::Set64(rd, imm).words()) {
                Ok(state) => r is Ok && final(sink)@ == state,
                Err(e) => r == Err::<(), AssembleError>(e) && final(sink)@ == emit_prefix::<Sink>(
                    old(sink)@,
                    InstructionView::Set64(rd, imm).words(),
                ),
            },
    {
        let first = Instruction::Set0(rd, Rs(Reg(0)), Uimm(chunk_of(imm.0, 3)));
        let second = Instruction::Set1(rd, Rs(rd.0), Uimm(chunk_of(imm.0, 2)));
        let third = Instruction::Set2(rd, Rs(rd.0), Uimm(chunk_of(imm.0, 1)));
        let fourth = Instruction::Set3(rd, Rs(rd.0), Uimm(chunk_of(imm.0, 0)));
        proof {
            lemma_words_of_four(InstructionView::Set64(rd, imm));
            lemma_emit_four::<Sink>(
                sink@,
                first@.word(),
                second@.word(),
                third@.word(),
                fourth@.word(),
            );
        }
        first.assemble_word(sink)?;
        second.assemble_word(sink)?;
        third.assemble_word(sink)?;
        fourth.assemble_word(sink)
    }

    /// Assembles the instruction against a sink: a label is declared at the
    /// current address, a jump or call is encoded relative to it, and every
    /// other instruction hands its words to the sink. A pseudo-instruction
    /// hands over the words of the instructions it stands for.
    ///
    /// Where it fails, the sink is as it was; only a pseudo-instruction may
    /// have handed over the words before the one that was refused.
    pub fn assemble<Sink: Assembler>(&self, sink: &mut Sink) -> (r: Result<(), AssembleError>)
        requires
            old(sink).wf(),
        ensures
            final(sink).wf(),
            match step::<Sink>(old(sink)@, self@) {
                Ok(state) => r is Ok && final(sink)@ == state,
                Err(e) => r == Err::<(), AssembleError>(e) && final(sink)@ == halted::<Sink>(
                    old(sink)@,
                    self@,
                ),
            },
            r is Err && !self@.is_pseudo() ==> final(sink)@ == old(sink)@,
    {
        match self {
            Instruction::Label(name) => {
                let here: u32 = sink.current_address()?;
                sink.label(name.0.as_str(), here)
            },
            Instruction::Jump(name) => assemble_branch(sink, Jmpop::Jump, name.0.as_str()),
            Instruction::Call(name) => assemble_branch(sink, Jmpop::Call, name.0.as_str()),
            Instruction::Set32(rd, imm) => Self::assemble_set32(*rd, *imm, sink),
            Instruction::Set64(rd, imm) => Self::assemble_set64(*rd, *imm, sink),
            _ => {
                proof {
                    lemma_words_of_one(self@);
                    lemma_emit_one::<Sink>(sink@, self@.word());
                }
                self.assemble_word(sink)
            },
        }
    }
}

/// An instruction that is neither label, jump, call nor pseudo-instruction
/// encodes to its one word.
pub proof fn lemma_words_of_one(instruction: InstructionView)
    requires
        !(instruction is Label || instruction is Jump || instruction is Call
            || instruction.is_pseudo()),
    ensures
        instruction.words() == seq![instruction.word()],
{
    assert(instruction.words() =~= seq![instruction.word()]);
}

/// A 32-bit load encodes to the words of the two instructions it stands for.
pub proof fn lemma_words_of_two(instruction: InstructionView)
    requires
        instruction is Set32,
    ensures
        instruction.expansion().len() == 2,
        instruction.words() == seq![
            instruction.expansion()[0].word(),
            instruction.expansion()[1].word(),
        ],
{
    assert(instruction.words() =~= seq![
        instruction.expansion()[0].word(),
        instruction.expansion()[1].word(),
    ]);
}

/// A 64-bit load encodes to the words of the four instructions it stands
/// for.
pub proof fn lemma_words_of_four(instruction: InstructionView)
    requires
        instruction is Set64,
    ensures
        instruction.expansion().len() == 4,
        instruction.words() == seq![
            instruction.expansion()[0].word(),
            instruction.expansion()[1].word(),
            instruction.expansion()[2].word(),
            instruction.expansion()[3].word(),
        ],
{
    assert(instruction.words() =~= seq![
        instruction.expansion()[0].word(),
        instruction.expansion()[1].word(),
        instruction.expansion()[2].word(),
        instruction.expansion()[3].word(),
    ]);
}

/// The state after one more word, where there is a state.
pub open spec fn then_emitted<A: Assembler>(state: Result<A::V, AssembleError>, word: u32)
    -> Result<A::V, AssembleError> {
    match state {
        Ok(state) => A::emitted(state, word),
        Err(e) => Err(e),
    }
}

/// Taking two words.
pub proof fn lemma_emit_two<A: Assembler>(state: A::V, a: u32, b: u32)
    ensures
        emit_all::<A>(state, seq![a, b]) == then_emitted::<A>(A::emitted(state, a), b),
        emit_prefix::<A>(state, seq![a, b]) == match A::emitted(state, a) {
            Err(_) => state,
            Ok(first) => match A::emitted(first, b) {
                Err(_) => first,
                Ok(second) => second,
            },
        },
{
    assert(seq![a, b] =~= seq![a] + seq![b]);
    lemma_emit_all_append::<A>(state, seq![a], seq![b]);
    lemma_emit_one::<A>(state, a);
    lemma_emit_prefix_first::<A>(state, a, seq![b]);
    if let Ok(next) = A::emitted(state, a) {
        lemma_emit_one::<A>(next, b);
        assert(seq![b] =~= seq![b] + Seq::<u32>::empty());
        lemma_emit_prefix_first::<A>(next, b, Seq::<u32>::empty());
    }
}

/// The words before the first that is refused: the first word, and then
/// those of the rest.
pub proof fn lemma_emit_prefix_first<A: Assembler>(state: A::V, word: u32, rest: Seq<u32>)
    ensures
        emit_prefix::<A>(state, seq![word] + rest) == match A::emitted(state, word) {
            Ok(next) => emit_prefix::<A>(next, rest),
            Err(_) => state,
        },
{
    let words = seq![word] + rest;
    assert(words.first() == word);
    assert(words.drop_first() =~= rest);
}

/// Taking four words.
pub proof fn lemma_emit_four<A: Assembler>(state: A::V, a: u32, b: u32, c: u32, d: u32)
    ensures
        emit_all::<A>(state, seq![a, b, c, d]) == then_emitted::<A>(
            then_emitted::<A>(then_emitted::<A>(A::emitted(state, a), b), c),
            d,
        ),
        emit_prefix::<A>(state, seq![a, b, c, d]) == match A::emitted(state, a) {
            Err(_) => state,
            Ok(first) => match A::emitted(first, b) {
                Err(_) => first,
                Ok(second) => match A::emitted(second, c) {
                    Err(_) => second,
                    Ok(third) => match A::emitted(third, d) {
                        Err(_) => third,
                        Ok(fourth) => fourth,
                    },
                },
            },
        },
{
    assert(seq![a, b, c, d] =~= seq![a, b] + seq![c, d]);
    lemma_emit_all_append::<A>(state, seq![a, b], seq![c, d]);
    lemma_emit_two::<A>(state, a, b);
    if let Ok(next) = emit_all::<A>(state, seq![a, b]) {
        lemma_emit_two::<A>(next, c, d);
    }
    assert(seq![a, b, c, d] =~= seq![a] + seq![b, c, d]);
    lemma_emit_prefix_first::<A>(state, a, seq![b, c, d]);
    if let Ok(first) = A::emitted(state, a) {
        assert(seq![b, c, d] =~= seq![b] + seq![c, d]);
        lemma_emit_prefix_first::<A>(first, b, seq![c, d]);
        if let Ok(second) = A::emitted(first, b) {
            lemma_emit_two::<A>(second, c, d);
        }
    }
}

/// Assembles the instructions against a sink in order, up to the first that
/// fails. Where one fails, the sink is left after the instructions before it
/// and what the failing one left.
pub fn assemble_program<Sink: Assembler>(sink: &mut Sink, instructions: &[Instruction]) -> (r:
    Result<(), AssembleError>)
    requires
        old(sink).wf(),
    ensures
        final(sink).wf(),
        match run::<Sink>(old(sink)@, program_view(instructions@)) {
            Ok(state) => r is Ok && final(sink)@ == state,
            Err(e) => r == Err::<(), AssembleError>(e) && final(sink)@ == stopped::<Sink>(
                old(sink)@,
                program_view(instructions@),
            ),
        },
{
    let ghost program = program_view(instructions@);
    let mut i: usize = 0;
    assert(program.skip(0) =~= program);
    while i < instructions.len()
        invariant
            i <= instructions.len(),
            sink.wf(),
            program == program_view(instructions@),
            run::<Sink>(old(sink)@, program) == run::<Sink>(sink@, program.skip(i as int)),
            run::<Sink>(old(sink)@, program) is Err ==> stopped::<Sink>(old(sink)@, program)
                == stopped::<Sink>(sink@, program.skip(i as int)),
        decreases instructions.len() - i,
    {
        proof {
            assert(program.skip(i as int).drop_first() =~= program.skip(i + 1));
            assert(program.skip(i as int).first() == instructions@[i as int]@);
        }
        match instructions[i].assemble(sink) {
            Ok(()) => {},
            Err(e) => {
                return Err(e);
            },
        }
        i += 1;
    }
    Ok(())
}

} // verus!
