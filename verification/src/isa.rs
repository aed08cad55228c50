use vstd::prelude::*;

use crate::codec::{enc_fin, read_fin, spec_read_fin, write_fin, Codec, Fin, Read, Write, WriteSink};

verus! {

/// One of the 16 symbolic register names.
#[derive(Copy, Clone, Debug, PartialEq, Eq)]
pub enum Reg {
    R0,
    R1,
    R2,
    R3,
    R4,
    R5,
    R6,
    R7,
    R8,
    R9,
    RA,
    RB,
    RC,
    RD,
    RE,
    RF,
}

/// The binary math operators. Comparisons yield one or zero of the width.
#[derive(Copy, Clone, Debug, PartialEq, Eq)]
pub enum M2Op {
    Add,
    Sub,
    Mul,
    Div,
    Equ,
    Lt,
    Gt,
}

/// Whether a memory access reads RAM into a register or writes it back.
#[derive(Copy, Clone, Debug, PartialEq, Eq)]
pub enum Dir {
    Read,
    Write,
}

/// A sign tag, kept for hosts that label values; the machine itself never
/// stores one (signedness is a reinterpretation, not a runtime tag).
#[derive(Copy, Clone, Debug, PartialEq, Eq)]
pub enum Sign {
    Pos,
    Neg,
}

/// A jump condition, evaluated against a flag register.
#[derive(Copy, Clone, Debug, PartialEq, Eq)]
pub enum Cond {
    Always,
    EqZ,
    GtZ,
    LtZ,
}

impl Fin for Reg {
    open spec fn card() -> nat {
        16
    }

    open spec fn idx(self) -> nat {
        match self {
            Reg::R0 => 0,
            Reg::R1 => 1,
            Reg::R2 => 2,
            Reg::R3 => 3,
            Reg::R4 => 4,
            Reg::R5 => 5,
            Reg::R6 => 6,
            Reg::R7 => 7,
            Reg::R8 => 8,
            Reg::R9 => 9,
            Reg::RA => 10,
            Reg::RB => 11,
            Reg::RC => 12,
            Reg::RD => 13,
            Reg::RE => 14,
            Reg::RF => 15,
        }
    }

    open spec fn elem(i: nat) -> Self {
        if i == 0 {
            Reg::R0
        } else if i == 1 {
            Reg::R1
        } else if i == 2 {
            Reg::R2
        } else if i == 3 {
            Reg::R3
        } else if i == 4 {
            Reg::R4
        } else if i == 5 {
            Reg::R5
        } else if i == 6 {
            Reg::R6
        } else if i == 7 {
            Reg::R7
        } else if i == 8 {
            Reg::R8
        } else if i == 9 {
            Reg::R9
        } else if i == 10 {
            Reg::RA
        } else if i == 11 {
            Reg::RB
        } else if i == 12 {
            Reg::RC
        } else if i == 13 {
            Reg::RD
        } else if i == 14 {
            Reg::RE
        } else {
            Reg::RF
        }
    }

    fn size() -> u8 {
        16
    }

    fn nth(i: u8) -> Self {
        match i {
            0u8 => Reg::R0,
            1u8 => Reg::R1,
            2u8 => Reg::R2,
            3u8 => Reg::R3,
            4u8 => Reg::R4,
            5u8 => Reg::R5,
            6u8 => Reg::R6,
            7u8 => Reg::R7,
            8u8 => Reg::R8,
            9u8 => Reg::R9,
            10u8 => Reg::RA,
            11u8 => Reg::RB,
            12u8 => Reg::RC,
            13u8 => Reg::RD,
            14u8 => Reg::RE,
            _ => Reg::RF,
        }
    }

    fn index(self) -> u8 {
        match self {
            Reg::R0 => 0,
            Reg::R1 => 1,
            Reg::R2 => 2,
            Reg::R3 => 3,
            Reg::R4 => 4,
            Reg::R5 => 5,
            Reg::R6 => 6,
            Reg::R7 => 7,
            Reg::R8 => 8,
            Reg::R9 => 9,
            Reg::RA => 10,
            Reg::RB => 11,
            Reg::RC => 12,
            Reg::RD => 13,
            Reg::RE => 14,
            Reg::RF => 15,
        }
    }

    proof fn lemma_card() {
    }

    proof fn lemma_elem_of_idx(self) {
    }

    proof fn lemma_idx_of_elem(i: nat) {
    }
}

impl Fin for M2Op {
    open spec fn card() -> nat {
        7
    }

    open spec fn idx(self) -> nat {
        match self {
            M2Op::Add => 0,
            M2Op::Sub => 1,
            M2Op::Mul => 2,
            M2Op::Div => 3,
            M2Op::Equ => 4,
            M2Op::Lt => 5,
            M2Op::Gt => 6,
        }
    }

    open spec fn elem(i: nat) -> Self {
        if i == 0 {
            M2Op::Add
        } else if i == 1 {
            M2Op::Sub
        } else if i == 2 {
            M2Op::Mul
        } else if i == 3 {
            M2Op::Div
        } else if i == 4 {
            M2Op::Equ
        } else if i == 5 {
            M2Op::Lt
        } else {
            M2Op::Gt
        }
    }

    fn size() -> u8 {
        7
    }

    fn nth(i: u8) -> Self {
        match i {
            0u8 => M2Op::Add,
            1u8 => M2Op::Sub,
            2u8 => M2Op::Mul,
            3u8 => M2Op::Div,
            4u8 => M2Op::Equ,
            5u8 => M2Op::Lt,
            _ => M2Op::Gt,
        }
    }

    fn index(self) -> u8 {
        match self {
            M2Op::Add => 0,
            M2Op::Sub => 1,
            M2Op::Mul => 2,
            M2Op::Div => 3,
            M2Op::Equ => 4,
            M2Op::Lt => 5,
            M2Op::Gt => 6,
        }
    }

    proof fn lemma_card() {
    }

    proof fn lemma_elem_of_idx(self) {
    }

    proof fn lemma_idx_of_elem(i: nat) {
    }
}

impl Fin for Dir {
    open spec fn card() -> nat {
        2
    }

    open spec fn idx(self) -> nat {
        match self {
            Dir::Read => 0,
            Dir::Write => 1,
        }
    }

    open spec fn elem(i: nat) -> Self {
        if i == 0 {
            Dir::Read
        } else {
            Dir::Write
        }
    }

    fn size() -> u8 {
        2
    }

    fn nth(i: u8) -> Self {
        match i {
            0u8 => Dir::Read,
            _ => Dir::Write,
        }
    }

    fn index(self) -> u8 {
        match self {
            Dir::Read => 0,
            Dir::Write => 1,
        }
    }

    proof fn lemma_card() {
    }

    proof fn lemma_elem_of_idx(self) {
    }

    proof fn lemma_idx_of_elem(i: nat) {
    }
}

impl Fin for Sign {
    open spec fn card() -> nat {
        2
    }

    open spec fn idx(self) -> nat {
        match self {
            Sign::Pos => 0,
            Sign::Neg => 1,
        }
    }

    open spec fn elem(i: nat) -> Self {
        if i == 0 {
            Sign::Pos
        } else {
            Sign::Neg
        }
    }

    fn size() -> u8 {
        2
    }

    fn nth(i: u8) -> Self {
        match i {
            0u8 => Sign::Pos,
            _ => Sign::Neg,
        }
    }

    fn index(self) -> u8 {
        match self {
            Sign::Pos => 0,
            Sign::Neg => 1,
        }
    }

    proof fn lemma_card() {
    }

    proof fn lemma_elem_of_idx(self) {
    }

    proof fn lemma_idx_of_elem(i: nat) {
    }
}

impl Fin for Cond {
    open spec fn card() -> nat {
        4
    }

    open spec fn idx(self) -> nat {
        match self {
            Cond::Always => 0,
            Cond::EqZ => 1,
            Cond::GtZ => 2,
            Cond::LtZ => 3,
        }
    }

    open spec fn elem(i: nat) -> Self {
        if i == 0 {
            Cond::Always
        } else if i == 1 {
            Cond::EqZ
        } else if i == 2 {
            Cond::GtZ
        } else {
            Cond::LtZ
        }
    }

    fn size() -> u8 {
        4
    }

    fn nth(i: u8) -> Self {
        match i {
            0u8 => Cond::Always,
            1u8 => Cond::EqZ,
            2u8 => Cond::GtZ,
            _ => Cond::LtZ,
        }
    }

    fn index(self) -> u8 {
        match self {
            Cond::Always => 0,
            Cond::EqZ => 1,
            Cond::GtZ => 2,
            Cond::LtZ => 3,
        }
    }

    proof fn lemma_card() {
    }

    proof fn lemma_elem_of_idx(self) {
    }

    proof fn lemma_idx_of_elem(i: nat) {
    }
}

/// One machine instruction over the word width `U`. `Invalid` is the
/// designated decode-failure and pre-fill placeholder; executing it is a
/// failure.
#[derive(Copy, Clone, Debug, PartialEq, Eq)]
pub enum Instruction<U> {
    Lit { val: U, reg: Reg },
    Um2 { op: M2Op, r1: Reg, r2: Reg, r3: Reg },
    Sm2 { op: M2Op, r1: Reg, r2: Reg, r3: Reg },
    UJump { cond: Cond, flag: Reg, dest: Reg },
    SJump { cond: Cond, flag: Reg, dest: Reg },
    Ram { dir: Dir, ptr: Reg, val: Reg },
    Out { reg: Reg },
    Call { major: Reg, minor: Reg, arg: Reg, len: Reg },
    Halt,
    Invalid,
}

impl<U> Default for Instruction<U> {
    /// The default instruction is the `Invalid` placeholder, so that
    /// pre-filled instruction storage faults loudly when executed.
    fn default() -> (r: Self)
        ensures
            r == Instruction::<U>::Invalid,
    {
        Instruction::Invalid
    }
}

impl<U: Read> Read for Instruction<U> {
    open spec fn spec_read(bytes: Seq<u8>, pos: usize) -> Option<(Self, usize)> {
        if pos < bytes.len() {
            let tag = bytes[pos as int];
            let p1 = (pos + 1) as usize;
            if tag == 0 {
                match U::spec_read(bytes, p1) {
                    Some((val, p2)) => match spec_read_fin::<Reg>(bytes, p2) {
                        Some((reg, p3)) => Some((Instruction::Lit { val, reg }, p3)),
                        None => None,
                    },
                    None => None,
                }
            } else if tag == 1 {
                match spec_read_m2(bytes, p1) {
                    Some(((op, r1, r2, r3), p2)) => Some((Instruction::Um2 { op, r1, r2, r3 }, p2)),
                    None => None,
                }
            } else if tag == 2 {
                match spec_read_m2(bytes, p1) {
                    Some(((op, r1, r2, r3), p2)) => Some((Instruction::Sm2 { op, r1, r2, r3 }, p2)),
                    None => None,
                }
            } else if tag == 3 {
                match spec_read_jump(bytes, p1) {
                    Some(((cond, flag, dest), p2)) => Some(
                        (Instruction::UJump { cond, flag, dest }, p2),
                    ),
                    None => None,
                }
            } else if tag == 4 {
                match spec_read_jump(bytes, p1) {
                    Some(((cond, flag, dest), p2)) => Some(
                        (Instruction::SJump { cond, flag, dest }, p2),
                    ),
                    None => None,
                }
            } else if tag == 5 {
                match spec_read_ram(bytes, p1) {
                    Some(((dir, ptr, val), p2)) => Some((Instruction::Ram { dir, ptr, val }, p2)),
                    None => None,
                }
            } else if tag == 6 {
                match spec_read_fin::<Reg>(bytes, p1) {
                    Some((reg, p2)) => Some((Instruction::Out { reg }, p2)),
                    None => None,
                }
            } else if tag == 7 {
                match spec_read_call(bytes, p1) {
                    Some(((major, minor, arg, len), p2)) => Some(
                        (Instruction::Call { major, minor, arg, len }, p2),
                    ),
                    None => None,
                }
            } else if tag == 8 {
                Some((Instruction::Halt, p1))
            } else if tag == 9 {
                Some((Instruction::Invalid, p1))
            } else {
                None
            }
        } else {
            None
        }
    }

    proof fn lemma_read_advances(bytes: Seq<u8>, pos: usize) {
        if pos < bytes.len() {
            let p1 = (pos + 1) as usize;
            U::lemma_read_advances(bytes, p1);
            match U::spec_read(bytes, p1) {
                Some((val, p2)) => {
                    Reg::lemma_fin_read_advances(bytes, p2);
                },
                None => {},
            }
            lemma_read_m2_advances(bytes, p1);
            lemma_read_jump_advances(bytes, p1);
            lemma_read_ram_advances(bytes, p1);
            lemma_read_call_advances(bytes, p1);
            Reg::lemma_fin_read_advances(bytes, p1);
        }
    }

    fn read(bytes: &[u8], pos: usize) -> (r: Option<(Self, usize)>) {
        if pos >= bytes.len() {
            return None;
        }
        let tag = bytes[pos];
        let p1 = pos + 1;
        match tag {
            0u8 => match U::read(bytes, p1) {
                Some((val, p2)) => match read_fin::<Reg>(bytes, p2) {
                    Some((reg, p3)) => Some((Instruction::Lit { val, reg }, p3)),
                    None => None,
                },
                None => None,
            },
            1u8 => match read_m2(bytes, p1) {
                Some(((op, r1, r2, r3), p2)) => Some((Instruction::Um2 { op, r1, r2, r3 }, p2)),
                None => None,
            },
            2u8 => match read_m2(bytes, p1) {
                Some(((op, r1, r2, r3), p2)) => Some((Instruction::Sm2 { op, r1, r2, r3 }, p2)),
                None => None,
            },
            3u8 => match read_jump(bytes, p1) {
                Some(((cond, flag, dest), p2)) => Some((Instruction::UJump { cond, flag, dest }, p2)),
                None => None,
            },
            4u8 => match read_jump(bytes, p1) {
                Some(((cond, flag, dest), p2)) => Some((Instruction::SJump { cond, flag, dest }, p2)),
                None => None,
            },
            5u8 => match read_ram(bytes, p1) {
                Some(((dir, ptr, val), p2)) => Some((Instruction::Ram { dir, ptr, val }, p2)),
                None => None,
            },
            6u8 => match read_fin::<Reg>(bytes, p1) {
                Some((reg, p2)) => Some((Instruction::Out { reg }, p2)),
                None => None,
            },
            7u8 => match read_call(bytes, p1) {
                Some(((major, minor, arg, len), p2)) => Some(
                    (Instruction::Call { major, minor, arg, len }, p2),
                ),
                None => None,
            },
            8u8 => Some((Instruction::Halt, p1)),
            9u8 => Some((Instruction::Invalid, p1)),
            _ => None,
        }
    }
}

/// The operand block of a math instruction: operator and three registers.
pub open spec fn spec_read_m2(bytes: Seq<u8>, pos: usize) -> Option<((M2Op, Reg, Reg, Reg), usize)> {
    match spec_read_fin::<M2Op>(bytes, pos) {
        Some((op, p1)) => match spec_read_fin::<Reg>(bytes, p1) {
            Some((r1, p2)) => match spec_read_fin::<Reg>(bytes, p2) {
                Some((r2, p3)) => match spec_read_fin::<Reg>(bytes, p3) {
                    Some((r3, p4)) => Some(((op, r1, r2, r3), p4)),
                    None => None,
                },
                None => None,
            },
            None => None,
        },
        None => None,
    }
}

/// The operand block of a jump: condition, flag register, destination register.
pub open spec fn spec_read_jump(bytes: Seq<u8>, pos: usize) -> Option<((Cond, Reg, Reg), usize)> {
    match spec_read_fin::<Cond>(bytes, pos) {
        Some((cond, p1)) => match spec_read_fin::<Reg>(bytes, p1) {
            Some((flag, p2)) => match spec_read_fin::<Reg>(bytes, p2) {
                Some((dest, p3)) => Some(((cond, flag, dest), p3)),
                None => None,
            },
            None => None,
        },
        None => None,
    }
}

/// The operand block of a memory access: direction, pointer and value registers.
pub open spec fn spec_read_ram(bytes: Seq<u8>, pos: usize) -> Option<((Dir, Reg, Reg), usize)> {
    match spec_read_fin::<Dir>(bytes, pos) {
        Some((dir, p1)) => match spec_read_fin::<Reg>(bytes, p1) {
            Some((ptr, p2)) => match spec_read_fin::<Reg>(bytes, p2) {
                Some((val, p3)) => Some(((dir, ptr, val), p3)),
                None => None,
            },
            None => None,
        },
        None => None,
    }
}

/// The operand block of a call: four registers.
pub open spec fn spec_read_call(bytes: Seq<u8>, pos: usize) -> Option<
    ((Reg, Reg, Reg, Reg), usize),
> {
    match spec_read_fin::<Reg>(bytes, pos) {
        Some((major, p1)) => match spec_read_fin::<Reg>(bytes, p1) {
            Some((minor, p2)) => match spec_read_fin::<Reg>(bytes, p2) {
                Some((arg, p3)) => match spec_read_fin::<Reg>(bytes, p3) {
                    Some((len, p4)) => Some(((major, minor, arg, len), p4)),
                    None => None,
                },
                None => None,
            },
            None => None,
        },
        None => None,
    }
}

fn read_m2(bytes: &[u8], pos: usize) -> (r: Option<((M2Op, Reg, Reg, Reg), usize)>)
    ensures
        r == spec_read_m2(bytes@, pos),
{
    match read_fin::<M2Op>(bytes, pos) {
        Some((op, p1)) => match read_fin::<Reg>(bytes, p1) {
            Some((r1, p2)) => match read_fin::<Reg>(bytes, p2) {
                Some((r2, p3)) => match read_fin::<Reg>(bytes, p3) {
                    Some((r3, p4)) => Some(((op, r1, r2, r3), p4)),
                    None => None,
                },
                None => None,
            },
            None => None,
        },
        None => None,
    }
}

fn read_jump(bytes: &[u8], pos: usize) -> (r: Option<((Cond, Reg, Reg), usize)>)
    ensures
        r == spec_read_jump(bytes@, pos),
{
    match read_fin::<Cond>(bytes, pos) {
        Some((cond, p1)) => match read_fin::<Reg>(bytes, p1) {
            Some((flag, p2)) => match read_fin::<Reg>(bytes, p2) {
                Some((dest, p3)) => Some(((cond, flag, dest), p3)),
                None => None,
            },
            None => None,
        },
        None => None,
    }
}

fn read_ram(bytes: &[u8], pos: usize) -> (r: Option<((Dir, Reg, Reg), usize)>)
    ensures
        r == spec_read_ram(bytes@, pos),
{
    match read_fin::<Dir>(bytes, pos) {
        Some((dir, p1)) => match read_fin::<Reg>(bytes, p1) {
            Some((ptr, p2)) => match read_fin::<Reg>(bytes, p2) {
                Some((val, p3)) => Some(((dir, ptr, val), p3)),
                None => None,
            },
            None => None,
        },
        None => None,
    }
}

fn read_call(bytes: &[u8], pos: usize) -> (r: Option<((Reg, Reg, Reg, Reg), usize)>)
    ensures
        r == spec_read_call(bytes@, pos),
{
    match read_fin::<Reg>(bytes, pos) {
        Some((major, p1)) => match read_fin::<Reg>(bytes, p1) {
            Some((minor, p2)) => match read_fin::<Reg>(bytes, p2) {
                Some((arg, p3)) => match read_fin::<Reg>(bytes, p3) {
                    Some((len, p4)) => Some(((major, minor, arg, len), p4)),
                    None => None,
                },
                None => None,
            },
            None => None,
        },
        None => None,
    }
}

impl Reg {
    proof fn lemma_fin_read_advances(bytes: Seq<u8>, pos: usize)
        requires
            bytes.len() <= usize::MAX,
        ensures
            spec_read_fin::<Reg>(bytes, pos) matches Some((t, p2)) ==> pos < p2 <= bytes.len(),
    {
    }
}

proof fn lemma_read_m2_advances(bytes: Seq<u8>, pos: usize)
    requires
        bytes.len() <= usize::MAX,
    ensures
        spec_read_m2(bytes, pos) matches Some((t, p2)) ==> pos < p2 <= bytes.len(),
{
}

proof fn lemma_read_jump_advances(bytes: Seq<u8>, pos: usize)
    requires
        bytes.len() <= usize::MAX,
    ensures
        spec_read_jump(bytes, pos) matches Some((t, p2)) ==> pos < p2 <= bytes.len(),
{
}

proof fn lemma_read_ram_advances(bytes: Seq<u8>, pos: usize)
    requires
        bytes.len() <= usize::MAX,
    ensures
        spec_read_ram(bytes, pos) matches Some((t, p2)) ==> pos < p2 <= bytes.len(),
{
}

proof fn lemma_read_call_advances(bytes: Seq<u8>, pos: usize)
    requires
        bytes.len() <= usize::MAX,
    ensures
        spec_read_call(bytes, pos) matches Some((t, p2)) ==> pos < p2 <= bytes.len(),
{
}

impl<U: Write + Copy> Write for Instruction<U> {
    open spec fn enc(&self) -> Seq<u8> {
        match *self {
            Instruction::Lit { val, reg } => seq![0u8] + val.enc() + enc_fin(reg),
            Instruction::Um2 { op, r1, r2, r3 } => seq![1u8] + enc_fin(op) + enc_fin(r1)
                + enc_fin(r2) + enc_fin(r3),
            Instruction::Sm2 { op, r1, r2, r3 } => seq![2u8] + enc_fin(op) + enc_fin(r1)
                + enc_fin(r2) + enc_fin(r3),
            Instruction::UJump { cond, flag, dest } => seq![3u8] + enc_fin(cond) + enc_fin(flag)
                + enc_fin(dest),
            Instruction::SJump { cond, flag, dest } => seq![4u8] + enc_fin(cond) + enc_fin(flag)
                + enc_fin(dest),
            Instruction::Ram { dir, ptr, val } => seq![5u8] + enc_fin(dir) + enc_fin(ptr)
                + enc_fin(val),
            Instruction::Out { reg } => seq![6u8] + enc_fin(reg),
            Instruction::Call { major, minor, arg, len } => seq![7u8] + enc_fin(major)
                + enc_fin(minor) + enc_fin(arg) + enc_fin(len),
            Instruction::Halt => seq![8u8],
            Instruction::Invalid => seq![9u8],
        }
    }

    fn write<S: WriteSink>(&self, sink: &mut S) {
        match *self {
            Instruction::Lit { val, reg } => {
                write_lit_block(0, val, reg, sink);
            },
            Instruction::Um2 { op, r1, r2, r3 } => {
                write_m2_block(1, op, r1, r2, r3, sink);
            },
            Instruction::Sm2 { op, r1, r2, r3 } => {
                write_m2_block(2, op, r1, r2, r3, sink);
            },
            Instruction::UJump { cond, flag, dest } => {
                write_jump_block(3, cond, flag, dest, sink);
            },
            Instruction::SJump { cond, flag, dest } => {
                write_jump_block(4, cond, flag, dest, sink);
            },
            Instruction::Ram { dir, ptr, val } => {
                write_ram_block(5, dir, ptr, val, sink);
            },
            Instruction::Out { reg } => {
                write_out_block(6, reg, sink);
            },
            Instruction::Call { major, minor, arg, len } => {
                write_call_block(7, major, minor, arg, len, sink);
            },
            Instruction::Halt => {
                write_bare_block(8, sink);
            },
            Instruction::Invalid => {
                write_bare_block(9, sink);
            },
        }
    }
}

fn write_lit_block<U: Write, S: WriteSink>(tag: u8, val: U, reg: Reg, sink: &mut S)
    ensures
        final(sink).sunk() == old(sink).sunk() + (seq![tag] + val.enc() + enc_fin(reg)),
{
    sink.write(tag);
    val.write(sink);
    write_fin(reg, sink);
    proof {
        assert(final(sink).sunk() =~= old(sink).sunk() + (seq![tag] + val.enc() + enc_fin(reg)));
    }
}

fn write_m2_block<S: WriteSink>(tag: u8, op: M2Op, r1: Reg, r2: Reg, r3: Reg, sink: &mut S)
    ensures
        final(sink).sunk() == old(sink).sunk() + (seq![tag] + enc_fin(op) + enc_fin(r1) + enc_fin(
            r2,
        ) + enc_fin(r3)),
{
    sink.write(tag);
    write_fin(op, sink);
    write_fin(r1, sink);
    write_fin(r2, sink);
    write_fin(r3, sink);
    proof {
        assert(final(sink).sunk() =~= old(sink).sunk() + (seq![tag] + enc_fin(op) + enc_fin(r1)
            + enc_fin(r2) + enc_fin(r3)));
    }
}

fn write_jump_block<S: WriteSink>(tag: u8, cond: Cond, flag: Reg, dest: Reg, sink: &mut S)
    ensures
        final(sink).sunk() == old(sink).sunk() + (seq![tag] + enc_fin(cond) + enc_fin(flag)
            + enc_fin(dest)),
{
    sink.write(tag);
    write_fin(cond, sink);
    write_fin(flag, sink);
    write_fin(dest, sink);
    proof {
        assert(final(sink).sunk() =~= old(sink).sunk() + (seq![tag] + enc_fin(cond) + enc_fin(flag)
            + enc_fin(dest)));
    }
}

fn write_ram_block<S: WriteSink>(tag: u8, dir: Dir, ptr: Reg, val: Reg, sink: &mut S)
    ensures
        final(sink).sunk() == old(sink).sunk() + (seq![tag] + enc_fin(dir) + enc_fin(ptr) + enc_fin(
            val,
        )),
{
    sink.write(tag);
    write_fin(dir, sink);
    write_fin(ptr, sink);
    write_fin(val, sink);
    proof {
        assert(final(sink).sunk() =~= old(sink).sunk() + (seq![tag] + enc_fin(dir) + enc_fin(ptr)
            + enc_fin(val)));
    }
}

fn write_out_block<S: WriteSink>(tag: u8, reg: Reg, sink: &mut S)
    ensures
        final(sink).sunk() == old(sink).sunk() + (seq![tag] + enc_fin(reg)),
{
    sink.write(tag);
    write_fin(reg, sink);
    proof {
        assert(final(sink).sunk() =~= old(sink).sunk() + (seq![tag] + enc_fin(reg)));
    }
}

fn write_call_block<S: WriteSink>(tag: u8, major: Reg, minor: Reg, arg: Reg, len: Reg, sink: &mut S)
    ensures
        final(sink).sunk() == old(sink).sunk() + (seq![tag] + enc_fin(major) + enc_fin(minor)
            + enc_fin(arg) + enc_fin(len)),
{
    sink.write(tag);
    write_fin(major, sink);
    write_fin(minor, sink);
    write_fin(arg, sink);
    write_fin(len, sink);
    proof {
        assert(final(sink).sunk() =~= old(sink).sunk() + (seq![tag] + enc_fin(major) + enc_fin(
            minor,
        ) + enc_fin(arg) + enc_fin(len)));
    }
}

fn write_bare_block<S: WriteSink>(tag: u8, sink: &mut S)
    ensures
        final(sink).sunk() == old(sink).sunk() + seq![tag],
{
    sink.write(tag);
    proof {
        assert(final(sink).sunk() =~= old(sink).sunk() + seq![tag]);
    }
}

/// Four consecutive closed-set fields decode back to themselves.
proof fn lemma_m2_fields_roundtrip(
    op: M2Op,
    r1: Reg,
    r2: Reg,
    r3: Reg,
    bytes: Seq<u8>,
    pos: usize,
)
    requires
        pos + 4 <= bytes.len() <= usize::MAX,
        bytes[pos as int] == op.idx() as u8,
        bytes[pos as int + 1] == r1.idx() as u8,
        bytes[pos as int + 2] == r2.idx() as u8,
        bytes[pos as int + 3] == r3.idx() as u8,
    ensures
        spec_read_m2(bytes, pos) == Some(((op, r1, r2, r3), (pos + 4) as usize)),
{
    crate::codec::lemma_fin_roundtrip(op, bytes, pos);
    crate::codec::lemma_fin_roundtrip(r1, bytes, (pos + 1) as usize);
    crate::codec::lemma_fin_roundtrip(r2, bytes, (pos + 2) as usize);
    crate::codec::lemma_fin_roundtrip(r3, bytes, (pos + 3) as usize);
}

/// A jump's three closed-set fields decode back to themselves.
proof fn lemma_jump_fields_roundtrip(cond: Cond, flag: Reg, dest: Reg, bytes: Seq<u8>, pos: usize)
    requires
        pos + 3 <= bytes.len() <= usize::MAX,
        bytes[pos as int] == cond.idx() as u8,
        bytes[pos as int + 1] == flag.idx() as u8,
        bytes[pos as int + 2] == dest.idx() as u8,
    ensures
        spec_read_jump(bytes, pos) == Some(((cond, flag, dest), (pos + 3) as usize)),
{
    crate::codec::lemma_fin_roundtrip(cond, bytes, pos);
    crate::codec::lemma_fin_roundtrip(flag, bytes, (pos + 1) as usize);
    crate::codec::lemma_fin_roundtrip(dest, bytes, (pos + 2) as usize);
}

/// A memory access's three closed-set fields decode back to themselves.
proof fn lemma_ram_fields_roundtrip(dir: Dir, ptr: Reg, val: Reg, bytes: Seq<u8>, pos: usize)
    requires
        pos + 3 <= bytes.len() <= usize::MAX,
        bytes[pos as int] == dir.idx() as u8,
        bytes[pos as int + 1] == ptr.idx() as u8,
        bytes[pos as int + 2] == val.idx() as u8,
    ensures
        spec_read_ram(bytes, pos) == Some(((dir, ptr, val), (pos + 3) as usize)),
{
    crate::codec::lemma_fin_roundtrip(dir, bytes, pos);
    crate::codec::lemma_fin_roundtrip(ptr, bytes, (pos + 1) as usize);
    crate::codec::lemma_fin_roundtrip(val, bytes, (pos + 2) as usize);
}

/// A call's four register fields decode back to themselves.
proof fn lemma_call_fields_roundtrip(
    major: Reg,
    minor: Reg,
    arg: Reg,
    len: Reg,
    bytes: Seq<u8>,
    pos: usize,
)
    requires
        pos + 4 <= bytes.len() <= usize::MAX,
        bytes[pos as int] == major.idx() as u8,
        bytes[pos as int + 1] == minor.idx() as u8,
        bytes[pos as int + 2] == arg.idx() as u8,
        bytes[pos as int + 3] == len.idx() as u8,
    ensures
        spec_read_call(bytes, pos) == Some(((major, minor, arg, len), (pos + 4) as usize)),
{
    crate::codec::lemma_fin_roundtrip(major, bytes, pos);
    crate::codec::lemma_fin_roundtrip(minor, bytes, (pos + 1) as usize);
    crate::codec::lemma_fin_roundtrip(arg, bytes, (pos + 2) as usize);
    crate::codec::lemma_fin_roundtrip(len, bytes, (pos + 3) as usize);
}

/// Round trip of a literal-load instruction.
proof fn lemma_rt_lit<U: Codec>(val: U, reg: Reg, bytes: Seq<u8>, pos: usize)
    requires
        pos + (Instruction::Lit { val, reg }).enc().len() <= bytes.len() <= usize::MAX,
        bytes.subrange(pos as int, pos + (Instruction::Lit { val, reg }).enc().len())
            == (Instruction::Lit { val, reg }).enc(),
    ensures
        Instruction::<U>::spec_read(bytes, pos) == Some(
            (Instruction::Lit { val, reg }, (pos + (Instruction::Lit { val, reg }).enc().len()) as usize),
        ),
{
    let i = Instruction::Lit { val, reg };
    let e = i.enc();
    let n = e.len() as int;
    let ev = val.enc();
    let lv = ev.len() as int;
    assert(forall|k: int|
        0 <= k < n ==> bytes[pos + k] == #[trigger] bytes.subrange(pos as int, pos + n)[k]);
    assert(e[0] == 0u8);
    assert(bytes.subrange(pos + 1, pos + 1 + lv) =~= ev) by {
        assert(forall|k: int| 0 <= k < lv ==> e[1 + k] == #[trigger] ev[k]);
    }
    val.lemma_roundtrip(bytes, (pos + 1) as usize);
    assert(e[1 + lv] == crate::codec::enc_fin(reg)[0]);
    crate::codec::lemma_fin_roundtrip(reg, bytes, (pos + 1 + lv) as usize);
}

/// Round trip of a math instruction (either signedness).
proof fn lemma_rt_m2<U: Codec>(
    i: Instruction<U>,
    op: M2Op,
    r1: Reg,
    r2: Reg,
    r3: Reg,
    bytes: Seq<u8>,
    pos: usize,
)
    requires
        i == (Instruction::<U>::Um2 { op, r1, r2, r3 }) || i == (Instruction::<U>::Sm2 {
            op,
            r1,
            r2,
            r3,
        }),
        pos + 5 <= bytes.len() <= usize::MAX,
        bytes.subrange(pos as int, pos + 5) == i.enc(),
    ensures
        Instruction::<U>::spec_read(bytes, pos) == Some((i, (pos + 5) as usize)),
{
    let e = i.enc();
    assert(forall|k: int|
        0 <= k < 5 ==> bytes[pos + k] == #[trigger] bytes.subrange(pos as int, pos + 5)[k]);
    if i == (Instruction::<U>::Um2 { op, r1, r2, r3 }) {
        assert(e[0] == 1u8);
    } else {
        assert(e[0] == 2u8);
    }
    assert(bytes[pos as int] == e[0]);
    assert(e[1] == op.idx() as u8 && e[2] == r1.idx() as u8 && e[3] == r2.idx() as u8 && e[4]
        == r3.idx() as u8);
    lemma_m2_fields_roundtrip(op, r1, r2, r3, bytes, (pos + 1) as usize);
}

/// Round trip of a jump instruction (either signedness).
proof fn lemma_rt_jump<U: Codec>(
    i: Instruction<U>,
    cond: Cond,
    flag: Reg,
    dest: Reg,
    bytes: Seq<u8>,
    pos: usize,
)
    requires
        i == (Instruction::<U>::UJump { cond, flag, dest }) || i == (Instruction::<U>::SJump {
            cond,
            flag,
            dest,
        }),
        pos + 4 <= bytes.len() <= usize::MAX,
        bytes.subrange(pos as int, pos + 4) == i.enc(),
    ensures
        Instruction::<U>::spec_read(bytes, pos) == Some((i, (pos + 4) as usize)),
{
    let e = i.enc();
    assert(forall|k: int|
        0 <= k < 4 ==> bytes[pos + k] == #[trigger] bytes.subrange(pos as int, pos + 4)[k]);
    if i == (Instruction::<U>::UJump { cond, flag, dest }) {
        assert(e[0] == 3u8);
    } else {
        assert(e[0] == 4u8);
    }
    assert(bytes[pos as int] == e[0]);
    assert(e[1] == cond.idx() as u8 && e[2] == flag.idx() as u8 && e[3] == dest.idx() as u8);
    lemma_jump_fields_roundtrip(cond, flag, dest, bytes, (pos + 1) as usize);
}

/// Round trip of a memory-access instruction.
proof fn lemma_rt_ram<U: Codec>(dir: Dir, ptr: Reg, val: Reg, bytes: Seq<u8>, pos: usize)
    requires
        pos + 4 <= bytes.len() <= usize::MAX,
        bytes.subrange(pos as int, pos + 4) == (Instruction::<U>::Ram { dir, ptr, val }).enc(),
    ensures
        Instruction::<U>::spec_read(bytes, pos) == Some(
            (Instruction::<U>::Ram { dir, ptr, val }, (pos + 4) as usize),
        ),
{
    let e = (Instruction::<U>::Ram { dir, ptr, val }).enc();
    assert(forall|k: int|
        0 <= k < 4 ==> bytes[pos + k] == #[trigger] bytes.subrange(pos as int, pos + 4)[k]);
    assert(e[0] == 5u8 && e[1] == dir.idx() as u8 && e[2] == ptr.idx() as u8 && e[3] == val.idx()
        as u8);
    lemma_ram_fields_roundtrip(dir, ptr, val, bytes, (pos + 1) as usize);
}

/// Round trip of an output instruction.
proof fn lemma_rt_out<U: Codec>(reg: Reg, bytes: Seq<u8>, pos: usize)
    requires
        pos + 2 <= bytes.len() <= usize::MAX,
        bytes.subrange(pos as int, pos + 2) == (Instruction::<U>::Out { reg }).enc(),
    ensures
        Instruction::<U>::spec_read(bytes, pos) == Some(
            (Instruction::<U>::Out { reg }, (pos + 2) as usize),
        ),
{
    let e = (Instruction::<U>::Out { reg }).enc();
    assert(forall|k: int|
        0 <= k < 2 ==> bytes[pos + k] == #[trigger] bytes.subrange(pos as int, pos + 2)[k]);
    assert(e[0] == 6u8 && e[1] == reg.idx() as u8);
    crate::codec::lemma_fin_roundtrip(reg, bytes, (pos + 1) as usize);
}

/// Round trip of a call instruction.
proof fn lemma_rt_call<U: Codec>(
    major: Reg,
    minor: Reg,
    arg: Reg,
    len: Reg,
    bytes: Seq<u8>,
    pos: usize,
)
    requires
        pos + 5 <= bytes.len() <= usize::MAX,
        bytes.subrange(pos as int, pos + 5) == (Instruction::<U>::Call {
            major,
            minor,
            arg,
            len,
        }).enc(),
    ensures
        Instruction::<U>::spec_read(bytes, pos) == Some(
            (Instruction::<U>::Call { major, minor, arg, len }, (pos + 5) as usize),
        ),
{
    let e = (Instruction::<U>::Call { major, minor, arg, len }).enc();
    assert(forall|k: int|
        0 <= k < 5 ==> bytes[pos + k] == #[trigger] bytes.subrange(pos as int, pos + 5)[k]);
    assert(e[0] == 7u8 && e[1] == major.idx() as u8 && e[2] == minor.idx() as u8 && e[3]
        == arg.idx() as u8 && e[4] == len.idx() as u8);
    lemma_call_fields_roundtrip(major, minor, arg, len, bytes, (pos + 1) as usize);
}

/// Round trip of the two operand-free instructions.
proof fn lemma_rt_bare<U: Codec>(i: Instruction<U>, tag: u8, bytes: Seq<u8>, pos: usize)
    requires
        (i == Instruction::<U>::Halt && tag == 8) || (i == Instruction::<U>::Invalid && tag == 9),
        pos + 1 <= bytes.len() <= usize::MAX,
        bytes.subrange(pos as int, pos + 1) == i.enc(),
    ensures
        Instruction::<U>::spec_read(bytes, pos) == Some((i, (pos + 1) as usize)),
{
    assert(bytes[pos as int] == bytes.subrange(pos as int, pos + 1)[0]);
}

impl<U: Codec> Codec for Instruction<U> {
    /// Round trip of the wire format: decoding an instruction's encoding,
    /// wherever it sits in a byte stream, yields the instruction back and
    /// stops one past its last byte.
    proof fn lemma_roundtrip(self, bytes: Seq<u8>, pos: usize) {
        match self {
            Instruction::Lit { val, reg } => {
                lemma_rt_lit(val, reg, bytes, pos);
            },
            Instruction::Um2 { op, r1, r2, r3 } => {
                lemma_rt_m2(self, op, r1, r2, r3, bytes, pos);
            },
            Instruction::Sm2 { op, r1, r2, r3 } => {
                lemma_rt_m2(self, op, r1, r2, r3, bytes, pos);
            },
            Instruction::UJump { cond, flag, dest } => {
                lemma_rt_jump(self, cond, flag, dest, bytes, pos);
            },
            Instruction::SJump { cond, flag, dest } => {
                lemma_rt_jump(self, cond, flag, dest, bytes, pos);
            },
            Instruction::Ram { dir, ptr, val } => {
                lemma_rt_ram::<U>(dir, ptr, val, bytes, pos);
            },
            Instruction::Out { reg } => {
                lemma_rt_out::<U>(reg, bytes, pos);
            },
            Instruction::Call { major, minor, arg, len } => {
                lemma_rt_call::<U>(major, minor, arg, len, bytes, pos);
            },
            Instruction::Halt => {
                lemma_rt_bare(self, 8, bytes, pos);
            },
            Instruction::Invalid => {
                lemma_rt_bare(self, 9, bytes, pos);
            },
        }
    }
}

} // verus!
