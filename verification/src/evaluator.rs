use vstd::prelude::*;

use core::marker::PhantomData;
use crate::codec::Fin;
use crate::isa::{Cond, Dir, Instruction, M2Op, Reg};
use crate::prim::{Addr, Compl, Prim};

verus! {

/// The mathematical content of a machine state: program counter, the 16
/// registers, and RAM, all as plain sequences of words.
pub struct Model<U> {
    pub pc: U,
    pub regs: Seq<U>,
    pub ram: Seq<U>,
}

/// The machine state: program counter, a 16-slot register file, and an
/// exclusively owned RAM, all of the unsigned width `U`; `S` is the signed
/// counterpart width used by the signed instructions.
pub struct State<U, S> {
    pc: U,
    regs: Vec<U>,
    ram: Vec<U>,
    _phantom: PhantomData<S>,
}

impl<U, S> View for State<U, S> {
    type V = Model<U>;

    closed spec fn view(&self) -> Model<U> {
        Model { pc: self.pc, regs: self.regs@, ram: self.ram@ }
    }
}

/// A notice produced while evaluating one instruction: the values are copied
/// out of the registers, nothing is borrowed.
#[derive(Copy, Clone, Debug, PartialEq, Eq)]
pub enum StaticNotice<U: Copy> {
    Call { major: U, minor: U, arg: U, len: U },
    Halt,
    Out { out: U },
}

/// A notice produced by a whole run call. `Call` carries the window of RAM
/// granted to the host: the `len` words starting at index `arg`, to be read
/// and written through the state's RAM accessors until the next run call.
/// `Thrash` means the step budget ran out with no other event.
#[derive(Copy, Clone, Debug, PartialEq, Eq)]
pub enum MutNotice<U: Copy> {
    Thrash,
    Call { major: U, minor: U, arg: usize, len: usize },
    Halt,
    Out { out: U },
}

/// An execution failure. It ends the run call at once; the state is left as
/// of the failing instruction, its program counter already advanced.
#[derive(Copy, Clone, Debug, PartialEq, Eq)]
pub enum Failure<U: Copy> {
    CallOverflow,
    CallUnderflow,
    CodeOob { pc: U },
    RamOob { pc: U, addr: U, dir: Dir },
    InvalidInstruction,
}

/// Something that serves a fixed sequence of values: an instruction store,
/// a block loader, a cache in front of either. `contents` is the address
/// space it serves; `inv` is its internal well-formedness, which its
/// constructors establish and every operation preserves.
pub trait Backing<T> {
    spec fn contents(&self) -> Seq<T>;

    spec fn inv(&self) -> bool;
}

/// A pluggable source of values addressed by program counter: the value at
/// that address, or nothing when the address is out of range. A fetch never
/// changes the contents served.
pub trait Fetcher<Ptr: Addr, T>: Backing<T> {
    fn fetch(&mut self, ptr: Ptr) -> (r: Option<T>)
        requires
            old(self).inv(),
        ensures
            final(self).inv(),
            final(self).contents() == old(self).contents(),
            r == fetch_model(old(self).contents(), ptr),
    ;
}

/// What any fetcher returns: the value at the address, or nothing.
pub open spec fn fetch_model<Ptr: Addr, T>(s: Seq<T>, ptr: Ptr) -> Option<T> {
    if 0 <= ptr.sp_val() < s.len() {
        Some(s[ptr.sp_val()])
    } else {
        None
    }
}

/// The index of a register name in the register file.
pub fn reg2index(reg: Reg) -> (i: usize)
    ensures
        i == reg.idx(),
        i < 16,
{
    match reg {
        Reg::R0 => 0x0,
        Reg::R1 => 0x1,
        Reg::R2 => 0x2,
        Reg::R3 => 0x3,
        Reg::R4 => 0x4,
        Reg::R5 => 0x5,
        Reg::R6 => 0x6,
        Reg::R7 => 0x7,
        Reg::R8 => 0x8,
        Reg::R9 => 0x9,
        Reg::RA => 0xA,
        Reg::RB => 0xB,
        Reg::RC => 0xC,
        Reg::RD => 0xD,
        Reg::RE => 0xE,
        Reg::RF => 0xF,
    }
}

/// The value a binary math operator produces on one width: wrapping
/// arithmetic, with comparisons yielding one or zero.
pub open spec fn m2_model<W: Prim>(op: M2Op, a: W, b: W) -> W {
    match op {
        M2Op::Add => a.w_add(b),
        M2Op::Sub => a.w_sub(b),
        M2Op::Mul => a.w_mul(b),
        M2Op::Div => a.w_div(b),
        M2Op::Equ => if a == b {
            W::sp_one()
        } else {
            W::sp_zero()
        },
        M2Op::Lt => if a.sp_val() < b.sp_val() {
            W::sp_one()
        } else {
            W::sp_zero()
        },
        M2Op::Gt => if b.sp_val() < a.sp_val() {
            W::sp_one()
        } else {
            W::sp_zero()
        },
    }
}

/// Whether an unsigned jump condition holds of a flag value. `LtZ` is
/// always false here: an unsigned value cannot be negative. This asymmetry
/// with the signed jump is deliberate and part of the instruction set.
pub open spec fn ucond_model<W: Prim>(c: Cond, flag: W) -> bool {
    match c {
        Cond::Always => true,
        Cond::EqZ => flag == W::sp_zero(),
        Cond::GtZ => W::sp_zero().sp_val() < flag.sp_val(),
        Cond::LtZ => false,
    }
}

/// Whether a signed jump condition holds of the complement-reinterpreted
/// flag value.
pub open spec fn scond_model<W: Prim>(c: Cond, flag: W) -> bool {
    match c {
        Cond::Always => true,
        Cond::EqZ => flag == W::sp_zero(),
        Cond::GtZ => W::sp_zero().sp_val() < flag.sp_val(),
        Cond::LtZ => flag.sp_val() < W::sp_zero().sp_val(),
    }
}

/// The program counter after one instruction: a taken jump lands on the
/// destination register's value, anything else advances by one (wrapping).
pub open spec fn next_pc_model<U: Addr + Compl<S>, S: Compl<U>>(
    m: Model<U>,
    instr: Instruction<U>,
) -> U {
    match instr {
        Instruction::UJump { cond, flag, dest } => if ucond_model(
            cond,
            m.regs[flag.idx() as int],
        ) {
            m.regs[dest.idx() as int]
        } else {
            m.pc.w_add(U::sp_one())
        },
        Instruction::SJump { cond, flag, dest } => if scond_model(
            cond,
            m.regs[flag.idx() as int].sp_compl(),
        ) {
            m.regs[dest.idx() as int]
        } else {
            m.pc.w_add(U::sp_one())
        },
        _ => m.pc.w_add(U::sp_one()),
    }
}

/// The inputs on which one instruction divides safely: a division's divisor
/// is nonzero and, for the signed width, the one overflowing quotient is not
/// asked for. Division is the only partial operation the machine has.
pub open spec fn div_safe<U: Addr + Compl<S>, S: Compl<U>>(
    instr: Instruction<U>,
    regs: Seq<U>,
) -> bool {
    match instr {
        Instruction::Um2 { op, r1, r2, .. } => op == M2Op::Div ==> regs[r1.idx() as int].div_ok(
            regs[r2.idx() as int],
        ),
        Instruction::Sm2 { op, r1, r2, .. } => op == M2Op::Div
            ==> regs[r1.idx() as int].sp_compl().div_ok(regs[r2.idx() as int].sp_compl()),
        _ => true,
    }
}

/// One instruction's full effect: the machine state after it, and either
/// nothing (execution continues), a notice, or a failure. Registers are read
/// before any write; the program counter moves last, and moves even when the
/// instruction also notices or fails.
pub open spec fn step_model<U: Addr + Compl<S>, S: Compl<U>>(
    m: Model<U>,
    instr: Instruction<U>,
) -> (Model<U>, Option<Result<StaticNotice<U>, Failure<U>>>) {
    let pc1 = next_pc_model::<U, S>(m, instr);
    match instr {
        Instruction::Lit { val, reg } => (
            Model { pc: pc1, regs: m.regs.update(reg.idx() as int, val), ram: m.ram },
            None,
        ),
        Instruction::Um2 { op, r1, r2, r3 } => {
            let v = m2_model(op, m.regs[r1.idx() as int], m.regs[r2.idx() as int]);
            (Model { pc: pc1, regs: m.regs.update(r3.idx() as int, v), ram: m.ram }, None)
        },
        Instruction::Sm2 { op, r1, r2, r3 } => {
            let v = m2_model::<S>(
                op,
                m.regs[r1.idx() as int].sp_compl(),
                m.regs[r2.idx() as int].sp_compl(),
            ).sp_compl();
            (Model { pc: pc1, regs: m.regs.update(r3.idx() as int, v), ram: m.ram }, None)
        },
        Instruction::UJump { .. } => (Model { pc: pc1, regs: m.regs, ram: m.ram }, None),
        Instruction::SJump { .. } => (Model { pc: pc1, regs: m.regs, ram: m.ram }, None),
        Instruction::Ram { dir, ptr, val } => {
            let addr = m.regs[ptr.idx() as int];
            if !(0 <= addr.sp_val() < m.ram.len()) {
                (
                    Model { pc: pc1, regs: m.regs, ram: m.ram },
                    Some(Err(Failure::RamOob { pc: m.pc, addr, dir })),
                )
            } else {
                match dir {
                    Dir::Read => (
                        Model {
                            pc: pc1,
                            regs: m.regs.update(val.idx() as int, m.ram[addr.sp_val()]),
                            ram: m.ram,
                        },
                        None,
                    ),
                    Dir::Write => (
                        Model {
                            pc: pc1,
                            regs: m.regs,
                            ram: m.ram.update(addr.sp_val(), m.regs[val.idx() as int]),
                        },
                        None,
                    ),
                }
            }
        },
        Instruction::Out { reg } => (
            Model { pc: pc1, regs: m.regs, ram: m.ram },
            Some(Ok(StaticNotice::Out { out: m.regs[reg.idx() as int] })),
        ),
        Instruction::Call { major, minor, arg, len } => (
            Model { pc: pc1, regs: m.regs, ram: m.ram },
            Some(
                Ok(
                    StaticNotice::Call {
                        major: m.regs[major.idx() as int],
                        minor: m.regs[minor.idx() as int],
                        arg: m.regs[arg.idx() as int],
                        len: m.regs[len.idx() as int],
                    },
                ),
            ),
        ),
        Instruction::Halt => (
            Model { pc: pc1, regs: m.regs, ram: m.ram },
            Some(Ok(StaticNotice::Halt)),
        ),
        Instruction::Invalid => (
            Model { pc: pc1, regs: m.regs, ram: m.ram },
            Some(Err(Failure::InvalidInstruction)),
        ),
    }
}

/// How a call request resolves into a RAM window: `end = arg + len`
/// (wrapping). A wrapped end is `CallUnderflow`; an end past the RAM length
/// is `CallOverflow`; otherwise the host is granted `[arg, end)`, given as
/// its start index and its exact number of words.
pub open spec fn call_window_model<U: Prim>(m: Model<U>, arg: U, len: U) -> Result<
    (usize, usize),
    Failure<U>,
> {
    let end = arg.w_add(len);
    if end.sp_val() < arg.sp_val() {
        Err(Failure::CallUnderflow)
    } else if end.sp_val() > m.ram.len() {
        Err(Failure::CallOverflow)
    } else {
        Ok((arg.sp_val() as usize, (end.sp_val() - arg.sp_val()) as usize))
    }
}

/// What a run call returns for a notice of one instruction.
pub open spec fn resolve_notice_model<U: Prim>(m: Model<U>, sn: StaticNotice<U>) -> Result<
    MutNotice<U>,
    Failure<U>,
> {
    match sn {
        StaticNotice::Halt => Ok(MutNotice::Halt),
        StaticNotice::Out { out } => Ok(MutNotice::Out { out }),
        StaticNotice::Call { major, minor, arg, len } => match call_window_model(m, arg, len) {
            Ok((a, l)) => Ok(MutNotice::Call { major, minor, arg: a, len: l }),
            Err(f) => Err(f),
        },
    }
}

/// The whole run call, mathematically: execute instructions from `prog` one
/// at a time until the budget `n` is exhausted (`Thrash`), a fetch misses
/// (`CodeOob`), an instruction notices (Halt, Output, or a resolved Call),
/// or an instruction fails.
pub open spec fn run_model<U: Addr + Compl<S>, S: Compl<U>>(
    m: Model<U>,
    prog: Seq<Instruction<U>>,
    n: nat,
) -> (Model<U>, Result<MutNotice<U>, Failure<U>>)
    decreases n,
{
    if n == 0 {
        (m, Ok(MutNotice::Thrash))
    } else if !(0 <= m.pc.sp_val() < prog.len()) {
        (m, Err(Failure::CodeOob { pc: m.pc }))
    } else {
        let instr = prog[m.pc.sp_val()];
        let (m2, out) = step_model::<U, S>(m, instr);
        match out {
            None => run_model::<U, S>(m2, prog, (n - 1) as nat),
            Some(Ok(sn)) => (m2, resolve_notice_model(m2, sn)),
            Some(Err(f)) => (m2, Err(f)),
        }
    }
}

/// No instruction executed within the first `n` steps divides by zero (or
/// asks for the one overflowing signed quotient). This is the sole
/// precondition a run call puts on the program it is handed.
pub open spec fn run_safe<U: Addr + Compl<S>, S: Compl<U>>(
    m: Model<U>,
    prog: Seq<Instruction<U>>,
    n: nat,
) -> bool
    decreases n,
{
    n == 0 || !(0 <= m.pc.sp_val() < prog.len()) || {
        let instr = prog[m.pc.sp_val()];
        div_safe::<U, S>(instr, m.regs) && {
            let (m2, out) = step_model::<U, S>(m, instr);
            out is None ==> run_safe::<U, S>(m2, prog, (n - 1) as nat)
        }
    }
}

impl<U: Addr + Compl<S>, S: Compl<U>> State<U, S> {
    /// The register file always holds exactly 16 words.
    pub open spec fn wf(&self) -> bool {
        self@.regs.len() == 16
    }

    /// A fresh machine: program counter and registers all zero, RAM as given.
    #[verifier::loop_isolation(false)]
    pub fn new(ram: Vec<U>) -> (s: Self)
        ensures
            s.wf(),
            s@.pc == U::sp_zero(),
            s@.regs =~= Seq::new(16, |i: int| U::sp_zero()),
            s@.ram == ram@,
    {
        let mut regs: Vec<U> = Vec::new();
        let mut i: usize = 0;
        while i < 16
            invariant
                i <= 16,
                regs@.len() == i,
                forall|j: int| 0 <= j < i ==> regs@[j] == U::sp_zero(),
            decreases 16 - i,
        {
            regs.push(U::zero());
            i = i + 1;
        }
        State { pc: U::zero(), regs, ram, _phantom: PhantomData }
    }

    pub fn set_reg(&mut self, reg: Reg, val: U)
        requires
            old(self).wf(),
        ensures
            final(self).wf(),
            final(self)@.pc == old(self)@.pc,
            final(self)@.ram == old(self)@.ram,
            final(self)@.regs == old(self)@.regs.update(reg.idx() as int, val),
    {
        let i = reg2index(reg);
        self.regs[i] = val;
    }

    pub fn get_reg(&self, reg: Reg) -> (r: U)
        requires
            self.wf(),
        ensures
            r == self@.regs[reg.idx() as int],
    {
        let i = reg2index(reg);
        self.regs[i]
    }

    pub fn set_ram(&mut self, ptr: U, val: U)
        requires
            old(self).wf(),
            0 <= ptr.sp_val() < old(self)@.ram.len(),
        ensures
            final(self).wf(),
            final(self)@.pc == old(self)@.pc,
            final(self)@.regs == old(self)@.regs,
            final(self)@.ram == old(self)@.ram.update(ptr.sp_val(), val),
    {
        proof {
            U::lemma_fits(ptr);
        }
        let i = ptr.to_usize();
        self.ram[i] = val;
    }

    pub fn get_ram(&self, ptr: U) -> (r: U)
        requires
            self.wf(),
            0 <= ptr.sp_val() < self@.ram.len(),
        ensures
            r == self@.ram[ptr.sp_val()],
    {
        proof {
            U::lemma_fits(ptr);
        }
        let i = ptr.to_usize();
        self.ram[i]
    }

    /// How many words of RAM this machine owns.
    pub fn ram_len(&self) -> (r: usize)
        ensures
            r == self@.ram.len(),
    {
        self.ram.len()
    }

    /// The current program counter.
    pub fn pc(&self) -> (r: U)
        ensures
            r == self@.pc,
    {
        self.pc
    }

    /// Evaluate one instruction: exactly one step of `step_model`.
    pub fn eval_instr(&mut self, instr: &Instruction<U>) -> (r: Option<
        Result<StaticNotice<U>, Failure<U>>,
    >)
        requires
            old(self).wf(),
            div_safe::<U, S>(*instr, old(self)@.regs),
        ensures
            final(self).wf(),
            (final(self)@, r) == step_model::<U, S>(old(self)@, *instr),
    {
        let res: Option<Result<StaticNotice<U>, Failure<U>>> = match *instr {
            Instruction::Lit { val, reg } => {
                self.set_reg(reg, val);
                None
            },
            Instruction::Um2 { op, r1, r2, r3 } => {
                let a = self.get_reg(r1);
                let b = self.get_reg(r2);
                let val = match op {
                    M2Op::Add => a.wadd(b),
                    M2Op::Sub => a.wsub(b),
                    M2Op::Mul => a.wmul(b),
                    M2Op::Div => a.wdiv(b),
                    M2Op::Equ => if a.eq_val(b) {
                        U::one()
                    } else {
                        U::zero()
                    },
                    M2Op::Lt => if a.lt(b) {
                        U::one()
                    } else {
                        U::zero()
                    },
                    M2Op::Gt => if b.lt(a) {
                        U::one()
                    } else {
                        U::zero()
                    },
                };
                self.set_reg(r3, val);
                None
            },
            Instruction::Sm2 { op, r1, r2, r3 } => {
                let a: S = self.get_reg(r1).compl();
                let b: S = self.get_reg(r2).compl();
                let val = match op {
                    M2Op::Add => a.wadd(b),
                    M2Op::Sub => a.wsub(b),
                    M2Op::Mul => a.wmul(b),
                    M2Op::Div => a.wdiv(b),
                    M2Op::Equ => if a.eq_val(b) {
                        S::one()
                    } else {
                        S::zero()
                    },
                    M2Op::Lt => if a.lt(b) {
                        S::one()
                    } else {
                        S::zero()
                    },
                    M2Op::Gt => if b.lt(a) {
                        S::one()
                    } else {
                        S::zero()
                    },
                };
                self.set_reg(r3, val.compl());
                None
            },
            Instruction::UJump { .. } => None,
            Instruction::SJump { .. } => None,
            Instruction::Out { reg } => Some(Ok(StaticNotice::Out { out: self.get_reg(reg) })),
            Instruction::Ram { dir, ptr, val } => {
                let addr = self.get_reg(ptr);
                proof {
                    U::lemma_fits(addr);
                }
                if addr.to_usize() >= self.ram.len() {
                    Some(Err(Failure::RamOob { pc: self.pc, addr, dir }))
                } else {
                    match dir {
                        Dir::Read => {
                            let word = self.get_ram(addr);
                            self.set_reg(val, word);
                        },
                        Dir::Write => {
                            let word = self.get_reg(val);
                            self.set_ram(addr, word);
                        },
                    }
                    None
                }
            },
            Instruction::Call { major, minor, arg, len } => Some(
                Ok(
                    StaticNotice::Call {
                        major: self.get_reg(major),
                        minor: self.get_reg(minor),
                        arg: self.get_reg(arg),
                        len: self.get_reg(len),
                    },
                ),
            ),
            Instruction::Halt => Some(Ok(StaticNotice::Halt)),
            Instruction::Invalid => Some(Err(Failure::InvalidInstruction)),
        };
        let pc = match *instr {
            Instruction::UJump { cond, flag, dest } => {
                let jump = match cond {
                    Cond::Always => true,
                    Cond::EqZ => self.get_reg(flag).eq_val(U::zero()),
                    Cond::GtZ => U::zero().lt(self.get_reg(flag)),
                    Cond::LtZ => false,
                };
                if jump {
                    self.get_reg(dest)
                } else {
                    self.pc.wadd(U::one())
                }
            },
            Instruction::SJump { cond, flag, dest } => {
                let flag_s: S = self.get_reg(flag).compl();
                let jump = match cond {
                    Cond::Always => true,
                    Cond::EqZ => flag_s.eq_val(S::zero()),
                    Cond::GtZ => S::zero().lt(flag_s),
                    Cond::LtZ => flag_s.lt(S::zero()),
                };
                if jump {
                    self.get_reg(dest)
                } else {
                    self.pc.wadd(U::one())
                }
            },
            _ => self.pc.wadd(U::one()),
        };
        self.pc = pc;
        res
    }

    /// Resolve a call request into a window of this machine's RAM, or the
    /// bounds failure the request earns.
    pub fn get_call_slice(&self, arg: U, len: U) -> (r: Result<(usize, usize), Failure<U>>)
        ensures
            r == call_window_model(self@, arg, len),
    {
        proof {
            U::lemma_fits(arg);
            U::lemma_fits(len);
        }
        let end = arg.wadd(len);
        if end.lt(arg) {
            return Err(Failure::CallUnderflow);
        }
        proof {
            U::lemma_fits(end);
        }
        if end.to_usize() > self.ram.len() {
            return Err(Failure::CallOverflow);
        }
        Ok((arg.to_usize(), end.to_usize() - arg.to_usize()))
    }

    /// Run up to `thrash_cnt` instructions out of `instrs`: exactly
    /// `run_model` of the starting state, the fetcher's contents and the
    /// budget. The fetcher's contents are left unchanged.
    #[verifier::loop_isolation(false)]
    pub fn eval_instrs<F: Fetcher<U, Instruction<U>>>(&mut self, thrash_cnt: U, instrs: &mut F) -> (r:
        Result<MutNotice<U>, Failure<U>>)
        requires
            old(self).wf(),
            old(instrs).inv(),
            run_safe::<U, S>(old(self)@, old(instrs).contents(), thrash_cnt.sp_val() as nat),
        ensures
            final(self).wf(),
            final(instrs).inv(),
            final(instrs).contents() == old(instrs).contents(),
            (final(self)@, r) == run_model::<U, S>(
                old(self)@,
                old(instrs).contents(),
                thrash_cnt.sp_val() as nat,
            ),
    {
        proof {
            U::lemma_fits(thrash_cnt);
        }
        let n = thrash_cnt.to_usize();
        let ghost prog = instrs.contents();
        let mut i: usize = 0;
        while i < n
            invariant
                i <= n,
                self.wf(),
                instrs.inv(),
                instrs.contents() == prog,
                run_safe::<U, S>(self@, prog, (n - i) as nat),
                run_model::<U, S>(old(self)@, prog, n as nat) == run_model::<U, S>(
                    self@,
                    prog,
                    (n - i) as nat,
                ),
            decreases n - i,
        {
            proof {
                U::lemma_fits(self.pc);
            }
            let instr = match instrs.fetch(self.pc) {
                None => {
                    return Err(Failure::CodeOob { pc: self.pc });
                },
                Some(instr) => instr,
            };
            let res = self.eval_instr(&instr);
            if let Some(interruption) = res {
                match interruption {
                    Ok(notice) => {
                        return match notice {
                            StaticNotice::Call { major, minor, arg, len } => {
                                match self.get_call_slice(arg, len) {
                                    Ok((a, l)) => Ok(MutNotice::Call { major, minor, arg: a, len: l }),
                                    Err(f) => Err(f),
                                }
                            },
                            StaticNotice::Halt => Ok(MutNotice::Halt),
                            StaticNotice::Out { out } => Ok(MutNotice::Out { out }),
                        };
                    },
                    Err(err) => {
                        return Err(err);
                    },
                }
            }
            i = i + 1;
        }
        Ok(MutNotice::Thrash)
    }
}

/// Program-counter advance: one step of any non-jump instruction moves the
/// program counter from `p` to `p + 1` (wrapping), whatever else it does; a
/// taken jump sets it to the destination register's value; an untaken jump
/// moves it to `p + 1`.
pub proof fn lemma_pc_advance<U: Addr + Compl<S>, S: Compl<U>>(m: Model<U>, instr: Instruction<U>)
    ensures
        !(instr is UJump) && !(instr is SJump) ==> step_model::<U, S>(m, instr).0.pc == m.pc.w_add(
            U::sp_one(),
        ),
        instr matches Instruction::UJump { cond, flag, dest } ==> step_model::<U, S>(m, instr).0.pc
            == (if ucond_model(cond, m.regs[flag.idx() as int]) {
            m.regs[dest.idx() as int]
        } else {
            m.pc.w_add(U::sp_one())
        }),
        instr matches Instruction::SJump { cond, flag, dest } ==> step_model::<U, S>(m, instr).0.pc
            == (if scond_model(cond, m.regs[flag.idx() as int].sp_compl()) {
            m.regs[dest.idx() as int]
        } else {
            m.pc.w_add(U::sp_one())
        }),
{
}

/// Step budget: a run call that exhausts its budget (returns `Thrash`) has
/// executed exactly its budget of instructions and is resumable: a run with
/// budget `a + b` is a run with budget `a` followed, from the state that run
/// left (its program counter included), by a run with budget `b`.
pub proof fn lemma_run_resume<U: Addr + Compl<S>, S: Compl<U>>(
    m: Model<U>,
    prog: Seq<Instruction<U>>,
    a: nat,
    b: nat,
)
    requires
        run_model::<U, S>(m, prog, a).1 == Ok::<MutNotice<U>, Failure<U>>(MutNotice::Thrash),
    ensures
        run_model::<U, S>(m, prog, (a + b) as nat) == run_model::<U, S>(
            run_model::<U, S>(m, prog, a).0,
            prog,
            b,
        ),
    decreases a,
{
    if a == 0 {
    } else if !(0 <= m.pc.sp_val() < prog.len()) {
    } else {
        let instr = prog[m.pc.sp_val()];
        let (m2, out) = step_model::<U, S>(m, instr);
        match out {
            None => {
                lemma_run_resume::<U, S>(m2, prog, (a - 1) as nat, b);
            },
            Some(o) => {},
        }
    }
}

} // verus!
