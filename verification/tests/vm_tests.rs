use regvm::evaluator::{Failure, MutNotice, StaticNotice, State};
use regvm::isa::{Cond, Dir, Instruction, M2Op, Reg};
use regvm::mem::MemFetch;
use regvm::prim::Compl;

type M = State<u32, i32>;
type I = Instruction<u32>;

fn fresh(ram_words: usize) -> M {
    State::new(vec![0u32; ram_words])
}

#[test]
fn complement_is_a_bijection() {
    for &x in [0u32, 1, 0x7FFF_FFFF, 0x8000_0000, 0xFFFF_FFFF, 12345].iter() {
        let s: i32 = x.compl();
        let back: u32 = s.compl();
        assert_eq!(back, x);
    }
    for &x in [0u64, 1, i64::MAX as u64, 1u64 << 63, u64::MAX].iter() {
        let s: i64 = x.compl();
        let back: u64 = s.compl();
        assert_eq!(back, x);
    }
    assert_eq!(0xFFFF_FFFFu32.compl(), -1i32);
    assert_eq!((-1i32).compl(), 0xFFFF_FFFFu32);
}

#[test]
fn pc_advances_on_non_jump() {
    let mut m = fresh(16);
    assert_eq!(m.pc(), 0);
    let r = m.eval_instr(&Instruction::Lit { val: 9, reg: Reg::R5 });
    assert!(r.is_none());
    assert_eq!(m.pc(), 1);
    assert_eq!(m.get_reg(Reg::R5), 9);
    // A notice-producing instruction still advances the counter.
    let r = m.eval_instr(&(Instruction::Out { reg: Reg::R5 } as I));
    assert_eq!(r, Some(Ok(StaticNotice::Out { out: 9 })));
    assert_eq!(m.pc(), 2);
}

#[test]
fn taken_jump_sets_pc_to_dest_register() {
    let mut m = fresh(16);
    m.set_reg(Reg::RA, 77);
    let r = m.eval_instr(&(Instruction::UJump { cond: Cond::Always, flag: Reg::R0, dest: Reg::RA }
        as I));
    assert!(r.is_none());
    assert_eq!(m.pc(), 77);
}

#[test]
fn untaken_jump_advances_pc_by_one() {
    let mut m = fresh(16);
    m.set_reg(Reg::R1, 5);
    m.set_reg(Reg::RA, 77);
    let r = m.eval_instr(&(Instruction::UJump { cond: Cond::EqZ, flag: Reg::R1, dest: Reg::RA }
        as I));
    assert!(r.is_none());
    assert_eq!(m.pc(), 1);
}

#[test]
fn unsigned_ltz_jump_is_never_taken() {
    // An unsigned value cannot be negative: LtZ is always false for UJump,
    // even on a bit pattern that is negative under the signed view.
    let mut m = fresh(16);
    m.set_reg(Reg::R1, 0xFFFF_FFFF);
    m.set_reg(Reg::RA, 77);
    m.eval_instr(&(Instruction::UJump { cond: Cond::LtZ, flag: Reg::R1, dest: Reg::RA } as I));
    assert_eq!(m.pc(), 1);
    // The signed jump on the same pattern is taken.
    let mut m = fresh(16);
    m.set_reg(Reg::R1, 0xFFFF_FFFF);
    m.set_reg(Reg::RA, 77);
    m.eval_instr(&(Instruction::SJump { cond: Cond::LtZ, flag: Reg::R1, dest: Reg::RA } as I));
    assert_eq!(m.pc(), 77);
}

fn um2(m: &mut M, op: M2Op, a: u32, b: u32) -> u32 {
    m.set_reg(Reg::R1, a);
    m.set_reg(Reg::R2, b);
    m.eval_instr(&(Instruction::Um2 { op, r1: Reg::R1, r2: Reg::R2, r3: Reg::R3 } as I));
    m.get_reg(Reg::R3)
}

fn sm2(m: &mut M, op: M2Op, a: u32, b: u32) -> u32 {
    m.set_reg(Reg::R1, a);
    m.set_reg(Reg::R2, b);
    m.eval_instr(&(Instruction::Sm2 { op, r1: Reg::R1, r2: Reg::R2, r3: Reg::R3 } as I));
    m.get_reg(Reg::R3)
}

#[test]
fn unsigned_math_wraps() {
    let mut m = fresh(16);
    assert_eq!(um2(&mut m, M2Op::Add, 3, 4), 7);
    assert_eq!(um2(&mut m, M2Op::Add, 0xFFFF_FFFF, 2), 1);
    assert_eq!(um2(&mut m, M2Op::Sub, 3, 5), 0xFFFF_FFFE);
    assert_eq!(um2(&mut m, M2Op::Mul, 0x1_0000, 0x1_0000), 0);
    assert_eq!(um2(&mut m, M2Op::Div, 17, 5), 3);
    assert_eq!(um2(&mut m, M2Op::Equ, 9, 9), 1);
    assert_eq!(um2(&mut m, M2Op::Equ, 9, 8), 0);
    assert_eq!(um2(&mut m, M2Op::Lt, 2, 3), 1);
    assert_eq!(um2(&mut m, M2Op::Lt, 0xFFFF_FFFF, 1), 0);
    assert_eq!(um2(&mut m, M2Op::Gt, 0xFFFF_FFFF, 1), 1);
}

#[test]
fn signed_math_matches_reference_on_boundaries() {
    // MathSigned produces the bit pattern of: reinterpret both operands as
    // signed, compute, reinterpret back. Checked against two's-complement
    // reference arithmetic at wraparound and sign-boundary values.
    let mut m = fresh(16);
    let cases: [(u32, u32); 6] = [
        (0x7FFF_FFFF, 1),           // i32::MAX + 1 wraps to i32::MIN
        (0x8000_0000, 0xFFFF_FFFF), // i32::MIN + (-1) wraps to i32::MAX
        (0xFFFF_FFFF, 0xFFFF_FFFF), // (-1) + (-1) == -2
        (5, 0xFFFF_FFFD),           // 5 + (-3) == 2
        (0, 0x8000_0000),
        (123456, 654321),
    ];
    for &(a, b) in cases.iter() {
        let want = (a as i32).wrapping_add(b as i32) as u32;
        assert_eq!(sm2(&mut m, M2Op::Add, a, b), want);
        // The signed wrapping add leaves the same pattern as the unsigned one.
        assert_eq!(sm2(&mut m, M2Op::Add, a, b), a.wrapping_add(b));
        let want_sub = (a as i32).wrapping_sub(b as i32) as u32;
        assert_eq!(sm2(&mut m, M2Op::Sub, a, b), want_sub);
        let want_mul = (a as i32).wrapping_mul(b as i32) as u32;
        assert_eq!(sm2(&mut m, M2Op::Mul, a, b), want_mul);
    }
    // Signed comparison differs from unsigned: -1 < 1 but 0xFFFFFFFF > 1.
    assert_eq!(sm2(&mut m, M2Op::Lt, 0xFFFF_FFFF, 1), 1);
    assert_eq!(um2(&mut m, M2Op::Lt, 0xFFFF_FFFF, 1), 0);
    // Signed truncating division: -7 / 2 == -3.
    assert_eq!(sm2(&mut m, M2Op::Div, (-7i32) as u32, 2), (-3i32) as u32);
}

#[test]
fn ram_reads_and_writes() {
    let mut m = fresh(64);
    m.set_reg(Reg::R1, 10); // pointer
    m.set_reg(Reg::R2, 4242); // value
    let r = m.eval_instr(&(Instruction::Ram { dir: Dir::Write, ptr: Reg::R1, val: Reg::R2 } as I));
    assert!(r.is_none());
    assert_eq!(m.get_ram(10), 4242);
    let r = m.eval_instr(&(Instruction::Ram { dir: Dir::Read, ptr: Reg::R1, val: Reg::R3 } as I));
    assert!(r.is_none());
    assert_eq!(m.get_reg(Reg::R3), 4242);
}

#[test]
fn ram_access_out_of_bounds_fails() {
    let mut m = fresh(64);
    m.set_reg(Reg::R1, 64); // one past the last word
    let r = m.eval_instr(&(Instruction::Ram { dir: Dir::Read, ptr: Reg::R1, val: Reg::R3 } as I));
    assert_eq!(r, Some(Err(Failure::RamOob { pc: 0, addr: 64, dir: Dir::Read })));
    // The program counter still advanced past the failing instruction.
    assert_eq!(m.pc(), 1);
}

#[test]
fn call_bounds_are_checked() {
    // arg + len wraps the 32-bit width: underflow.
    let m = fresh(1024);
    assert_eq!(m.get_call_slice(0xFFFF_FFFE, 4), Err(Failure::CallUnderflow));
    // arg + len exceeds the 1024-word RAM: overflow.
    assert_eq!(m.get_call_slice(1000, 100), Err(Failure::CallOverflow));
    // A window of exactly 5 words starting at offset 10.
    assert_eq!(m.get_call_slice(10, 5), Ok((10, 5)));
}

#[test]
fn call_notice_grants_ram_window() {
    let mut m = fresh(1024);
    m.set_reg(Reg::R0, 7); // major
    m.set_reg(Reg::R1, 8); // minor
    m.set_reg(Reg::R2, 10); // arg
    m.set_reg(Reg::R3, 5); // len
    let prog: Vec<I> = vec![Instruction::Call {
        major: Reg::R0,
        minor: Reg::R1,
        arg: Reg::R2,
        len: Reg::R3,
    }];
    let mut f = MemFetch(&prog);
    let r = m.eval_instrs(10, &mut f);
    assert_eq!(r, Ok(MutNotice::Call { major: 7, minor: 8, arg: 10, len: 5 }));
    // The host reads and writes the window through the RAM accessors.
    m.set_ram(10, 99);
    assert_eq!(m.get_ram(10), 99);
}

#[test]
fn invalid_instruction_fails() {
    let mut m = fresh(16);
    let prog: Vec<I> = vec![Instruction::Invalid];
    let mut f = MemFetch(&prog);
    assert_eq!(m.eval_instrs(10, &mut f), Err(Failure::InvalidInstruction));
}

#[test]
fn fetch_miss_is_code_oob() {
    let mut m = fresh(16);
    let prog: Vec<I> = vec![Instruction::Halt];
    let mut f = MemFetch(&prog);
    m.set_reg(Reg::RA, 55);
    // Jump past the end of the program, then fetch there.
    let jump: I = Instruction::UJump { cond: Cond::Always, flag: Reg::R0, dest: Reg::RA };
    m.eval_instr(&jump);
    assert_eq!(m.eval_instrs(10, &mut f), Err(Failure::CodeOob { pc: 55 }));
}

#[test]
fn step_budget_returns_thrash_and_resumes() {
    // A program that loops forever: budget exhaustion returns Thrash after
    // exactly the budgeted number of instructions, and a second call resumes
    // from the state's program counter.
    let mut m = fresh(16);
    let prog: Vec<I> = vec![
        Instruction::Lit { val: 0, reg: Reg::R0 },
        Instruction::Lit { val: 1, reg: Reg::R1 },
        Instruction::UJump { cond: Cond::Always, flag: Reg::R0, dest: Reg::R2 },
    ];
    let mut f = MemFetch(&prog);
    assert_eq!(m.eval_instrs(1, &mut f), Ok(MutNotice::Thrash));
    assert_eq!(m.pc(), 1);
    assert_eq!(m.eval_instrs(1, &mut f), Ok(MutNotice::Thrash));
    assert_eq!(m.pc(), 2);
    // The loop jumps back to 0 and keeps going: 300 more steps, still alive.
    assert_eq!(m.eval_instrs(300, &mut f), Ok(MutNotice::Thrash));
}

#[test]
fn output_notice_carries_register_value() {
    let mut m = fresh(16);
    let prog: Vec<I> = vec![
        Instruction::Lit { val: 321, reg: Reg::R4 },
        Instruction::Out { reg: Reg::R4 },
    ];
    let mut f = MemFetch(&prog);
    assert_eq!(m.eval_instrs(10, &mut f), Ok(MutNotice::Out { out: 321 }));
    assert_eq!(m.pc(), 2);
}

#[test]
fn halt_ends_the_run() {
    let mut m = fresh(16);
    let prog: Vec<I> = vec![Instruction::Halt, Instruction::Invalid];
    let mut f = MemFetch(&prog);
    assert_eq!(m.eval_instrs(10, &mut f), Ok(MutNotice::Halt));
}

#[test]
fn counting_loop_runs_to_halt() {
    // The counting example: R0 counts up by R1 until R0 - R2 goes positive,
    // then the jump falls through and the machine halts.
    let bound: u32 = 100_000_000;
    let prog: Vec<I> = vec![
        Instruction::Lit { val: 4, reg: Reg::RA },
        Instruction::Lit { val: 0, reg: Reg::R0 },
        Instruction::Lit { val: 1, reg: Reg::R1 },
        Instruction::Lit { val: bound, reg: Reg::R2 },
        Instruction::Um2 { op: M2Op::Add, r1: Reg::R0, r2: Reg::R1, r3: Reg::R0 },
        Instruction::Um2 { op: M2Op::Sub, r1: Reg::R0, r2: Reg::R2, r3: Reg::R3 },
        Instruction::UJump { cond: Cond::GtZ, flag: Reg::R3, dest: Reg::RA },
        Instruction::Halt,
    ];
    let mut m = fresh(16);
    let mut f = MemFetch(&prog);
    assert_eq!(m.eval_instrs(0xFFFF_FFFF, &mut f), Ok(MutNotice::Halt));
    assert_eq!(m.get_reg(Reg::R0), bound);
}
