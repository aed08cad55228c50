use regvm::codec::{read_buf, read_fin, write_fin, write_iter, Read, Write};
use regvm::isa::{Cond, Dir, Instruction, M2Op, Reg, Sign};

type I32Instr = Instruction<u32>;

#[test]
fn fin_decode_succeeds_below_card() {
    // Reg has 16 members: byte 15 decodes, byte 16 does not.
    assert_eq!(read_fin::<Reg>(&[15], 0), Some((Reg::RF, 1)));
    assert_eq!(read_fin::<Reg>(&[16], 0), None);
    // M2Op has 7 members.
    assert_eq!(read_fin::<M2Op>(&[6], 0), Some((M2Op::Gt, 1)));
    assert_eq!(read_fin::<M2Op>(&[7], 0), None);
    // Dir has 2 members.
    assert_eq!(read_fin::<Dir>(&[1], 0), Some((Dir::Write, 1)));
    assert_eq!(read_fin::<Dir>(&[2], 0), None);
    // Cond has 4 members.
    assert_eq!(read_fin::<Cond>(&[3], 0), Some((Cond::LtZ, 1)));
    assert_eq!(read_fin::<Cond>(&[4], 0), None);
    // Sign has 2 members.
    assert_eq!(read_fin::<Sign>(&[1], 0), Some((Sign::Neg, 1)));
    assert_eq!(read_fin::<Sign>(&[2], 0), None);
    // An exhausted stream never decodes.
    assert_eq!(read_fin::<Reg>(&[], 0), None);
}

#[test]
fn fin_roundtrip_every_member() {
    let regs = [
        Reg::R0,
        Reg::R1,
        Reg::R2,
        Reg::R3,
        Reg::R4,
        Reg::R5,
        Reg::R6,
        Reg::R7,
        Reg::R8,
        Reg::R9,
        Reg::RA,
        Reg::RB,
        Reg::RC,
        Reg::RD,
        Reg::RE,
        Reg::RF,
    ];
    for &r in regs.iter() {
        let mut buf: Vec<u8> = Vec::new();
        write_fin(r, &mut buf);
        assert_eq!(read_fin::<Reg>(&buf, 0), Some((r, 1)));
    }
    let ops = [M2Op::Add, M2Op::Sub, M2Op::Mul, M2Op::Div, M2Op::Equ, M2Op::Lt, M2Op::Gt];
    for &op in ops.iter() {
        let mut buf: Vec<u8> = Vec::new();
        write_fin(op, &mut buf);
        assert_eq!(read_fin::<M2Op>(&buf, 0), Some((op, 1)));
    }
    let conds = [Cond::Always, Cond::EqZ, Cond::GtZ, Cond::LtZ];
    for &c in conds.iter() {
        let mut buf: Vec<u8> = Vec::new();
        write_fin(c, &mut buf);
        assert_eq!(read_fin::<Cond>(&buf, 0), Some((c, 1)));
    }
    for &d in [Dir::Read, Dir::Write].iter() {
        let mut buf: Vec<u8> = Vec::new();
        write_fin(d, &mut buf);
        assert_eq!(read_fin::<Dir>(&buf, 0), Some((d, 1)));
    }
}

#[test]
fn u32_big_endian_encoding() {
    let mut buf: Vec<u8> = Vec::new();
    0xDEADBEEFu32.write(&mut buf);
    assert_eq!(buf, vec![0xDE, 0xAD, 0xBE, 0xEF]);
    assert_eq!(u32::read(&buf, 0), Some((0xDEADBEEF, 4)));
    // A stream that ends mid-number fails.
    assert_eq!(u32::read(&buf[..3], 0), None);
    assert_eq!(u32::read(&buf, 1), None);
}

#[test]
fn instruction_roundtrip_every_variant() {
    let instrs: Vec<I32Instr> = vec![
        Instruction::Lit { val: 0xDEADBEEF, reg: Reg::R7 },
        Instruction::Lit { val: 0, reg: Reg::R0 },
        Instruction::Um2 { op: M2Op::Add, r1: Reg::R1, r2: Reg::R2, r3: Reg::R3 },
        Instruction::Um2 { op: M2Op::Gt, r1: Reg::RF, r2: Reg::R0, r3: Reg::RF },
        Instruction::Sm2 { op: M2Op::Div, r1: Reg::R4, r2: Reg::R5, r3: Reg::R6 },
        Instruction::UJump { cond: Cond::Always, flag: Reg::R0, dest: Reg::RA },
        Instruction::UJump { cond: Cond::LtZ, flag: Reg::R9, dest: Reg::R1 },
        Instruction::SJump { cond: Cond::GtZ, flag: Reg::R8, dest: Reg::RB },
        Instruction::Ram { dir: Dir::Read, ptr: Reg::R2, val: Reg::R3 },
        Instruction::Ram { dir: Dir::Write, ptr: Reg::RC, val: Reg::RD },
        Instruction::Out { reg: Reg::RE },
        Instruction::Call { major: Reg::R0, minor: Reg::R1, arg: Reg::R2, len: Reg::R3 },
        Instruction::Halt,
        Instruction::Invalid,
    ];
    for &i in instrs.iter() {
        let mut buf: Vec<u8> = Vec::new();
        i.write(&mut buf);
        assert_eq!(I32Instr::read(&buf, 0), Some((i, buf.len())));
    }
}

#[test]
fn instruction_decode_rejects_unknown_opcode() {
    // 0x9 is the Invalid sentinel and decodes; 0xA and above are errors.
    assert_eq!(I32Instr::read(&[0x9], 0), Some((Instruction::Invalid, 1)));
    assert_eq!(I32Instr::read(&[0xA], 0), None);
    assert_eq!(I32Instr::read(&[0xFF], 0), None);
    // A truncated operand list is an error, not a partial instruction.
    assert_eq!(I32Instr::read(&[0x1, 0, 1], 0), None);
    assert_eq!(I32Instr::read(&[], 0), None);
    // An operand outside its enumeration is an error.
    assert_eq!(I32Instr::read(&[0x1, 7, 0, 0, 0], 0), None);
}

#[test]
fn instruction_default_is_invalid() {
    let d: I32Instr = Default::default();
    assert_eq!(d, Instruction::Invalid);
}

#[test]
fn read_buf_fills_whole_buffer() {
    let prog: Vec<I32Instr> = vec![
        Instruction::Lit { val: 4, reg: Reg::RA },
        Instruction::Um2 { op: M2Op::Add, r1: Reg::R0, r2: Reg::R1, r3: Reg::R0 },
        Instruction::Halt,
    ];
    let mut buf: Vec<u8> = Vec::new();
    write_iter(&prog, &mut buf);
    let mut decoded: Vec<I32Instr> = vec![Instruction::Halt; 3];
    let end = read_buf(&mut decoded, &buf, 0);
    assert_eq!(end, Some(buf.len()));
    assert_eq!(decoded, prog);
}

#[test]
fn read_buf_fails_on_short_stream() {
    let prog: Vec<I32Instr> = vec![Instruction::Halt, Instruction::Halt];
    let mut buf: Vec<u8> = Vec::new();
    write_iter(&prog, &mut buf);
    let mut decoded: Vec<I32Instr> = vec![Instruction::Invalid; 3];
    assert_eq!(read_buf(&mut decoded, &buf, 0), None);
    // The values that did decode are in place; the rest is untouched.
    assert_eq!(decoded, vec![Instruction::Halt, Instruction::Halt, Instruction::Invalid]);
}

#[test]
fn wide_and_signed_numeric_codecs() {
    // 64-bit big-endian read.
    let bytes = [0x01u8, 0x23, 0x45, 0x67, 0x89, 0xAB, 0xCD, 0xEF];
    assert_eq!(u64::read(&bytes, 0), Some((0x0123_4567_89AB_CDEF, 8)));
    assert_eq!(u64::read(&bytes[..7], 0), None);
    // Signed values travel as their unsigned bit pattern.
    let mut buf: Vec<u8> = Vec::new();
    (-2i32).write(&mut buf);
    assert_eq!(buf, vec![0xFF, 0xFF, 0xFF, 0xFE]);
    assert_eq!(i32::read(&buf, 0), Some((-2, 4)));
    assert_eq!(i64::read(&[0xFFu8; 8], 0), Some((-1i64, 8)));
}
