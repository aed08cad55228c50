use regvm::evaluator::{Fetcher, MutNotice, State};
use regvm::isa::{Cond, Instruction, M2Op, Reg};
use regvm::mem::{LRU4x64, MemFetch};

#[test]
fn memfetch_returns_value_or_nothing() {
    let data: Vec<u32> = (0..10u32).map(|x| x * 3).collect();
    let mut f = MemFetch(&data);
    assert_eq!(f.fetch(0u32), Some(0));
    assert_eq!(f.fetch(9u32), Some(27));
    assert_eq!(f.fetch(10u32), None);
}

#[test]
fn lru_serves_backing_values() {
    let data: Vec<u32> = (0..320u32).map(|x| x + 1000).collect();
    let mut cache = LRU4x64::new(MemFetch(&data));
    for addr in [0u32, 63, 64, 100, 255, 256, 319].iter() {
        assert_eq!(cache.fetch(*addr), Some(addr + 1000));
    }
    assert_eq!(cache.fetch(320u32), None);
    assert_eq!(cache.fetch(100_000u32), None);
}

#[test]
fn lru_evicts_least_recently_used_block() {
    // Five distinct 64-word blocks touched in order 0,1,2,3,4 through a
    // 4-line cache: block 0 must have been evicted for block 4, so a fetch
    // of block 0's address must go back to the loader, while block 4 stays
    // resident and is answered without a loader call.
    let data: Vec<u32> = (0..320u32).collect();
    let mut cache = LRU4x64::new(MemFetch(&data));
    for block in 0u32..5 {
        assert_eq!(cache.fetch(block * 64), Some(block * 64));
    }
    assert!(!cache.resident(0u32));
    assert!(cache.resident(4 * 64u32));
    // The reload still returns the right value, and it in turn evicts the
    // then-least-recently-used block 1.
    assert!(cache.resident(64u32));
    assert_eq!(cache.fetch(0u32), Some(0));
    assert!(cache.resident(0u32));
    assert!(!cache.resident(64u32));
}

#[test]
fn lru_hit_refreshes_recency() {
    let data: Vec<u32> = (0..320u32).collect();
    let mut cache = LRU4x64::new(MemFetch(&data));
    for block in 0u32..4 {
        cache.fetch(block * 64);
    }
    // Touch block 0 again: block 1 is now the least recently used, so the
    // next miss evicts it rather than block 0.
    cache.fetch(5u32);
    cache.fetch(4 * 64u32);
    assert!(cache.resident(0u32));
    assert!(!cache.resident(64u32));
    assert!(cache.resident(4 * 64u32));
}

#[test]
fn lru_out_of_range_fetch_evicts_nothing() {
    // A fetch whose block the loader refuses installs no line and evicts
    // none: everything resident stays resident.
    let data: Vec<u32> = (0..256u32).collect();
    let mut cache = LRU4x64::new(MemFetch(&data));
    for block in 0u32..4 {
        cache.fetch(block * 64);
    }
    assert_eq!(cache.fetch(100_000u32), None);
    for block in 0u32..4 {
        assert!(cache.resident(block * 64));
    }
}

#[test]
fn lru_handles_short_final_block() {
    // 100 words: block 1 holds only 36 valid words.
    let data: Vec<u32> = (0..100u32).collect();
    let mut cache = LRU4x64::new(MemFetch(&data));
    assert_eq!(cache.fetch(99u32), Some(99));
    assert_eq!(cache.fetch(100u32), None);
    assert_eq!(cache.fetch(127u32), None);
    // The short block is resident up to its valid length only, and the
    // refused fetch of block 2 evicted nothing.
    assert!(cache.resident(99u32));
    assert!(!cache.resident(100u32));
}

#[test]
fn machine_runs_through_the_cache() {
    // The same program behaves the same whether fetched directly or through
    // the cache over a block loader.
    let prog: Vec<Instruction<u32>> = vec![
        Instruction::Lit { val: 4, reg: Reg::RA },
        Instruction::Lit { val: 0, reg: Reg::R0 },
        Instruction::Lit { val: 1, reg: Reg::R1 },
        Instruction::Lit { val: 1000, reg: Reg::R2 },
        Instruction::Um2 { op: M2Op::Add, r1: Reg::R0, r2: Reg::R1, r3: Reg::R0 },
        Instruction::Um2 { op: M2Op::Sub, r1: Reg::R0, r2: Reg::R2, r3: Reg::R3 },
        Instruction::UJump { cond: Cond::GtZ, flag: Reg::R3, dest: Reg::RA },
        Instruction::Halt,
    ];
    let mut cached: LRU4x64<Instruction<u32>, MemFetch<Instruction<u32>>> =
        LRU4x64::new(MemFetch(&prog));
    let mut m: State<u32, i32> = State::new(vec![0u32; 16]);
    assert_eq!(m.eval_instrs(0xFFFF_FFFF, &mut cached), Ok(MutNotice::Halt));
    assert_eq!(m.get_reg(Reg::R0), 1000);

    let mut direct = MemFetch(&prog);
    let mut m2: State<u32, i32> = State::new(vec![0u32; 16]);
    assert_eq!(m2.eval_instrs(0xFFFF_FFFF, &mut direct), Ok(MutNotice::Halt));
    assert_eq!(m2.get_reg(Reg::R0), 1000);
}
