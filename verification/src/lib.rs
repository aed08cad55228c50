//! A small register-based bytecode virtual machine: a fixed 16-register
//! file over a generic machine word, a flat addressable memory, a compact
//! binary instruction encoding, a step-bounded evaluation loop, and a
//! least-recently-used instruction-fetch cache over a block loader.
pub mod codec;
pub mod evaluator;
pub mod isa;
pub mod mem;
pub mod prim;
