use vstd::prelude::*;

pub mod text;
pub mod strmap;
pub mod opcodes;
pub mod assembler;
pub mod sort;
pub mod csr;
pub mod snapshot;
pub mod crypto;
pub mod sexpr;
pub mod printer;
pub mod reader;
pub mod passes;
pub mod implog;
pub mod regalloc;
pub mod compiler;
pub mod reorder;
pub mod generate;
pub mod sampling;
pub mod domain_index;
pub mod attributes;
pub mod validate;
pub mod tensors;
pub mod disassembler;
pub mod export;
pub mod report;
pub mod cli;

verus! {
} // verus!
