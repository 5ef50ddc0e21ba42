//! A compiler for the SysY teaching language: token reports, formatting,
//! semantic error reporting, lowering to an intermediate representation,
//! linear-scan register allocation and RISC-V assembly emission, with the
//! logic verified by Verus.
pub mod utils;
pub mod text;
pub mod riscv_codegen;
pub mod simple_asm;
pub mod register_strategy;
pub mod check;
pub mod lexer;
pub mod format;
pub mod ir_gen;
