//! A small virtual processor: a fixed-width 16-bit instruction set, a binary
//! encoding for it, an execution engine that runs encoded programs, and a
//! text assembler that compiles mnemonics into the encoding.

pub mod config;
pub mod cpu;
pub mod helpers;
pub mod instructions;
pub mod parser;
