//! A small stack-based bytecode machine and the assembler that feeds it.
//!
//! Numbers are 64-bit integers or IEEE-754 doubles; a double is carried as its
//! bit pattern (`f64::to_bits`), and the arithmetic on doubles is done by the
//! caller, which hands the result back as bits.
pub mod number;
pub mod vm;
pub mod text;
pub mod parse;
