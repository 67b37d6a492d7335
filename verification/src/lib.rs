//! A minimal single-operation computer and its toolchain.
//!
//! The machine is a virtual CPU whose only instruction is a single two-input
//! boolean operation (NAND, NOR, XOR or XNOR, fixed per program), run against
//! a 256-cell boolean memory whose top addresses are memory-mapped to bit
//! input, bit output and control transfer (skip, jump, call, return).
//!
//! The toolchain turns assembly text into the machine's words: a preprocessor
//! splices referenced source files in place (rejecting any repeat inclusion)
//! and expands `%macro` blocks, and a two-pass assembler resolves address
//! labels and named constants into fixed-width machine words. The listing
//! format the assembler side writes is exactly the format the machine side
//! loads.

pub mod assembler;
pub mod cpu;
pub mod listing;
pub mod pp;
pub mod text;
