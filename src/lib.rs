//! A single-pass compiler and stack machine for a small expression language:
//! a byte-level scanner, a bytecode chunk with its listing, a parser that
//! emits bytecode, and the virtual machine. Values are the bit patterns of
//! 32-bit floats; the arithmetic on them and the reading of number literals
//! are left to the user, through the `Arithmetic` and `Numbers` traits.

pub mod chunk;
pub mod scanner;
pub mod compiler;
pub mod vm;
pub mod laws;
