//! A toolchain for the AWA5.0 stack-based instruction set: a dense binary
//! bytecode encoding, an alternate unary ("awatalk") text encoding, an
//! assembler with relative-jump fixups, and an interpreter over a nested
//! "bubble" value model.
pub mod arith;
pub mod assembler;
pub mod awatalk;
pub mod bubble;
pub mod errors;
pub mod interpreter;
pub mod isa;
pub mod marshal;
pub mod text;
