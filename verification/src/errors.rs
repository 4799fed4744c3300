//! Error taxonomy. Every failure surfaces to the caller as a
//! distinguishable result; nothing is guessed and continued.
use vstd::prelude::*;

verus! {

/// A flat byte buffer could not be decoded into instructions.
#[derive(Clone, Copy, Debug, PartialEq, Eq, Structural)]
pub enum DecodeError {
    /// The buffer's length is odd, so it is not a sequence of
    /// `(opcode, argument)` pairs.
    OddLength,
    /// An opcode byte outside the catalog, including the two reserved
    /// opcodes 0x15 and 0x16.
    UnknownOpcode,
}

/// A program could not be assembled into a flat byte buffer.
#[derive(Clone, Copy, Debug, PartialEq, Eq, Structural)]
pub enum BuildError {
    /// A relative jump names a symbolic label with no matching definition.
    UnresolvedLabel,
    /// The instruction list is too long for its byte offsets to fit a
    /// signed 32-bit displacement.
    ProgramTooLong,
}

/// Unary ("awatalk") text could not be parsed into instructions.
#[derive(Clone, Copy, Debug, PartialEq, Eq, Structural)]
pub enum TalkError {
    /// The text's normal form does not begin with the literal `awa`.
    NotAwatalk,
    /// A decoded opcode lies outside the catalog.
    UnknownOpcode,
}

/// Execution aborted. No error is silently recovered inside the engine.
#[derive(Clone, Copy, Debug, PartialEq, Eq, Structural)]
pub enum RunError {
    /// A pop or peek found fewer bubbles than the instruction consumes.
    StackUnderflow,
    /// An absolute jump names a label index that no instruction defines.
    UnresolvedLabel,
    /// A foreign-call descriptor has the wrong shape or an unknown type tag.
    MalformedForeignArgument,
    /// A division instruction found a zero divisor.
    DivideByZero,
    /// A read-number instruction was fed a line with no leading decimal
    /// number, or one that does not fit a signed 32-bit value.
    InvalidNumberInput,
}

} // verus!
