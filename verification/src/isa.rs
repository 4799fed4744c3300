//! The instruction set: the closed catalog of opcodes, their argument
//! widths, and the decode table from raw `(opcode, argument)` byte pairs.
use vstd::prelude::*;

verus! {

/// One AWA5.0 instruction. Most variants carry no argument; `Blo`, `Sbm`,
/// `Srn`, `Lbl` and `Jmp` carry one fixed-width unsigned byte argument
/// (widths 5 or 8 bits, zero-extended to a byte in the binary encoding).
///
/// `StrLbl` and `JmpRelStr` exist during assembly only: they carry a
/// symbolic label and are erased by the time the flat byte buffer exists.
#[derive(Debug)]
pub enum Awatism {
    /// Do nothing (opcode 0x00).
    Nop,
    /// Print the top bubble as alphabet characters and pop it (0x01).
    Prn,
    /// Print the top bubble as decimal numbers and pop it (0x02).
    Pr1,
    /// Read a line and push it as a collection of alphabet indices (0x03).
    Red,
    /// Read a line and push it as one decimal number (0x04).
    R3d,
    /// Push the argument, sign-extended from 8 bits (0x05).
    Blo(u8),
    /// Pop the top bubble and reinsert it at a given depth (0x06).
    Sbm(u8),
    /// Pop; if a collection, push back only its first element (0x07).
    Pop,
    /// Duplicate the top bubble (0x08).
    Dpl,
    /// Pop `n` bubbles and push them as one collection (0x09).
    Srn(u8),
    /// Pop two bubbles and merge them into one collection (0x0A).
    Mrg,
    /// Broadcasting addition (0x0B).
    Add,
    /// Broadcasting subtraction (0x0C).
    Sub,
    /// Broadcasting multiplication (0x0D).
    Mul,
    /// Broadcasting division into `[remainder, quotient]` (0x0E).
    Div,
    /// Push 0 for a scalar, the element count for a collection (0x0F).
    Cnt,
    /// Define an absolute jump label (0x10).
    Lbl(u8),
    /// Jump to an absolute label (0x11).
    Jmp(u8),
    /// Skip the next instruction unless the top two scalars are equal (0x12).
    Eql,
    /// Skip the next instruction unless top < second (0x13).
    Lss,
    /// Skip the next instruction unless top > second (0x14).
    Gr8,
    /// Call a foreign function described by the top bubble (0x17).
    Lib,
    /// Halt execution (0x1F).
    Trm,
    /// Assembly-time only: define a symbolic label for relative jumps.
    StrLbl(String),
    /// Assembly-time only: a relative jump to a symbolic label.
    JmpRelStr(String),
}

impl Clone for Awatism {
    /// A copy equal to the original.
    fn clone(&self) -> (res: Self)
        ensures
            res == *self,
    {
        match self {
            Awatism::Nop => Awatism::Nop,
            Awatism::Prn => Awatism::Prn,
            Awatism::Pr1 => Awatism::Pr1,
            Awatism::Red => Awatism::Red,
            Awatism::R3d => Awatism::R3d,
            Awatism::Blo(arg) => Awatism::Blo(*arg),
            Awatism::Sbm(arg) => Awatism::Sbm(*arg),
            Awatism::Pop => Awatism::Pop,
            Awatism::Dpl => Awatism::Dpl,
            Awatism::Srn(arg) => Awatism::Srn(*arg),
            Awatism::Mrg => Awatism::Mrg,
            Awatism::Add => Awatism::Add,
            Awatism::Sub => Awatism::Sub,
            Awatism::Mul => Awatism::Mul,
            Awatism::Div => Awatism::Div,
            Awatism::Cnt => Awatism::Cnt,
            Awatism::Lbl(arg) => Awatism::Lbl(*arg),
            Awatism::Jmp(arg) => Awatism::Jmp(*arg),
            Awatism::Eql => Awatism::Eql,
            Awatism::Lss => Awatism::Lss,
            Awatism::Gr8 => Awatism::Gr8,
            Awatism::Lib => Awatism::Lib,
            Awatism::Trm => Awatism::Trm,
            Awatism::StrLbl(label) => Awatism::StrLbl(label.clone()),
            Awatism::JmpRelStr(label) => Awatism::JmpRelStr(label.clone()),
        }
    }
}

/// An instruction as the assembler consumes it.
#[derive(Debug)]
pub struct Instruction {
    /// The instruction's operation (and argument, if it carries one).
    pub awatism: Awatism,
}

impl Awatism {
    /// The decode table: which instruction a raw `(opcode, argument)` byte
    /// pair denotes, or `None` for the two reserved opcodes (0x15, 0x16)
    /// and for every byte outside the catalog.
    pub open spec fn spec_from_u8(value: u8, arg: u8) -> Option<Awatism> {
        match value {
            0x00u8 => Some(Awatism::Nop),
            0x01u8 => Some(Awatism::Prn),
            0x02u8 => Some(Awatism::Pr1),
            0x03u8 => Some(Awatism::Red),
            0x04u8 => Some(Awatism::R3d),
            0x05u8 => Some(Awatism::Blo(arg)),
            0x06u8 => Some(Awatism::Sbm(arg)),
            0x07u8 => Some(Awatism::Pop),
            0x08u8 => Some(Awatism::Dpl),
            0x09u8 => Some(Awatism::Srn(arg)),
            0x0au8 => Some(Awatism::Mrg),
            0x0bu8 => Some(Awatism::Add),
            0x0cu8 => Some(Awatism::Sub),
            0x0du8 => Some(Awatism::Mul),
            0x0eu8 => Some(Awatism::Div),
            0x0fu8 => Some(Awatism::Cnt),
            0x10u8 => Some(Awatism::Lbl(arg)),
            0x11u8 => Some(Awatism::Jmp(arg)),
            0x12u8 => Some(Awatism::Eql),
            0x13u8 => Some(Awatism::Lss),
            0x14u8 => Some(Awatism::Gr8),
            0x17u8 => Some(Awatism::Lib),
            0x1fu8 => Some(Awatism::Trm),
            _ => None,
        }
    }

    /// Decode one `(opcode, argument)` byte pair. Every decodable opcode
    /// byte maps to exactly one variant; unknown or reserved opcode bytes
    /// yield `None`, never a crash.
    pub fn from_u8(value: u8, arg: u8) -> (r: Option<Awatism>)
        ensures
            r == Awatism::spec_from_u8(value, arg),
    {
        match value {
            0x00 => Some(Awatism::Nop),
            0x01 => Some(Awatism::Prn),
            0x02 => Some(Awatism::Pr1),
            0x03 => Some(Awatism::Red),
            0x04 => Some(Awatism::R3d),
            0x05 => Some(Awatism::Blo(arg)),
            0x06 => Some(Awatism::Sbm(arg)),
            0x07 => Some(Awatism::Pop),
            0x08 => Some(Awatism::Dpl),
            0x09 => Some(Awatism::Srn(arg)),
            0x0a => Some(Awatism::Mrg),
            0x0b => Some(Awatism::Add),
            0x0c => Some(Awatism::Sub),
            0x0d => Some(Awatism::Mul),
            0x0e => Some(Awatism::Div),
            0x0f => Some(Awatism::Cnt),
            0x10 => Some(Awatism::Lbl(arg)),
            0x11 => Some(Awatism::Jmp(arg)),
            0x12 => Some(Awatism::Eql),
            0x13 => Some(Awatism::Lss),
            0x14 => Some(Awatism::Gr8),
            0x17 => Some(Awatism::Lib),
            0x1f => Some(Awatism::Trm),
            _ => None,
        }
    }

    /// Which opcode bytes carry an argument.
    pub open spec fn spec_needs_args(value: u8) -> bool {
        value == 0x05u8 || value == 0x06u8 || value == 0x09u8 || value == 0x10u8 || value == 0x11u8
    }

    /// Whether the opcode byte carries an argument in the binary and unary
    /// encodings.
    pub fn needs_args(value: u8) -> (r: bool)
        ensures
            r == Awatism::spec_needs_args(value),
    {
        match value {
            0x05 => true,
            0x06 => true,
            0x09 => true,
            0x10 => true,
            0x11 => true,
            _ => false,
        }
    }

    /// Whether the opcode byte lies in the range once set aside for
    /// relative-jump markers (top bit set).
    pub fn is_relative(value: u8) -> (r: bool)
        ensures
            r == (value >= 0x80),
    {
        let r = (value >> 7) == 1;
        proof {
            assert((value >> 7) == 1 <==> value >= 0x80) by (bit_vector);
        }
        r
    }

    /// The argument's bit width in the unary encoding.
    pub open spec fn spec_arg_bits(value: u8) -> usize {
        if value == 0x05u8 {
            8usize
        } else if value == 0x06u8 || value == 0x09u8 || value == 0x10u8 || value == 0x11u8 {
            5usize
        } else {
            0usize
        }
    }

    /// How many bits of the argument byte the unary encoding serializes:
    /// 8 for `Blo`, 5 for the other argument-carrying opcodes, 0 otherwise.
    pub fn arg_bits(value: u8) -> (r: usize)
        ensures
            r == Awatism::spec_arg_bits(value),
    {
        match value {
            0x05 => 8,
            0x06 => 5,
            0x09 => 5,
            0x10 => 5,
            0x11 => 5,
            _ => 0,
        }
    }
}

} // verus!
