//! The instruction model: eight base instructions with a source-character
//! representation, plus four counted instructions that only the optimizer
//! produces.

use vstd::prelude::*;

verus! {

/// One instruction of the tape language.
///
/// The first eight variants each correspond to one source character; the
/// last four carry a count and are produced by the optimizer when it fuses
/// a run of repeated base instructions.
#[derive(Debug, Clone, Copy, PartialEq, Eq, Structural)]
pub enum Instruction {
    /// (`>`) Move the data pointer forward by one cell.
    MoveForward,
    /// (`<`) Move the data pointer backward by one cell.
    MoveBackward,
    /// (`+`) Add one to the byte at the data pointer, wrapping.
    Increment,
    /// (`-`) Subtract one from the byte at the data pointer, wrapping.
    Decrement,
    /// (`.`) Append the byte at the data pointer to the output.
    Output,
    /// (`,`) Store the next input byte at the data pointer, if any is left.
    Input,
    /// (`[`) If the byte at the data pointer is zero, jump forward past the
    /// matching `JumpIfNonZero`.
    JumpIfZero,
    /// (`]`) If the byte at the data pointer is nonzero, jump backward past
    /// the matching `JumpIfZero`.
    JumpIfNonZero,
    /// Move the data pointer forward by the given number of cells.
    MoveForwardBy(usize),
    /// Move the data pointer backward by the given number of cells.
    MoveBackwardBy(usize),
    /// Add the given amount to the byte at the data pointer, wrapping.
    IncrementBy(u8),
    /// Subtract the given amount from the byte at the data pointer, wrapping.
    DecrementBy(u8),
}

impl Instruction {
    /// The fixed mapping from the eight recognized source characters to base
    /// instructions; every other byte maps to `None` and is a comment.
    pub open spec fn from_byte_spec(byte: u8) -> Option<Instruction> {
        if byte == 62 {
            Some(Instruction::MoveForward)
        } else if byte == 60 {
            Some(Instruction::MoveBackward)
        } else if byte == 43 {
            Some(Instruction::Increment)
        } else if byte == 45 {
            Some(Instruction::Decrement)
        } else if byte == 46 {
            Some(Instruction::Output)
        } else if byte == 44 {
            Some(Instruction::Input)
        } else if byte == 91 {
            Some(Instruction::JumpIfZero)
        } else if byte == 93 {
            Some(Instruction::JumpIfNonZero)
        } else {
            None
        }
    }

    /// Translate one source byte into its base instruction, or `None` for a
    /// byte that is not one of the eight recognized characters.
    pub fn from_byte(byte: u8) -> (r: Option<Instruction>)
        ensures
            r == Instruction::from_byte_spec(byte),
    {
        match byte {
            62 => Some(Instruction::MoveForward),
            60 => Some(Instruction::MoveBackward),
            43 => Some(Instruction::Increment),
            45 => Some(Instruction::Decrement),
            46 => Some(Instruction::Output),
            44 => Some(Instruction::Input),
            91 => Some(Instruction::JumpIfZero),
            93 => Some(Instruction::JumpIfNonZero),
            _ => None,
        }
    }

    /// Whether a run of this instruction may be fused into a single counted
    /// instruction: true exactly for the four pointer-move and cell-change
    /// base instructions.
    pub open spec fn is_accumulatable_spec(self) -> bool {
        ||| self is MoveForward
        ||| self is MoveBackward
        ||| self is Increment
        ||| self is Decrement
    }

    /// Whether a run of this instruction may be fused by the optimizer.
    pub fn is_accumulatable(&self) -> (r: bool)
        ensures
            r == self.is_accumulatable_spec(),
    {
        match *self {
            Instruction::MoveForward
            | Instruction::MoveBackward
            | Instruction::Increment
            | Instruction::Decrement => true,
            _ => false,
        }
    }

    /// The counted instruction standing for `count` repetitions of an
    /// accumulatable instruction. Cell-change counts are taken modulo 256,
    /// since repeated increments and decrements wrap.
    pub open spec fn to_accumulated_spec(self, count: usize) -> Option<Instruction> {
        match self {
            Instruction::MoveForward => Some(Instruction::MoveForwardBy(count)),
            Instruction::MoveBackward => Some(Instruction::MoveBackwardBy(count)),
            Instruction::Increment => Some(Instruction::IncrementBy((count % 256) as u8)),
            Instruction::Decrement => Some(Instruction::DecrementBy((count % 256) as u8)),
            _ => None,
        }
    }

    /// Fuse `count` repetitions of this instruction into one counted
    /// instruction, or `None` if this instruction is not accumulatable.
    pub fn to_accumulated(&self, count: usize) -> (r: Option<Instruction>)
        ensures
            r == self.to_accumulated_spec(count),
            r is Some <==> self.is_accumulatable_spec(),
    {
        match *self {
            Instruction::MoveForward => Some(Instruction::MoveForwardBy(count)),
            Instruction::MoveBackward => Some(Instruction::MoveBackwardBy(count)),
            Instruction::Increment => Some(Instruction::IncrementBy((count % 256) as u8)),
            Instruction::Decrement => Some(Instruction::DecrementBy((count % 256) as u8)),
            _ => None,
        }
    }
}

} // verus!
