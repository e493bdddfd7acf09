//! The instruction set.

use vstd::prelude::*;

verus! {

/// One instruction of a translated program.
///
/// The count carried by a movement or arithmetic instruction is the folded net
/// effect of a run of source characters. A count of zero is legal and makes
/// the instruction a no-op.
#[derive(Debug, Clone, Copy, PartialEq, Eq, Structural)]
pub enum Command {
    /// Move the data pointer left by the count.
    Left(u8),
    /// Move the data pointer right by the count.
    Right(u8),
    /// Add the count to the current cell, modulo 256.
    Plus(u8),
    /// Subtract the count from the current cell, modulo 256.
    Minus(u8),
    /// Emit the current cell as one byte.
    Print,
    /// Read one input byte into the current cell.
    Input,
    /// Jump past the matching `LoopEnd` when the current cell is zero.
    LoopStart,
    /// Jump back to just after the matching `LoopStart` when the current cell
    /// is not zero.
    LoopEnd,
    /// Set the current cell to zero.
    Zero,
}

} // verus!
