//! The instruction set.

use vstd::prelude::*;

verus! {

/// One instruction of a program.
///
/// The two pointer moves and the two cell adjustments carry the number of
/// steps they take; the tokenizer emits them with amount 1 and the optimizer
/// merges runs into larger amounts. A loop bracket carries the index of its
/// partner once the brackets have been matched.
#[allow(inconsistent_fields)]
#[derive(PartialEq, Eq, Structural, Copy, Clone, Debug)]
pub enum Command {
    /// Move the pointer forward by `amount` cells.
    INCPTR { amount: isize },
    /// Move the pointer backward by `amount` cells.
    DECPTR { amount: isize },
    /// Add `amount` to the current cell, modulo 256.
    INCVAL { amount: u8 },
    /// Subtract `amount` from the current cell, modulo 256.
    DECVAL { amount: u8 },
    /// Emit the current cell.
    PUTC,
    /// Read one byte into the current cell.
    GETC,
    /// Jump to the closing bracket at `end` if the current cell is zero.
    LOOPSTART { end: usize },
    /// Jump back to the opening bracket at `start`.
    LOOPEND { start: usize },
}

impl Command {
    /// Whether this is one of the four kinds that carry an amount.
    pub open spec fn has_amount(self) -> bool {
        self is INCPTR || self is DECPTR || self is INCVAL || self is DECVAL
    }

    /// Whether two commands are of the same kind, whatever they carry.
    pub open spec fn same_kind(self, other: Command) -> bool {
        match self {
            Command::INCPTR { .. } => other is INCPTR,
            Command::DECPTR { .. } => other is DECPTR,
            Command::INCVAL { .. } => other is INCVAL,
            Command::DECVAL { .. } => other is DECVAL,
            Command::PUTC => other is PUTC,
            Command::GETC => other is GETC,
            Command::LOOPSTART { .. } => other is LOOPSTART,
            Command::LOOPEND { .. } => other is LOOPEND,
        }
    }
}

} // verus!
