//! The failures of the pipeline.

use vstd::prelude::*;

verus! {

/// Why a program could not be prepared or stopped early. Every failure is
/// fatal to the run.
#[derive(PartialEq, Eq, Structural, Copy, Clone, Debug)]
pub enum Error {
    /// A closing bracket with no opening bracket before it.
    UnmatchedClosingBracket,
    /// Opening brackets that are never closed.
    UnmatchedOpeningBracket,
    /// A forward move took the pointer past the largest address.
    PointerOverflow,
    /// A backward move took the pointer past the smallest address.
    PointerUnderflow,
    /// The program counter could not be advanced.
    PcOverflow,
    /// The output sink refused a byte.
    OutputFailed,
    /// The input source failed other than by ending.
    InputFailed,
}

impl Error {
    /// The text shown for this failure.
    pub open spec fn text(self) -> Seq<char> {
        match self {
            Error::UnmatchedClosingBracket => "Cannot find opening bracket for closing bracket"@,
            Error::UnmatchedOpeningBracket => "More opening than closing loop brackets"@,
            Error::PointerOverflow => "Pointer overflow"@,
            Error::PointerUnderflow => "Pointer underflow"@,
            Error::PcOverflow => "PC overflow"@,
            Error::OutputFailed => "Writing to output failed"@,
            Error::InputFailed => "Reading from input failed"@,
        }
    }

    /// The text shown for this failure.
    pub fn message(&self) -> (s: &'static str)
        ensures
            s@ == self.text(),
    {
        match self {
            Error::UnmatchedClosingBracket => "Cannot find opening bracket for closing bracket",
            Error::UnmatchedOpeningBracket => "More opening than closing loop brackets",
            Error::PointerOverflow => "Pointer overflow",
            Error::PointerUnderflow => "Pointer underflow",
            Error::PcOverflow => "PC overflow",
            Error::OutputFailed => "Writing to output failed",
            Error::InputFailed => "Reading from input failed",
        }
    }
}

} // verus!
