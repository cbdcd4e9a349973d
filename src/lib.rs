use vstd::prelude::*;

pub mod apply;
pub mod hex;
pub mod parser;

verus! {

/// The width, in bytes, of the patterns and replacements that the patch tool reads.
pub const WIDTH: usize = 9;

/// Why a patch specification could not be turned into patches.
#[derive(Debug, PartialEq, Eq)]
pub enum PatchError {
    /// A hex line holds more tokens than a pattern has bytes; carries the whole line.
    TooLongString(String),
    /// A token is not a hexadecimal byte; carries the token.
    ConversionFailure(String),
    /// A block (numbered from 1) holds a single line.
    InsufficientLines(usize),
    /// A block (numbered from 1) holds more than two lines.
    TooManyLines(usize),
}

/// The mathematical value of a `PatchError`.
pub enum PatchFault {
    TooLongString(Seq<char>),
    ConversionFailure(Seq<char>),
    InsufficientLines(nat),
    TooManyLines(nat),
}

impl View for PatchError {
    type V = PatchFault;

    open spec fn view(&self) -> PatchFault {
        match self {
            PatchError::TooLongString(s) => PatchFault::TooLongString(s@),
            PatchError::ConversionFailure(s) => PatchFault::ConversionFailure(s@),
            PatchError::InsufficientLines(n) => PatchFault::InsufficientLines(*n as nat),
            PatchError::TooManyLines(n) => PatchFault::TooManyLines(*n as nat),
        }
    }
}

} // verus!
