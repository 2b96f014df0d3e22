//! Load-time errors of the table parsers.

use vstd::prelude::*;

verus! {

/// A malformed line in one of the line-oriented input tables. Each variant
/// carries the offending line (trimmed, for the signature table; whole, for
/// the ownership table).
#[derive(Debug)]
pub enum FormatError {
    /// A signature line without exactly one separator, or with an empty
    /// pattern.
    BadLine { line: String },
    /// A signature line whose byte sequence holds a token that is not a
    /// hexadecimal byte.
    BadHexToken { line: String },
    /// An ownership record whose id field is not an unsigned 32-bit decimal
    /// number.
    BadOwnerId { line: String },
}

impl FormatError {
    /// The offending line carried by the error.
    pub fn line(&self) -> (r: &String)
        ensures
            r@ == match self {
                FormatError::BadLine { line } => line@,
                FormatError::BadHexToken { line } => line@,
                FormatError::BadOwnerId { line } => line@,
            },
    {
        match self {
            FormatError::BadLine { line } => line,
            FormatError::BadHexToken { line } => line,
            FormatError::BadOwnerId { line } => line,
        }
    }
}

} // verus!
