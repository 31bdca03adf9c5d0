//! Errors that encoding and decoding report.
use vstd::prelude::*;

verus! {

/// Why an encode or decode call failed. Every one ends the call.
#[derive(Debug, Clone, Copy, PartialEq, Eq)]
pub enum ColferError {
    /// A text, binary, list or the whole record exceeds the byte ceiling by `overflow`.
    MaxSizeBreach { field: &'static str, overflow: usize },
    /// A list holds `overflow` elements more than the element ceiling allows.
    MaxListBreach { field: &'static str, overflow: usize },
    /// The byte at offset `byte` is no known field header.
    UnknownHeader { byte: usize },
    /// A complete record ended at offset `byte`, but data follows it.
    Tail { byte: usize },
    /// The data ended where another byte was needed.
    UnexpectedEof,
    /// Input that no other kind describes: text that is not UTF-8, or a
    /// timestamp whose seconds overflow.
    Unknown,
}

pub type ColferResult<T> = Result<T, ColferError>;

} // verus!
