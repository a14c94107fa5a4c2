//! Error taxonomy of the codec.

use vstd::prelude::*;

verus! {

/// Everything that can go wrong while parsing, accessing or rebuilding a CFF
/// table. All structural violations surface as one of these typed errors;
/// nothing is silently recovered.
#[derive(Clone, Copy, Debug, PartialEq, Eq, Structural)]
pub enum CffError {
    /// Insufficient bytes while parsing an INDEX header, offset array or data.
    TruncatedIndex,
    /// An offset width outside 1..=4.
    InvalidOffsetSize,
    /// INDEX offsets that are not 1-based or not non-decreasing, or that point
    /// outside the data blob.
    MalformedOffsets,
    /// Element access beyond an INDEX's declared count.
    IndexOutOfBounds,
    /// A DICT operand/operator sequence whose shape does not match the
    /// operator's expected operand count or type.
    MalformedDictOperand,
    /// A custom string identifier pointing past the end of the String INDEX.
    UnknownStringId,
    /// A standard string identifier outside the fixed standard table.
    InvalidStringId,
    /// Structured Top DICT access on a table whose Top DICT INDEX is empty.
    NoTopDict,
    /// A rebuilt structure would exceed a format capacity: more than 65535
    /// INDEX elements, or offsets beyond the largest 4-byte offset.
    LimitExceeded,
}

/// The part of the table in which an error was detected, so that parse errors
/// carry positional context.
#[derive(Clone, Copy, Debug, PartialEq, Eq, Structural)]
pub enum CffSection {
    Header,
    NameIndex,
    TopDictIndex,
    StringIndex,
    GlobalSubrIndex,
    TopDictEntries,
}

/// A parse error together with the section it occurred in.
#[derive(Clone, Copy, Debug, PartialEq, Eq, Structural)]
pub struct CffParseError {
    pub section: CffSection,
    pub error: CffError,
}

} // verus!
