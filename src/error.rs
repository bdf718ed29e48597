//! Why decoding or encoding a level fails.
use vstd::prelude::*;

verus! {

/// A failure to decode or encode a level.
#[derive(Debug, Clone, Copy, PartialEq, Eq, Structural)]
pub enum LevelError {
    /// The buffer ends before a field that the layout requires.
    UnexpectedEof,
    /// The five-byte format tag is neither `POT14` nor `POT06`.
    UnrecognizedFormat,
    /// A stored count is not finite, rounds to a negative number, or is too large.
    InvalidCount,
    /// An object record holds a type code outside one to four.
    UnrecognizedObjectType(i32),
    /// A boundary marker does not hold its constant.
    MarkerMismatch { expected: u32, actual: u32 },
    /// A leaderboard sub-block stores a count outside zero to ten.
    InvalidLeaderboardCount(i32),
    /// A text does not fit its field together with its terminating zero byte.
    FieldTooLong,
}

} // verus!
