//! The decode-time error taxonomy.
//!
//! Every failure the decoders can report is a value of [`MinesweeperError`].
//! All of them are raised while decoding the replay text; once a board and
//! its action lists have been decoded, replaying them is total except for
//! actions whose coordinates lie outside the board, which surface the same
//! [`MinesweeperError::CoordinateOutOfBounds`] at replay time.

use vstd::prelude::*;

verus! {

/// A non-recoverable decoding failure.
#[derive(Clone, Copy, Debug, PartialEq, Eq, Structural)]
pub enum MinesweeperError {
    /// A character outside the base-62 alphabet appeared where a base-62
    /// number was expected.
    InvalidSymbol,
    /// The board-size prefix is not `<width>x<height>` with both sides
    /// unsigned decimal numbers that fit the dimension type.
    MalformedMetadata,
    /// A compact mine record does not consist of two-character chunks.
    MalformedMineRecord,
    /// A decoded coordinate lies outside `[0, width) x [0, height)`.
    CoordinateOutOfBounds,
    /// An action record is structurally broken: too short to hold its
    /// coordinates and kind, or missing the `:` before its time value.
    MalformedActionRecord,
    /// A relative-time field is not a decimal integer that fits `i64`.
    MalformedTimeValue,
    /// The trailing kind character of a flag record is neither `P` nor `R`.
    UnknownActionKind,
    /// A decoded number is too large for the machine integer that carries
    /// it: a base-62 value over `i64::MAX`, a coordinate over `i32::MAX`,
    /// or an accumulated absolute time outside the `i64` range.
    NumberOverflow,
}

} // verus!
