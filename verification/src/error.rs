//! The errors that end an operation.

use vstd::prelude::*;

verus! {

/// Why a capture or a comparison could not be completed.
///
/// An entry that the traversal could not list, or whose metadata could not be
/// read, is no error of this kind: the capture skips it and goes on.
#[derive(Clone, Copy, Debug, PartialEq, Eq, Structural)]
pub enum ErrorKind {
    /// A time or a size does not fit the store's signed 64-bit range.
    NumericOverflow,
    /// The path table could not take another entry.
    Database,
    /// Fewer than two distinct captures are on record.
    NotEnoughHistory,
    /// The store contradicts itself: an identifier that no path belongs to,
    /// a path or an identifier recorded twice, a negative time or size.
    DatabaseState,
}

} // verus!
