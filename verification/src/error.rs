//! Failures a tree operation can surface.

use vstd::prelude::*;

verus! {

/// Failures surfaced by tree operations. Corruption of an on-disk block is
/// fatal for the enclosing operation: no automatic repair is attempted.
#[derive(Clone, Copy, Debug, PartialEq, Eq, Structural)]
pub enum TreeError {
    /// A node block began with a signature that is not "leaf", "intr" or "file".
    UnknownSignature,
    /// A block was too short to hold the fields its signature promises.
    Truncated,
    /// A length-prefixed block did not match its recorded length exactly.
    LengthMismatch,
    /// A traversal crossed more shard boundaries than its fuel allows.
    DepthExceeded,
    /// A subtree size did not fit the 64-bit counter.
    SizeOverflow,
}

} // verus!
