//! Bitstream read errors.

use vstd::prelude::*;

verus! {

/// Errors that can occur when reading OGG bitstreams.
#[derive(Clone, Copy, Debug, PartialEq, Eq)]
pub enum ReadError {
    /// The underlying source failed; raised only at the I/O edge, never by
    /// the in-memory engine.
    IoError,
    /// An arithmetic conversion overflowed.
    TryFromIntError,
    /// The reader only supports bitstreams of version 0.
    UnhandledBitstreamVersion(u8),
    /// No capture pattern was found within a whole page's worth of input.
    UnableToSync,
}

} // verus!
