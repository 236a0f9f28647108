//! The error types and the seeking abstraction shared by codec-specific
//! media mappings built on top of the page engine.

use vstd::prelude::*;

verus! {

/// Errors thrown by a media reader.
#[derive(Clone, Copy, Debug, PartialEq, Eq)]
pub enum MediaReadError {
    /// The underlying source failed; raised only at the I/O edge.
    IoError,
    /// An arithmetic conversion overflowed.
    TryFromIntError,
}

/// Errors thrown by a media writer.
#[derive(Clone, Copy, Debug, PartialEq, Eq)]
pub enum MediaWriteError {
    /// The underlying sink failed; raised only at the I/O edge.
    IoError,
    /// An arithmetic conversion overflowed.
    TryFromIntError,
}

/// Generic stream seeker trait, for media mappings to implement over a
/// seekable container.
pub trait StreamSeeker {
    /// Seeks to the first packet after the given granule position.
    fn seek(granule_position: u64) -> Result<(), MediaReadError>;
}

} // verus!
