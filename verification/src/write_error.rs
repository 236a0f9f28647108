//! Bitstream write errors.

use vstd::prelude::*;

verus! {

/// Errors that can occur when writing OGG bitstreams.
#[derive(Clone, Copy, Debug, PartialEq, Eq)]
pub enum WriteError {
    /// The underlying sink failed; raised only at the I/O edge, never by the
    /// in-memory engine.
    IoError,
    /// An arithmetic conversion overflowed.
    TryFromIntError,
    /// Unknown bitstream serial number.
    UnknownBitstreamSerialNumber,
    /// Logical bitstream already initialized.
    BitstreamAlreadyInitialized,
    /// Initial packet too big.
    InitialPacketTooBig,
}

} // verus!
