//! Reads and writes OGG bitstreams.
//!
//! The crate frames application packets into CRC-protected OGG pages and
//! reads such pages back, reassembling packets that span several pages and
//! resynchronising after corruption.

use vstd::prelude::*;

pub mod bitstream;
pub mod crc32;
pub mod format;
pub mod media_mapping;
pub mod read_error;
pub mod reader;
pub mod write_error;
pub mod writer;

pub use format::parse_u32_le;
pub use format::parse_u64_le;
pub use read_error::ReadError;
pub use reader::FileReader;
pub use reader::Packet;
pub use reader::ReadStatus;
pub use reader::StreamReader;
pub use write_error::WriteError;
pub use writer::StreamWriter;

verus! {

/// Simple helper function to create a random bitstream serial number.
///
/// Relies on `std::time::SystemTime` and the default hasher of
/// `std::collections::hash_map`: the current wall-clock time is hashed and
/// folded to 32 bits. The randomness is of low quality, but fine for
/// picking serial numbers; of the clock-dependent value nothing can be
/// promised beyond its range: the fold is a remainder below `u32::MAX`.
#[verifier::external_body]
pub fn generate_bitstream_serial_number() -> (r: u32)
    ensures
        r < 0xFFFF_FFFFu32,
{
    let now = std::time::SystemTime::now();
    let mut hasher: std::collections::hash_map::DefaultHasher = Default::default();
    std::hash::Hash::hash(&now, &mut hasher);
    let hash = std::hash::Hasher::finish(&hasher);
    (hash % 0xFFFF_FFFFu64) as u32
}

} // verus!
