//! The low-level bitstream face of the crate: readers that surface
//! bitstream-level errors, and a minimal page writer that frames one packet
//! per page.

use vstd::prelude::*;

pub use crate::reader::Packet;
pub use crate::reader::PacketView;
pub use crate::reader::ReadStatus;

use crate::format::packet_lacing;
use crate::format::page_bytes;
use crate::format::PageRec;
use crate::format::BOS_VALUE;
use crate::format::EOS_VALUE;
use crate::format::MAX_PAGE_DATA_SIZE;
use crate::read_error::ReadError;
use crate::reader::next_packet_post;
use crate::reader::reader_wf;
use crate::reader::rmodel;
use crate::reader::BitStreamReader as ReaderCore;
use crate::reader::ReaderModel;
use crate::writer::push_packet;
use crate::writer::seq_succ;
use crate::writer::state_wf;
use crate::writer::write_page;
use crate::writer::StreamState;

verus! {

/// Errors that can occur when reading OGG bitstreams.
#[derive(Clone, Copy, Debug, PartialEq, Eq)]
pub enum BitstreamReadError {
    /// The underlying source failed; raised only at the I/O edge.
    IoError,
    /// An arithmetic conversion overflowed.
    TryFromIntError,
    /// The reader only supports bitstreams of version 0.
    UnhandledBitstreamVersion(u8),
    /// The stream contains interleaved pages, which is not supported.
    InterleavedPages,
    /// No capture pattern was found within a whole page's worth of input.
    UnableToSync,
}

/// Errors that can occur when writing OGG bitstreams.
#[derive(Clone, Copy, Debug, PartialEq, Eq)]
pub enum BitstreamWriteError {
    /// The underlying sink failed; raised only at the I/O edge.
    IoError,
    /// An arithmetic conversion overflowed.
    TryFromIntError,
    /// Unknown bitstream serial number.
    UnknownBitstreamSerialNumber,
    /// Logical bitstream already initialized.
    BitstreamAlreadyInitialized,
    /// Initial packet too big.
    InitialPacketTooBig,
}

/// The bitstream-level error that stands for each core read error.
pub open spec fn bitstream_read_error_of(e: ReadError) -> BitstreamReadError {
    match e {
        ReadError::IoError => BitstreamReadError::IoError,
        ReadError::TryFromIntError => BitstreamReadError::TryFromIntError,
        ReadError::UnhandledBitstreamVersion(v) => BitstreamReadError::UnhandledBitstreamVersion(
            v,
        ),
        ReadError::UnableToSync => BitstreamReadError::UnableToSync,
    }
}

/// A core read result lifted to the bitstream-level error type.
pub open spec fn bitstream_read_result_of(r: Result<ReadStatus, ReadError>) -> Result<
    ReadStatus,
    BitstreamReadError,
> {
    match r {
        Ok(s) => Ok(s),
        Err(e) => Err(bitstream_read_error_of(e)),
    }
}

/// The core read error behind each bitstream-level error; interleaved
/// pages have no core counterpart and map to the I/O family.
pub open spec fn core_read_error_of(e: BitstreamReadError) -> ReadError {
    match e {
        BitstreamReadError::IoError => ReadError::IoError,
        BitstreamReadError::TryFromIntError => ReadError::TryFromIntError,
        BitstreamReadError::UnhandledBitstreamVersion(v) => ReadError::UnhandledBitstreamVersion(
            v,
        ),
        BitstreamReadError::InterleavedPages => ReadError::IoError,
        BitstreamReadError::UnableToSync => ReadError::UnableToSync,
    }
}

/// Maps a core read error to its bitstream-level error.
fn lift_read_error(e: ReadError) -> (r: BitstreamReadError)
    ensures
        r == bitstream_read_error_of(e),
{
    match e {
        ReadError::IoError => BitstreamReadError::IoError,
        ReadError::TryFromIntError => BitstreamReadError::TryFromIntError,
        ReadError::UnhandledBitstreamVersion(v) => BitstreamReadError::UnhandledBitstreamVersion(
            v,
        ),
        ReadError::UnableToSync => BitstreamReadError::UnableToSync,
    }
}

/// Generic OGG bitstream file reader over an in-memory, seekable source.
#[derive(Clone, Debug)]
pub struct BitStreamFileReader {
    inner: ReaderCore,
    reader: Vec<u8>,
    position: usize,
}

impl BitStreamFileReader {
    /// The byte source being read.
    pub closed spec fn source(self) -> Seq<u8> {
        self.reader@
    }

    /// The read position inside the source.
    pub closed spec fn cursor(self) -> int {
        self.position as int
    }

    /// The reader's observable state.
    pub closed spec fn model(self) -> ReaderModel {
        rmodel(self.inner)
    }

    /// The reader is in a usable state.
    pub closed spec fn wf(self) -> bool {
        reader_wf(self.inner) && self.position <= self.reader@.len()
    }

    /// Creates a new `BitStreamFileReader` over the given bytes.
    pub fn new(reader: Vec<u8>) -> (r: Self)
        ensures
            r.wf(),
            r.source() == reader@,
            r.cursor() == 0,
            r.model() == (ReaderModel {
                queued: Seq::<(Seq<u8>, bool)>::empty(),
                bitstream_serial_number: 0,
                page_sequence_number: 0,
                granule_position: 0,
                is_eos: false,
            }),
    {
        BitStreamFileReader { inner: ReaderCore::new(), reader, position: 0 }
    }

    /// Consumes the `BitStreamFileReader` and returns the byte source.
    pub fn into_inner(self) -> (r: Vec<u8>)
        ensures
            r@ == self.source(),
    {
        self.reader
    }

    /// Reads the next packet; recoverable conditions surface as
    /// `ReadStatus::Missing` and `ReadStatus::Eof`.
    pub fn read_packet(&mut self, packet: &mut Packet) -> (r: Result<
        ReadStatus,
        BitstreamReadError,
    >)
        requires
            old(self).wf(),
        ensures
            final(self).wf(),
            final(self).source() == old(self).source(),
            next_packet_post(
                old(self).model(),
                final(self).model(),
                old(self).source(),
                old(self).cursor(),
                final(packet)@,
                match r {
                    Ok(s) => Ok(s),
                    Err(e) => Err(core_read_error_of(e)),
                },
                final(self).cursor(),
            ),
    {
        let (res, newpos) = self.inner.next_packet(self.reader.as_slice(), self.position, packet);
        self.position = newpos;
        let out = match res {
            Ok(s) => Ok(s),
            Err(e) => Err(lift_read_error(e)),
        };
        proof {
            assert((match out {
                Ok(s) => Ok::<ReadStatus, ReadError>(s),
                Err(e) => Err(core_read_error_of(e)),
            }) == res);
        }
        out
    }

    /// Repositions the reader on the first packet at or after the target
    /// granule position for the given logical bitstream.
    pub fn seek(&mut self, bitstream_serial_number: u32, target_granule_position: u64) -> (r:
        Result<(), BitstreamReadError>)
        requires
            old(self).wf(),
        ensures
            final(self).wf(),
            final(self).source() == old(self).source(),
            final(self).model().queued.len() == 0,
            target_granule_position == 0 ==> final(self).cursor() == 0,
            target_granule_position == 0xFFFF_FFFF_FFFF_FFFFu64 ==> final(self).cursor() == old(
                self,
            ).source().len(),
            r == Ok::<(), BitstreamReadError>(()),
    {
        let newpos = self.inner.seek(
            self.reader.as_slice(),
            bitstream_serial_number,
            target_granule_position,
        );
        self.position = newpos;
        Ok(())
    }
}

/// Generic OGG bitstream stream reader over an in-memory, sequential
/// source.
#[derive(Clone, Debug)]
pub struct BitStreamStreamReader {
    inner: ReaderCore,
    reader: Vec<u8>,
    position: usize,
}

impl BitStreamStreamReader {
    /// The byte source being read.
    pub closed spec fn source(self) -> Seq<u8> {
        self.reader@
    }

    /// The read position inside the source.
    pub closed spec fn cursor(self) -> int {
        self.position as int
    }

    /// The reader's observable state.
    pub closed spec fn model(self) -> ReaderModel {
        rmodel(self.inner)
    }

    /// The reader is in a usable state.
    pub closed spec fn wf(self) -> bool {
        reader_wf(self.inner) && self.position <= self.reader@.len()
    }

    /// Creates a new `BitStreamStreamReader` over the given bytes.
    pub fn new(reader: Vec<u8>) -> (r: Self)
        ensures
            r.wf(),
            r.source() == reader@,
            r.cursor() == 0,
            r.model() == (ReaderModel {
                queued: Seq::<(Seq<u8>, bool)>::empty(),
                bitstream_serial_number: 0,
                page_sequence_number: 0,
                granule_position: 0,
                is_eos: false,
            }),
    {
        BitStreamStreamReader { inner: ReaderCore::new(), reader, position: 0 }
    }

    /// Consumes the `BitStreamStreamReader` and returns the byte source.
    pub fn into_inner(self) -> (r: Vec<u8>)
        ensures
            r@ == self.source(),
    {
        self.reader
    }

    /// Reads the next packet; as `BitStreamFileReader::read_packet`.
    pub fn read_packet(&mut self, packet: &mut Packet) -> (r: Result<
        ReadStatus,
        BitstreamReadError,
    >)
        requires
            old(self).wf(),
        ensures
            final(self).wf(),
            final(self).source() == old(self).source(),
            next_packet_post(
                old(self).model(),
                final(self).model(),
                old(self).source(),
                old(self).cursor(),
                final(packet)@,
                match r {
                    Ok(s) => Ok(s),
                    Err(e) => Err(core_read_error_of(e)),
                },
                final(self).cursor(),
            ),
    {
        let (res, newpos) = self.inner.next_packet(self.reader.as_slice(), self.position, packet);
        self.position = newpos;
        let out = match res {
            Ok(s) => Ok(s),
            Err(e) => Err(lift_read_error(e)),
        };
        proof {
            assert((match out {
                Ok(s) => Ok::<ReadStatus, ReadError>(s),
                Err(e) => Err(core_read_error_of(e)),
            }) == res);
        }
        out
    }
}

/// The type of a written packet.
#[derive(Clone, Copy, Debug, Eq, PartialEq)]
pub enum PacketType {
    /// The packet marks the beginning of a sequence.
    Bos,
    /// The packet is inside of a sequence.
    Normal,
    /// The packet marks the end of a sequence.
    Eos,
}

/// The header-type flag byte of each packet type.
pub open spec fn packet_type_flag(t: PacketType) -> u8 {
    match t {
        PacketType::Bos => BOS_VALUE,
        PacketType::Normal => 0,
        PacketType::Eos => EOS_VALUE,
    }
}

/// Generic OGG bitstream writer: frames each packet as one page of its own
/// and appends it to the sink, counting pages from 0.
pub struct BitStreamWriter {
    state: StreamState,
}

impl BitStreamWriter {
    /// The sequence number the next written page will carry.
    pub closed spec fn next_page_sequence_number(self) -> u32 {
        self.state.page_sequence_number
    }

    /// The writer is between packets: nothing half-framed.
    pub closed spec fn wf(self) -> bool {
        &&& state_wf(self.state)
        &&& self.state.data_buffer@.len() == 0
        &&& self.state.packet_sizes@.len() == 0
        &&& self.state.lace_count == 0
        &&& !self.state.last_packet_continues
        &&& self.state.header_type == 0
    }

    /// Creates a new `BitStreamWriter`, numbering pages from 0.
    pub fn new() -> (w: Self)
        ensures
            w.wf(),
            w.next_page_sequence_number() == 0,
    {
        BitStreamWriter { state: StreamState::new() }
    }

    /// Frames the given data as a packet on a page of its own and appends
    /// the page to the writer.
    pub fn write_packet(
        &mut self,
        writer: &mut Vec<u8>,
        packet_data: &[u8],
        bitstream_serial_number: u64,
        granule_position: u64,
        packet_type: PacketType,
    ) -> (r: Result<(), BitstreamWriteError>)
        requires
            old(self).wf(),
        ensures
            final(self).wf(),
            match r {
                Ok(()) => {
                    &&& bitstream_serial_number <= 0xFFFF_FFFFu64
                    &&& packet_data@.len() < MAX_PAGE_DATA_SIZE
                    &&& final(writer)@ == old(writer)@ + page_bytes(
                        PageRec {
                            header_type: packet_type_flag(packet_type),
                            granule_position,
                            bitstream_serial_number: bitstream_serial_number as u32,
                            page_sequence_number: old(self).next_page_sequence_number(),
                            lacing: packet_lacing(packet_data@.len() as int),
                            payload: packet_data@,
                        },
                    )
                    &&& final(self).next_page_sequence_number() == seq_succ(
                        old(self).next_page_sequence_number(),
                    )
                },
                Err(BitstreamWriteError::TryFromIntError) => {
                    &&& bitstream_serial_number > 0xFFFF_FFFFu64
                    &&& *final(writer) == *old(writer)
                    &&& *final(self) == *old(self)
                },
                Err(BitstreamWriteError::InitialPacketTooBig) => {
                    &&& bitstream_serial_number <= 0xFFFF_FFFFu64
                    &&& packet_data@.len() >= MAX_PAGE_DATA_SIZE
                    &&& *final(writer) == *old(writer)
                    &&& *final(self) == *old(self)
                },
                Err(_) => false,
            },
    {
        if bitstream_serial_number > 0xFFFF_FFFFu64 {
            return Err(BitstreamWriteError::TryFromIntError);
        }
        if packet_data.len() >= MAX_PAGE_DATA_SIZE {
            return Err(BitstreamWriteError::InitialPacketTooBig);
        }
        self.state.bitstream_serial_number = bitstream_serial_number as u32;
        self.state.granule_position = granule_position;
        self.state.header_type = match packet_type {
            PacketType::Bos => crate::format::BOS_VALUE,
            PacketType::Normal => 0,
            PacketType::Eos => crate::format::EOS_VALUE,
        };
        proof {
            assert(self.state.packet_sizes@ =~= Seq::<usize>::empty());
            assert(self.state.data_buffer@ =~= Seq::<u8>::empty());
        }
        push_packet(&mut self.state, packet_data);
        proof {
            crate::format::lemma_sizes_snoc(Seq::<usize>::empty(), packet_data@.len() as usize);
            assert(crate::writer::state_lacing(self.state) =~= packet_lacing(
                packet_data@.len() as int,
            ));
            assert(self.state.data_buffer@ =~= packet_data@);
        }
        write_page(writer, &mut self.state);
        self.state.header_type = 0;
        Ok(())
    }

    /// Nothing is ever held back by this writer — every packet leaves in
    /// `write_packet` — so there is nothing to flush.
    pub fn flush(&mut self, writer: &mut Vec<u8>) -> (r: Result<(), BitstreamWriteError>)
        requires
            old(self).wf(),
        ensures
            final(self).wf(),
            *final(self) == *old(self),
            *final(writer) == *old(writer),
            r == Ok::<(), BitstreamWriteError>(()),
    {
        Ok(())
    }
}

} // verus!
