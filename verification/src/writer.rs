//! The OGG page writer: per-stream buffering, segment-table construction,
//! page assembly with checksum, and splitting of oversize packets.

use vstd::prelude::*;

use crate::crc32::crc32;
use crate::format::lace_run;
use crate::format::lemma_lace_sum_lace_run;
use crate::format::lemma_page_bytes_len;
use crate::format::lemma_pages_bytes_push;
use crate::format::lemma_sizes_lacing_props;
use crate::format::lemma_sizes_snoc;
use crate::format::packet_lacing;
use crate::format::page_bytes;
use crate::format::page_crc;
use crate::format::page_prefix_bytes;
use crate::format::page_wf;
use crate::format::pages_bytes;
use crate::format::push_u32_le;
use crate::format::push_u64_le;
use crate::format::sizes_lace_count;
use crate::format::sizes_lacing;
use crate::format::sizes_sum;
use crate::format::PageRec;
use crate::format::BOS_VALUE;
use crate::format::CONTINUATION_VALUE;
use crate::format::EOS_VALUE;
use crate::format::MAX_PAGE_DATA_SIZE;
use crate::format::NO_GRANULE_POSITION;
use crate::write_error::WriteError;

verus! {

/// The page sequence number that follows `x`, wrapping at 32 bits.
pub open spec fn seq_succ(x: u32) -> u32 {
    if x == 0xFFFF_FFFFu32 {
        0
    } else {
        (x + 1) as u32
    }
}

/// A count reduced to a 32-bit page sequence number.
pub open spec fn w32(n: int) -> u32 {
    (n % 0x1_0000_0000) as u32
}

/// `n + 1` reduced to 32 bits follows `n` reduced to 32 bits.
pub proof fn lemma_w32_succ(n: int)
    requires
        n >= 0,
    ensures
        w32(n + 1) == seq_succ(w32(n)),
{
}

/// The header-type values the writer emits, against the
/// beginning-of-stream bit.
pub proof fn lemma_header_bits()
    ensures
        BOS_VALUE & BOS_VALUE != 0,
        0u8 & BOS_VALUE == 0,
        CONTINUATION_VALUE & BOS_VALUE == 0,
        EOS_VALUE & BOS_VALUE == 0,
        CONTINUATION_VALUE & CONTINUATION_VALUE != 0,
{
    assert(2u8 & 2u8 != 0 && 0u8 & 2u8 == 0 && 1u8 & 2u8 == 0 && 4u8 & 2u8 == 0 && 1u8 & 1u8 != 0)
        by (bit_vector);
}

/// How many pages of serial `serial` stand in `h` after the last page of
/// that serial that carries the beginning-of-stream flag (that page
/// included); all of them, if none carries it.
pub open spec fn count_since_bos(h: Seq<PageRec>, serial: u32) -> int
    decreases h.len(),
{
    if h.len() == 0 {
        0
    } else if h.last().bitstream_serial_number == serial {
        if h.last().header_type & BOS_VALUE != 0 {
            1
        } else {
            count_since_bos(h.drop_last(), serial) + 1
        }
    } else {
        count_since_bos(h.drop_last(), serial)
    }
}

/// The count is never negative.
pub proof fn lemma_count_since_bos_nonneg(h: Seq<PageRec>, serial: u32)
    ensures
        count_since_bos(h, serial) >= 0,
    decreases h.len(),
{
    if h.len() != 0 {
        lemma_count_since_bos_nonneg(h.drop_last(), serial);
    }
}

/// How appending one page moves the count of each serial.
pub proof fn lemma_count_since_bos_push(h: Seq<PageRec>, rec: PageRec, serial: u32)
    ensures
        count_since_bos(h.push(rec), serial) == if rec.bitstream_serial_number != serial {
            count_since_bos(h, serial)
        } else if rec.header_type & BOS_VALUE != 0 {
            1
        } else {
            count_since_bos(h, serial) + 1
        },
{
    assert(h.push(rec).drop_last() =~= h);
    assert(h.push(rec).last() == rec);
}

/// Every page of a row is well laid out and numbered within its logical
/// stream: a beginning-of-stream page carries sequence number 0, and every
/// other page carries the count of pages of its serial since that serial's
/// last beginning-of-stream page.
pub open spec fn history_wf(h: Seq<PageRec>) -> bool {
    forall|k: int|
        0 <= k < h.len() ==> {
            &&& page_wf(#[trigger] h[k])
            &&& (h[k].header_type & BOS_VALUE != 0 ==> h[k].page_sequence_number == 0)
            &&& (h[k].header_type & BOS_VALUE == 0 ==> h[k].page_sequence_number == w32(
                count_since_bos(h.take(k), h[k].bitstream_serial_number),
            ))
        }
}

/// Appending a properly numbered page keeps a row properly numbered.
pub proof fn lemma_history_wf_push(h: Seq<PageRec>, rec: PageRec)
    requires
        history_wf(h),
        page_wf(rec),
        rec.header_type & BOS_VALUE != 0 ==> rec.page_sequence_number == 0,
        rec.header_type & BOS_VALUE == 0 ==> rec.page_sequence_number == w32(
            count_since_bos(h, rec.bitstream_serial_number),
        ),
    ensures
        history_wf(h.push(rec)),
{
    let h2 = h.push(rec);
    assert forall|k: int| 0 <= k < h2.len() implies {
        &&& page_wf(#[trigger] h2[k])
        &&& (h2[k].header_type & BOS_VALUE != 0 ==> h2[k].page_sequence_number == 0)
        &&& (h2[k].header_type & BOS_VALUE == 0 ==> h2[k].page_sequence_number == w32(
            count_since_bos(h2.take(k), h2[k].bitstream_serial_number),
        ))
    } by {
        if k < h.len() {
            assert(h2[k] == h[k]);
            assert(h2.take(k) =~= h.take(k));
        } else {
            assert(h2[k] == rec);
            assert(h2.take(k) =~= h);
        }
    }
}

/// The writer-internal state of one live logical bitstream.
pub(crate) struct StreamState {
    /// The serial number of the logical bitstream.
    pub(crate) bitstream_serial_number: u32,
    /// The payload bytes queued for the next page.
    pub(crate) data_buffer: Vec<u8>,
    /// The lengths of the packets queued for the next page, in order.
    pub(crate) packet_sizes: Vec<usize>,
    /// The number of laces the queued packets put into the segment table.
    pub(crate) lace_count: usize,
    /// The last queued packet spills over into the following page.
    pub(crate) last_packet_continues: bool,
    /// The sequence number of the next page to emit.
    pub(crate) page_sequence_number: u32,
    /// The granule position of the next page to emit.
    pub(crate) granule_position: u64,
    /// The header-type flags of the next page to emit.
    pub(crate) header_type: u8,
}

impl StreamState {
    /// A fresh stream state: nothing queued, numbering from page 0.
    pub(crate) fn new() -> (s: Self)
        ensures
            s.bitstream_serial_number == 0,
            s.data_buffer@ == Seq::<u8>::empty(),
            s.packet_sizes@ == Seq::<usize>::empty(),
            s.lace_count == 0,
            s.last_packet_continues == false,
            s.page_sequence_number == 0,
            s.granule_position == 0,
            s.header_type == 0,
    {
        StreamState {
            bitstream_serial_number: 0,
            data_buffer: Vec::new(),
            packet_sizes: Vec::new(),
            lace_count: 0,
            last_packet_continues: false,
            page_sequence_number: 0,
            granule_position: 0,
            header_type: 0,
        }
    }
}

/// The segment table that the queued packets will produce.
pub(crate) open spec fn state_lacing(s: StreamState) -> Seq<u8> {
    if s.last_packet_continues {
        lace_run(255)
    } else {
        sizes_lacing(s.packet_sizes@)
    }
}

/// The queued data agrees with the queued sizes and fits one page.
pub(crate) open spec fn state_wf(s: StreamState) -> bool {
    &&& s.data_buffer@.len() == sizes_sum(s.packet_sizes@)
    &&& s.data_buffer@.len() <= MAX_PAGE_DATA_SIZE
    &&& (!s.last_packet_continues ==> s.lace_count == sizes_lace_count(s.packet_sizes@))
    &&& state_lacing(s).len() <= 255
    &&& (s.last_packet_continues ==> s.packet_sizes@ == seq![MAX_PAGE_DATA_SIZE]
        && s.data_buffer@.len() == MAX_PAGE_DATA_SIZE)
}

/// The page that the state would emit now.
pub(crate) open spec fn state_page(s: StreamState) -> PageRec {
    PageRec {
        header_type: s.header_type,
        granule_position: s.granule_position,
        bitstream_serial_number: s.bitstream_serial_number,
        page_sequence_number: s.page_sequence_number,
        lacing: state_lacing(s),
        payload: s.data_buffer@,
    }
}

/// The page a well-formed state emits is itself well formed.
pub(crate) proof fn lemma_state_page_wf(s: StreamState)
    requires
        state_wf(s),
    ensures
        page_wf(state_page(s)),
{
    if s.last_packet_continues {
        lemma_lace_sum_lace_run(255);
    } else {
        lemma_sizes_lacing_props(s.packet_sizes@);
    }
}

/// Queues one packet that ends on the page being assembled.
pub(crate) fn push_packet(state: &mut StreamState, packet_data: &[u8])
    requires
        state_wf(*old(state)),
        !old(state).last_packet_continues,
        old(state).data_buffer@.len() + packet_data@.len() <= MAX_PAGE_DATA_SIZE,
        sizes_lace_count(old(state).packet_sizes@) + packet_data@.len() as int / 255 + 1 <= 255,
    ensures
        state_wf(*final(state)),
        final(state).data_buffer@ == old(state).data_buffer@ + packet_data@,
        final(state).packet_sizes@ == old(state).packet_sizes@.push(packet_data@.len() as usize),
        final(state).last_packet_continues == false,
        final(state).bitstream_serial_number == old(state).bitstream_serial_number,
        final(state).page_sequence_number == old(state).page_sequence_number,
        final(state).granule_position == old(state).granule_position,
        final(state).header_type == old(state).header_type,
{
    let size = packet_data.len();
    proof {
        lemma_sizes_snoc(state.packet_sizes@, size);
        lemma_sizes_lacing_props(state.packet_sizes@.push(size));
    }
    state.packet_sizes.push(size);
    state.data_buffer.extend_from_slice(packet_data);
    state.lace_count = state.lace_count + size / 255 + 1;
}

/// Queues one full-page slice of a packet that continues on the next page.
pub(crate) fn push_continued_slice(state: &mut StreamState, slice_data: &[u8])
    requires
        state_wf(*old(state)),
        old(state).data_buffer@.len() == 0,
        old(state).packet_sizes@.len() == 0,
        slice_data@.len() == MAX_PAGE_DATA_SIZE,
    ensures
        state_wf(*final(state)),
        final(state).data_buffer@ == slice_data@,
        final(state).last_packet_continues == true,
        final(state).bitstream_serial_number == old(state).bitstream_serial_number,
        final(state).page_sequence_number == old(state).page_sequence_number,
        final(state).granule_position == old(state).granule_position,
        final(state).header_type == old(state).header_type,
{
    let size = slice_data.len();
    proof {
        lemma_sizes_snoc(state.packet_sizes@, size);
    }
    state.packet_sizes.push(size);
    state.data_buffer.extend_from_slice(slice_data);
    state.last_packet_continues = true;
    proof {
        assert(state.packet_sizes@ =~= seq![MAX_PAGE_DATA_SIZE]);
        assert(state.data_buffer@ =~= slice_data@);
        assert(sizes_sum(seq![MAX_PAGE_DATA_SIZE]) == MAX_PAGE_DATA_SIZE as int) by {
            assert(seq![MAX_PAGE_DATA_SIZE].drop_last() =~= Seq::<usize>::empty());
        }
        assert(sizes_lace_count(seq![MAX_PAGE_DATA_SIZE]) == 256) by {
            assert(seq![MAX_PAGE_DATA_SIZE].drop_last() =~= Seq::<usize>::empty());
        }
    }
}

/// Assembles the queued packets into one page, computes its checksum, writes
/// it to the sink, and resets the queue for the next page.
pub(crate) fn write_page(out: &mut Vec<u8>, state: &mut StreamState)
    requires
        state_wf(*old(state)),
    ensures
        state_wf(*final(state)),
        final(out)@ == old(out)@ + page_bytes(state_page(*old(state))),
        final(state).bitstream_serial_number == old(state).bitstream_serial_number,
        final(state).granule_position == old(state).granule_position,
        final(state).header_type == old(state).header_type,
        final(state).page_sequence_number == seq_succ(old(state).page_sequence_number),
        final(state).data_buffer@ == Seq::<u8>::empty(),
        final(state).packet_sizes@ == Seq::<usize>::empty(),
        final(state).last_packet_continues == false,
        final(state).lace_count == 0,
{
    let ghost rec = state_page(*state);
    let mut page: Vec<u8> = Vec::new();
    page.push(0x4Fu8);
    page.push(0x67u8);
    page.push(0x67u8);
    page.push(0x53u8);
    page.push(0u8);
    page.push(state.header_type);
    push_u64_le(&mut page, state.granule_position);
    push_u32_le(&mut page, state.bitstream_serial_number);
    push_u32_le(&mut page, state.page_sequence_number);
    page.push(0u8);
    page.push(0u8);
    page.push(0u8);
    page.push(0u8);
    let segment_count: u8 = if state.last_packet_continues {
        255u8
    } else {
        proof {
            lemma_sizes_lacing_props(state.packet_sizes@);
        }
        state.lace_count as u8
    };
    page.push(segment_count);
    let ghost table_base = page@;

    // The segment table.
    if state.last_packet_continues {
        let mut k: usize = 0;
        while k < 255
            invariant
                k <= 255,
                page@ == table_base + lace_run(k as int),
            decreases 255 - k,
        {
            page.push(255u8);
            proof {
                assert(page@ =~= table_base + lace_run(k + 1));
            }
            k = k + 1;
        }
    } else {
        let n = state.packet_sizes.len();
        let mut i: usize = 0;
        proof {
            assert(state.packet_sizes@.take(0) =~= Seq::<usize>::empty());
            assert(page@ =~= table_base + sizes_lacing(state.packet_sizes@.take(0)));
        }
        while i < n
            invariant
                i <= n,
                n == state.packet_sizes@.len(),
                state_wf(*state),
                !state.last_packet_continues,
                page@ == table_base + sizes_lacing(state.packet_sizes@.take(i as int)),
            decreases n - i,
        {
            let size = state.packet_sizes[i];
            let full: usize = size / 255;
            let rem: usize = size % 255;
            let ghost row_base = page@;
            let mut k: usize = 0;
            while k < full
                invariant
                    k <= full,
                    page@ == row_base + lace_run(k as int),
                decreases full - k,
            {
                page.push(255u8);
                proof {
                    assert(page@ =~= row_base + lace_run(k + 1));
                }
                k = k + 1;
            }
            page.push(rem as u8);
            proof {
                assert(page@ =~= row_base + packet_lacing(size as int));
                assert(state.packet_sizes@.take(i + 1).drop_last() =~= state.packet_sizes@.take(
                    i as int,
                ));
                assert(state.packet_sizes@.take(i + 1).last() == state.packet_sizes@[i as int]);
                assert(sizes_lacing(state.packet_sizes@.take(i + 1)) == sizes_lacing(
                    state.packet_sizes@.take(i as int),
                ) + packet_lacing(size as int));
                assert(page@ =~= table_base + sizes_lacing(state.packet_sizes@.take(i + 1)));
            }
            i = i + 1;
        }
        proof {
            assert(state.packet_sizes@.take(n as int) =~= state.packet_sizes@);
        }
    }

    // The payload.
    page.extend_from_slice(state.data_buffer.as_slice());
    proof {
        assert(page@ =~= page_prefix_bytes(rec));
        lemma_page_bytes_len(rec);
    }

    // The checksum, spliced over its zeroed placeholder.
    let crc = crc32(page.as_slice());
    page.set(22, (crc % 0x100) as u8);
    page.set(23, ((crc / 0x100) % 0x100) as u8);
    page.set(24, ((crc / 0x1_0000) % 0x100) as u8);
    page.set(25, ((crc / 0x100_0000) % 0x100) as u8);
    proof {
        reveal(crate::format::page_bytes);
        assert(crc == page_crc(rec));
        assert(page@ =~= page_bytes(rec));
    }

    out.append(&mut page);

    state.packet_sizes.clear();
    state.data_buffer.clear();
    state.lace_count = 0;
    state.last_packet_continues = false;
    state.page_sequence_number = if state.page_sequence_number == 0xFFFF_FFFFu32 {
        0
    } else {
        state.page_sequence_number + 1
    };
}

/// The outward model of one live logical bitstream inside the writer.
pub struct StreamModel {
    /// The payload bytes queued for the next page.
    pub buffered: Seq<u8>,
    /// The lengths of the packets queued for the next page.
    pub packet_sizes: Seq<usize>,
    /// The sequence number of the next page to emit.
    pub page_sequence_number: u32,
    /// The granule position the next page would carry.
    pub granule_position: u64,
}

/// The model of a stream state.
pub(crate) open spec fn model_of(s: StreamState) -> StreamModel {
    StreamModel {
        buffered: s.data_buffer@,
        packet_sizes: s.packet_sizes@,
        page_sequence_number: s.page_sequence_number,
        granule_position: s.granule_position,
    }
}

/// No two live streams share a serial number.
pub(crate) open spec fn serials_unique(states: Seq<StreamState>) -> bool {
    forall|i: int, j: int|
        0 <= i < j < states.len() ==> (#[trigger] states[i].bitstream_serial_number) != (
        #[trigger] states[j].bitstream_serial_number)
}

/// The index of the live stream with the given serial.
pub(crate) open spec fn stream_where(states: Seq<StreamState>, serial: u32) -> int {
    choose|i: int| 0 <= i < states.len() && states[i].bitstream_serial_number == serial
}

/// A live stream between public calls: well formed, no flags pending, no
/// packet hanging over into the next page, and numbered by the pages of its
/// serial that stand in the history since its beginning-of-stream page.
pub(crate) open spec fn live_state_ok(s: StreamState, h: Seq<PageRec>) -> bool {
    &&& state_wf(s)
    &&& s.header_type == 0
    &&& !s.last_packet_continues
    &&& s.page_sequence_number == w32(count_since_bos(h, s.bitstream_serial_number))
}

/// Generic OGG stream writer: frames packets of any number of logical
/// bitstreams into pages and appends the pages to an in-memory sink.
pub struct StreamWriter {
    writer: Vec<u8>,
    stream_states: Vec<StreamState>,
    base: Ghost<Seq<u8>>,
    history: Ghost<Seq<PageRec>>,
}

impl StreamWriter {
    /// The bytes written so far, the initial sink content included.
    pub closed spec fn sink(self) -> Seq<u8> {
        self.writer@
    }

    /// The sink content the writer was created over.
    pub closed spec fn initial_sink(self) -> Seq<u8> {
        self.base@
    }

    /// The pages emitted so far, in order.
    pub closed spec fn pages(self) -> Seq<PageRec> {
        self.history@
    }

    /// A live logical bitstream with this serial exists.
    pub closed spec fn has_stream(self, serial: u32) -> bool {
        has_in(self.stream_states@, serial)
    }

    /// The model of the live logical bitstream with this serial.
    pub closed spec fn stream(self, serial: u32) -> StreamModel {
        model_in(self.stream_states@, serial)
    }

    /// The writer's invariant: the sink is the initial content followed by
    /// the emitted pages, the history is well numbered, serials are unique,
    /// and every live stream is in a clean between-calls state.
    #[verifier::opaque]
    pub closed spec fn wf(self) -> bool {
        &&& self.writer@ == self.base@ + pages_bytes(self.history@)
        &&& history_wf(self.history@)
        &&& serials_unique(self.stream_states@)
        &&& forall|i: int|
            0 <= i < self.stream_states@.len() ==> live_state_ok(
                #[trigger] self.stream_states@[i],
                self.history@,
            )
    }
}

/// A live stream with this serial stands in the row of states.
pub(crate) open spec fn has_in(states: Seq<StreamState>, serial: u32) -> bool {
    exists|i: int| 0 <= i < states.len() && states[i].bitstream_serial_number == serial
}

/// The model of the live stream with this serial.
pub(crate) open spec fn model_in(states: Seq<StreamState>, serial: u32) -> StreamModel {
    model_of(states[stream_where(states, serial)])
}

/// The pages that beginning a logical stream emits: one page carrying the
/// first packet, or — when that packet fills a page to the last lace, so
/// that its terminating lace cannot follow it — that full page and a
/// continuation page holding only the terminating lace.
pub open spec fn begin_pages(serial: u32, d: Seq<u8>) -> Seq<PageRec> {
    if d.len() < MAX_PAGE_DATA_SIZE {
        seq![
            PageRec {
                header_type: BOS_VALUE,
                granule_position: 0,
                bitstream_serial_number: serial,
                page_sequence_number: 0,
                lacing: packet_lacing(d.len() as int),
                payload: d,
            },
        ]
    } else {
        seq![
            PageRec {
                header_type: BOS_VALUE,
                granule_position: NO_GRANULE_POSITION,
                bitstream_serial_number: serial,
                page_sequence_number: 0,
                lacing: lace_run(255),
                payload: d,
            },
            PageRec {
                header_type: CONTINUATION_VALUE,
                granule_position: 0,
                bitstream_serial_number: serial,
                page_sequence_number: 1,
                lacing: seq![0u8],
                payload: Seq::empty(),
            },
        ]
    }
}

/// The page that flushing the queued packets emits.
pub open spec fn flush_page(st: StreamModel, serial: u32) -> PageRec {
    PageRec {
        header_type: 0,
        granule_position: st.granule_position,
        bitstream_serial_number: serial,
        page_sequence_number: st.page_sequence_number,
        lacing: sizes_lacing(st.packet_sizes),
        payload: st.buffered,
    }
}

/// The page emitted when a pushed packet fills the buffer exactly.
pub open spec fn full_page(st: StreamModel, serial: u32, d: Seq<u8>, granule: u64) -> PageRec {
    PageRec {
        header_type: 0,
        granule_position: granule,
        bitstream_serial_number: serial,
        page_sequence_number: st.page_sequence_number,
        lacing: sizes_lacing(st.packet_sizes.push(d.len() as usize)),
        payload: st.buffered + d,
    }
}

/// The pages of a packet split over several pages, starting from an empty
/// buffer: full slices under the no-granule mark, then a final slice — empty
/// when the length is an exact multiple of the page capacity — that carries
/// the real granule position and the terminating lace.
pub open spec fn split_pages(serial: u32, seq0: u32, granule: u64, first_header: u8, d: Seq<u8>) -> Seq<
    PageRec,
>
    decreases d.len(),
{
    if d.len() < MAX_PAGE_DATA_SIZE {
        seq![
            PageRec {
                header_type: CONTINUATION_VALUE,
                granule_position: granule,
                bitstream_serial_number: serial,
                page_sequence_number: seq0,
                lacing: packet_lacing(d.len() as int),
                payload: d,
            },
        ]
    } else {
        seq![
            PageRec {
                header_type: first_header,
                granule_position: NO_GRANULE_POSITION,
                bitstream_serial_number: serial,
                page_sequence_number: seq0,
                lacing: lace_run(255),
                payload: d.take(MAX_PAGE_DATA_SIZE as int),
            },
        ] + split_pages(
            serial,
            seq_succ(seq0),
            granule,
            CONTINUATION_VALUE,
            d.skip(MAX_PAGE_DATA_SIZE as int),
        )
    }
}

/// A pushed packet fits the page being assembled: its bytes fit the buffer
/// and its laces fit the segment table.
pub open spec fn push_fits(st: StreamModel, n: int) -> bool {
    &&& st.buffered.len() + n <= MAX_PAGE_DATA_SIZE
    &&& sizes_lace_count(st.packet_sizes) + n / 255 + 1 <= 255
}

/// The pages that pushing one packet emits. The open page leaves first
/// when the packet does not fit it: always because its bytes or laces are
/// in the way — an open page holding queued packets but no bytes (only
/// zero-length packets) blocks a packet only when the segment table itself
/// is where the room is missing, and must leave then too, since no later
/// page could carry its laces.
pub open spec fn push_pages(st: StreamModel, serial: u32, d: Seq<u8>, granule: u64) -> Seq<
    PageRec,
> {
    if push_fits(st, d.len() as int) {
        if st.buffered.len() + d.len() == MAX_PAGE_DATA_SIZE {
            seq![full_page(st, serial, d, granule)]
        } else {
            Seq::empty()
        }
    } else if st.packet_sizes.len() > 0 {
        if d.len() < MAX_PAGE_DATA_SIZE {
            seq![flush_page(st, serial)]
        } else {
            seq![flush_page(st, serial)] + split_pages(
                serial,
                seq_succ(st.page_sequence_number),
                granule,
                0,
                d,
            )
        }
    } else {
        split_pages(serial, st.page_sequence_number, granule, 0, d)
    }
}

/// The state of the stream after pushing one packet.
pub open spec fn push_stream_after(st: StreamModel, serial: u32, d: Seq<u8>, granule: u64) -> StreamModel {
    if push_fits(st, d.len() as int) {
        if st.buffered.len() + d.len() == MAX_PAGE_DATA_SIZE {
            StreamModel {
                buffered: Seq::empty(),
                packet_sizes: Seq::empty(),
                page_sequence_number: seq_succ(st.page_sequence_number),
                granule_position: granule,
            }
        } else {
            StreamModel {
                buffered: st.buffered + d,
                packet_sizes: st.packet_sizes.push(d.len() as usize),
                page_sequence_number: st.page_sequence_number,
                granule_position: granule,
            }
        }
    } else if st.packet_sizes.len() > 0 && d.len() < MAX_PAGE_DATA_SIZE {
        StreamModel {
            buffered: d,
            packet_sizes: seq![d.len() as usize],
            page_sequence_number: seq_succ(st.page_sequence_number),
            granule_position: granule,
        }
    } else {
        StreamModel {
            buffered: Seq::empty(),
            packet_sizes: Seq::empty(),
            page_sequence_number: seq_succ(
                push_pages(st, serial, d, granule).last().page_sequence_number,
            ),
            granule_position: granule,
        }
    }
}

/// The pages that flushing emits: the open page when it holds payload
/// bytes, nothing otherwise. A flush of an empty buffer is a no-op — no
/// empty page is ever written — so queued zero-length packets stay queued.
pub open spec fn flush_pages(st: StreamModel, serial: u32) -> Seq<PageRec> {
    if st.buffered.len() > 0 {
        seq![flush_page(st, serial)]
    } else {
        Seq::empty()
    }
}

/// The state of the stream after flushing.
pub open spec fn flush_stream_after(st: StreamModel) -> StreamModel {
    if st.buffered.len() > 0 {
        StreamModel {
            buffered: Seq::empty(),
            packet_sizes: Seq::empty(),
            page_sequence_number: seq_succ(st.page_sequence_number),
            granule_position: st.granule_position,
        }
    } else {
        st
    }
}

/// Ending a logical stream must write the open page first when it holds
/// payload bytes — and also in the one byteless corner where the laces of
/// queued zero-length packets leave no room in the segment table for the
/// last packet's laces, which could otherwise not be framed at all.
pub open spec fn end_needs_flush(st: StreamModel, d: Seq<u8>) -> bool {
    st.buffered.len() > 0 || sizes_lace_count(st.packet_sizes) + d.len() as int / 255 + 1 > 255
}

/// The pages that ending a logical stream emits: the open page if it must
/// be written first, then the end-of-stream page carrying the last packet —
/// together with any still-queued zero-length packets when the open page
/// held no bytes and was therefore not written.
pub open spec fn end_pages(st: StreamModel, serial: u32, d: Seq<u8>, granule: u64) -> Seq<
    PageRec,
> {
    if end_needs_flush(st, d) {
        seq![
            flush_page(st, serial),
            PageRec {
                header_type: EOS_VALUE,
                granule_position: granule,
                bitstream_serial_number: serial,
                page_sequence_number: seq_succ(st.page_sequence_number),
                lacing: packet_lacing(d.len() as int),
                payload: d,
            },
        ]
    } else {
        seq![
            PageRec {
                header_type: EOS_VALUE,
                granule_position: granule,
                bitstream_serial_number: serial,
                page_sequence_number: st.page_sequence_number,
                lacing: sizes_lacing(st.packet_sizes.push(d.len() as usize)),
                payload: st.buffered + d,
            },
        ]
    }
}

/// Streams other than `serial` are the same in `a` and `b`.
pub open spec fn streams_unchanged_except(a: StreamWriter, b: StreamWriter, serial: u32) -> bool {
    forall|s: u32|
        s != serial ==> {
            &&& (#[trigger] a.has_stream(s)) == b.has_stream(s)
            &&& (a.has_stream(s) ==> a.stream(s) == b.stream(s))
        }
}

/// All streams are the same in `a` and `b`.
pub open spec fn streams_unchanged(a: StreamWriter, b: StreamWriter) -> bool {
    forall|s: u32|
        {
            &&& (#[trigger] a.has_stream(s)) == b.has_stream(s)
            &&& (a.has_stream(s) ==> a.stream(s) == b.stream(s))
        }
}

/// What one emission does to the history: the new page extends the
/// numbering, the live streams of other serials keep their counts, and the
/// emitting stream's count moves up by one (or to one, from its
/// beginning-of-stream page).
proof fn lemma_emit_history(h0: Seq<PageRec>, rec: PageRec, states: Seq<StreamState>)
    requires
        history_wf(h0),
        page_wf(rec),
        rec.header_type & BOS_VALUE != 0 ==> rec.page_sequence_number == 0,
        rec.header_type & BOS_VALUE == 0 ==> rec.page_sequence_number == w32(
            count_since_bos(h0, rec.bitstream_serial_number),
        ),
        forall|j: int|
            0 <= j < states.len() ==> (#[trigger] states[j].bitstream_serial_number)
                != rec.bitstream_serial_number,
        forall|i: int| 0 <= i < states.len() ==> live_state_ok(#[trigger] states[i], h0),
    ensures
        history_wf(h0.push(rec)),
        forall|i: int| 0 <= i < states.len() ==> live_state_ok(#[trigger] states[i], h0.push(rec)),
        count_since_bos(h0.push(rec), rec.bitstream_serial_number) == if rec.header_type
            & BOS_VALUE != 0 {
            1
        } else {
            count_since_bos(h0, rec.bitstream_serial_number) + 1
        },
        w32(count_since_bos(h0.push(rec), rec.bitstream_serial_number)) == seq_succ(
            rec.page_sequence_number,
        ),
{
    lemma_count_since_bos_nonneg(h0, rec.bitstream_serial_number);
    lemma_count_since_bos_push(h0, rec, rec.bitstream_serial_number);
    lemma_history_wf_push(h0, rec);
    if rec.header_type & BOS_VALUE == 0 {
        lemma_w32_succ(count_since_bos(h0, rec.bitstream_serial_number));
    }
    assert forall|i: int| 0 <= i < states.len() implies live_state_ok(
        #[trigger] states[i],
        h0.push(rec),
    ) by {
        lemma_count_since_bos_push(h0, rec, states[i].bitstream_serial_number);
    }
}

/// With unique serials, any index holding `serial` is the index that the
/// model reads through.
proof fn lemma_stream_where_is(states: Seq<StreamState>, serial: u32, i: int)
    requires
        serials_unique(states),
        0 <= i < states.len(),
        states[i].bitstream_serial_number == serial,
    ensures
        stream_where(states, serial) == i,
{
    let j = stream_where(states, serial);
    assert(0 <= j < states.len() && states[j].bitstream_serial_number == serial);
}

/// The model can be read through any index that holds the serial.
proof fn lemma_model_at(states: Seq<StreamState>, serial: u32, i: int)
    requires
        serials_unique(states),
        0 <= i < states.len(),
        states[i].bitstream_serial_number == serial,
    ensures
        has_in(states, serial),
        model_in(states, serial) == model_of(states[i]),
{
    lemma_stream_where_is(states, serial, i);
}

/// Removing the state at `i` by a swap with the last element keeps every
/// other stream as it was and removes exactly the stream at `i`.
proof fn lemma_swap_remove_states(states: Seq<StreamState>, i: int, s2: Seq<StreamState>)
    requires
        serials_unique(states),
        0 <= i < states.len(),
        s2 == states.update(i, states.last()).drop_last(),
    ensures
        serials_unique(s2),
        forall|j: int|
            0 <= j < s2.len() ==> (#[trigger] s2[j]) == states[j] || s2[j] == states[states.len()
                - 1],
        forall|j: int|
            0 <= j < s2.len() ==> (#[trigger] s2[j]).bitstream_serial_number
                != states[i].bitstream_serial_number,
        !has_in(s2, states[i].bitstream_serial_number),
        forall|s: u32|
            s != states[i].bitstream_serial_number ==> (#[trigger] has_in(s2, s)) == has_in(
                states,
                s,
            ) && (has_in(states, s) ==> model_in(s2, s) == model_in(states, s)),
{
    let n = states.len() as int;
    assert forall|j: int| 0 <= j < s2.len() implies (#[trigger] s2[j]) == states[j] || s2[j]
        == states[n - 1] by {}
    assert forall|j: int| 0 <= j < s2.len() implies (#[trigger] s2[j]).bitstream_serial_number
        != states[i].bitstream_serial_number by {
        if j != i {
            assert(s2[j] == states[j]);
        }
    }
    assert forall|s: u32|
        s != states[i].bitstream_serial_number && has_in(states, s) implies has_in(s2, s) by {
        let k = choose|k: int| 0 <= k < n && states[k].bitstream_serial_number == s;
        if k < n - 1 {
            assert(s2[k] == states[k]);
        } else {
            assert(i < n - 1);
            assert(s2[i] == states[n - 1]);
        }
    }
    assert forall|s: u32|
        s != states[i].bitstream_serial_number && has_in(s2, s) implies has_in(states, s)
        && model_in(s2, s) == model_in(states, s) by {
        let j2 = stream_where(s2, s);
        assert(0 <= j2 < s2.len() && s2[j2].bitstream_serial_number == s);
        if s2[j2] == states[j2] {
            lemma_model_at(states, s, j2);
        } else {
            assert(s2[j2] == states[n - 1]);
            lemma_model_at(states, s, n - 1);
        }
    }
}

/// Appending a state with a fresh serial adds that stream and keeps every
/// other stream as it was.
proof fn lemma_push_states(states: Seq<StreamState>, st: StreamState, s2: Seq<StreamState>)
    requires
        serials_unique(states),
        forall|j: int|
            0 <= j < states.len() ==> (#[trigger] states[j].bitstream_serial_number)
                != st.bitstream_serial_number,
        s2 == states.push(st),
    ensures
        serials_unique(s2),
        has_in(s2, st.bitstream_serial_number),
        model_in(s2, st.bitstream_serial_number) == model_of(st),
        forall|j: int|
            0 <= j < s2.len() ==> (#[trigger] s2[j]) == st || (j < states.len() && s2[j]
                == states[j]),
        forall|s: u32|
            s != st.bitstream_serial_number ==> (#[trigger] has_in(s2, s)) == has_in(states, s)
                && (has_in(states, s) ==> model_in(s2, s) == model_in(states, s)),
{
    let n = states.len() as int;
    lemma_model_at(s2, st.bitstream_serial_number, n);
    assert forall|s: u32| s != st.bitstream_serial_number && has_in(states, s) implies has_in(
        s2,
        s,
    ) by {
        let k = choose|k: int| 0 <= k < n && states[k].bitstream_serial_number == s;
        assert(s2[k] == states[k]);
    }
    assert forall|s: u32| s != st.bitstream_serial_number && has_in(s2, s) implies has_in(states, s)
        && model_in(s2, s) == model_in(states, s) by {
        let j2 = stream_where(s2, s);
        assert(0 <= j2 < s2.len() && s2[j2].bitstream_serial_number == s);
        assert(j2 < n);
        lemma_model_at(states, s, j2);
        lemma_model_at(s2, s, j2);
    }
}

/// Finds the live stream with the given serial.
fn find_stream(states: &Vec<StreamState>, serial: u32) -> (r: Option<usize>)
    ensures
        match r {
            Some(i) => i < states@.len() && states@[i as int].bitstream_serial_number == serial,
            None => forall|j: int|
                0 <= j < states@.len() ==> (#[trigger] states@[j].bitstream_serial_number)
                    != serial,
        },
{
    let n = states.len();
    let mut i: usize = 0;
    while i < n
        invariant
            i <= n,
            n == states@.len(),
            forall|j: int|
                0 <= j < i ==> (#[trigger] states@[j].bitstream_serial_number) != serial,
        decreases n - i,
    {
        if states[i].bitstream_serial_number == serial {
            return Some(i);
        }
        i = i + 1;
    }
    None
}

impl StreamWriter {
    /// Emits the page that `state` has queued, appending it to the sink and
    /// recording it in the history. The stream being worked on is held
    /// outside the live list while this runs.
    fn emit(&mut self, state: &mut StreamState)
        requires
            old(self).wf(),
            state_wf(*old(state)),
            forall|j: int|
                0 <= j < old(self).stream_states@.len() ==> (#[trigger] old(
                    self,
                ).stream_states@[j].bitstream_serial_number) != old(state).bitstream_serial_number,
            old(state).header_type & BOS_VALUE != 0 ==> old(state).page_sequence_number == 0,
            old(state).header_type & BOS_VALUE == 0 ==> old(state).page_sequence_number == w32(
                count_since_bos(old(self).history@, old(state).bitstream_serial_number),
            ),
        ensures
            final(self).wf(),
            final(self).history@ == old(self).history@.push(state_page(*old(state))),
            final(self).writer@ == old(self).writer@ + page_bytes(state_page(*old(state))),
            final(self).base@ == old(self).base@,
            final(self).stream_states@ == old(self).stream_states@,
            state_wf(*final(state)),
            final(state).bitstream_serial_number == old(state).bitstream_serial_number,
            final(state).granule_position == old(state).granule_position,
            final(state).header_type == old(state).header_type,
            final(state).page_sequence_number == seq_succ(old(state).page_sequence_number),
            final(state).page_sequence_number == w32(
                count_since_bos(final(self).history@, old(state).bitstream_serial_number),
            ),
            final(state).data_buffer@ == Seq::<u8>::empty(),
            final(state).packet_sizes@ == Seq::<usize>::empty(),
            final(state).last_packet_continues == false,
            final(state).lace_count == 0,
    {
        proof {
            reveal(StreamWriter::wf);
        }
        let ghost rec = state_page(*state);
        let ghost h0 = self.history@;
        let ghost serial = state.bitstream_serial_number;
        write_page(&mut self.writer, state);
        self.history = Ghost(self.history@.push(rec));
        proof {
            lemma_pages_bytes_push(h0, rec);
            lemma_state_page_wf(*old(state));
            lemma_emit_history(h0, rec, self.stream_states@);
            assert(self.writer@ =~= self.base@ + pages_bytes(self.history@));
        }
    }

    /// Creates a new `StreamWriter` that appends pages to the given sink.
    pub fn new(writer: Vec<u8>) -> (w: StreamWriter)
        ensures
            w.wf(),
            w.sink() == writer@,
            w.initial_sink() == writer@,
            w.pages() == Seq::<PageRec>::empty(),
            forall|s: u32| !w.has_stream(s),
    {
        let ghost b = writer@;
        let w = StreamWriter {
            writer,
            stream_states: Vec::new(),
            base: Ghost(b),
            history: Ghost(Seq::empty()),
        };
        proof {
            reveal(StreamWriter::wf);
            assert(w.writer@ =~= w.base@ + pages_bytes(w.history@));
        }
        w
    }

    /// Consumes the `StreamWriter` and returns the sink.
    pub fn into_inner(self) -> (w: Vec<u8>)
        ensures
            w@ == self.sink(),
    {
        self.writer
    }

    /// Starts a new logical stream. The caller provides the first packet,
    /// which is framed and written to the sink right away, under the
    /// beginning-of-stream flag and page sequence number 0.
    #[verifier::rlimit(100)]
    pub fn begin_logical_stream(
        &mut self,
        bitstream_serial_number: u32,
        first_packet_data: &[u8],
    ) -> (r: Result<(), WriteError>)
        requires
            old(self).wf(),
        ensures
            final(self).wf(),
            final(self).initial_sink() == old(self).initial_sink(),
            match r {
                Ok(()) => {
                    &&& !old(self).has_stream(bitstream_serial_number)
                    &&& first_packet_data@.len() <= MAX_PAGE_DATA_SIZE
                    &&& final(self).pages() == old(self).pages() + begin_pages(
                        bitstream_serial_number,
                        first_packet_data@,
                    )
                    &&& final(self).sink() == old(self).sink() + pages_bytes(
                        begin_pages(bitstream_serial_number, first_packet_data@),
                    )
                    &&& final(self).has_stream(bitstream_serial_number)
                    &&& final(self).stream(bitstream_serial_number) == (StreamModel {
                        buffered: Seq::<u8>::empty(),
                        packet_sizes: Seq::<usize>::empty(),
                        page_sequence_number: begin_pages(
                            bitstream_serial_number,
                            first_packet_data@,
                        ).len() as u32,
                        granule_position: 0,
                    })
                    &&& streams_unchanged_except(*old(self), *final(self), bitstream_serial_number)
                },
                Err(WriteError::BitstreamAlreadyInitialized) => {
                    &&& old(self).has_stream(bitstream_serial_number)
                    &&& *final(self) == *old(self)
                },
                Err(WriteError::InitialPacketTooBig) => {
                    &&& !old(self).has_stream(bitstream_serial_number)
                    &&& first_packet_data@.len() > MAX_PAGE_DATA_SIZE
                    &&& *final(self) == *old(self)
                },
                Err(_) => false,
            },
    {
        match find_stream(&self.stream_states, bitstream_serial_number) {
            Some(_) => {
                return Err(WriteError::BitstreamAlreadyInitialized);
            },
            None => {},
        }
        if first_packet_data.len() > MAX_PAGE_DATA_SIZE {
            return Err(WriteError::InitialPacketTooBig);
        }
        proof {
            reveal(StreamWriter::wf);
            lemma_header_bits();
        }
        let ghost h0 = self.history@;
        let ghost recs = begin_pages(bitstream_serial_number, first_packet_data@);
        let mut state = StreamState::new();
        state.bitstream_serial_number = bitstream_serial_number;
        state.header_type = BOS_VALUE;
        if first_packet_data.len() < MAX_PAGE_DATA_SIZE {
            push_packet(&mut state, first_packet_data);
            proof {
                lemma_sizes_snoc(Seq::<usize>::empty(), first_packet_data@.len() as usize);
                assert(state_lacing(state) =~= packet_lacing(first_packet_data@.len() as int));
                assert(state.data_buffer@ =~= first_packet_data@);
                assert(state_page(state) == recs[0]);
            }
            self.emit(&mut state);
            proof {
                assert(self.history@ =~= h0 + recs);
            }
        } else {
            push_continued_slice(&mut state, first_packet_data);
            state.granule_position = NO_GRANULE_POSITION;
            proof {
                assert(state_page(state) == recs[0]);
            }
            self.emit(&mut state);
            state.header_type = CONTINUATION_VALUE;
            state.granule_position = 0;
            let empty_packet: Vec<u8> = Vec::new();
            push_packet(&mut state, empty_packet.as_slice());
            proof {
                lemma_sizes_snoc(Seq::<usize>::empty(), 0usize);
                assert(state_lacing(state) =~= seq![0u8]) by {
                    assert(packet_lacing(0) =~= seq![0u8]);
                    assert(sizes_lacing(Seq::<usize>::empty().push(0usize)) == sizes_lacing(
                        Seq::<usize>::empty(),
                    ) + packet_lacing(0));
                }
                assert(state.data_buffer@ =~= Seq::<u8>::empty());
                assert(state_page(state) == recs[1]);
            }
            self.emit(&mut state);
            proof {
                assert(self.history@ =~= h0 + recs);
            }
        }
        state.header_type = 0;
        let ghost states_pre_push = self.stream_states@;
        self.stream_states.push(state);
        proof {
            lemma_push_states(states_pre_push, state, self.stream_states@);
            crate::format::lemma_pages_bytes_append(h0, recs);
            assert(self.writer@ =~= old(self).writer@ + pages_bytes(recs));
            assert forall|s: u32| s != bitstream_serial_number implies {
                &&& (#[trigger] old(self).has_stream(s)) == self.has_stream(s)
                &&& (old(self).has_stream(s) ==> old(self).stream(s) == self.stream(s))
            } by {
                assert(has_in(self.stream_states@, s) == has_in(states_pre_push, s));
                assert(has_in(states_pre_push, s) ==> model_in(self.stream_states@, s)
                    == model_in(states_pre_push, s));
                assert(old(self).has_stream(s) == has_in(states_pre_push, s));
                assert(self.has_stream(s) == has_in(self.stream_states@, s));
            }
            assert(streams_unchanged_except(*old(self), *self, bitstream_serial_number));
        }
        Ok(())
    }

    /// Queues the given data as a packet for the given logical bitstream.
    ///
    /// Packets are assembled into pages, which are written once a packet does
    /// not fit into the free space or `flush` is called. A packet too big for
    /// one page is split over several pages right away.
    #[verifier::rlimit(50)]
    pub fn push_packet(
        &mut self,
        bitstream_serial_number: u32,
        packet_data: &[u8],
        granule_position: u64,
    ) -> (r: Result<(), WriteError>)
        requires
            old(self).wf(),
        ensures
            final(self).wf(),
            final(self).initial_sink() == old(self).initial_sink(),
            match r {
                Ok(()) => {
                    &&& old(self).has_stream(bitstream_serial_number)
                    &&& final(self).pages() == old(self).pages() + push_pages(
                        old(self).stream(bitstream_serial_number),
                        bitstream_serial_number,
                        packet_data@,
                        granule_position,
                    )
                    &&& final(self).sink() == old(self).sink() + pages_bytes(
                        push_pages(
                            old(self).stream(bitstream_serial_number),
                            bitstream_serial_number,
                            packet_data@,
                            granule_position,
                        ),
                    )
                    &&& final(self).has_stream(bitstream_serial_number)
                    &&& final(self).stream(bitstream_serial_number) == push_stream_after(
                        old(self).stream(bitstream_serial_number),
                        bitstream_serial_number,
                        packet_data@,
                        granule_position,
                    )
                    &&& streams_unchanged_except(*old(self), *final(self), bitstream_serial_number)
                },
                Err(WriteError::UnknownBitstreamSerialNumber) => {
                    &&& !old(self).has_stream(bitstream_serial_number)
                    &&& *final(self) == *old(self)
                },
                Err(_) => false,
            },
    {
        let idx = match find_stream(&self.stream_states, bitstream_serial_number) {
            Some(i) => i,
            None => {
                return Err(WriteError::UnknownBitstreamSerialNumber);
            },
        };
        proof {
            reveal(StreamWriter::wf);
            lemma_header_bits();
            lemma_model_at(self.stream_states@, bitstream_serial_number, idx as int);
        }
        let ghost states0 = self.stream_states@;
        let ghost st0 = model_of(self.stream_states@[idx as int]);
        let ghost h0 = self.history@;
        let ghost d = packet_data@;
        let ghost emitted = push_pages(st0, bitstream_serial_number, d, granule_position);
        let mut state = self.stream_states.swap_remove(idx);
        let ghost states2 = self.stream_states@;
        proof {
            lemma_swap_remove_states(states0, idx as int, states2);
        }
        proof {
            assert(state == states0[idx as int]);
            assert(live_state_ok(state, h0));
            lemma_sizes_lacing_props(state.packet_sizes@);
        }
        let size = packet_data.len();

        // Does the packet fit the page being assembled?
        let fits: bool = size <= MAX_PAGE_DATA_SIZE - state.data_buffer.len() && size / 255 + 1
            <= 255 - state.lace_count;
        if fits {
            state.granule_position = granule_position;
            push_packet(&mut state, packet_data);
            if state.data_buffer.len() == MAX_PAGE_DATA_SIZE {
                proof {
                    assert(state_page(state) == full_page(
                        st0,
                        bitstream_serial_number,
                        d,
                        granule_position,
                    ));
                    assert(emitted =~= seq![
                        full_page(st0, bitstream_serial_number, d, granule_position),
                    ]);
                }
                self.emit(&mut state);
                proof {
                    assert(self.history@ =~= h0 + emitted);
                }
            } else {
                proof {
                    assert(emitted =~= Seq::<PageRec>::empty());
                    assert(self.history@ =~= h0 + emitted);
                }
            }
        } else if size < MAX_PAGE_DATA_SIZE {
            // It will fit a fresh page: flush the open one first. The open
            // page cannot be empty here, or the packet would have fit.
            proof {
                assert(state.packet_sizes@.len() > 0);
                assert(state_page(state) == flush_page(st0, bitstream_serial_number));
            }
            self.emit(&mut state);
            state.granule_position = granule_position;
            push_packet(&mut state, packet_data);
            proof {
                assert(emitted =~= seq![flush_page(st0, bitstream_serial_number)]);
                assert(self.history@ =~= h0 + emitted);
            }
        } else {
            // The packet cannot end on any single page: flush what is open,
            // then split it into full-page slices and a final slice.
            if state.packet_sizes.len() > 0 {
                proof {
                    assert(state_page(state) == flush_page(st0, bitstream_serial_number));
                }
                self.emit(&mut state);
                proof {
                    assert(emitted == seq![flush_page(st0, bitstream_serial_number)]
                        + split_pages(
                        bitstream_serial_number,
                        state.page_sequence_number,
                        granule_position,
                        0,
                        d,
                    ));
                    assert(d.skip(0) =~= d);
                    assert(h0 + emitted =~= self.history@ + split_pages(
                        bitstream_serial_number,
                        state.page_sequence_number,
                        granule_position,
                        0,
                        d,
                    ));
                }
            } else {
                proof {
                    assert(emitted == split_pages(
                        bitstream_serial_number,
                        state.page_sequence_number,
                        granule_position,
                        0,
                        d,
                    ));
                    assert(d.skip(0) =~= d);
                    assert(h0 + emitted =~= self.history@ + split_pages(
                        bitstream_serial_number,
                        state.page_sequence_number,
                        granule_position,
                        0,
                        d,
                    ));
                }
            }
            let mut offset: usize = 0;
            #[verifier::loop_isolation(false)]
            while packet_data.len() - offset >= MAX_PAGE_DATA_SIZE
                invariant
                    self.wf(),
                    offset <= packet_data@.len(),
                    packet_data@.len() >= MAX_PAGE_DATA_SIZE,
                    d == packet_data@,
                    self.base@ == old(self).base@,
                    self.stream_states@ == states2,
                    forall|j: int|
                        0 <= j < states2.len() ==> (#[trigger] states2[j].bitstream_serial_number)
                            != bitstream_serial_number,
                    state_wf(state),
                    state.bitstream_serial_number == bitstream_serial_number,
                    state.data_buffer@ == Seq::<u8>::empty(),
                    state.packet_sizes@ == Seq::<usize>::empty(),
                    state.lace_count == 0,
                    !state.last_packet_continues,
                    state.header_type == if offset == 0 {
                        0u8
                    } else {
                        CONTINUATION_VALUE
                    },
                    state.page_sequence_number == w32(
                        count_since_bos(self.history@, bitstream_serial_number),
                    ),
                    h0 + emitted == self.history@ + split_pages(
                        bitstream_serial_number,
                        state.page_sequence_number,
                        granule_position,
                        state.header_type,
                        d.skip(offset as int),
                    ),
                decreases packet_data@.len() - offset,
            {
                proof {
                    lemma_header_bits();
                }
                let ghost hcur = self.history@;
                let ghost rest = d.skip(offset as int);
                state.granule_position = NO_GRANULE_POSITION;
                push_continued_slice(
                    &mut state,
                    &packet_data[offset..offset + MAX_PAGE_DATA_SIZE],
                );
                proof {
                    assert(state.data_buffer@ =~= rest.take(MAX_PAGE_DATA_SIZE as int));
                    assert(state_page(state) == split_pages(
                        bitstream_serial_number,
                        state.page_sequence_number,
                        granule_position,
                        state.header_type,
                        rest,
                    )[0]);
                }
                self.emit(&mut state);
                state.header_type = CONTINUATION_VALUE;
                offset = offset + MAX_PAGE_DATA_SIZE;
                proof {
                    assert(d.skip(offset as int) =~= rest.skip(MAX_PAGE_DATA_SIZE as int));
                    assert(h0 + emitted =~= self.history@ + split_pages(
                        bitstream_serial_number,
                        state.page_sequence_number,
                        granule_position,
                        state.header_type,
                        d.skip(offset as int),
                    ));
                }
            }
            proof {
                lemma_header_bits();
                assert(offset > 0);
            }
            let ghost rest = d.skip(offset as int);
            state.granule_position = granule_position;
            push_packet(&mut state, &packet_data[offset..packet_data.len()]);
            proof {
                lemma_sizes_snoc(Seq::<usize>::empty(), rest.len() as usize);
                assert(state_lacing(state) =~= packet_lacing(rest.len() as int));
                assert(state.data_buffer@ =~= rest);
                assert(state_page(state) == split_pages(
                    bitstream_serial_number,
                    state.page_sequence_number,
                    granule_position,
                    state.header_type,
                    rest,
                )[0]);
            }
            self.emit(&mut state);
            proof {
                assert(self.history@ =~= h0 + emitted);
                assert(emitted.len() >= 1);
                assert(emitted.last() == self.history@.last());
                assert(state.page_sequence_number == seq_succ(
                    emitted.last().page_sequence_number,
                ));
            }
            state.header_type = 0;
        }
        let ghost states_pre_push = self.stream_states@;
        self.stream_states.push(state);
        proof {
            lemma_push_states(states_pre_push, state, self.stream_states@);
        }
        proof {
            crate::format::lemma_pages_bytes_append(h0, emitted);
            assert(self.writer@ =~= old(self).writer@ + pages_bytes(emitted));
            assert forall|s: u32| s != bitstream_serial_number implies {
                &&& (#[trigger] old(self).has_stream(s)) == self.has_stream(s)
                &&& (old(self).has_stream(s) ==> old(self).stream(s) == self.stream(s))
            } by {
                assert(has_in(states2, s) == has_in(states0, s));
                assert(has_in(states0, s) ==> model_in(states2, s) == model_in(states0, s));
                assert(has_in(self.stream_states@, s) == has_in(states2, s));
                assert(has_in(states2, s) ==> model_in(self.stream_states@, s) == model_in(
                    states2,
                    s,
                ));
                assert(old(self).has_stream(s) == has_in(states0, s));
                assert(self.has_stream(s) == has_in(self.stream_states@, s));
            }
        }
        Ok(())
    }

    /// Ends the logical stream. The caller provides the last packet, which
    /// is written right away under the end-of-stream flag; an open page
    /// holding payload bytes is written first, while queued zero-length
    /// packets ride out on the end-of-stream page itself. The stream is
    /// then retired.
    pub fn end_logical_stream(
        &mut self,
        bitstream_serial_number: u32,
        last_packet_data: &[u8],
        granule_position: u64,
    ) -> (r: Result<(), WriteError>)
        requires
            old(self).wf(),
            last_packet_data@.len() < MAX_PAGE_DATA_SIZE,
        ensures
            final(self).wf(),
            final(self).initial_sink() == old(self).initial_sink(),
            match r {
                Ok(()) => {
                    &&& old(self).has_stream(bitstream_serial_number)
                    &&& final(self).pages() == old(self).pages() + end_pages(
                        old(self).stream(bitstream_serial_number),
                        bitstream_serial_number,
                        last_packet_data@,
                        granule_position,
                    )
                    &&& final(self).sink() == old(self).sink() + pages_bytes(
                        end_pages(
                            old(self).stream(bitstream_serial_number),
                            bitstream_serial_number,
                            last_packet_data@,
                            granule_position,
                        ),
                    )
                    &&& !final(self).has_stream(bitstream_serial_number)
                    &&& streams_unchanged_except(*old(self), *final(self), bitstream_serial_number)
                },
                Err(WriteError::UnknownBitstreamSerialNumber) => {
                    &&& !old(self).has_stream(bitstream_serial_number)
                    &&& *final(self) == *old(self)
                },
                Err(_) => false,
            },
    {
        let idx = match find_stream(&self.stream_states, bitstream_serial_number) {
            Some(i) => i,
            None => {
                return Err(WriteError::UnknownBitstreamSerialNumber);
            },
        };
        proof {
            reveal(StreamWriter::wf);
            lemma_header_bits();
            lemma_model_at(self.stream_states@, bitstream_serial_number, idx as int);
        }
        let ghost states0 = self.stream_states@;
        let ghost st0 = model_of(self.stream_states@[idx as int]);
        let ghost h0 = self.history@;
        let ghost d = last_packet_data@;
        let ghost emitted = end_pages(st0, bitstream_serial_number, d, granule_position);
        let mut state = self.stream_states.swap_remove(idx);
        let ghost states2 = self.stream_states@;
        proof {
            lemma_swap_remove_states(states0, idx as int, states2);
            assert(state == states0[idx as int]);
            assert(live_state_ok(state, h0));
            lemma_sizes_lacing_props(state.packet_sizes@);
        }
        let needs_flush = state.data_buffer.len() > 0 || last_packet_data.len() / 255 + 1 > 255
            - state.lace_count;
        proof {
            assert(needs_flush == end_needs_flush(st0, d));
        }
        if needs_flush {
            proof {
                assert(state_page(state) == flush_page(st0, bitstream_serial_number));
            }
            self.emit(&mut state);
            proof {
                assert(state.packet_sizes@ =~= Seq::<usize>::empty());
                assert(state.data_buffer@ =~= Seq::<u8>::empty());
            }
        }
        state.header_type = EOS_VALUE;
        state.granule_position = granule_position;
        let ghost sizes_before = state.packet_sizes@;
        push_packet(&mut state, last_packet_data);
        proof {
            lemma_sizes_snoc(sizes_before, d.len() as usize);
            if needs_flush {
                assert(state_lacing(state) =~= packet_lacing(d.len() as int)) by {
                    assert(sizes_before =~= Seq::<usize>::empty());
                    assert(sizes_lacing(sizes_before) == Seq::<u8>::empty());
                    assert(Seq::<u8>::empty() + packet_lacing(d.len() as int) =~= packet_lacing(
                        d.len() as int,
                    ));
                }
                assert(state.data_buffer@ =~= d);
            } else {
                assert(state_lacing(state) == sizes_lacing(st0.packet_sizes.push(d.len() as usize)));
                assert(state.data_buffer@ == st0.buffered + d);
            }
            assert(state_page(state) == emitted.last());
        }
        self.emit(&mut state);
        proof {
            assert(self.history@ =~= h0 + emitted);
            crate::format::lemma_pages_bytes_append(h0, emitted);
            assert(self.writer@ =~= old(self).writer@ + pages_bytes(emitted));
            assert forall|s: u32| s != bitstream_serial_number implies {
                &&& (#[trigger] old(self).has_stream(s)) == self.has_stream(s)
                &&& (old(self).has_stream(s) ==> old(self).stream(s) == self.stream(s))
            } by {
                assert(has_in(states2, s) == has_in(states0, s));
                assert(has_in(states0, s) ==> model_in(states2, s) == model_in(states0, s));
                assert(old(self).has_stream(s) == has_in(states0, s));
                assert(self.has_stream(s) == has_in(states2, s));
            }
        }
        Ok(())
    }

    /// Writes the open page of the logical bitstream, if it holds any
    /// payload bytes, and starts a new page; a flush of an empty buffer is
    /// a no-op.
    pub fn flush(&mut self, bitstream_serial_number: u32) -> (r: Result<(), WriteError>)
        requires
            old(self).wf(),
        ensures
            final(self).wf(),
            final(self).initial_sink() == old(self).initial_sink(),
            match r {
                Ok(()) => {
                    &&& old(self).has_stream(bitstream_serial_number)
                    &&& final(self).pages() == old(self).pages() + flush_pages(
                        old(self).stream(bitstream_serial_number),
                        bitstream_serial_number,
                    )
                    &&& final(self).sink() == old(self).sink() + pages_bytes(
                        flush_pages(old(self).stream(bitstream_serial_number), bitstream_serial_number),
                    )
                    &&& final(self).has_stream(bitstream_serial_number)
                    &&& final(self).stream(bitstream_serial_number) == flush_stream_after(
                        old(self).stream(bitstream_serial_number),
                    )
                    &&& streams_unchanged_except(*old(self), *final(self), bitstream_serial_number)
                },
                Err(WriteError::UnknownBitstreamSerialNumber) => {
                    &&& !old(self).has_stream(bitstream_serial_number)
                    &&& *final(self) == *old(self)
                },
                Err(_) => false,
            },
    {
        let idx = match find_stream(&self.stream_states, bitstream_serial_number) {
            Some(i) => i,
            None => {
                return Err(WriteError::UnknownBitstreamSerialNumber);
            },
        };
        proof {
            reveal(StreamWriter::wf);
            lemma_header_bits();
            lemma_model_at(self.stream_states@, bitstream_serial_number, idx as int);
        }
        let ghost states0 = self.stream_states@;
        let ghost st0 = model_of(self.stream_states@[idx as int]);
        let ghost h0 = self.history@;
        let ghost emitted = flush_pages(st0, bitstream_serial_number);
        let mut state = self.stream_states.swap_remove(idx);
        let ghost states2 = self.stream_states@;
        proof {
            lemma_swap_remove_states(states0, idx as int, states2);
            assert(state == states0[idx as int]);
            assert(live_state_ok(state, h0));
        }
        if state.data_buffer.len() > 0 {
            proof {
                assert(state_page(state) == flush_page(st0, bitstream_serial_number));
            }
            self.emit(&mut state);
            proof {
                assert(self.history@ =~= h0 + emitted);
            }
        } else {
            proof {
                assert(emitted =~= Seq::<PageRec>::empty());
                assert(self.history@ =~= h0 + emitted);
            }
        }
        let ghost states_pre_push = self.stream_states@;
        self.stream_states.push(state);
        proof {
            lemma_push_states(states_pre_push, state, self.stream_states@);
            crate::format::lemma_pages_bytes_append(h0, emitted);
            assert(self.writer@ =~= old(self).writer@ + pages_bytes(emitted));
            assert forall|s: u32| s != bitstream_serial_number implies {
                &&& (#[trigger] old(self).has_stream(s)) == self.has_stream(s)
                &&& (old(self).has_stream(s) ==> old(self).stream(s) == self.stream(s))
            } by {
                assert(has_in(states2, s) == has_in(states0, s));
                assert(has_in(states0, s) ==> model_in(states2, s) == model_in(states0, s));
                assert(has_in(self.stream_states@, s) == has_in(states2, s));
                assert(has_in(states2, s) ==> model_in(self.stream_states@, s) == model_in(
                    states2,
                    s,
                ));
                assert(old(self).has_stream(s) == has_in(states0, s));
                assert(self.has_stream(s) == has_in(self.stream_states@, s));
            }
        }
        Ok(())
    }

    /// Reports whether the open page for the given logical bitstream holds
    /// no payload bytes.
    pub fn page_is_empty(&mut self, bitstream_serial_number: u32) -> (r: Result<
        bool,
        WriteError,
    >)
        requires
            old(self).wf(),
        ensures
            final(self).wf(),
            *final(self) == *old(self),
            match r {
                Ok(b) => old(self).has_stream(bitstream_serial_number) && b == (old(self).stream(
                    bitstream_serial_number,
                ).buffered.len() == 0),
                Err(WriteError::UnknownBitstreamSerialNumber) => !old(self).has_stream(
                    bitstream_serial_number,
                ),
                Err(_) => false,
            },
    {
        let idx = match find_stream(&self.stream_states, bitstream_serial_number) {
            Some(i) => i,
            None => {
                return Err(WriteError::UnknownBitstreamSerialNumber);
            },
        };
        proof {
            reveal(StreamWriter::wf);
            lemma_model_at(self.stream_states@, bitstream_serial_number, idx as int);
        }
        Ok(self.stream_states[idx].data_buffer.len() == 0)
    }

}

/// The payload bytes of a row of pages, one after the other.
pub open spec fn pages_payload(ps: Seq<PageRec>) -> Seq<u8>
    decreases ps.len(),
{
    if ps.len() == 0 {
        Seq::empty()
    } else {
        pages_payload(ps.drop_last()) + ps.last().payload
    }
}

/// A live stream's queue is internally consistent: the buffered bytes are
/// exactly what its queued packet sizes announce, they fit one page, and
/// its segment table fits its count byte. This is what
/// `lemma_flush_page_round_trip` asks of the page that flushing the stream
/// would emit.
pub proof fn lemma_live_stream_well_formed(w: &StreamWriter, serial: u32)
    requires
        w.wf(),
        w.has_stream(serial),
    ensures
        w.stream(serial).buffered.len() == crate::format::sizes_sum(w.stream(serial).packet_sizes),
        w.stream(serial).buffered.len() <= MAX_PAGE_DATA_SIZE,
        sizes_lacing(w.stream(serial).packet_sizes).len() <= 255,
{
    reveal(StreamWriter::wf);
    let states = w.stream_states@;
    let i = choose|i: int| 0 <= i < states.len() && states[i].bitstream_serial_number == serial;
    lemma_model_at(states, serial, i);
    assert(live_state_ok(states[i], w.history@));
    lemma_sizes_lacing_props(states[i].packet_sizes@);
}

/// The sink of a well-formed writer is its initial content followed by
/// exactly the pages it has emitted.
pub proof fn lemma_sink_is_pages(w: &StreamWriter)
    requires
        w.wf(),
    ensures
        w.sink() == w.initial_sink() + pages_bytes(w.pages()),
{
    reveal(StreamWriter::wf);
}

/// The segment table of any emitted page has at most 255 entries, and
/// announces exactly the payload that follows it.
pub proof fn lemma_emitted_page_well_formed(w: &StreamWriter, k: int)
    requires
        w.wf(),
        0 <= k < w.pages().len(),
    ensures
        page_wf(w.pages()[k]),
        w.pages()[k].lacing.len() <= 255,
{
    reveal(StreamWriter::wf);
}

/// Every emitted page carries the checksum of itself with the checksum
/// field zeroed: re-reading it passes checksum verification.
pub proof fn lemma_emitted_page_crc_ok(w: &StreamWriter, k: int)
    requires
        w.wf(),
        0 <= k < w.pages().len(),
    ensures
        crate::format::page_crc_ok(page_bytes(w.pages()[k])),
{
    crate::format::lemma_page_bytes_crc_ok(w.pages()[k]);
}

/// A page under the beginning-of-stream flag carries sequence number 0.
pub proof fn lemma_bos_page_sequence_zero(w: &StreamWriter, k: int)
    requires
        w.wf(),
        0 <= k < w.pages().len(),
        w.pages()[k].header_type & BOS_VALUE != 0,
    ensures
        w.pages()[k].page_sequence_number == 0,
{
    reveal(StreamWriter::wf);
}

/// The count of a serial depends only on the pages up to the cut, when none
/// of the pages between the two cuts belongs to that serial.
proof fn lemma_count_since_bos_frame(h: Seq<PageRec>, s: u32, a: int, b: int)
    requires
        0 <= a <= b <= h.len(),
        forall|m: int| a <= m < b ==> (#[trigger] h[m].bitstream_serial_number) != s,
    ensures
        count_since_bos(h.take(b), s) == count_since_bos(h.take(a), s),
    decreases b - a,
{
    if b > a {
        assert(h.take(b).drop_last() =~= h.take(b - 1));
        assert(h.take(b).last() == h[b - 1]);
        lemma_count_since_bos_frame(h, s, a, b - 1);
    }
}

/// Successive emitted pages of one serial carry successive page sequence
/// numbers: if no page of that serial stands between positions `k1` and
/// `k2`, and the page at `k2` does not open a new logical stream, then its
/// sequence number follows the one at `k1`. Together with
/// `lemma_bos_page_sequence_zero` this says that the pages of each logical
/// stream are numbered 0, 1, 2, ... in emission order (wrapping at 32 bits).
pub proof fn lemma_page_sequence_monotone(w: &StreamWriter, k1: int, k2: int)
    requires
        w.wf(),
        0 <= k1 < k2 < w.pages().len(),
        w.pages()[k1].bitstream_serial_number == w.pages()[k2].bitstream_serial_number,
        forall|m: int|
            k1 < m < k2 ==> (#[trigger] w.pages()[m].bitstream_serial_number)
                != w.pages()[k2].bitstream_serial_number,
        w.pages()[k2].header_type & BOS_VALUE == 0,
    ensures
        w.pages()[k2].page_sequence_number == seq_succ(w.pages()[k1].page_sequence_number),
{
    reveal(StreamWriter::wf);
    let h = w.pages();
    let s = h[k2].bitstream_serial_number;
    lemma_count_since_bos_frame(h, s, k1 + 1, k2);
    assert(h.take(k1 + 1).drop_last() =~= h.take(k1));
    assert(h.take(k1 + 1).last() == h[k1]);
    lemma_count_since_bos_nonneg(h.take(k1), s);
    if h[k1].header_type & BOS_VALUE != 0 {
        assert(count_since_bos(h.take(k1 + 1), s) == 1);
        assert(h[k1].page_sequence_number == 0);
        assert(w32(1) == seq_succ(0));
    } else {
        assert(count_since_bos(h.take(k1 + 1), s) == count_since_bos(h.take(k1), s) + 1);
        lemma_w32_succ(count_since_bos(h.take(k1), s));
    }
}

/// How an oversize packet is split: starting from an empty page, a packet
/// longer than a page is emitted over `len / capacity + 1` pages — the exact
/// ceiling of `len / capacity` whenever `len` is not a multiple of the
/// capacity — whose payloads reassemble, in order, to exactly the packet.
/// Every page before the last carries the no-granule mark, only the last
/// carries the real granule position, and every page after the first is
/// tagged as a continuation.
pub proof fn lemma_split_pages_props(serial: u32, seq0: u32, granule: u64, first_header: u8, d: Seq<u8>)
    ensures
        ({
            let ps = split_pages(serial, seq0, granule, first_header, d);
            &&& ps.len() == d.len() as int / (MAX_PAGE_DATA_SIZE as int) + 1
            &&& pages_payload(ps) == d
            &&& (forall|i: int| 0 <= i < ps.len() ==> (#[trigger] ps[i].bitstream_serial_number) == serial)
            &&& (forall|i: int| 1 <= i < ps.len() ==> (#[trigger] ps[i].header_type) == CONTINUATION_VALUE)
            &&& (forall|i: int|
                0 <= i < ps.len() - 1 ==> (#[trigger] ps[i].granule_position) == NO_GRANULE_POSITION)
            &&& ps.last().granule_position == granule
        }),
    decreases d.len(),
{
    let ps = split_pages(serial, seq0, granule, first_header, d);
    if d.len() < MAX_PAGE_DATA_SIZE {
        assert(pages_payload(ps) =~= d) by {
            assert(ps.drop_last() =~= Seq::<PageRec>::empty());
            assert(pages_payload(ps.drop_last()) == Seq::<u8>::empty());
            assert(ps.last().payload == d);
            assert(Seq::<u8>::empty() + d =~= d);
        }
    } else {
        let head = ps[0];
        let tail = split_pages(
            serial,
            seq_succ(seq0),
            granule,
            CONTINUATION_VALUE,
            d.skip(MAX_PAGE_DATA_SIZE as int),
        );
        lemma_split_pages_props(
            serial,
            seq_succ(seq0),
            granule,
            CONTINUATION_VALUE,
            d.skip(MAX_PAGE_DATA_SIZE as int),
        );
        assert(ps =~= seq![head] + tail);
        lemma_pages_payload_cons(head, tail);
        assert(pages_payload(ps) =~= d) by {
            assert(pages_payload(seq![head] + tail) == head.payload + pages_payload(tail));
            assert(head.payload + pages_payload(tail) =~= d);
        }
        assert forall|i: int| 1 <= i < ps.len() implies (#[trigger] ps[i].header_type)
            == CONTINUATION_VALUE by {
            assert(ps[i] == tail[i - 1]);
            if i == 1 && tail.len() == 1 {
            }
        }
        assert forall|i: int| 0 <= i < ps.len() - 1 implies (#[trigger] ps[i].granule_position)
            == NO_GRANULE_POSITION by {
            if i > 0 {
                assert(ps[i] == tail[i - 1]);
            }
        }
        assert(ps.last() == tail.last());
    }
}

/// Round trip at the page level: a page that the writer flushes for a row
/// of queued packets reads back, field for field, as what was written — the
/// capture pattern opens it, its checksum verifies, its version is 0, its
/// serial, granule position and sequence number are those given, and its
/// segment table and payload decode to exactly the queued packets, in
/// order, each complete and byte-for-byte what was pushed.
pub proof fn lemma_flush_page_round_trip(st: StreamModel, serial: u32)
    requires
        st.buffered.len() == crate::format::sizes_sum(st.packet_sizes),
        sizes_lacing(st.packet_sizes).len() <= 255,
    ensures
        ({
            let g = page_bytes(flush_page(st, serial));
            &&& crate::format::is_capture_at(g, 0)
            &&& crate::format::page_crc_ok(g)
            &&& crate::format::page_version(g) == 0
            &&& crate::format::page_header_type(g) == 0
            &&& crate::format::page_serial(g) == serial
            &&& crate::format::page_granule(g) == st.granule_position
            &&& crate::format::page_seqno(g) == st.page_sequence_number
            &&& crate::format::page_table(g) == sizes_lacing(st.packet_sizes)
            &&& crate::format::page_body(g) == st.buffered
            &&& crate::format::page_packets(
                crate::format::page_table(g),
                crate::format::page_body(g),
            ).len() == st.packet_sizes.len()
            &&& forall|i: int|
                0 <= i < st.packet_sizes.len() ==> (#[trigger] crate::format::page_packets(
                    crate::format::page_table(g),
                    crate::format::page_body(g),
                )[i]) == (
                    st.buffered.subrange(
                        crate::format::sizes_sum(st.packet_sizes.take(i)),
                        crate::format::sizes_sum(st.packet_sizes.take(i)) + st.packet_sizes[i],
                    ),
                    true,
                )
        }),
{
    let rec = flush_page(st, serial);
    lemma_sizes_lacing_props(st.packet_sizes);
    assert(page_wf(rec));
    crate::format::lemma_page_bytes_fields(rec);
    crate::format::lemma_page_bytes_crc_ok(rec);
    crate::format::lemma_page_packets_round_trip(st.packet_sizes, st.buffered);
}

/// Prepending one page to a row prepends its payload.
proof fn lemma_pages_payload_cons(head: PageRec, tail: Seq<PageRec>)
    ensures
        pages_payload(seq![head] + tail) == head.payload + pages_payload(tail),
    decreases tail.len(),
{
    if tail.len() == 0 {
        assert(seq![head] + tail =~= seq![head]);
        assert(seq![head].drop_last() =~= Seq::<PageRec>::empty());
        assert(head.payload + pages_payload(tail) =~= head.payload);
        assert(pages_payload(seq![head]) == pages_payload(Seq::<PageRec>::empty()) + head.payload);
        assert(Seq::<u8>::empty() + head.payload =~= head.payload);
    } else {
        lemma_pages_payload_cons(head, tail.drop_last());
        assert((seq![head] + tail).drop_last() =~= seq![head] + tail.drop_last());
        assert((seq![head] + tail).last() == tail.last());
        assert(head.payload + pages_payload(tail.drop_last()) + tail.last().payload =~= head.payload
            + pages_payload(tail));
    }
}

} // verus!
