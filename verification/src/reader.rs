//! The OGG page reader: sync acquisition, page decode, checksum
//! verification, the packet queue, and reassembly of packets that span
//! several pages, with recovery from corrupted input.

use vstd::prelude::*;

use crate::crc32::crc32_feed;
use crate::crc32::lemma_crc32_acc_append;
use crate::format::is_capture_at;
use crate::format::lace_sum;
use crate::format::lemma_lace_sum_append;
use crate::format::lemma_lace_sum_bounds;
use crate::format::page_body;
use crate::format::page_bytes;
use crate::format::page_crc_ok;
use crate::format::page_granule;
use crate::format::page_header_type;
use crate::format::page_len;
use crate::format::page_nsegs;
use crate::format::page_wf;
use crate::format::pages_bytes;
use crate::format::page_packets;
use crate::format::page_seqno;
use crate::format::page_serial;
use crate::format::page_table;
use crate::format::page_version;
use crate::format::parse_u32_le;
use crate::format::parse_u64_le;
use crate::format::segments_of;
use crate::format::u32_from_le;
use crate::format::u64_from_le;
use crate::format::slices_from;
use crate::format::zero_crc;
use crate::format::BOS_VALUE;
use crate::format::CONTINUATION_VALUE;
use crate::format::EOS_VALUE;
use crate::format::MAX_PAGE_SIZE;
use crate::format::NO_GRANULE_POSITION;
use crate::read_error::ReadError;
use crate::writer::seq_succ;

verus! {

/// What a packet looks like in specifications.
pub struct PacketView {
    /// The payload of the packet.
    pub data: Seq<u8>,
    /// The serial of the logical bitstream this packet belongs to.
    pub bitstream_serial_number: u32,
    /// The granule position of the page that completed the packet.
    pub granule_position: u64,
    /// The packet opens its logical bitstream.
    pub is_bos: bool,
    /// The packet closes its logical bitstream.
    pub is_eos: bool,
}

/// A packet inside an OGG stream.
#[derive(Clone, Debug)]
pub struct Packet {
    pub(crate) data: Vec<u8>,
    pub(crate) bitstream_serial_number: u32,
    pub(crate) granule_position: u64,
    pub(crate) is_bos: bool,
    pub(crate) is_eos: bool,
}

impl View for Packet {
    type V = PacketView;

    closed spec fn view(&self) -> PacketView {
        PacketView {
            data: self.data@,
            bitstream_serial_number: self.bitstream_serial_number,
            granule_position: self.granule_position,
            is_bos: self.is_bos,
            is_eos: self.is_eos,
        }
    }
}

impl Default for Packet {
    /// An empty packet, ready to be handed to `next_packet`.
    fn default() -> (p: Self)
        ensures
            p@.data == Seq::<u8>::empty(),
            p@.bitstream_serial_number == 0,
            p@.granule_position == 0,
            p@.is_bos == false,
            p@.is_eos == false,
    {
        Packet {
            data: Vec::new(),
            bitstream_serial_number: 0,
            granule_position: 0,
            is_bos: false,
            is_eos: false,
        }
    }
}

impl Packet {
    /// The payload of the packet.
    pub fn data(&self) -> (r: &[u8])
        ensures
            r@ == self@.data,
    {
        self.data.as_slice()
    }

    /// Unique serial ID of the logical bitstream this packet belongs to.
    pub fn bitstream_serial_number(&self) -> (r: u32)
        ensures
            r == self@.bitstream_serial_number,
    {
        self.bitstream_serial_number
    }

    /// The granule position of the last sample in the packet.
    pub fn granule_position(&self) -> (r: u64)
        ensures
            r == self@.granule_position,
    {
        self.granule_position
    }

    /// The packet is a begin-of-stream marker.
    pub fn is_bos(&self) -> (r: bool)
        ensures
            r == self@.is_bos,
    {
        self.is_bos
    }

    /// The packet is an end-of-stream marker.
    pub fn is_eos(&self) -> (r: bool)
        ensures
            r == self@.is_eos,
    {
        self.is_eos
    }
}

/// Returns the status of the read operation.
#[derive(Clone, Copy, Debug, Eq, PartialEq)]
pub enum ReadStatus {
    /// A packet was delivered.
    Delivered,
    /// No new packet: the end of the input was reached.
    Eof,
    /// No new packet: a page was corrupted or held no packet; simply call
    /// again.
    Missing,
}

/// One packet extracted from the current page, as a byte range into the
/// page buffer.
#[derive(Clone, Debug)]
pub(crate) struct QueuedPacket {
    pub(crate) start: usize,
    pub(crate) end: usize,
    pub(crate) is_complete: bool,
}

/// The position of the first capture pattern at or after `pos`, or -1 when
/// the input ends before another whole pattern can start.
pub open spec fn first_capture(s: Seq<u8>, pos: int) -> int
    decreases s.len() - pos,
{
    if pos < 0 || pos + 4 > s.len() {
        -1
    } else if is_capture_at(s, pos) {
        pos
    } else {
        first_capture(s, pos + 1)
    }
}

/// What `first_capture` finds: the first pattern, before which there is
/// none.
pub proof fn lemma_first_capture(s: Seq<u8>, pos: int)
    requires
        0 <= pos,
    ensures
        first_capture(s, pos) == -1 ==> forall|q: int|
            pos <= q && q + 4 <= s.len() ==> !is_capture_at(s, q),
        first_capture(s, pos) != -1 ==> {
            &&& pos <= first_capture(s, pos)
            &&& first_capture(s, pos) + 4 <= s.len()
            &&& is_capture_at(s, first_capture(s, pos))
            &&& forall|q: int| pos <= q < first_capture(s, pos) ==> !is_capture_at(s, q)
        },
    decreases s.len() - pos,
{
    if pos + 4 > s.len() {
        assert forall|q: int| pos <= q && q + 4 <= s.len() implies !is_capture_at(s, q) by {}
    } else if is_capture_at(s, pos) {
    } else {
        lemma_first_capture(s, pos + 1);
        if first_capture(s, pos) == -1 {
            assert forall|q: int| pos <= q && q + 4 <= s.len() implies !is_capture_at(s, q) by {
                if q > pos {
                    assert(!is_capture_at(s, q));
                }
            }
        }
    }
}

/// Scanning from anywhere inside a run with no capture pattern finds the
/// same first pattern.
pub proof fn lemma_first_capture_from(s: Seq<u8>, pos: int, p: int)
    requires
        0 <= pos <= p,
        forall|q: int| pos <= q < p ==> !is_capture_at(s, q),
    ensures
        first_capture(s, pos) == first_capture(s, p),
    decreases p - pos,
{
    if p > pos {
        if pos + 4 > s.len() {
            assert(first_capture(s, pos) == -1);
            assert(p + 4 > s.len());
            assert(first_capture(s, p) == -1);
        } else {
            lemma_first_capture_from(s, pos + 1, p);
        }
    }
}

/// The reader core: the current page, the packets queued from it, and the
/// metadata of the last successfully decoded page.
#[derive(Clone, Debug)]
pub(crate) struct BitStreamReader {
    pub(crate) page_buffer: Vec<u8>,
    pub(crate) queued_packets: Vec<QueuedPacket>,
    pub(crate) current_bitstream_serial_number: u32,
    pub(crate) current_page_sequence_number: u32,
    pub(crate) current_granule_position: u64,
    pub(crate) current_is_eos: bool,
}

/// Every queued range lies inside the page buffer, and only the last
/// queued packet may be incomplete.
pub(crate) open spec fn reader_wf(r: BitStreamReader) -> bool {
    forall|i: int|
        0 <= i < r.queued_packets@.len() ==> {
            &&& (#[trigger] r.queued_packets@[i]).start <= r.queued_packets@[i].end
                <= r.page_buffer@.len()
            &&& (i < r.queued_packets@.len() - 1 ==> r.queued_packets@[i].is_complete)
        }
}

/// The queued packets as byte sequences with their completeness marks.
pub(crate) open spec fn qview(r: BitStreamReader) -> Seq<(Seq<u8>, bool)> {
    r.queued_packets@.map_values(
        |q: QueuedPacket| (r.page_buffer@.subrange(q.start as int, q.end as int), q.is_complete),
    )
}

impl BitStreamReader {
    /// A fresh reader: nothing buffered, nothing queued.
    pub(crate) fn new() -> (r: Self)
        ensures
            reader_wf(r),
            r.page_buffer@ == Seq::<u8>::empty(),
            qview(r) == Seq::<(Seq<u8>, bool)>::empty(),
            r.queued_packets@.len() == 0,
            r.current_bitstream_serial_number == 0,
            r.current_page_sequence_number == 0,
            r.current_granule_position == 0,
            r.current_is_eos == false,
    {
        let r = BitStreamReader {
            page_buffer: Vec::new(),
            queued_packets: Vec::new(),
            current_bitstream_serial_number: 0,
            current_page_sequence_number: 0,
            current_granule_position: 0,
            current_is_eos: false,
        };
        proof {
            assert(qview(r) =~= Seq::<(Seq<u8>, bool)>::empty());
        }
        r
    }

    /// Appends the bytes of one queued range to the packet under assembly
    /// and stamps it with the current page's metadata.
    fn write_frame(&self, packet: &mut Packet, start: usize, end: usize)
        requires
            start <= end <= self.page_buffer@.len(),
        ensures
            final(packet)@.data == old(packet)@.data + self.page_buffer@.subrange(
                start as int,
                end as int,
            ),
            final(packet)@.bitstream_serial_number == self.current_bitstream_serial_number,
            final(packet)@.granule_position == self.current_granule_position,
            final(packet)@.is_bos == false,
            final(packet)@.is_eos == false,
    {
        packet.data.extend_from_slice(&self.page_buffer.as_slice()[start..end]);
        packet.bitstream_serial_number = self.current_bitstream_serial_number;
        packet.granule_position = self.current_granule_position;
        packet.is_bos = false;
        packet.is_eos = false;
    }

    /// Verifies the checksum of the buffered page: the stored value must be
    /// the checksum of the page with its checksum field zeroed.
    fn verify_crc32(&self) -> (ok: bool)
        requires
            self.page_buffer@.len() >= 27,
        ensures
            ok == page_crc_ok(self.page_buffer@),
    {
        let buf = self.page_buffer.as_slice();
        let stored = parse_u32_le(&buf[22..26]);
        let c1 = crc32_feed(0, buf, 0, 22);
        let zeros: Vec<u8> = vec![0u8, 0u8, 0u8, 0u8];
        let c2 = crc32_feed(c1, zeros.as_slice(), 0, 4);
        let c3 = crc32_feed(c2, buf, 26, self.page_buffer.len());
        proof {
            let s = self.page_buffer@;
            let a = s.subrange(0, 22);
            let z = seq![0u8, 0u8, 0u8, 0u8];
            let b = s.subrange(26, s.len() as int);
            assert(zeros@ =~= z);
            assert(zeros@.subrange(0, 4) =~= z);
            assert(zero_crc(s) == (a + z) + b);
            lemma_crc32_acc_append(0, a + z, b);
            lemma_crc32_acc_append(0, a, z);
            assert(buf@.subrange(22, 26) =~= s.subrange(22, 26));
        }
        stored == c3
    }
}

/// The whole span of the page whose capture pattern stands at `p`: fixed
/// header, segment table, and the payload the table announces.
pub open spec fn page_span(s: Seq<u8>, p: int) -> int
    recommends
        p + 27 <= s.len(),
{
    27 + s[p + 26] + lace_sum(s.subrange(p + 27, p + 27 + s[p + 26]))
}

/// The page whose capture pattern stands at `p` lies whole inside the
/// input.
pub open spec fn page_complete_at(s: Seq<u8>, p: int) -> bool {
    &&& 0 <= p
    &&& p + 27 <= s.len()
    &&& p + 27 + s[p + 26] <= s.len()
    &&& p + page_span(s, p) <= s.len()
}

impl BitStreamReader {
    /// Reads the page whose capture pattern stands at `p` into the page
    /// buffer, whole, and queues the packets its segment table draws.
    fn read_page_data(&mut self, input: &[u8], p: usize) -> (r: Option<usize>)
        requires
            p + 4 <= input@.len(),
            old(self).queued_packets@.len() == 0,
        ensures
            reader_wf(*final(self)),
            match r {
                Some(page_end) => {
                    &&& page_complete_at(input@, p as int)
                    &&& page_end == p + page_span(input@, p as int)
                    &&& p < page_end <= input@.len()
                    &&& final(self).page_buffer@ == input@.subrange(p as int, page_end as int)
                    &&& final(self).page_buffer@.len() >= 27
                    &&& qview(*final(self)) == page_packets(
                        page_table(final(self).page_buffer@),
                        page_body(final(self).page_buffer@),
                    )
                    &&& final(self).current_bitstream_serial_number == old(
                        self,
                    ).current_bitstream_serial_number
                    &&& final(self).current_page_sequence_number == old(
                        self,
                    ).current_page_sequence_number
                    &&& final(self).current_granule_position == old(self).current_granule_position
                    &&& final(self).current_is_eos == old(self).current_is_eos
                },
                None => {
                    &&& !page_complete_at(input@, p as int)
                    &&& *final(self) == *old(self)
                },
            },
    {
        let len = input.len();
        if len - p < 27 {
            return None;
        }
        let n = input[p + 26] as usize;
        if len - (p + 27) < n {
            return None;
        }

        // The payload length the segment table announces.
        let mut seg_total: usize = 0;
        let mut j: usize = 0;
        while j < n
            invariant
                j <= n,
                p + 27 + n <= len,
                len == input@.len(),
                n == input@[p + 26] as int,
                seg_total == lace_sum(input@.subrange(p + 27, p + 27 + j)),
                seg_total <= 255 * j,
            decreases n - j,
        {
            proof {
                let t = input@.subrange(p + 27, p + 27 + j + 1);
                assert(t.drop_last() =~= input@.subrange(p + 27, p + 27 + j));
                assert(t.last() == input@[p + 27 + j]);
            }
            seg_total = seg_total + input[p + 27 + j] as usize;
            j = j + 1;
        }
        if len - (p + 27 + n) < seg_total {
            proof {
                assert(input@.subrange(p + 27, p + 27 + n) == input@.subrange(
                    p + 27,
                    p + 27 + input@[p as int + 26],
                ));
            }
            return None;
        }
        let page_end = p + 27 + n + seg_total;

        // Copy the whole page into the page buffer.
        self.page_buffer = Vec::new();
        self.page_buffer.extend_from_slice(&input[p..page_end]);
        let ghost g = self.page_buffer@;
        let ghost table = page_table(g);
        let ghost payload = page_body(g);
        proof {
            assert(g =~= input@.subrange(p as int, page_end as int));
            assert(table =~= input@.subrange(p + 27, p + 27 + n));
            assert(payload.len() == seg_total);
            assert(lace_sum(table) == seg_total);
        }

        // Queue the packets the segment table draws.
        let data_start: usize = 27 + n;
        let mut read_size: usize = 0;
        let mut segment_size: usize = 0;
        j = 0;
        proof {
            assert(g[26] == input@[p + 26]);
            assert(n as int == page_nsegs(g));
            assert(table.skip(0) =~= table);
            assert(table.take(0) =~= Seq::<u8>::empty());
            assert(qview(*self) =~= Seq::<(Seq<u8>, bool)>::empty());
            assert(page_packets(table, payload) == qview(*self) + slices_from(
                segments_of(table.skip(0), 0),
                payload,
                0,
            )) by {
                assert(qview(*self) + slices_from(segments_of(table, 0), payload, 0) =~= slices_from(
                    segments_of(table, 0),
                    payload,
                    0,
                ));
            }
        }
        while j < n
            invariant
                j <= n,
                n == table.len(),
                n as int == page_nsegs(g),
                seg_total as int == lace_sum(table),
                page_end == p + 27 + n + seg_total,
                g == self.page_buffer@,
                g.len() == 27 + n + lace_sum(table),
                table == page_table(g),
                payload == page_body(g),
                payload.len() == lace_sum(table),
                data_start == 27 + n,
                read_size + segment_size == lace_sum(table.take(j as int)),
                0 <= read_size,
                0 <= segment_size,
                reader_wf(*self),
                forall|i: int|
                    0 <= i < self.queued_packets@.len() ==> (#[trigger] self.queued_packets@[i]).is_complete,
                self.current_bitstream_serial_number == old(self).current_bitstream_serial_number,
                self.current_page_sequence_number == old(self).current_page_sequence_number,
                self.current_granule_position == old(self).current_granule_position,
                self.current_is_eos == old(self).current_is_eos,
                page_packets(table, payload) == qview(*self) + slices_from(
                    segments_of(table.skip(j as int), segment_size as int),
                    payload,
                    read_size as int,
                ),
            decreases n - j,
        {
            proof {
                lemma_lace_sum_take_bound(table, j as int);
                lemma_lace_sum_take_bound(table, j + 1);
                let t1 = table.take(j + 1);
                assert(t1.drop_last() =~= table.take(j as int));
                assert(t1.last() == table[j as int]);
                assert(table =~= g.subrange(27, 27 + n as int));
            }
            let lace = self.page_buffer[27 + j] as usize;
            proof {
                assert(table[j as int] == g.subrange(27, 27 + n as int)[j as int]);
                assert(table[j as int] == g[27 + j]);
                assert(read_size + segment_size + lace == lace_sum(table.take(j + 1)));
            }
            segment_size = segment_size + lace;
            if lace < 255 {
                let q = QueuedPacket {
                    start: data_start + read_size,
                    end: data_start + read_size + segment_size,
                    is_complete: true,
                };
                let ghost qv0 = qview(*self);
                self.queued_packets.push(q);
                proof {
                    assert(qview(*self) =~= qv0.push(
                        (payload.subrange(read_size as int, read_size + segment_size), true),
                    )) by {
                        assert(g.subrange(
                            data_start + read_size,
                            data_start + read_size + segment_size,
                        ) =~= payload.subrange(read_size as int, read_size + segment_size));
                    }
                    let rest = table.skip(j as int);
                    assert(rest[0] == table[j as int]);
                    assert(rest.drop_first() =~= table.skip(j + 1));
                    let segs = seq![(segment_size as int, true)] + segments_of(
                        table.skip(j + 1),
                        0,
                    );
                    assert(segments_of(rest, (segment_size - lace) as int) == segs);
                    assert(segs[0] == (segment_size as int, true));
                    assert(segs.drop_first() =~= segments_of(table.skip(j + 1), 0));
                    assert(slices_from(segs, payload, read_size as int) == seq![
                        (payload.subrange(read_size as int, read_size + segment_size), true),
                    ] + slices_from(
                        segments_of(table.skip(j + 1), 0),
                        payload,
                        read_size + segment_size,
                    ));
                    assert(page_packets(table, payload) =~= qview(*self) + slices_from(
                        segments_of(table.skip(j + 1), 0),
                        payload,
                        read_size + segment_size,
                    ));
                }
                read_size = read_size + segment_size;
                segment_size = 0;
            } else {
                proof {
                    let rest = table.skip(j as int);
                    assert(rest[0] == table[j as int]);
                    assert(rest.drop_first() =~= table.skip(j + 1));
                    assert(segments_of(rest, (segment_size - lace) as int) == segments_of(
                        table.skip(j + 1),
                        segment_size as int,
                    ));
                }
            }
            j = j + 1;
        }
        proof {
            assert(table.take(n as int) =~= table);
            assert(table.skip(n as int) =~= Seq::<u8>::empty());
        }
        if segment_size > 0 {
            let q = QueuedPacket {
                start: data_start + read_size,
                end: data_start + read_size + segment_size,
                is_complete: false,
            };
            let ghost qv0 = qview(*self);
            self.queued_packets.push(q);
            proof {
                assert(qview(*self) =~= qv0.push(
                    (payload.subrange(read_size as int, read_size + segment_size), false),
                )) by {
                    assert(g.subrange(
                        data_start + read_size,
                        data_start + read_size + segment_size,
                    ) =~= payload.subrange(read_size as int, read_size + segment_size));
                }
                let segs = segments_of(Seq::<u8>::empty(), segment_size as int);
                assert(segs == seq![(segment_size as int, false)]);
                assert(segs.drop_first() =~= Seq::<(int, bool)>::empty());
                assert(slices_from(segs.drop_first(), payload, read_size + segment_size)
                    =~= Seq::<(Seq<u8>, bool)>::empty());
                assert(slices_from(segs, payload, read_size as int) =~= seq![
                    (payload.subrange(read_size as int, read_size + segment_size), false),
                ]);
                assert(page_packets(table, payload) =~= qview(*self));
            }
        } else {
            proof {
                assert(slices_from(
                    segments_of(Seq::<u8>::empty(), 0),
                    payload,
                    read_size as int,
                ) =~= Seq::<(Seq<u8>, bool)>::empty());
                assert(page_packets(table, payload) =~= qview(*self));
            }
        }
        Some(page_end)
    }
}

/// The reader's observable state, for specifications: the queued packets
/// (bytes and completeness) and the metadata of the last decoded page.
pub struct ReaderModel {
    /// The packets queued from the current page.
    pub queued: Seq<(Seq<u8>, bool)>,
    /// The serial of the last decoded page.
    pub bitstream_serial_number: u32,
    /// The sequence number of the last decoded page.
    pub page_sequence_number: u32,
    /// The granule position of the last decoded page.
    pub granule_position: u64,
    /// The last decoded page carried the end-of-stream flag.
    pub is_eos: bool,
}

/// The model of a reader core.
pub(crate) open spec fn rmodel(r: BitStreamReader) -> ReaderModel {
    ReaderModel {
        queued: qview(r),
        bitstream_serial_number: r.current_bitstream_serial_number,
        page_sequence_number: r.current_page_sequence_number,
        granule_position: r.current_granule_position,
        is_eos: r.current_is_eos,
    }
}

/// A packet value holding no data and no stream marks.
pub open spec fn blank_packet(packet: PacketView) -> bool {
    packet.data.len() == 0 && !packet.is_bos && !packet.is_eos
}

/// The reader's state with its queue drained and its metadata kept.
pub open spec fn drained(m: ReaderModel) -> ReaderModel {
    ReaderModel {
        queued: Seq::empty(),
        bitstream_serial_number: m.bitstream_serial_number,
        page_sequence_number: m.page_sequence_number,
        granule_position: m.granule_position,
        is_eos: m.is_eos,
    }
}

/// The reader's state right after decoding the page image `g`, with an
/// empty queue.
pub open spec fn page_context(g: Seq<u8>) -> ReaderModel {
    ReaderModel {
        queued: Seq::empty(),
        bitstream_serial_number: page_serial(g),
        page_sequence_number: page_seqno(g),
        granule_position: page_granule(g),
        is_eos: page_header_type(g) & EOS_VALUE != 0,
    }
}

/// What resolving a packet returns: the result, and — where a page was
/// consumed, on `Delivered` and `Missing` — the stop position, the output
/// packet (in full on `Delivered`, in its data on `Missing`) and the
/// reader's state after the call.
pub struct ReadOutcome {
    /// The call's result.
    pub result: Result<ReadStatus, ReadError>,
    /// Where reading stopped.
    pub rpos: int,
    /// The output packet.
    pub packet: PacketView,
    /// The reader's state after the call.
    pub post: ReaderModel,
}

/// An outcome that consumed no page: only its result is meaningful.
pub open spec fn halted(r: Result<ReadStatus, ReadError>, ctx: ReaderModel) -> ReadOutcome {
    ReadOutcome {
        result: r,
        rpos: 0,
        packet: PacketView {
            data: Seq::empty(),
            bitstream_serial_number: 0,
            granule_position: 0,
            is_bos: false,
            is_eos: false,
        },
        post: ctx,
    }
}

/// How a packet left pending by one page is resolved by the pages that
/// follow: the loop of `next_packet`, one page per step. `pending` holds
/// the bytes gathered so far and `ctx` the state after the page that left
/// them. Each step syncs, reads one whole page and verifies it; then a
/// page out of order — another serial, or a sequence number that is not
/// exactly the previous plus one — drops the pending bytes and stands on
/// its own; a page in order but without the continuation mark orphans them
/// and is reported missing; a page in order with the mark extends them
/// with its first packet, delivering when that packet ends here and
/// carrying on into the next page when it does not.
pub open spec fn resolve_continuation(
    input: Seq<u8>,
    pos: int,
    ctx: ReaderModel,
    pending: Seq<u8>,
) -> ReadOutcome
    decreases input.len() - pos,
{
    let fc = first_capture(input, pos);
    if fc == -1 && input.len() < pos + MAX_PAGE_SIZE + 4 {
        halted(Ok(ReadStatus::Eof), ctx)
    } else if fc == -1 || fc > pos + MAX_PAGE_SIZE {
        halted(Err(ReadError::UnableToSync), ctx)
    } else if !page_complete_at(input, fc) {
        halted(Ok(ReadStatus::Eof), ctx)
    } else {
        let end = fc + page_span(input, fc);
        let g = input.subrange(fc, end);
        let segs = page_packets(page_table(g), page_body(g));
        if !page_crc_ok(g) {
            ReadOutcome {
                result: Ok(ReadStatus::Missing),
                rpos: end,
                packet: halted(Ok(ReadStatus::Missing), ctx).packet,
                post: drained(ctx),
            }
        } else if page_version(g) != 0 {
            halted(Err(ReadError::UnhandledBitstreamVersion(page_version(g))), ctx)
        } else {
            let keep = pending.len() > 0 && page_serial(g) == ctx.bitstream_serial_number
                && page_seqno(g) == seq_succ(ctx.page_sequence_number);
            let held = if keep {
                pending
            } else {
                Seq::empty()
            };
            if segs.len() == 0 {
                ReadOutcome {
                    result: Ok(ReadStatus::Missing),
                    rpos: end,
                    packet: PacketView {
                        data: held,
                        bitstream_serial_number: page_serial(g),
                        granule_position: page_granule(g),
                        is_bos: false,
                        is_eos: false,
                    },
                    post: page_context(g),
                }
            } else if held.len() > 0 {
                if page_header_type(g) & CONTINUATION_VALUE == 0 {
                    ReadOutcome {
                        result: Ok(ReadStatus::Missing),
                        rpos: end,
                        packet: PacketView {
                            data: held,
                            bitstream_serial_number: page_serial(g),
                            granule_position: page_granule(g),
                            is_bos: false,
                            is_eos: false,
                        },
                        post: ReaderModel { queued: segs.drop_first(), ..page_context(g) },
                    }
                } else if segs[0].1 {
                    ReadOutcome {
                        result: Ok(ReadStatus::Delivered),
                        rpos: end,
                        packet: PacketView {
                            data: held + segs[0].0,
                            bitstream_serial_number: page_serial(g),
                            granule_position: page_granule(g),
                            is_bos: false,
                            is_eos: false,
                        },
                        post: ReaderModel { queued: segs.drop_first(), ..page_context(g) },
                    }
                } else if end <= pos || end > input.len() {
                    halted(Ok(ReadStatus::Eof), ctx)  // a whole page spans past its own start
                } else {
                    resolve_continuation(input, end, page_context(g), held + segs[0].0)
                }
            } else {
                if segs[0].1 {
                    ReadOutcome {
                        result: Ok(ReadStatus::Delivered),
                        rpos: end,
                        packet: PacketView {
                            data: segs[0].0,
                            bitstream_serial_number: page_serial(g),
                            granule_position: page_granule(g),
                            is_bos: page_header_type(g) & BOS_VALUE != 0,
                            is_eos: false,
                        },
                        post: ReaderModel { queued: segs.drop_first(), ..page_context(g) },
                    }
                } else if end <= pos || end > input.len() {
                    halted(Ok(ReadStatus::Eof), ctx)  // a whole page spans past its own start
                } else {
                    resolve_continuation(input, end, page_context(g), segs[0].0)
                }
            }
        }
    }
}

/// A call's observable effects agree with a resolution outcome.
pub open spec fn outcome_matches(
    o: ReadOutcome,
    post: ReaderModel,
    packet: PacketView,
    r: Result<ReadStatus, ReadError>,
    rpos: int,
) -> bool {
    &&& r == o.result
    &&& (o.result == Ok::<ReadStatus, ReadError>(ReadStatus::Delivered) ==> packet == o.packet
        && post == o.post && rpos == o.rpos)
    &&& (o.result == Ok::<ReadStatus, ReadError>(ReadStatus::Missing) ==> packet.data
        == o.packet.data && post == o.post && rpos == o.rpos)
}

/// What one `next_packet` call does when its queue is empty on entry: the
/// input at the read position decides — end of input, no sync pattern, a
/// short final page, a corrupt page, a foreign version, an empty page, a
/// delivered packet, or a packet that continues on the following pages and
/// is resolved there as `resolve_continuation` says.
pub open spec fn empty_queue_case(
    pre: ReaderModel,
    post: ReaderModel,
    input: Seq<u8>,
    pos: int,
    packet: PacketView,
    r: Result<ReadStatus, ReadError>,
    rpos: int,
) -> bool {
    let fc = first_capture(input, pos);
    if fc == -1 && input.len() < pos + MAX_PAGE_SIZE + 4 {
        &&& r == Ok::<ReadStatus, ReadError>(ReadStatus::Eof)
        &&& rpos == pos
        &&& post == pre
        &&& blank_packet(packet)
    } else if fc == -1 || fc > pos + MAX_PAGE_SIZE {
        &&& r == Err::<ReadStatus, ReadError>(ReadError::UnableToSync)
        &&& rpos == pos
        &&& post == pre
        &&& blank_packet(packet)
    } else if !page_complete_at(input, fc) {
        &&& r == Ok::<ReadStatus, ReadError>(ReadStatus::Eof)
        &&& rpos == pos
        &&& post == pre
        &&& blank_packet(packet)
    } else {
        let g = input.subrange(fc, fc + page_span(input, fc));
        let segs = page_packets(page_table(g), page_body(g));
        if !page_crc_ok(g) {
            &&& r == Ok::<ReadStatus, ReadError>(ReadStatus::Missing)
            &&& rpos == fc + page_span(input, fc)
            &&& post == (ReaderModel { queued: Seq::empty(), ..pre })
            &&& blank_packet(packet)
        } else if page_version(g) != 0 {
            &&& r == Err::<ReadStatus, ReadError>(
                ReadError::UnhandledBitstreamVersion(page_version(g)),
            )
            &&& rpos == pos
            &&& post == (ReaderModel { queued: segs, ..pre })
            &&& blank_packet(packet)
        } else if segs.len() == 0 {
            &&& r == Ok::<ReadStatus, ReadError>(ReadStatus::Missing)
            &&& rpos == fc + page_span(input, fc)
            &&& post.queued.len() == 0
            &&& post.bitstream_serial_number == page_serial(g)
            &&& post.page_sequence_number == page_seqno(g)
            &&& post.granule_position == page_granule(g)
            &&& post.is_eos == (page_header_type(g) & EOS_VALUE != 0)
            &&& blank_packet(packet)
        } else if segs[0].1 {
            &&& r == Ok::<ReadStatus, ReadError>(ReadStatus::Delivered)
            &&& rpos == fc + page_span(input, fc)
            &&& packet.data == segs[0].0
            &&& packet.bitstream_serial_number == page_serial(g)
            &&& packet.granule_position == page_granule(g)
            &&& packet.is_bos == (page_header_type(g) & BOS_VALUE != 0)
            &&& packet.is_eos == false
            &&& post.queued == segs.drop_first()
            &&& post.bitstream_serial_number == page_serial(g)
            &&& post.page_sequence_number == page_seqno(g)
            &&& post.granule_position == page_granule(g)
            &&& post.is_eos == (page_header_type(g) & EOS_VALUE != 0)
        } else {
            outcome_matches(
                resolve_continuation(
                    input,
                    fc + page_span(input, fc),
                    page_context(g),
                    segs[0].0,
                ),
                post,
                packet,
                r,
                rpos,
            )
        }
    }
}

/// What one `next_packet` call does: with a complete packet at the head of
/// the queue it is delivered without touching the input; a queued packet
/// that still continues into unread pages is resolved by the pages that
/// follow, as `resolve_continuation` says; with an empty queue the input
/// decides, as `empty_queue_case` says. Whenever the input ends or an
/// error stops the call, the read position stays where the call began.
pub open spec fn next_packet_post(
    pre: ReaderModel,
    post: ReaderModel,
    input: Seq<u8>,
    pos: int,
    packet: PacketView,
    r: Result<ReadStatus, ReadError>,
    rpos: int,
) -> bool {
    &&& pos <= rpos <= input.len()
    &&& (pre.queued.len() > 0 && pre.queued[0].1 ==> {
        &&& r == Ok::<ReadStatus, ReadError>(ReadStatus::Delivered)
        &&& rpos == pos
        &&& packet.data == pre.queued[0].0
        &&& packet.bitstream_serial_number == pre.bitstream_serial_number
        &&& packet.granule_position == pre.granule_position
        &&& packet.is_bos == false
        &&& packet.is_eos == (pre.queued.len() == 1 && pre.is_eos)
        &&& post.queued == pre.queued.drop_first()
        &&& post.bitstream_serial_number == pre.bitstream_serial_number
        &&& post.page_sequence_number == pre.page_sequence_number
        &&& post.granule_position == pre.granule_position
        &&& post.is_eos == pre.is_eos
    })
    &&& (pre.queued.len() > 0 && !pre.queued[0].1 ==> outcome_matches(
        resolve_continuation(input, pos, drained(pre), pre.queued[0].0),
        post,
        packet,
        r,
        rpos,
    ))
    &&& (pre.queued.len() == 0 ==> empty_queue_case(pre, post, input, pos, packet, r, rpos))
    &&& ((r == Ok::<ReadStatus, ReadError>(ReadStatus::Eof) || r is Err) ==> rpos == pos)
}

/// The entry states under which a call keeps working through further pages:
/// a queued packet that continues, or a first packet on the page at the
/// read position that continues.
pub open spec fn continuing_entry(pre: ReaderModel, input: Seq<u8>, pos: int) -> bool {
    ||| (pre.queued.len() > 0 && !pre.queued[0].1)
    ||| (pre.queued.len() == 0 && {
        let fc = first_capture(input, pos);
        let g = input.subrange(fc, fc + page_span(input, fc));
        let segs = page_packets(page_table(g), page_body(g));
        &&& 0 <= fc <= pos + MAX_PAGE_SIZE
        &&& page_complete_at(input, fc)
        &&& page_crc_ok(g)
        &&& page_version(g) == 0
        &&& segs.len() > 0
        &&& !segs[0].1
    })
}

/// Sync recovery: garbage prepended before a valid stream is skipped
/// whole, as long as it completes no capture pattern of its own (with up to
/// three bytes of the real stream's opening pattern). The first pattern
/// found from the start is then exactly where the real stream begins, so by
/// `next_packet_post` a read over the prefixed input delivers what a read
/// over the clean input delivers.
pub proof fn lemma_sync_recovery(garbage: Seq<u8>, rest: Seq<u8>)
    requires
        garbage.len() <= MAX_PAGE_SIZE - 4,
        is_capture_at(rest, 0),
        forall|q: int| 0 <= q < garbage.len() ==> !is_capture_at(garbage + rest, q),
    ensures
        first_capture(garbage + rest, 0) == garbage.len(),
        first_capture(garbage + rest, 0) <= MAX_PAGE_SIZE,
{
    let s = garbage + rest;
    lemma_first_capture_from(s, 0, garbage.len() as int);
    assert(is_capture_at(s, garbage.len() as int));
}

/// A built page at the head of the input is exactly what a read finds
/// there: the first capture pattern is at position 0, the page lies whole,
/// spans exactly its own length, and its image is its own bytes — whatever
/// follows it. With `next_packet_post` and the writer's page contracts
/// this closes the round trip: what `page_bytes` framed is what the reader
/// delivers.
pub proof fn lemma_page_image_readable(p: crate::format::PageRec, rest: Seq<u8>)
    requires
        crate::format::page_wf(p),
    ensures
        ({
            let input = page_bytes(p) + rest;
            &&& first_capture(input, 0) == 0
            &&& page_complete_at(input, 0)
            &&& page_span(input, 0) == crate::format::page_len(p)
            &&& input.subrange(0, crate::format::page_len(p)) == page_bytes(p)
        }),
{
    let g = page_bytes(p);
    let input = g + rest;
    crate::format::lemma_page_bytes_fields(p);
    assert(is_capture_at(input, 0));
    assert(input[26] == g[26]);
    assert(input.subrange(27, 27 + g[26]) =~= g.subrange(27, 27 + g[26]));
    assert(g.subrange(27, 27 + g[26]) =~= crate::format::page_table(g));
    lemma_lace_sum_bounds(crate::format::page_table(g));
    assert(crate::format::page_table(g) == p.lacing);
    assert(lace_sum(p.lacing) == p.payload.len());
    assert(page_span(input, 0) == crate::format::page_len(p));
    assert(input.subrange(0, crate::format::page_len(p)) =~= g);
}

/// Corruption recovery: a page whose payload was corrupted — any byte
/// changed, one flipped bit included — still syncs and spans exactly as
/// the clean page did, but fails checksum verification; by the corrupt
/// branch of `empty_queue_case`, a read at it reports `Missing`, clears
/// the queue, and stands exactly where the page ends, so the bytes after
/// it — here `rest`, untouched — decode as if the corrupt page had never
/// been read. One corrupted page costs exactly its own packets.
#[verifier::rlimit(60)]
pub proof fn lemma_corrupted_page_is_skipped(
    rec: crate::format::PageRec,
    j: int,
    b: u8,
    rest: Seq<u8>,
)
    requires
        page_wf(rec),
        27 + rec.lacing.len() <= j < page_len(rec),
        b != page_bytes(rec)[j],
    ensures
        ({
            let input = page_bytes(rec).update(j, b) + rest;
            &&& first_capture(input, 0) == 0
            &&& page_complete_at(input, 0)
            &&& page_span(input, 0) == page_len(rec)
            &&& !page_crc_ok(input.subrange(0, page_len(rec)))
            &&& input.subrange(page_len(rec), input.len() as int) == rest
        }),
{
    crate::format::lemma_page_bytes_fields(rec);
    let pb = page_bytes(rec);
    let corrupted = pb.update(j, b);
    let input = corrupted + rest;
    assert(is_capture_at(input, 0));
    assert(first_capture(input, 0) == 0);
    assert(input[26] == pb[26]);
    assert(pb[26] as int == rec.lacing.len());
    assert(input.subrange(27, 27 + pb[26]) =~= rec.lacing) by {
        assert(pb.subrange(27, 27 + pb[26]) == crate::format::page_table(pb));
    }
    assert(lace_sum(input.subrange(27, 27 + input[26])) == lace_sum(rec.lacing));
    assert(lace_sum(rec.lacing) == rec.payload.len());
    assert(page_span(input, 0) == 27 + rec.lacing.len() + rec.payload.len());
    assert(page_span(input, 0) == page_len(rec));
    assert(page_complete_at(input, 0));
    assert(input.subrange(0, page_len(rec)) =~= corrupted);
    crate::format::lemma_corrupted_page_fails_crc(rec, j, b);
    assert(input.subrange(page_len(rec), input.len() as int) =~= rest);
}

/// A split packet's continuation pages resolve to the reassembled bytes:
/// from a context left by the split's first page — same serial, next
/// sequence number, the first slice pending — reading on over the
/// remaining pages of `split_pages` delivers exactly one packet holding
/// the pending bytes followed by the rest of the packet, stamped with the
/// split's real granule position, whatever bytes follow the split. With
/// `push_packet`'s contract and the continuing case of `empty_queue_case`
/// this closes the round trip for packets split over several pages.
pub proof fn lemma_split_resolves(
    input: Seq<u8>,
    pos: int,
    ctx: ReaderModel,
    pending: Seq<u8>,
    serial: u32,
    q: u32,
    granule: u64,
    d: Seq<u8>,
    suffix: Seq<u8>,
)
    requires
        0 <= pos <= input.len(),
        input.subrange(pos, input.len() as int) == pages_bytes(
            crate::writer::split_pages(serial, q, granule, CONTINUATION_VALUE, d),
        ) + suffix,
        ctx.bitstream_serial_number == serial,
        seq_succ(ctx.page_sequence_number) == q,
        pending.len() > 0,
    ensures
        ({
            let o = resolve_continuation(input, pos, ctx, pending);
            &&& o.result == Ok::<ReadStatus, ReadError>(ReadStatus::Delivered)
            &&& o.packet.data == pending + d
            &&& o.packet.bitstream_serial_number == serial
            &&& o.packet.granule_position == granule
            &&& o.packet.is_bos == false
            &&& o.packet.is_eos == false
        }),
    decreases d.len(),
{
    crate::writer::lemma_header_bits();
    let ps = crate::writer::split_pages(serial, q, granule, CONTINUATION_VALUE, d);
    let head = ps[0];
    let tail = if d.len() < crate::format::MAX_PAGE_DATA_SIZE as int {
        Seq::<crate::format::PageRec>::empty()
    } else {
        crate::writer::split_pages(
            serial,
            seq_succ(q),
            granule,
            CONTINUATION_VALUE,
            d.skip(crate::format::MAX_PAGE_DATA_SIZE as int),
        )
    };
    let pb = page_bytes(head);
    let rest = pages_bytes(tail) + suffix;
    assert(page_wf(head)) by {
        if d.len() < crate::format::MAX_PAGE_DATA_SIZE as int {
            crate::format::lemma_packet_lacing_props(d.len() as int);
        } else {
            crate::format::lemma_lace_sum_lace_run(255);
        }
    }
    assert(pages_bytes(ps) == pb + pages_bytes(tail)) by {
        if d.len() < crate::format::MAX_PAGE_DATA_SIZE as int {
            assert(ps =~= seq![head]);
            assert(seq![head].drop_last() =~= Seq::<crate::format::PageRec>::empty());
            assert(seq![head].last() == head);
            assert(pages_bytes(Seq::<crate::format::PageRec>::empty()) == Seq::<u8>::empty());
            assert(Seq::<u8>::empty() + pb =~= pb);
            assert(pages_bytes(seq![head]) =~= pb);
            assert(pb + pages_bytes(Seq::<crate::format::PageRec>::empty()) =~= pb);
        } else {
            assert(ps == seq![head] + tail);
            assert(seq![head].drop_last() =~= Seq::<crate::format::PageRec>::empty());
            assert(seq![head].last() == head);
            assert(pages_bytes(Seq::<crate::format::PageRec>::empty()) == Seq::<u8>::empty());
            assert(Seq::<u8>::empty() + pb =~= pb);
            assert(pages_bytes(seq![head]) =~= pb);
            crate::format::lemma_pages_bytes_append(seq![head], tail);
        }
    }
    assert(input.subrange(pos, input.len() as int) =~= pb + rest);
    assert(input =~= input.subrange(0, pos) + (pb + rest));
    lemma_page_image_readable(head, rest);
    lemma_page_shift(input.subrange(0, pos), pb + rest);
    crate::format::lemma_page_bytes_fields(head);
    let span = page_span(input, pos);
    assert(span == crate::format::page_len(head));
    let g = input.subrange(pos, pos + span);
    assert(g == (pb + rest).subrange(0, crate::format::page_len(head)));
    assert(g == pb);
    assert(is_capture_at(input, pos)) by {
        assert(input[pos] == g[0] && input[pos + 1] == g[1] && input[pos + 2] == g[2] && input[pos
            + 3] == g[3]);
    }
    assert(first_capture(input, pos) == pos);
    crate::format::lemma_page_bytes_crc_ok(head);
    assert(page_crc_ok(g));
    assert(page_version(g) == 0);
    assert(page_header_type(g) == CONTINUATION_VALUE);
    assert(page_serial(g) == serial);
    assert(page_seqno(g) == q);
    let segs = page_packets(page_table(g), page_body(g));
    if d.len() < crate::format::MAX_PAGE_DATA_SIZE as int {
        crate::format::lemma_single_packet_page_round_trip(
            CONTINUATION_VALUE,
            granule,
            serial,
            q,
            d,
        );
        assert(segs == seq![(d, true)]);
        assert(page_granule(g) == granule);
        assert(resolve_continuation(input, pos, ctx, pending).packet.data == pending + d);
    } else {
        let take = d.take(crate::format::MAX_PAGE_DATA_SIZE as int);
        crate::format::lemma_full_slice_page_packets(take);
        assert(page_table(g) == crate::format::lace_run(255));
        assert(page_body(g) == take);
        assert(segs == seq![(take, false)]);
        assert(!segs[0].1);
        let end = pos + span;
        assert(end > pos && end <= input.len());
        assert(input.subrange(end, input.len() as int) =~= pages_bytes(tail) + suffix);
        lemma_split_resolves(
            input,
            end,
            page_context(g),
            pending + take,
            serial,
            seq_succ(q),
            granule,
            d.skip(crate::format::MAX_PAGE_DATA_SIZE as int),
            suffix,
        );
        assert(resolve_continuation(input, pos, ctx, pending) == resolve_continuation(
            input,
            end,
            page_context(g),
            pending + take,
        ));
        assert((pending + take) + d.skip(crate::format::MAX_PAGE_DATA_SIZE as int) =~= pending + d);
    }
}

/// A whole page keeps its image under an arbitrary prefix: the page that
/// starts where the prefix ends spans the same bytes as the page at the
/// start of the clean input.
pub proof fn lemma_page_shift(prefix: Seq<u8>, s: Seq<u8>)
    requires
        page_complete_at(s, 0),
    ensures
        page_complete_at(prefix + s, prefix.len() as int),
        page_span(prefix + s, prefix.len() as int) == page_span(s, 0),
        (prefix + s).subrange(
            prefix.len() as int,
            prefix.len() + page_span(s, 0),
        ) == s.subrange(0, page_span(s, 0)),
{
    let t = prefix + s;
    let p = prefix.len() as int;
    assert forall|i: int| 0 <= i < s.len() implies t[p + i] == s[i] by {}
    assert(t[p + 26] == s[26]);
    lemma_lace_sum_bounds(s.subrange(27, 27 + s[26]));
    assert(t.subrange(p + 27, p + 27 + s[26]) =~= s.subrange(27, 27 + s[26]));
    assert(t.subrange(p, p + page_span(s, 0)) =~= s.subrange(0, page_span(s, 0)));
}

/// Generic OGG file reader over an in-memory, seekable byte source.
#[derive(Clone, Debug)]
pub struct FileReader {
    inner: BitStreamReader,
    reader: Vec<u8>,
    position: usize,
}

impl FileReader {
    /// The byte source being read.
    pub closed spec fn source(self) -> Seq<u8> {
        self.reader@
    }

    /// The read position inside the source.
    pub closed spec fn cursor(self) -> int {
        self.position as int
    }

    /// The reader's observable state.
    pub closed spec fn model(self) -> ReaderModel {
        rmodel(self.inner)
    }

    /// The reader is in a usable state.
    pub closed spec fn wf(self) -> bool {
        reader_wf(self.inner) && self.position <= self.reader@.len()
    }

    /// Creates a new `FileReader` over the given bytes.
    pub fn new(reader: Vec<u8>) -> (r: Self)
        ensures
            r.wf(),
            r.source() == reader@,
            r.cursor() == 0,
            r.model() == (ReaderModel {
                queued: Seq::<(Seq<u8>, bool)>::empty(),
                bitstream_serial_number: 0,
                page_sequence_number: 0,
                granule_position: 0,
                is_eos: false,
            }),
    {
        FileReader { inner: BitStreamReader::new(), reader, position: 0 }
    }

    /// Consumes the `FileReader` and returns the byte source.
    pub fn into_inner(self) -> (r: Vec<u8>)
        ensures
            r@ == self.source(),
    {
        self.reader
    }

    /// Reads the next packet.
    ///
    /// Recoverable conditions are reported, not raised: a corrupt or empty
    /// page as `ReadStatus::Missing` — simply call again — and the end of
    /// the input as `ReadStatus::Eof`.
    pub fn next_packet(&mut self, packet: &mut Packet) -> (r: Result<ReadStatus, ReadError>)
        requires
            old(self).wf(),
        ensures
            final(self).wf(),
            final(self).source() == old(self).source(),
            next_packet_post(
                old(self).model(),
                final(self).model(),
                old(self).source(),
                old(self).cursor(),
                final(packet)@,
                r,
                final(self).cursor(),
            ),
    {
        let (res, newpos) = self.inner.next_packet(self.reader.as_slice(), self.position, packet);
        self.position = newpos;
        res
    }

    /// Repositions the reader on the first packet whose granule position is
    /// at or after the given one, for the given logical bitstream, by
    /// bisection over the byte offsets. Seeking to granule 0 rewinds to the
    /// start; seeking to the largest granule goes to the end.
    pub fn seek(&mut self, bitstream_serial_number: u32, target_granule_position: u64) -> (r:
        Result<(), ReadError>)
        requires
            old(self).wf(),
        ensures
            final(self).wf(),
            final(self).source() == old(self).source(),
            final(self).model().queued.len() == 0,
            target_granule_position == 0 ==> final(self).cursor() == 0,
            target_granule_position == 0xFFFF_FFFF_FFFF_FFFFu64 ==> final(self).cursor() == old(
                self,
            ).source().len(),
            r == Ok::<(), ReadError>(()),
    {
        let newpos = self.inner.seek(
            self.reader.as_slice(),
            bitstream_serial_number,
            target_granule_position,
        );
        self.position = newpos;
        Ok(())
    }
}

/// Generic OGG stream reader over an in-memory, sequential byte source.
#[derive(Clone, Debug)]
pub struct StreamReader {
    inner: BitStreamReader,
    reader: Vec<u8>,
    position: usize,
}

impl StreamReader {
    /// The byte source being read.
    pub closed spec fn source(self) -> Seq<u8> {
        self.reader@
    }

    /// The read position inside the source.
    pub closed spec fn cursor(self) -> int {
        self.position as int
    }

    /// The reader's observable state.
    pub closed spec fn model(self) -> ReaderModel {
        rmodel(self.inner)
    }

    /// The reader is in a usable state.
    pub closed spec fn wf(self) -> bool {
        reader_wf(self.inner) && self.position <= self.reader@.len()
    }

    /// Creates a new `StreamReader` over the given bytes.
    pub fn new(reader: Vec<u8>) -> (r: Self)
        ensures
            r.wf(),
            r.source() == reader@,
            r.cursor() == 0,
            r.model() == (ReaderModel {
                queued: Seq::<(Seq<u8>, bool)>::empty(),
                bitstream_serial_number: 0,
                page_sequence_number: 0,
                granule_position: 0,
                is_eos: false,
            }),
    {
        StreamReader { inner: BitStreamReader::new(), reader, position: 0 }
    }

    /// Consumes the `StreamReader` and returns the byte source.
    pub fn into_inner(self) -> (r: Vec<u8>)
        ensures
            r@ == self.source(),
    {
        self.reader
    }

    /// Reads the next packet; as `FileReader::next_packet`.
    pub fn next_packet(&mut self, packet: &mut Packet) -> (r: Result<ReadStatus, ReadError>)
        requires
            old(self).wf(),
        ensures
            final(self).wf(),
            final(self).source() == old(self).source(),
            next_packet_post(
                old(self).model(),
                final(self).model(),
                old(self).source(),
                old(self).cursor(),
                final(packet)@,
                r,
                final(self).cursor(),
            ),
    {
        let (res, newpos) = self.inner.next_packet(self.reader.as_slice(), self.position, packet);
        self.position = newpos;
        res
    }
}

/// A prefix of the segment table announces no more than the whole table.
proof fn lemma_lace_sum_take_bound(table: Seq<u8>, j: int)
    requires
        0 <= j <= table.len(),
    ensures
        lace_sum(table.take(j)) <= lace_sum(table),
        lace_sum(table.take(j)) >= 0,
{
    lemma_lace_sum_bounds(table.take(j));
    lemma_lace_sum_bounds(table.skip(j));
    lemma_lace_sum_append(table.take(j), table.skip(j));
    assert(table.take(j) + table.skip(j) =~= table);
}

impl BitStreamReader {
    /// Reads the next packet from the input, starting at `start_pos`.
    ///
    /// Recoverable conditions — a corrupt page, an orphaned continuation —
    /// surface as `ReadStatus::Missing`; the end of the input as
    /// `ReadStatus::Eof`. The returned position is where reading stopped.
    #[verifier::rlimit(100)]
    pub(crate) fn next_packet(&mut self, input: &[u8], start_pos: usize, packet: &mut Packet) -> (r:
        (Result<ReadStatus, ReadError>, usize))
        requires
            reader_wf(*old(self)),
            start_pos <= input@.len(),
        ensures
            reader_wf(*final(self)),
            next_packet_post(
                rmodel(*old(self)),
                rmodel(*final(self)),
                input@,
                start_pos as int,
                final(packet)@,
                r.0,
                r.1 as int,
            ),
    {
        packet.data = Vec::new();
        packet.is_bos = false;
        packet.is_eos = false;

        // Drain a packet queued from the previous page.
        if self.queued_packets.len() > 0 {
            let is_last = self.queued_packets.len() == 1;
            let ghost qv0 = qview(*self);
            let q = self.queued_packets.remove(0);
            proof {
                assert(qview(*self) =~= qv0.drop_first());
                assert(qv0[0] == (
                    self.page_buffer@.subrange(q.start as int, q.end as int),
                    q.is_complete,
                ));
            }
            self.write_frame(packet, q.start, q.end);
            if is_last && self.current_is_eos {
                packet.is_eos = true;
            }
            if q.is_complete {
                proof {
                    assert(packet@.data =~= qv0[0].0);
                }
                return (Ok(ReadStatus::Delivered), start_pos);
            }
            proof {
                assert(qview(*self) =~= Seq::<(Seq<u8>, bool)>::empty());
                assert(packet@.data =~= qv0[0].0);
                assert(qv0 == rmodel(*old(self)).queued);
                assert(rmodel(*self) == drained(rmodel(*old(self))));
            }
        }
        let ghost pre = rmodel(*old(self));
        let ghost first_entry_queued = old(self).queued_packets@.len() > 0;
        let mut pos = start_pos;
        let ghost mut first_iter: bool = true;
        loop
            invariant
                reader_wf(*self),
                start_pos <= pos <= input@.len(),
                self.queued_packets@.len() == 0,
                pre == rmodel(*old(self)),
                pre.queued.len() > 0 ==> !pre.queued[0].1,
                first_iter ==> {
                    &&& pos == start_pos
                    &&& (pre.queued.len() == 0 ==> *self == *old(self) && blank_packet(packet@))
                },
                !first_iter ==> continuing_entry(pre, input@, start_pos as int),
                pre.queued.len() > 0 ==> resolve_continuation(
                    input@,
                    start_pos as int,
                    drained(pre),
                    pre.queued[0].0,
                ) == resolve_continuation(input@, pos as int, rmodel(*self), packet@.data),
                (!first_iter && pre.queued.len() == 0) ==> ({
                    let fc = first_capture(input@, start_pos as int);
                    let end0 = fc + page_span(input@, fc);
                    let g0 = input@.subrange(fc, end0);
                    let segs0 = page_packets(page_table(g0), page_body(g0));
                    resolve_continuation(input@, end0, page_context(g0), segs0[0].0)
                        == resolve_continuation(input@, pos as int, rmodel(*self), packet@.data)
                }),
            decreases input@.len() - pos,
        {
            let ghost ctx0 = rmodel(*self);
            let ghost pending0 = packet@.data;
            let ghost pos0 = pos as int;
            let ghost goal = resolve_continuation(input@, pos0, ctx0, pending0);
            let p = match sync_with_next_page(input, pos) {
                SyncOutcome::Found(q) => q,
                SyncOutcome::EndOfInput => {
                    proof {
                        if first_iter && pre.queued.len() == 0 {
                            assert(first_capture(input@, start_pos as int) == -1);
                        }
                        assert(goal.result == Ok::<ReadStatus, ReadError>(ReadStatus::Eof));
                    }
                    return (Ok(ReadStatus::Eof), start_pos);
                },
                SyncOutcome::NoPattern => {
                    proof {
                        assert(goal.result == Err::<ReadStatus, ReadError>(ReadError::UnableToSync));
                    }
                    return (Err(ReadError::UnableToSync), start_pos);
                },
            };
            let page_end = match self.read_page_data(input, p) {
                Some(e) => e,
                None => {
                    proof {
                        assert(goal.result == Ok::<ReadStatus, ReadError>(ReadStatus::Eof));
                    }
                    return (Ok(ReadStatus::Eof), start_pos);
                },
            };
            let ghost g = self.page_buffer@;
            let ghost segs = page_packets(page_table(g), page_body(g));
            proof {
                if first_iter && pre.queued.len() == 0 {
                    assert(first_capture(input@, start_pos as int) == p);
                    assert(g == input@.subrange(p as int, p + page_span(input@, p as int)));
                }
            }
            if !self.verify_crc32() {
                self.queued_packets = Vec::new();
                packet.data = Vec::new();
                proof {
                    assert(qview(*self) =~= Seq::<(Seq<u8>, bool)>::empty());
                    assert(goal.result == Ok::<ReadStatus, ReadError>(ReadStatus::Missing));
                    assert(goal.rpos == page_end);
                    assert(goal.packet.data.len() == 0);
                    assert(rmodel(*self) == drained(ctx0));
                    assert(goal.post == drained(ctx0));
                }
                return (Ok(ReadStatus::Missing), page_end);
            }
            let version = self.page_buffer[4];
            let header_type = self.page_buffer[5];
            let granule_position = parse_u64_le(&self.page_buffer.as_slice()[6..14]);
            let bitstream_serial_number = parse_u32_le(&self.page_buffer.as_slice()[14..18]);
            let page_sequence_number = parse_u32_le(&self.page_buffer.as_slice()[18..22]);
            proof {
                assert(g.subrange(6, 14).subrange(0, 8) =~= g.subrange(6, 14));
                assert(g.subrange(14, 18).subrange(0, 4) =~= g.subrange(14, 18));
                assert(g.subrange(18, 22).subrange(0, 4) =~= g.subrange(18, 22));
                assert(granule_position == page_granule(g));
                assert(bitstream_serial_number == page_serial(g));
                assert(page_sequence_number == page_seqno(g));
            }
            if version != 0 {
                proof {
                    assert(goal.result == Err::<ReadStatus, ReadError>(
                        ReadError::UnhandledBitstreamVersion(version),
                    ));
                }
                return (Err(ReadError::UnhandledBitstreamVersion(version)), start_pos);
            }
            let is_continuation = header_type & CONTINUATION_VALUE != 0;
            proof {
                assert(header_type == crate::format::page_header_type(g));
                assert(is_continuation == (crate::format::page_header_type(g) & CONTINUATION_VALUE
                    != 0));
            }

            // A packet under assembly may only be continued by the next page
            // of the same logical bitstream.
            let ghost keep = pending0.len() > 0 && page_serial(g) == ctx0.bitstream_serial_number
                && page_seqno(g) == seq_succ(ctx0.page_sequence_number);
            if packet.data.len() > 0 {
                let expected_sequence = if self.current_page_sequence_number == 0xFFFF_FFFFu32 {
                    0
                } else {
                    self.current_page_sequence_number + 1
                };
                proof {
                    assert(expected_sequence == seq_succ(ctx0.page_sequence_number));
                }
                if bitstream_serial_number != self.current_bitstream_serial_number
                    || page_sequence_number != expected_sequence {
                    packet.data = Vec::new();
                }
            }
            proof {
                assert(packet@.data == if keep {
                    pending0
                } else {
                    Seq::<u8>::empty()
                });
            }
            self.current_bitstream_serial_number = bitstream_serial_number;
            self.current_page_sequence_number = page_sequence_number;
            self.current_granule_position = granule_position;
            self.current_is_eos = header_type & EOS_VALUE != 0;

            if self.queued_packets.len() == 0 {
                proof {
                    assert(segs.len() == 0);
                    assert(goal.result == Ok::<ReadStatus, ReadError>(ReadStatus::Missing));
                    assert(goal.rpos == page_end);
                    assert(goal.packet.data == packet@.data);
                    assert(rmodel(*self) == page_context(g)) by {
                        assert(qview(*self) =~= Seq::<(Seq<u8>, bool)>::empty());
                    }
                    assert(goal.post == page_context(g));
                }
                return (Ok(ReadStatus::Missing), page_end);
            }
            let ghost qv1 = qview(*self);
            let q = self.queued_packets.remove(0);
            proof {
                assert(qview(*self) =~= qv1.drop_first());
                assert(qv1[0] == (
                    self.page_buffer@.subrange(q.start as int, q.end as int),
                    q.is_complete,
                ));
                assert(qv1 == segs);
            }
            proof {
                assert(rmodel(*self).queued =~= segs.drop_first());
                assert(rmodel(*self) == ReaderModel { queued: segs.drop_first(), ..page_context(g) });
            }
            if packet.data.len() > 0 {
                if !is_continuation {
                    proof {
                        assert(goal.result == Ok::<ReadStatus, ReadError>(ReadStatus::Missing));
                        assert(goal.rpos == page_end);
                        assert(goal.packet.data == packet@.data);
                        assert(goal.post == rmodel(*self));
                    }
                    return (Ok(ReadStatus::Missing), page_end);
                }
                self.write_frame(packet, q.start, q.end);
                if q.is_complete {
                    proof {
                        assert(segs[0].1);
                        assert(goal.result == Ok::<ReadStatus, ReadError>(ReadStatus::Delivered));
                        assert(goal.rpos == page_end);
                        assert(goal.packet == packet@);
                        assert(goal.post == rmodel(*self));
                    }
                    return (Ok(ReadStatus::Delivered), page_end);
                }
            } else {
                self.write_frame(packet, q.start, q.end);
                if q.is_complete {
                    if header_type & BOS_VALUE != 0 {
                        packet.is_bos = true;
                    }
                    proof {
                        assert(packet@.data =~= segs[0].0);
                        assert(segs[0].1);
                        assert(goal.result == Ok::<ReadStatus, ReadError>(ReadStatus::Delivered));
                        assert(goal.rpos == page_end);
                        assert(goal.packet == packet@);
                        assert(goal.post == rmodel(*self));
                    }
                    return (Ok(ReadStatus::Delivered), page_end);
                }
            }
            proof {
                if first_iter && pre.queued.len() == 0 {
                    assert(continuing_entry(pre, input@, start_pos as int));
                }
                // The packet carries on: resolving it from the next page is
                // resolving it from here.
                assert(!segs[0].1);
                assert(packet@.data =~= (if keep {
                    pending0
                } else {
                    Seq::<u8>::empty()
                }) + segs[0].0);
                assert(goal == resolve_continuation(
                    input@,
                    page_end as int,
                    page_context(g),
                    packet@.data,
                )) by {
                    if keep {
                        assert(packet@.data == pending0 + segs[0].0);
                    } else {
                        assert(packet@.data =~= segs[0].0);
                    }
                }
                assert(rmodel(*self) == page_context(g)) by {
                    assert(qview(*self) =~= Seq::<(Seq<u8>, bool)>::empty());
                }
                first_iter = false;
            }
            pos = page_end;
        }
    }
}

/// Where a probed page lies and what its header says.
struct ProbeResult {
    granule_position: u64,
    bitstream_serial_number: u32,
    end: usize,
}

/// What a search pass found: where the candidate packet starts, where the
/// found page ends, and the granule position that page carries.
struct SearchResult {
    packet_start: usize,
    packet_end: usize,
    granule_position: u64,
}

/// Scans for the capture pattern with no budget: the whole rest of the
/// input may be searched.
fn find_capture(input: &[u8], pos: usize) -> (r: Option<usize>)
    requires
        pos <= input@.len(),
    ensures
        match r {
            Some(p) => {
                &&& pos <= p
                &&& p + 4 <= input@.len()
                &&& first_capture(input@, pos as int) == p
                &&& is_capture_at(input@, p as int)
            },
            None => first_capture(input@, pos as int) == -1,
        },
{
    let len = input.len();
    let mut p = pos;
    loop
        invariant
            pos <= p,
            p <= len,
            len == input@.len(),
            forall|q: int| pos <= q < p ==> !is_capture_at(input@, q),
        decreases len - p + 1,
    {
        if len - p < 4 {
            proof {
                lemma_first_capture_from(input@, pos as int, p as int);
                assert(first_capture(input@, p as int) == -1);
            }
            return None;
        }
        if input[p] == 0x4Fu8 && input[p + 1] == 0x67u8 && input[p + 2] == 0x67u8 && input[p + 3]
            == 0x53u8 {
            proof {
                lemma_first_capture_from(input@, pos as int, p as int);
            }
            return Some(p);
        }
        p = p + 1;
    }
}

/// Reads the header of the page whose capture pattern stands at
/// `page_start` and computes where the page ends: exactly the page's
/// granule position, serial number and whole span. `None` exactly when the
/// page does not lie whole inside the input.
fn probe_page(input: &[u8], page_start: usize) -> (r: Option<ProbeResult>)
    requires
        page_start <= input@.len(),
    ensures
        match r {
            Some(pr) => {
                &&& page_complete_at(input@, page_start as int)
                &&& pr.end == page_start + page_span(input@, page_start as int)
                &&& pr.granule_position == u64_from_le(
                    input@.subrange(page_start + 6, page_start + 14),
                )
                &&& pr.bitstream_serial_number == u32_from_le(
                    input@.subrange(page_start + 14, page_start + 18),
                )
                &&& page_start + 27 <= pr.end <= input@.len()
            },
            None => !page_complete_at(input@, page_start as int),
        },
{
    let len = input.len();
    if len - page_start < 27 {
        return None;
    }
    let granule_position = parse_u64_le(&input[page_start + 6..page_start + 14]);
    let bitstream_serial_number = parse_u32_le(&input[page_start + 14..page_start + 18]);
    proof {
        assert(input@.subrange(page_start + 6, page_start + 14).subrange(0, 8) =~= input@.subrange(
            page_start + 6,
            page_start + 14,
        ));
        assert(input@.subrange(page_start + 14, page_start + 18).subrange(0, 4) =~= input@.subrange(
            page_start + 14,
            page_start + 18,
        ));
    }
    let n = input[page_start + 26] as usize;
    if len - (page_start + 27) < n {
        return None;
    }
    let mut payload: usize = 0;
    let mut j: usize = 0;
    while j < n
        invariant
            j <= n,
            n <= 255,
            n == input@[page_start + 26] as int,
            page_start + 27 + n <= len,
            len == input@.len(),
            payload == lace_sum(input@.subrange(page_start + 27, page_start + 27 + j)),
            payload <= 255 * j,
        decreases n - j,
    {
        proof {
            let t = input@.subrange(page_start + 27, page_start + 27 + j + 1);
            assert(t.drop_last() =~= input@.subrange(page_start + 27, page_start + 27 + j));
            assert(t.last() == input@[page_start + 27 + j]);
        }
        payload = payload + input[page_start + 27 + j] as usize;
        j = j + 1;
    }
    proof {
        assert(input@.subrange(page_start + 27, page_start + 27 + n) == input@.subrange(
            page_start + 27,
            page_start + 27 + input@[page_start as int + 26],
        ));
    }
    if len - (page_start + 27 + n) < payload {
        return None;
    }
    Some(
        ProbeResult {
            granule_position,
            bitstream_serial_number,
            end: page_start + 27 + n + payload,
        },
    )
}

/// The start of the first whole page at or after `pos` that belongs to the
/// given logical bitstream, stepping over whole pages of other serials; -1
/// when the input runs out — no further capture pattern, or a page cut
/// short — before one is found.
pub open spec fn first_serial_page(s: Seq<u8>, pos: int, serial: u32) -> int
    decreases s.len() - pos,
{
    let fc = first_capture(s, pos);
    if fc < pos {
        -1
    } else if !page_complete_at(s, fc) {
        -1
    } else if page_serial(s.subrange(fc, fc + page_span(s, fc))) == serial {
        fc
    } else if fc + page_span(s, fc) <= pos || fc + page_span(s, fc) > s.len() {
        -1  // a whole page always spans past its own start and ends in bounds
    } else {
        first_serial_page(s, fc + page_span(s, fc), serial)
    }
}

/// The start of the first whole page at or after `pos` of the given serial
/// that carries a real granule position, stepping over whole pages of other
/// serials and the serial's own pages under the no-granule mark; -1 when
/// the input runs out before one is found.
pub open spec fn first_usable_page(s: Seq<u8>, pos: int, serial: u32) -> int
    decreases s.len() - pos,
{
    let fc = first_capture(s, pos);
    if fc < pos {
        -1
    } else if !page_complete_at(s, fc) {
        -1
    } else if page_serial(s.subrange(fc, fc + page_span(s, fc))) == serial && page_granule(
        s.subrange(fc, fc + page_span(s, fc)),
    ) != NO_GRANULE_POSITION {
        fc
    } else if fc + page_span(s, fc) <= pos || fc + page_span(s, fc) > s.len() {
        -1  // a whole page always spans past its own start and ends in bounds
    } else {
        first_usable_page(s, fc + page_span(s, fc), serial)
    }
}

/// Scans forward from `from` for the next whole page of the given logical
/// bitstream that carries a real granule position; pages of other streams
/// and continuation pages under the no-granule mark are skipped whole. The
/// found page is exactly `first_usable_page`, its granule and end are
/// reported, and the candidate packet start is exactly the first whole
/// page of the stream at or after `from`; `None` exactly when the input
/// runs out before such a page.
fn search_next_packet(input: &[u8], from: usize, bitstream_serial_number: u32) -> (r: Option<
    SearchResult,
>)
    requires
        from <= input@.len(),
    ensures
        match r {
            Some(sr) => {
                &&& first_usable_page(input@, from as int, bitstream_serial_number) >= 0
                &&& sr.packet_end == first_usable_page(input@, from as int, bitstream_serial_number)
                    + page_span(
                    input@,
                    first_usable_page(input@, from as int, bitstream_serial_number),
                )
                &&& sr.granule_position == page_granule(
                    input@.subrange(
                        first_usable_page(input@, from as int, bitstream_serial_number),
                        sr.packet_end as int,
                    ),
                )
                &&& sr.packet_start == first_serial_page(
                    input@,
                    from as int,
                    bitstream_serial_number,
                )
                &&& from <= sr.packet_start <= input@.len()
                &&& from + 27 <= sr.packet_end <= input@.len()
                &&& sr.granule_position != NO_GRANULE_POSITION
            },
            None => first_usable_page(input@, from as int, bitstream_serial_number) == -1,
        },
{
    let len = input.len();
    let mut cur = from;
    let mut packet_start: Option<usize> = None;
    loop
        invariant
            from <= cur <= len,
            len == input@.len(),
            first_usable_page(input@, from as int, bitstream_serial_number) == first_usable_page(
                input@,
                cur as int,
                bitstream_serial_number,
            ),
            match packet_start {
                Some(s) => {
                    &&& from <= s <= cur
                    &&& s == first_serial_page(input@, from as int, bitstream_serial_number)
                },
                None => first_serial_page(input@, from as int, bitstream_serial_number)
                    == first_serial_page(input@, cur as int, bitstream_serial_number),
            },
        decreases len - cur,
    {
        let p = match find_capture(input, cur) {
            Some(p) => p,
            None => {
                proof {
                    assert(first_usable_page(input@, cur as int, bitstream_serial_number) == -1);
                }
                return None;
            },
        };
        let page = match probe_page(input, p) {
            Some(page) => page,
            None => {
                proof {
                    assert(first_usable_page(input@, cur as int, bitstream_serial_number) == -1);
                }
                return None;
            },
        };
        let ghost g = input@.subrange(p as int, page.end as int);
        proof {
            assert(g.subrange(6, 14) =~= input@.subrange(p + 6, p + 14));
            assert(g.subrange(14, 18) =~= input@.subrange(p + 14, p + 18));
            assert(page.granule_position == page_granule(g));
            assert(page.bitstream_serial_number == page_serial(g));
        }
        if page.bitstream_serial_number != bitstream_serial_number {
            proof {
                assert(first_usable_page(input@, cur as int, bitstream_serial_number)
                    == first_usable_page(input@, page.end as int, bitstream_serial_number));
                assert(first_serial_page(input@, cur as int, bitstream_serial_number)
                    == first_serial_page(input@, page.end as int, bitstream_serial_number));
            }
            cur = page.end;
            continue;
        }
        proof {
            assert(first_serial_page(input@, cur as int, bitstream_serial_number) == p);
        }
        let start = match packet_start {
            Some(s) => {
                if p < s {
                    p
                } else {
                    s
                }
            },
            None => p,
        };
        packet_start = Some(start);
        if page.granule_position == NO_GRANULE_POSITION {
            proof {
                assert(first_usable_page(input@, cur as int, bitstream_serial_number)
                    == first_usable_page(input@, page.end as int, bitstream_serial_number));
            }
            cur = page.end;
            continue;
        }
        proof {
            assert(first_usable_page(input@, cur as int, bitstream_serial_number) == p);
        }
        return Some(
            SearchResult {
                packet_start: start,
                packet_end: page.end,
                granule_position: page.granule_position,
            },
        );
    }
}

/// Where a finished seek stands: at the very start of the input (target 0,
/// or nothing was probed), at a byte offset that is exactly the start of a
/// whole page of the serial (a candidate packet start the scan reported),
/// at an offset from which the first readable page of the serial carrying
/// a real granule lies past the target (the linear refinement's stop), or
/// at an offset past the serial's last such page (the input's tail).
pub open spec fn seek_landing(input: Seq<u8>, serial: u32, target: u64, newpos: int) -> bool {
    ||| newpos == 0
    ||| (exists|m: int|
        0 <= m <= input.len() && newpos == #[trigger] first_serial_page(input, m, serial))
    ||| {
        let u = first_usable_page(input, newpos, serial);
        u >= 0 && page_granule(input.subrange(u, u + page_span(input, u))) > target
    }
    ||| first_usable_page(input, newpos, serial) == -1
}

impl BitStreamReader {
    /// Repositions reading so that the packets returned next are those at
    /// or after the target granule position of the given logical bitstream:
    /// a byte-offset bisection over the input, refined by a linear forward
    /// scan once the window is small. Target 0 lands at the start of the
    /// input, the largest target at its end, and every other target at one
    /// of the places `seek_landing` names.
    pub(crate) fn seek(&mut self, input: &[u8], bitstream_serial_number: u32, target: u64) -> (newpos:
        usize)
        requires
            reader_wf(*old(self)),
        ensures
            reader_wf(*final(self)),
            newpos <= input@.len(),
            qview(*final(self)).len() == 0,
            target == 0 ==> newpos == 0,
            target == 0xFFFF_FFFF_FFFF_FFFFu64 ==> newpos == input@.len(),
            target != 0xFFFF_FFFF_FFFF_FFFFu64 ==> seek_landing(
                input@,
                bitstream_serial_number,
                target,
                newpos as int,
            ),
    {
        // A packet that spans several pages is assumed to end in a page of
        // its own, as the common media mappings lay their streams out.
        self.queued_packets = Vec::new();
        proof {
            assert(qview(*self) =~= Seq::<(Seq<u8>, bool)>::empty());
        }
        if target == 0xFFFF_FFFF_FFFF_FFFFu64 {
            return input.len();
        }
        if target == 0 {
            return 0;
        }
        let len = input.len();
        let mut left: usize = 0;
        let mut right: usize = len;
        let mut found: usize = 0;
        loop
            invariant
                left <= len,
                right <= len,
                found <= len,
                len == input@.len(),
                seek_landing(input@, bitstream_serial_number, target, found as int),
            decreases right - left,
        {
            if left >= right {
                break;
            }
            let mid = left + (right - left) / 2;
            let sr = match search_next_packet(input, mid, bitstream_serial_number) {
                Some(sr) => sr,
                None => {
                    break;
                },
            };
            found = sr.packet_start;
            proof {
                assert(seek_landing(input@, bitstream_serial_number, target, found as int)) by {
                    assert(found as int == first_serial_page(
                        input@,
                        mid as int,
                        bitstream_serial_number,
                    ));
                }
            }
            if sr.granule_position < target {
                left = mid + 1;
            } else if sr.granule_position > target {
                right = if mid > left {
                    mid - 1
                } else {
                    left
                };
            } else {
                break;
            }

            // Once the window is small, refine with a linear forward scan
            // and stop there.
            if right > left && right - left < 1024 {
                loop
                    invariant
                        left <= len,
                        found <= len,
                        len == input@.len(),
                        seek_landing(input@, bitstream_serial_number, target, found as int),
                    decreases len - left,
                {
                    let sr2 = match search_next_packet(input, left, bitstream_serial_number) {
                        Some(sr2) => sr2,
                        None => {
                            // The scan ran off the end: settle at its tail.
                            found = left;
                            break;
                        },
                    };
                    if sr2.granule_position > target {
                        found = left;
                        break;
                    }
                    if sr2.packet_end <= left {
                        break;
                    }
                    left = sr2.packet_end;
                }
                break;
            }
        }
        found
    }
}

/// The outcome of scanning for the next capture pattern.
enum SyncOutcome {
    /// The pattern starts at this position.
    Found(usize),
    /// The input ended before another whole pattern could start.
    EndOfInput,
    /// A whole page's worth of input held no pattern.
    NoPattern,
}

/// Scans for the capture pattern, starting at `pos`, for up to a whole
/// page's worth of candidate positions.
fn sync_with_next_page(input: &[u8], pos: usize) -> (r: SyncOutcome)
    requires
        pos <= input@.len(),
    ensures
        match r {
            SyncOutcome::Found(p) => {
                &&& pos <= p <= pos + MAX_PAGE_SIZE
                &&& p + 4 <= input@.len()
                &&& first_capture(input@, pos as int) == p
                &&& is_capture_at(input@, p as int)
            },
            SyncOutcome::EndOfInput => {
                &&& first_capture(input@, pos as int) == -1
                &&& input@.len() < pos + MAX_PAGE_SIZE + 4
            },
            SyncOutcome::NoPattern => {
                &&& (first_capture(input@, pos as int) == -1 && input@.len() >= pos + MAX_PAGE_SIZE
                    + 4) || first_capture(input@, pos as int) > pos + MAX_PAGE_SIZE
            },
        },
{
    let len = input.len();
    let mut p = pos;
    loop
        invariant
            pos <= p,
            p <= len,
            len == input@.len(),
            p - pos <= MAX_PAGE_SIZE + 1,
            p > pos ==> len >= p + 3,
            forall|q: int| pos <= q < p ==> !is_capture_at(input@, q),
        decreases len - p + 1,
    {
        if p - pos > MAX_PAGE_SIZE {
            proof {
                lemma_first_capture_from(input@, pos as int, p as int);
                lemma_first_capture(input@, p as int);
            }
            return SyncOutcome::NoPattern;
        }
        if len - p < 4 {
            proof {
                lemma_first_capture_from(input@, pos as int, p as int);
                assert(first_capture(input@, p as int) == -1);
            }
            return SyncOutcome::EndOfInput;
        }
        if input[p] == 0x4Fu8 && input[p + 1] == 0x67u8 && input[p + 2] == 0x67u8 && input[p + 3]
            == 0x53u8 {
            proof {
                lemma_first_capture_from(input@, pos as int, p as int);
            }
            return SyncOutcome::Found(p);
        }
        p = p + 1;
    }
}

} // verus!
