//! The on-wire shape of an OGG page: offsets, size limits, little-endian
//! integer coding, the lacing discipline of the segment table, and the byte
//! image of a whole page.

use vstd::prelude::*;

use crate::crc32::crc32_spec;

verus! {

/// Header-type bit: the first packet of the page continues an earlier one.
pub const CONTINUATION_VALUE: u8 = 0x1;

/// Header-type bit: the page opens a logical bitstream.
pub const BOS_VALUE: u8 = 0x2;

/// Header-type bit: the page closes a logical bitstream.
pub const EOS_VALUE: u8 = 0x4;

/// The fixed header plus a full segment table.
pub const MAX_PAGE_HEADER_SIZE: usize = 27 + 255;

/// The payload of a page: at most 255 laces of at most 255 bytes.
pub const MAX_PAGE_DATA_SIZE: usize = 65_025;

/// A whole page: header, segment table and payload.
pub const MAX_PAGE_SIZE: usize = 65_307;

/// Byte offset of the stream-structure version inside a page.
pub const VERSION_INDEX: usize = 4;

/// Byte offset of the header-type flags inside a page.
pub const HEADER_TYPE_INDEX: usize = 5;

/// Byte offset of the granule position inside a page.
pub const GRANULE_POSITION_INDEX: usize = 6;

/// Byte offset of the bitstream serial number inside a page.
pub const BITSTREAM_SERIAL_NUMBER_INDEX: usize = 14;

/// Byte offset of the page sequence number inside a page.
pub const PAGE_SEQUENCE_NUMBER_INDEX: usize = 18;

/// Byte offset of the checksum inside a page.
pub const CRC32_INDEX: usize = 22;

/// Byte offset of the segment count inside a page.
pub const SEGMENT_COUNT_INDEX: usize = 26;

/// Byte offset of the segment table inside a page.
pub const SEGMENT_TABLE_INDEX: usize = 27;

/// The granule value that says "no granule information on this page".
pub const NO_GRANULE_POSITION: u64 = 0xFFFF_FFFF_FFFF_FFFF;

/// The capture pattern "OggS" that opens every page.
pub open spec fn capture_pattern() -> Seq<u8> {
    seq![0x4Fu8, 0x67u8, 0x67u8, 0x53u8]
}

/// The capture pattern stands in `s` at position `p`.
pub open spec fn is_capture_at(s: Seq<u8>, p: int) -> bool {
    &&& 0 <= p
    &&& p + 4 <= s.len()
    &&& s[p] == 0x4Fu8
    &&& s[p + 1] == 0x67u8
    &&& s[p + 2] == 0x67u8
    &&& s[p + 3] == 0x53u8
}

/// The value of four little-endian bytes.
pub open spec fn u32_from_le(s: Seq<u8>) -> u32
    recommends
        s.len() == 4,
{
    (s[0] + s[1] * 0x100 + s[2] * 0x1_0000 + s[3] * 0x100_0000) as u32
}

/// The value of eight little-endian bytes.
pub open spec fn u64_from_le(s: Seq<u8>) -> u64
    recommends
        s.len() == 8,
{
    (s[0] + s[1] * 0x100 + s[2] * 0x1_0000 + s[3] * 0x100_0000 + s[4] * 0x1_0000_0000
        + s[5] * 0x100_0000_0000 + s[6] * 0x1_0000_0000_0000 + s[7] * 0x100_0000_0000_0000) as u64
}

/// The four little-endian bytes of a 32-bit value.
pub open spec fn le_bytes32(x: u32) -> Seq<u8> {
    seq![
        (x % 0x100) as u8,
        ((x / 0x100) % 0x100) as u8,
        ((x / 0x1_0000) % 0x100) as u8,
        ((x / 0x100_0000) % 0x100) as u8,
    ]
}

/// The eight little-endian bytes of a 64-bit value.
pub open spec fn le_bytes64(x: u64) -> Seq<u8> {
    seq![
        (x % 0x100) as u8,
        ((x / 0x100) % 0x100) as u8,
        ((x / 0x1_0000) % 0x100) as u8,
        ((x / 0x100_0000) % 0x100) as u8,
        ((x / 0x1_0000_0000) % 0x100) as u8,
        ((x / 0x100_0000_0000) % 0x100) as u8,
        ((x / 0x1_0000_0000_0000) % 0x100) as u8,
        ((x / 0x100_0000_0000_0000) % 0x100) as u8,
    ]
}

/// Little-endian coding of a 32-bit value reads back as that value.
pub proof fn lemma_u32_le_roundtrip(x: u32)
    ensures
        u32_from_le(le_bytes32(x)) == x,
{
    assert(x % 0x100 + (x / 0x100) % 0x100 * 0x100 + (x / 0x1_0000) % 0x100 * 0x1_0000 + (x
        / 0x100_0000) % 0x100 * 0x100_0000 == x) by (bit_vector);
}

/// Little-endian coding of a 64-bit value reads back as that value.
pub proof fn lemma_u64_le_roundtrip(x: u64)
    ensures
        u64_from_le(le_bytes64(x)) == x,
{
    assert(x % 0x100 + (x / 0x100) % 0x100 * 0x100 + (x / 0x1_0000) % 0x100 * 0x1_0000 + (x
        / 0x100_0000) % 0x100 * 0x100_0000 + (x / 0x1_0000_0000) % 0x100 * 0x1_0000_0000 + (x
        / 0x100_0000_0000) % 0x100 * 0x100_0000_0000 + (x / 0x1_0000_0000_0000) % 0x100
        * 0x1_0000_0000_0000 + (x / 0x100_0000_0000_0000) % 0x100 * 0x100_0000_0000_0000 == x)
        by (bit_vector);
}

/// Reads a 32-bit little-endian value from the first four bytes of a slice.
pub fn parse_u32_le(source: &[u8]) -> (x: u32)
    requires
        source@.len() >= 4,
    ensures
        x == u32_from_le(source@.subrange(0, 4)),
{
    let b0 = source[0] as u32;
    let b1 = source[1] as u32;
    let b2 = source[2] as u32;
    let b3 = source[3] as u32;
    b0 + b1 * 0x100 + b2 * 0x1_0000 + b3 * 0x100_0000
}

/// Reads a 64-bit little-endian value from the first eight bytes of a slice.
pub fn parse_u64_le(source: &[u8]) -> (x: u64)
    requires
        source@.len() >= 8,
    ensures
        x == u64_from_le(source@.subrange(0, 8)),
{
    let b0 = source[0] as u64;
    let b1 = source[1] as u64;
    let b2 = source[2] as u64;
    let b3 = source[3] as u64;
    let b4 = source[4] as u64;
    let b5 = source[5] as u64;
    let b6 = source[6] as u64;
    let b7 = source[7] as u64;
    b0 + b1 * 0x100 + b2 * 0x1_0000 + b3 * 0x100_0000 + b4 * 0x1_0000_0000 + b5 * 0x100_0000_0000
        + b6 * 0x1_0000_0000_0000 + b7 * 0x100_0000_0000_0000
}

/// Appends the four little-endian bytes of `x` to `out`.
pub fn push_u32_le(out: &mut Vec<u8>, x: u32)
    ensures
        final(out)@ == old(out)@ + le_bytes32(x),
{
    out.push((x % 0x100) as u8);
    out.push(((x / 0x100) % 0x100) as u8);
    out.push(((x / 0x1_0000) % 0x100) as u8);
    out.push(((x / 0x100_0000) % 0x100) as u8);
    proof {
        assert(out@ =~= old(out)@ + le_bytes32(x));
    }
}

/// Appends the eight little-endian bytes of `x` to `out`.
pub fn push_u64_le(out: &mut Vec<u8>, x: u64)
    ensures
        final(out)@ == old(out)@ + le_bytes64(x),
{
    out.push((x % 0x100) as u8);
    out.push(((x / 0x100) % 0x100) as u8);
    out.push(((x / 0x1_0000) % 0x100) as u8);
    out.push(((x / 0x100_0000) % 0x100) as u8);
    out.push(((x / 0x1_0000_0000) % 0x100) as u8);
    out.push(((x / 0x100_0000_0000) % 0x100) as u8);
    out.push(((x / 0x1_0000_0000_0000) % 0x100) as u8);
    out.push(((x / 0x100_0000_0000_0000) % 0x100) as u8);
    proof {
        assert(out@ =~= old(out)@ + le_bytes64(x));
    }
}

/// The number of payload bytes that a segment table announces.
pub open spec fn lace_sum(lacing: Seq<u8>) -> int
    decreases lacing.len(),
{
    if lacing.len() == 0 {
        0
    } else {
        lace_sum(lacing.drop_last()) + lacing.last()
    }
}

/// A lace sum is never negative.
pub proof fn lemma_lace_sum_bounds(lacing: Seq<u8>)
    ensures
        0 <= lace_sum(lacing) <= 255 * lacing.len(),
    decreases lacing.len(),
{
    if lacing.len() != 0 {
        lemma_lace_sum_bounds(lacing.drop_last());
    }
}

/// The lace sum of a concatenation is the sum of the lace sums.
pub proof fn lemma_lace_sum_append(a: Seq<u8>, b: Seq<u8>)
    ensures
        lace_sum(a + b) == lace_sum(a) + lace_sum(b),
    decreases b.len(),
{
    if b.len() == 0 {
        assert(a + b =~= a);
    } else {
        lemma_lace_sum_append(a, b.drop_last());
        assert((a + b).drop_last() =~= a + b.drop_last());
    }
}

/// The packets that a segment table encodes, as (byte length, ends on this
/// page) pairs: runs of 255-laces accumulate, any smaller lace closes a
/// packet, and a table that ends with a 255-lace leaves an open packet.
pub open spec fn segments_of(lacing: Seq<u8>, acc: int) -> Seq<(int, bool)>
    decreases lacing.len(),
{
    if lacing.len() == 0 {
        if acc > 0 {
            seq![(acc, false)]
        } else {
            Seq::empty()
        }
    } else if lacing[0] == 255 {
        segments_of(lacing.drop_first(), acc + 255)
    } else {
        seq![(acc + lacing[0], true)] + segments_of(lacing.drop_first(), 0)
    }
}

/// The payload slices of a page, cut at the packet boundaries that the
/// segment table draws, each with its completeness mark.
pub open spec fn slices_from(segs: Seq<(int, bool)>, payload: Seq<u8>, off: int) -> Seq<
    (Seq<u8>, bool),
>
    decreases segs.len(),
{
    if segs.len() == 0 {
        Seq::empty()
    } else {
        seq![(payload.subrange(off, off + segs[0].0), segs[0].1)] + slices_from(
            segs.drop_first(),
            payload,
            off + segs[0].0,
        )
    }
}

/// The packets of a page, from its segment table and payload.
pub open spec fn page_packets(lacing: Seq<u8>, payload: Seq<u8>) -> Seq<(Seq<u8>, bool)> {
    slices_from(segments_of(lacing, 0), payload, 0)
}

/// A run of `n` laces of value 255.
pub open spec fn lace_run(n: int) -> Seq<u8> {
    Seq::new(n as nat, |i: int| 255u8)
}

/// The laces of one packet that ends on its page: full laces, then the
/// terminating lace, which is 0 when the length is an exact multiple of 255.
pub open spec fn packet_lacing(size: int) -> Seq<u8>
    recommends
        size >= 0,
{
    lace_run(size / 255) + seq![(size % 255) as u8]
}

/// The segment table for a row of packets that all end on this page.
pub open spec fn sizes_lacing(sizes: Seq<usize>) -> Seq<u8>
    decreases sizes.len(),
{
    if sizes.len() == 0 {
        Seq::empty()
    } else {
        sizes_lacing(sizes.drop_last()) + packet_lacing(sizes.last() as int)
    }
}

/// The total length of a row of packets.
pub open spec fn sizes_sum(sizes: Seq<usize>) -> int
    decreases sizes.len(),
{
    if sizes.len() == 0 {
        0
    } else {
        sizes_sum(sizes.drop_last()) + sizes.last()
    }
}

/// The number of laces that a row of packets puts into the segment table.
pub open spec fn sizes_lace_count(sizes: Seq<usize>) -> int
    decreases sizes.len(),
{
    if sizes.len() == 0 {
        0
    } else {
        sizes_lace_count(sizes.drop_last()) + sizes.last() as int / 255 + 1
    }
}

/// The lace sum of a run of full laces.
pub proof fn lemma_lace_sum_lace_run(n: int)
    requires
        n >= 0,
    ensures
        lace_sum(lace_run(n)) == 255 * n,
    decreases n,
{
    if n > 0 {
        assert(lace_run(n).drop_last() =~= lace_run(n - 1));
        lemma_lace_sum_lace_run(n - 1);
    }
}

/// The laces of one packet: as many as its length asks for, announcing
/// exactly its length.
pub proof fn lemma_packet_lacing_props(size: int)
    requires
        size >= 0,
    ensures
        packet_lacing(size).len() == size / 255 + 1,
        lace_sum(packet_lacing(size)) == size,
{
    lemma_lace_sum_lace_run(size / 255);
    lemma_lace_sum_append(lace_run(size / 255), seq![(size % 255) as u8]);
    assert(lace_sum(seq![(size % 255) as u8]) == size % 255) by {
        assert(seq![(size % 255) as u8].drop_last() =~= Seq::<u8>::empty());
        assert(lace_sum(Seq::<u8>::empty()) == 0);
        assert(seq![(size % 255) as u8].last() == (size % 255) as u8);
    }
}

/// The segment table of a row of packets: its length and its lace sum.
pub proof fn lemma_sizes_lacing_props(sizes: Seq<usize>)
    ensures
        sizes_lacing(sizes).len() == sizes_lace_count(sizes),
        lace_sum(sizes_lacing(sizes)) == sizes_sum(sizes),
    decreases sizes.len(),
{
    if sizes.len() != 0 {
        lemma_sizes_lacing_props(sizes.drop_last());
        lemma_packet_lacing_props(sizes.last() as int);
        lemma_lace_sum_append(sizes_lacing(sizes.drop_last()), packet_lacing(sizes.last() as int));
    }
}

/// Appending one packet size appends its laces to the segment table.
pub proof fn lemma_sizes_snoc(sizes: Seq<usize>, s: usize)
    ensures
        sizes_lacing(sizes.push(s)) == sizes_lacing(sizes) + packet_lacing(s as int),
        sizes_sum(sizes.push(s)) == sizes_sum(sizes) + s,
        sizes_lace_count(sizes.push(s)) == sizes_lace_count(sizes) + s as int / 255 + 1,
{
    assert(sizes.push(s).drop_last() =~= sizes);
    assert(sizes.push(s).last() == s);
}

/// A run of full laces only accumulates.
proof fn lemma_segments_of_lace_run(k: int, t: Seq<u8>, acc: int)
    requires
        k >= 0,
    ensures
        segments_of(lace_run(k) + t, acc) == segments_of(t, acc + 255 * k),
    decreases k,
{
    if k == 0 {
        assert(lace_run(0) + t =~= t);
    } else {
        assert((lace_run(k) + t)[0] == 255);
        assert((lace_run(k) + t).drop_first() =~= lace_run(k - 1) + t);
        lemma_segments_of_lace_run(k - 1, t, acc + 255);
    }
}

/// The laces of one whole packet close exactly one segment of its length.
proof fn lemma_segments_of_packet(n: int, t: Seq<u8>)
    requires
        n >= 0,
    ensures
        segments_of(packet_lacing(n) + t, 0) == seq![(n, true)] + segments_of(t, 0),
{
    let r = seq![(n % 255) as u8] + t;
    assert(packet_lacing(n) + t =~= lace_run(n / 255) + r);
    lemma_segments_of_lace_run(n / 255, r, 0);
    assert(r[0] == (n % 255) as u8);
    assert(r[0] != 255);
    assert(r.drop_first() =~= t);
    assert(255 * (n / 255) + (n % 255) == n);
}

/// The segment table of a row of packets, read from the front.
proof fn lemma_sizes_lacing_cons(sizes: Seq<usize>)
    requires
        sizes.len() > 0,
    ensures
        sizes_lacing(sizes) == packet_lacing(sizes[0] as int) + sizes_lacing(sizes.drop_first()),
        sizes_sum(sizes) == sizes[0] + sizes_sum(sizes.drop_first()),
    decreases sizes.len(),
{
    if sizes.len() == 1 {
        assert(sizes.drop_last() =~= Seq::<usize>::empty());
        assert(sizes.drop_first() =~= Seq::<usize>::empty());
        assert(sizes_lacing(sizes) == packet_lacing(sizes[0] as int)) by {
            assert(sizes.last() == sizes[0]);
            assert(sizes_lacing(Seq::<usize>::empty()) + packet_lacing(sizes[0] as int)
                =~= packet_lacing(sizes[0] as int));
        }
        assert(packet_lacing(sizes[0] as int) + sizes_lacing(Seq::<usize>::empty())
            =~= packet_lacing(sizes[0] as int));
    } else {
        let init = sizes.drop_last();
        lemma_sizes_lacing_cons(init);
        assert(init[0] == sizes[0]);
        assert(sizes.drop_first().drop_last() =~= init.drop_first());
        assert(sizes.drop_first().last() == sizes.last());
        assert(sizes_lacing(sizes.drop_first()) == sizes_lacing(init.drop_first()) + packet_lacing(
            sizes.last() as int,
        ));
        assert(sizes_lacing(sizes) =~= packet_lacing(sizes[0] as int) + sizes_lacing(
            sizes.drop_first(),
        )) by {
            assert(sizes_lacing(sizes) == (packet_lacing(init[0] as int) + sizes_lacing(
                init.drop_first(),
            )) + packet_lacing(sizes.last() as int));
        }
        assert(sizes_sum(sizes.drop_first()) == sizes_sum(init.drop_first()) + sizes.last());
    }
}

/// Reading back the segment table that a row of whole packets produced
/// gives exactly those packets: as many as were framed, each complete, each
/// the exact slice of the payload that was written for it.
pub proof fn lemma_page_packets_round_trip(sizes: Seq<usize>, payload: Seq<u8>)
    requires
        payload.len() == sizes_sum(sizes),
    ensures
        page_packets(sizes_lacing(sizes), payload).len() == sizes.len(),
        forall|i: int|
            0 <= i < sizes.len() ==> (#[trigger] page_packets(sizes_lacing(sizes), payload)[i])
                == (
                payload.subrange(
                    sizes_sum(sizes.take(i)),
                    sizes_sum(sizes.take(i)) + sizes[i],
                ),
                true,
            ),
{
    lemma_slices_round_trip(sizes, payload, 0);
    assert forall|i: int| 0 <= i < sizes.len() implies (#[trigger] page_packets(
        sizes_lacing(sizes),
        payload,
    )[i]) == (
        payload.subrange(sizes_sum(sizes.take(i)), sizes_sum(sizes.take(i)) + sizes[i]),
        true,
    ) by {
        assert(sizes_sum(sizes.take(i)) + 0 == sizes_sum(sizes.take(i)));
    }
}

/// The general step behind `lemma_page_packets_round_trip`: decoding from
/// an arbitrary payload offset.
proof fn lemma_slices_round_trip(sizes: Seq<usize>, payload: Seq<u8>, off: int)
    requires
        0 <= off,
        off + sizes_sum(sizes) <= payload.len(),
    ensures
        slices_from(segments_of(sizes_lacing(sizes), 0), payload, off).len() == sizes.len(),
        forall|i: int|
            0 <= i < sizes.len() ==> (#[trigger] slices_from(
                segments_of(sizes_lacing(sizes), 0),
                payload,
                off,
            )[i]) == (
                payload.subrange(
                    off + sizes_sum(sizes.take(i)),
                    off + sizes_sum(sizes.take(i)) + sizes[i],
                ),
                true,
            ),
    decreases sizes.len(),
{
    lemma_sizes_sum_nonneg(sizes);
    if sizes.len() == 0 {
        assert(sizes_lacing(sizes) =~= Seq::<u8>::empty());
        assert(segments_of(Seq::<u8>::empty(), 0) =~= Seq::<(int, bool)>::empty());
    } else {
        lemma_sizes_lacing_cons(sizes);
        lemma_segments_of_packet(sizes[0] as int, sizes_lacing(sizes.drop_first()));
        let segs = seq![(sizes[0] as int, true)] + segments_of(
            sizes_lacing(sizes.drop_first()),
            0,
        );
        assert(segments_of(sizes_lacing(sizes), 0) == segs);
        assert(segs[0] == (sizes[0] as int, true));
        assert(segs.drop_first() =~= segments_of(sizes_lacing(sizes.drop_first()), 0));
        lemma_sizes_sum_nonneg(sizes.drop_first());
        lemma_slices_round_trip(sizes.drop_first(), payload, off + sizes[0]);
        assert forall|i: int| 0 <= i < sizes.len() implies (#[trigger] slices_from(
            segments_of(sizes_lacing(sizes), 0),
            payload,
            off,
        )[i]) == (
            payload.subrange(
                off + sizes_sum(sizes.take(i)),
                off + sizes_sum(sizes.take(i)) + sizes[i],
            ),
            true,
        ) by {
            if i == 0 {
                assert(sizes.take(0) =~= Seq::<usize>::empty());
            } else {
                assert(slices_from(segments_of(sizes_lacing(sizes), 0), payload, off)[i]
                    == slices_from(
                    segments_of(sizes_lacing(sizes.drop_first()), 0),
                    payload,
                    off + sizes[0],
                )[i - 1]);
                assert(sizes.drop_first().take(i - 1) =~= sizes.take(i).drop_first());
                lemma_sizes_sum_cons_take(sizes, i);
                assert(sizes.drop_first()[i - 1] == sizes[i]);
            }
        }
    }
}

/// The sum of a row of packet sizes is never negative.
proof fn lemma_sizes_sum_nonneg(sizes: Seq<usize>)
    ensures
        sizes_sum(sizes) >= 0,
    decreases sizes.len(),
{
    if sizes.len() != 0 {
        lemma_sizes_sum_nonneg(sizes.drop_last());
    }
}

/// Splitting a prefix sum at the head element.
proof fn lemma_sizes_sum_cons_take(sizes: Seq<usize>, i: int)
    requires
        0 < i <= sizes.len(),
    ensures
        sizes_sum(sizes.take(i)) == sizes[0] + sizes_sum(sizes.drop_first().take(i - 1)),
{
    let t = sizes.take(i);
    lemma_sizes_lacing_cons(t);
    assert(t[0] == sizes[0]);
    assert(t.drop_first() =~= sizes.drop_first().take(i - 1));
}

/// A page, one level above its bytes: header fields, segment table, payload.
pub struct PageRec {
    /// The header-type flag byte.
    pub header_type: u8,
    /// The granule position, or `NO_GRANULE_POSITION`.
    pub granule_position: u64,
    /// The serial number of the logical bitstream.
    pub bitstream_serial_number: u32,
    /// The position of the page within its logical bitstream.
    pub page_sequence_number: u32,
    /// The segment table.
    pub lacing: Seq<u8>,
    /// The payload bytes.
    pub payload: Seq<u8>,
}

/// A page that can be laid out on the wire: the segment table fits its count
/// byte and announces exactly the payload that is there.
pub open spec fn page_wf(p: PageRec) -> bool {
    &&& p.lacing.len() <= 255
    &&& p.payload.len() == lace_sum(p.lacing)
}

/// The bytes of a page with the checksum field still zero.
pub open spec fn page_prefix_bytes(p: PageRec) -> Seq<u8> {
    capture_pattern() + seq![0u8, p.header_type] + le_bytes64(p.granule_position) + le_bytes32(
        p.bitstream_serial_number,
    ) + le_bytes32(p.page_sequence_number) + seq![0u8, 0u8, 0u8, 0u8] + seq![p.lacing.len() as u8]
        + p.lacing + p.payload
}

/// The checksum of a page: over the whole page with the checksum field zero.
pub open spec fn page_crc(p: PageRec) -> u32 {
    crc32_spec(page_prefix_bytes(p))
}

/// The on-wire bytes of a page.
#[verifier::opaque]
pub open spec fn page_bytes(p: PageRec) -> Seq<u8> {
    let pre = page_prefix_bytes(p);
    pre.subrange(0, 22) + le_bytes32(page_crc(p)) + pre.subrange(26, pre.len() as int)
}

/// The length of a page on the wire.
pub open spec fn page_len(p: PageRec) -> int {
    27 + p.lacing.len() as int + p.payload.len() as int
}

/// The bytes of a row of pages, one after the other.
pub open spec fn pages_bytes(h: Seq<PageRec>) -> Seq<u8>
    decreases h.len(),
{
    if h.len() == 0 {
        Seq::empty()
    } else {
        pages_bytes(h.drop_last()) + page_bytes(h.last())
    }
}

/// Appending a page to a row appends its bytes to the row's bytes.
pub proof fn lemma_pages_bytes_push(h: Seq<PageRec>, rec: PageRec)
    ensures
        pages_bytes(h.push(rec)) == pages_bytes(h) + page_bytes(rec),
{
    assert(h.push(rec).drop_last() =~= h);
    assert(h.push(rec).last() == rec);
}

/// The bytes of two rows of pages, one after the other.
pub proof fn lemma_pages_bytes_append(a: Seq<PageRec>, b: Seq<PageRec>)
    ensures
        pages_bytes(a + b) == pages_bytes(a) + pages_bytes(b),
    decreases b.len(),
{
    if b.len() == 0 {
        assert(a + b =~= a);
        assert(pages_bytes(a) + pages_bytes(b) =~= pages_bytes(a));
    } else {
        lemma_pages_bytes_append(a, b.drop_last());
        assert((a + b).drop_last() =~= a + b.drop_last());
        assert((a + b).last() == b.last());
        assert(pages_bytes(a) + (pages_bytes(b.drop_last()) + page_bytes(b.last())) =~= (
        pages_bytes(a) + pages_bytes(b.drop_last())) + page_bytes(b.last()));
    }
}

/// Round trip for a page carrying a single whole packet — the shape of the
/// pages that open and close a logical stream: it reads back, field for
/// field, as what was framed, its checksum verifies, and its segment table
/// and payload decode to exactly that one packet, complete.
pub proof fn lemma_single_packet_page_round_trip(
    header_type: u8,
    granule_position: u64,
    bitstream_serial_number: u32,
    page_sequence_number: u32,
    d: Seq<u8>,
)
    requires
        d.len() < MAX_PAGE_DATA_SIZE,
    ensures
        ({
            let rec = PageRec {
                header_type,
                granule_position,
                bitstream_serial_number,
                page_sequence_number,
                lacing: packet_lacing(d.len() as int),
                payload: d,
            };
            let g = page_bytes(rec);
            &&& page_wf(rec)
            &&& is_capture_at(g, 0)
            &&& page_crc_ok(g)
            &&& page_version(g) == 0
            &&& page_header_type(g) == header_type
            &&& page_granule(g) == granule_position
            &&& page_serial(g) == bitstream_serial_number
            &&& page_seqno(g) == page_sequence_number
            &&& page_packets(page_table(g), page_body(g)) == seq![(d, true)]
        }),
{
    let n = d.len() as usize;
    let sizes = seq![n];
    lemma_packet_lacing_props(n as int);
    lemma_sizes_snoc(Seq::<usize>::empty(), n);
    assert(sizes =~= Seq::<usize>::empty().push(n));
    assert(sizes_lacing(Seq::<usize>::empty()) == Seq::<u8>::empty());
    assert(sizes_lacing(sizes) == Seq::<u8>::empty() + packet_lacing(n as int));
    assert(Seq::<u8>::empty() + packet_lacing(n as int) =~= packet_lacing(n as int));
    assert(sizes_sum(sizes) == n);
    let rec = PageRec {
        header_type,
        granule_position,
        bitstream_serial_number,
        page_sequence_number,
        lacing: packet_lacing(d.len() as int),
        payload: d,
    };
    assert(page_wf(rec));
    lemma_page_bytes_fields(rec);
    lemma_page_bytes_crc_ok(rec);
    lemma_page_packets_round_trip(sizes, d);
    let g = page_bytes(rec);
    let pk = page_packets(page_table(g), page_body(g));
    assert(page_table(g) == sizes_lacing(sizes));
    assert(pk.len() == 1);
    assert(sizes.take(0) =~= Seq::<usize>::empty());
    assert(pk[0] == (d.subrange(0, n as int), true));
    assert(d.subrange(0, n as int) =~= d);
    assert(pk =~= seq![(d, true)]);
}

/// A full continuation slice decodes to one open packet: a segment table
/// of 255 full laces announces a whole page of payload that continues on
/// the next page.
pub proof fn lemma_full_slice_page_packets(payload: Seq<u8>)
    requires
        payload.len() == 255 * 255,
    ensures
        page_packets(lace_run(255), payload) == seq![(payload, false)],
{
    lemma_segments_of_lace_run(255, Seq::<u8>::empty(), 0);
    assert(lace_run(255) + Seq::<u8>::empty() =~= lace_run(255));
    let segs = segments_of(lace_run(255), 0);
    assert(segs == seq![((255 * 255) as int, false)]);
    assert(segs[0] == ((255 * 255) as int, false));
    assert(segs.drop_first() =~= Seq::<(int, bool)>::empty());
    assert(slices_from(segs.drop_first(), payload, (255 * 255) as int) =~= Seq::<(Seq<u8>, bool)>::empty());
    assert(page_packets(lace_run(255), payload) =~= seq![(payload.subrange(0, (255 * 255) as int), false)]);
    assert(payload.subrange(0, (255 * 255) as int) =~= payload);
}

/// Corruption is caught: changing any one byte of a built page anywhere
/// outside its checksum field — one flipped bit included — makes the page
/// fail checksum verification. The reader's contract then reports the page
/// as missing, clears its queue, and carries on right after the page, so a
/// single corrupted page costs exactly its own packets.
pub proof fn lemma_corrupted_page_fails_crc(p: PageRec, j: int, b: u8)
    requires
        page_wf(p),
        0 <= j < page_len(p),
        !(22 <= j < 26),
        b != page_bytes(p)[j],
    ensures
        !page_crc_ok(page_bytes(p).update(j, b)),
{
    let g = page_bytes(p);
    let g2 = g.update(j, b);
    lemma_page_bytes_len(p);
    lemma_page_bytes_crc_ok(p);
    assert(g2.subrange(22, 26) =~= g.subrange(22, 26));
    assert(zero_crc(g2) =~= zero_crc(g).update(j, b));
    assert(zero_crc(g)[j] == g[j]);
    crate::crc32::lemma_crc32_detects_byte_change(zero_crc(g), j, b);
}

/// The version byte of a page image.
pub open spec fn page_version(g: Seq<u8>) -> u8 {
    g[VERSION_INDEX as int]
}

/// The header-type byte of a page image.
pub open spec fn page_header_type(g: Seq<u8>) -> u8 {
    g[HEADER_TYPE_INDEX as int]
}

/// The granule position of a page image.
pub open spec fn page_granule(g: Seq<u8>) -> u64 {
    u64_from_le(g.subrange(6, 14))
}

/// The bitstream serial number of a page image.
pub open spec fn page_serial(g: Seq<u8>) -> u32 {
    u32_from_le(g.subrange(14, 18))
}

/// The page sequence number of a page image.
pub open spec fn page_seqno(g: Seq<u8>) -> u32 {
    u32_from_le(g.subrange(18, 22))
}

/// The segment count of a page image.
pub open spec fn page_nsegs(g: Seq<u8>) -> int {
    g[SEGMENT_COUNT_INDEX as int] as int
}

/// The segment table of a page image.
pub open spec fn page_table(g: Seq<u8>) -> Seq<u8> {
    g.subrange(27, 27 + page_nsegs(g))
}

/// The payload of a page image.
pub open spec fn page_body(g: Seq<u8>) -> Seq<u8> {
    g.subrange(27 + page_nsegs(g), g.len() as int)
}

/// Reading the fields out of a built page image gives back exactly what the
/// page was built from.
pub proof fn lemma_page_bytes_fields(p: PageRec)
    requires
        page_wf(p),
    ensures
        page_bytes(p).len() == page_len(p),
        is_capture_at(page_bytes(p), 0),
        page_version(page_bytes(p)) == 0,
        page_header_type(page_bytes(p)) == p.header_type,
        page_granule(page_bytes(p)) == p.granule_position,
        page_serial(page_bytes(p)) == p.bitstream_serial_number,
        page_seqno(page_bytes(p)) == p.page_sequence_number,
        page_nsegs(page_bytes(p)) == p.lacing.len(),
        page_table(page_bytes(p)) == p.lacing,
        page_body(page_bytes(p)) == p.payload,
{
    reveal(page_bytes);
    let pre = page_prefix_bytes(p);
    let g = page_bytes(p);
    assert(g.len() == page_len(p));
    assert forall|i: int| 0 <= i < g.len() && !(22 <= i < 26) implies g[i] == pre[i] by {}
    assert(g.subrange(6, 14) =~= le_bytes64(p.granule_position));
    lemma_u64_le_roundtrip(p.granule_position);
    assert(g.subrange(14, 18) =~= le_bytes32(p.bitstream_serial_number));
    lemma_u32_le_roundtrip(p.bitstream_serial_number);
    assert(g.subrange(18, 22) =~= le_bytes32(p.page_sequence_number));
    lemma_u32_le_roundtrip(p.page_sequence_number);
    assert(page_table(g) =~= p.lacing);
    assert(page_body(g) =~= p.payload);
}

/// A page image with its checksum field forced to zero.
pub open spec fn zero_crc(s: Seq<u8>) -> Seq<u8>
    recommends
        s.len() >= 27,
{
    s.subrange(0, 22) + seq![0u8, 0u8, 0u8, 0u8] + s.subrange(26, s.len() as int)
}

/// A page image carries the checksum of itself with the checksum field zero.
pub open spec fn page_crc_ok(s: Seq<u8>) -> bool
    recommends
        s.len() >= 27,
{
    u32_from_le(s.subrange(22, 26)) == crc32_spec(zero_crc(s))
}

/// A page image is as long as its parts.
pub proof fn lemma_page_bytes_len(p: PageRec)
    ensures
        page_prefix_bytes(p).len() == page_len(p),
        page_bytes(p).len() == page_len(p),
{
    reveal(page_bytes);
}

/// Every page built by this crate passes its own checksum: re-zeroing the
/// checksum field of `page_bytes(p)` gives back the bytes the checksum was
/// computed over.
pub proof fn lemma_page_bytes_crc_ok(p: PageRec)
    ensures
        page_crc_ok(page_bytes(p)),
{
    reveal(page_bytes);
    let pre = page_prefix_bytes(p);
    let s = page_bytes(p);
    assert(pre.len() == page_len(p));
    assert(s.subrange(22, 26) =~= le_bytes32(page_crc(p)));
    assert(zero_crc(s) =~= pre);
    lemma_u32_le_roundtrip(page_crc(p));
}

} // verus!
