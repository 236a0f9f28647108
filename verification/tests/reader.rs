use oggpage::crc32::crc32;
use oggpage::{FileReader, Packet, ReadError, ReadStatus, StreamReader, StreamWriter};

/// A valid single-page OGG stream: the beginning of an Opus stream.
fn opus_head_page() -> Vec<u8> {
    vec![
        0x4F, 0x67, 0x67, 0x53, 0x00, 0x02, 0x00, 0x00, 0x00, 0x00, 0x00, 0x00, 0x00, 0x00, 0x4A,
        0xC9, 0x09, 0xB6, 0x00, 0x00, 0x00, 0x00, 0xF9, 0x20, 0x89, 0xF8, 0x01, 0x13, 0x4F, 0x70,
        0x75, 0x73, 0x48, 0x65, 0x61, 0x64, 0x01, 0x02, 0x38, 0x01, 0x80, 0xBB, 0x00, 0x00, 0x00,
        0x00, 0x00,
    ]
}

/// Builds one page by hand, computing the checksum as the format asks.
fn build_page(
    header_type: u8,
    granule: u64,
    serial: u32,
    sequence: u32,
    lacing: &[u8],
    payload: &[u8],
) -> Vec<u8> {
    let mut page = vec![0x4F, 0x67, 0x67, 0x53, 0x00, header_type];
    page.extend_from_slice(&granule.to_le_bytes());
    page.extend_from_slice(&serial.to_le_bytes());
    page.extend_from_slice(&sequence.to_le_bytes());
    page.extend_from_slice(&[0, 0, 0, 0]);
    page.push(lacing.len() as u8);
    page.extend_from_slice(lacing);
    page.extend_from_slice(payload);
    let c = crc32(&page);
    page[22..26].copy_from_slice(&c.to_le_bytes());
    page
}

#[test]
fn test_sync() {
    let d = opus_head_page();
    let mut br = FileReader::new(d);
    let mut packet = Packet::default();
    let res = br.next_packet(&mut packet).unwrap();
    assert_eq!(res, ReadStatus::Delivered)
}

#[test]
fn test_resync() {
    let mut d: Vec<u8> = vec![0x00, 0x00, 0x00, 0x00, 0x00];
    d.extend_from_slice(&opus_head_page());
    let mut br = FileReader::new(d);
    let mut packet = Packet::default();
    let res = br.next_packet(&mut packet).unwrap();
    assert_eq!(res, ReadStatus::Delivered)
}

#[test]
fn test_sync_packet_contents() {
    let mut br = FileReader::new(opus_head_page());
    let mut packet = Packet::default();
    assert_eq!(br.next_packet(&mut packet).unwrap(), ReadStatus::Delivered);
    assert_eq!(packet.data(), b"OpusHead\x01\x02\x38\x01\x80\xBB\x00\x00\x00\x00\x00");
    assert_eq!(packet.bitstream_serial_number(), 0xB609C94A);
    assert_eq!(packet.granule_position(), 0);
    assert!(packet.is_bos());
    assert!(!packet.is_eos());
    assert_eq!(br.next_packet(&mut packet).unwrap(), ReadStatus::Eof);
}

#[test]
fn test_round_trip_single_stream() {
    let mut bw = StreamWriter::new(Vec::new());
    bw.begin_logical_stream(42, &[0x00, 0x01, 0x02, 0x04]).unwrap();
    bw.push_packet(42, &[5, 6, 7], 100).unwrap();
    bw.push_packet(42, &[8], 200).unwrap();
    bw.flush(42).unwrap();
    bw.end_logical_stream(42, &[9, 10], 300).unwrap();
    let bytes = bw.into_inner();

    let mut br = FileReader::new(bytes);
    let mut packet = Packet::default();

    assert_eq!(br.next_packet(&mut packet).unwrap(), ReadStatus::Delivered);
    assert_eq!(packet.data(), &[0x00, 0x01, 0x02, 0x04]);
    assert_eq!(packet.bitstream_serial_number(), 42);
    assert_eq!(packet.granule_position(), 0);
    assert!(packet.is_bos());

    assert_eq!(br.next_packet(&mut packet).unwrap(), ReadStatus::Delivered);
    assert_eq!(packet.data(), &[5, 6, 7]);
    assert_eq!(packet.granule_position(), 200);
    assert!(!packet.is_bos());

    assert_eq!(br.next_packet(&mut packet).unwrap(), ReadStatus::Delivered);
    assert_eq!(packet.data(), &[8]);
    assert_eq!(packet.granule_position(), 200);

    assert_eq!(br.next_packet(&mut packet).unwrap(), ReadStatus::Delivered);
    assert_eq!(packet.data(), &[9, 10]);
    assert_eq!(packet.granule_position(), 300);

    assert_eq!(br.next_packet(&mut packet).unwrap(), ReadStatus::Eof);
}

#[test]
fn test_round_trip_split_packet() {
    // A packet longer than a page reassembles to the original bytes.
    let big: Vec<u8> = (0..100_000u32).map(|i| (i % 253) as u8).collect();
    let mut bw = StreamWriter::new(Vec::new());
    bw.begin_logical_stream(7, &[1]).unwrap();
    bw.push_packet(7, &big, 777).unwrap();
    let bytes = bw.into_inner();

    let mut br = FileReader::new(bytes);
    let mut packet = Packet::default();
    assert_eq!(br.next_packet(&mut packet).unwrap(), ReadStatus::Delivered);
    assert_eq!(packet.data(), &[1]);
    assert_eq!(br.next_packet(&mut packet).unwrap(), ReadStatus::Delivered);
    assert_eq!(packet.data().len(), big.len());
    assert_eq!(packet.data(), &big);
    assert_eq!(packet.granule_position(), 777);
    assert_eq!(br.next_packet(&mut packet).unwrap(), ReadStatus::Eof);
}

#[test]
fn test_round_trip_interleaved_streams() {
    // Two logical bitstreams in one physical stream, page-interleaved:
    // packets come back in page order with the right serials.
    let mut bw = StreamWriter::new(Vec::new());
    bw.begin_logical_stream(1, &[0x10]).unwrap();
    bw.begin_logical_stream(2, &[0x20]).unwrap();
    bw.push_packet(1, &[0x11], 10).unwrap();
    bw.flush(1).unwrap();
    bw.push_packet(2, &[0x21], 20).unwrap();
    bw.flush(2).unwrap();
    let bytes = bw.into_inner();

    let mut br = FileReader::new(bytes);
    let mut packet = Packet::default();
    let expect = [(1u32, 0x10u8, true), (2, 0x20, true), (1, 0x11, false), (2, 0x21, false)];
    for (serial, byte, bos) in expect {
        assert_eq!(br.next_packet(&mut packet).unwrap(), ReadStatus::Delivered);
        assert_eq!(packet.bitstream_serial_number(), serial);
        assert_eq!(packet.data(), &[byte]);
        assert_eq!(packet.is_bos(), bos);
    }
    assert_eq!(br.next_packet(&mut packet).unwrap(), ReadStatus::Eof);
}

#[test]
fn test_garbage_prefix_keeps_packets() {
    // Arbitrary garbage without a capture pattern before the stream does
    // not change what is decoded.
    let mut bw = StreamWriter::new(Vec::new());
    bw.begin_logical_stream(5, &[1, 2, 3]).unwrap();
    bw.end_logical_stream(5, &[4, 5], 50).unwrap();
    let clean = bw.into_inner();

    let mut dirty: Vec<u8> = vec![0xDE, 0xAD, 0xBE, 0xEF, 0x00, 0x4F, 0x67];
    dirty.extend_from_slice(&clean);

    for input in [clean, dirty] {
        let mut br = FileReader::new(input);
        let mut packet = Packet::default();
        assert_eq!(br.next_packet(&mut packet).unwrap(), ReadStatus::Delivered);
        assert_eq!(packet.data(), &[1, 2, 3]);
        assert_eq!(br.next_packet(&mut packet).unwrap(), ReadStatus::Delivered);
        assert_eq!(packet.data(), &[4, 5]);
        assert_eq!(br.next_packet(&mut packet).unwrap(), ReadStatus::Eof);
    }
}

#[test]
fn test_corrupt_page_reported_missing() {
    // Flipping one bit in one page's payload makes exactly that page's
    // packet Missing; the pages after it still decode.
    let mut bw = StreamWriter::new(Vec::new());
    bw.begin_logical_stream(7, &[1, 2, 3]).unwrap();
    bw.push_packet(7, &[4, 5, 6], 10).unwrap();
    bw.flush(7).unwrap();
    bw.push_packet(7, &[7, 8, 9], 20).unwrap();
    bw.flush(7).unwrap();
    let mut bytes = bw.into_inner();

    // Page 1 is 31 bytes (27 + 1 lace + 3 payload); page 2's payload
    // starts 28 bytes further in.
    let page2_payload = 31 + 28;
    bytes[page2_payload] ^= 0x10;

    let mut br = FileReader::new(bytes);
    let mut packet = Packet::default();
    assert_eq!(br.next_packet(&mut packet).unwrap(), ReadStatus::Delivered);
    assert_eq!(packet.data(), &[1, 2, 3]);
    assert_eq!(br.next_packet(&mut packet).unwrap(), ReadStatus::Missing);
    assert_eq!(br.next_packet(&mut packet).unwrap(), ReadStatus::Delivered);
    assert_eq!(packet.data(), &[7, 8, 9]);
    assert_eq!(br.next_packet(&mut packet).unwrap(), ReadStatus::Eof);
}

#[test]
fn test_unable_to_sync() {
    let noise = vec![0xAAu8; 70_000];
    let mut br = FileReader::new(noise);
    let mut packet = Packet::default();
    assert_eq!(br.next_packet(&mut packet), Err(ReadError::UnableToSync));
}

#[test]
fn test_unhandled_version() {
    let mut page = opus_head_page();
    page[4] = 3;
    page[22..26].fill(0);
    let c = crc32(&page);
    page[22..26].copy_from_slice(&c.to_le_bytes());
    let mut br = FileReader::new(page);
    let mut packet = Packet::default();
    assert_eq!(
        br.next_packet(&mut packet),
        Err(ReadError::UnhandledBitstreamVersion(3))
    );
}

#[test]
fn test_empty_page_is_missing() {
    // A valid page with an empty segment table holds no packet.
    let page = build_page(0, 0, 9, 0, &[], &[]);
    let mut br = FileReader::new(page);
    let mut packet = Packet::default();
    assert_eq!(br.next_packet(&mut packet).unwrap(), ReadStatus::Missing);
    assert_eq!(br.next_packet(&mut packet).unwrap(), ReadStatus::Eof);
}

#[test]
fn test_eos_flag_on_drained_packet() {
    // The last packet drained from an end-of-stream page carries the
    // end-of-stream mark.
    let page = build_page(0x04, 10, 9, 0, &[2, 3], &[0xA1, 0xA2, 0xB1, 0xB2, 0xB3]);
    let mut br = FileReader::new(page);
    let mut packet = Packet::default();
    assert_eq!(br.next_packet(&mut packet).unwrap(), ReadStatus::Delivered);
    assert_eq!(packet.data(), &[0xA1, 0xA2]);
    assert!(!packet.is_eos());
    assert_eq!(br.next_packet(&mut packet).unwrap(), ReadStatus::Delivered);
    assert_eq!(packet.data(), &[0xB1, 0xB2, 0xB3]);
    assert!(packet.is_eos());
}

#[test]
fn test_zero_length_packet() {
    let mut bw = StreamWriter::new(Vec::new());
    bw.begin_logical_stream(11, &[]).unwrap();
    let bytes = bw.into_inner();
    let mut br = FileReader::new(bytes);
    let mut packet = Packet::default();
    assert_eq!(br.next_packet(&mut packet).unwrap(), ReadStatus::Delivered);
    assert_eq!(packet.data().len(), 0);
    assert!(packet.is_bos());
}

#[test]
fn test_exact_255_multiple_packet() {
    // A packet whose length is an exact multiple of 255 carries its
    // terminating 0 lace and comes back whole.
    let data = vec![0x5Au8; 510];
    let mut bw = StreamWriter::new(Vec::new());
    bw.begin_logical_stream(11, &data).unwrap();
    let bytes = bw.into_inner();
    let mut br = FileReader::new(bytes);
    let mut packet = Packet::default();
    assert_eq!(br.next_packet(&mut packet).unwrap(), ReadStatus::Delivered);
    assert_eq!(packet.data(), &data);
    assert_eq!(br.next_packet(&mut packet).unwrap(), ReadStatus::Eof);
}

#[test]
fn test_stream_reader_reads_too() {
    let mut bw = StreamWriter::new(Vec::new());
    bw.begin_logical_stream(8, &[42]).unwrap();
    bw.end_logical_stream(8, &[43], 1).unwrap();
    let bytes = bw.into_inner();
    let mut br = StreamReader::new(bytes);
    let mut packet = Packet::default();
    assert_eq!(br.next_packet(&mut packet).unwrap(), ReadStatus::Delivered);
    assert_eq!(packet.data(), &[42]);
    assert_eq!(br.next_packet(&mut packet).unwrap(), ReadStatus::Delivered);
    assert_eq!(packet.data(), &[43]);
    assert_eq!(br.next_packet(&mut packet).unwrap(), ReadStatus::Eof);
}

#[test]
fn test_begin_with_full_page_packet() {
    // A first packet that fills a page to the last lace takes two pages:
    // the full slice, then a continuation page carrying the terminating
    // lace. It reassembles to the original bytes.
    let data: Vec<u8> = (0..65_025u32).map(|i| (i % 241) as u8).collect();
    let mut bw = StreamWriter::new(Vec::new());
    bw.begin_logical_stream(6, &data).unwrap();
    let bytes = bw.into_inner();

    let mut br = FileReader::new(bytes);
    let mut packet = Packet::default();
    assert_eq!(br.next_packet(&mut packet).unwrap(), ReadStatus::Delivered);
    assert_eq!(packet.data().len(), data.len());
    assert_eq!(packet.data(), &data);
    assert_eq!(br.next_packet(&mut packet).unwrap(), ReadStatus::Eof);
}

#[test]
fn test_split_exact_page_multiple() {
    // A packet of exactly two pages' capacity needs a third page for its
    // terminating lace, and still reassembles to the original bytes.
    let big = vec![0x3Cu8; 130_050];
    let mut bw = StreamWriter::new(Vec::new());
    bw.begin_logical_stream(6, &[1]).unwrap();
    bw.push_packet(6, &big, 42).unwrap();
    let bytes = bw.into_inner();

    // Pages: the begin page, two full slices, and the terminator page.
    let capture_count = bytes.windows(4).filter(|w| w == b"OggS").count();
    assert_eq!(capture_count, 4);

    let mut br = FileReader::new(bytes);
    let mut packet = Packet::default();
    assert_eq!(br.next_packet(&mut packet).unwrap(), ReadStatus::Delivered);
    assert_eq!(packet.data(), &[1]);
    assert_eq!(br.next_packet(&mut packet).unwrap(), ReadStatus::Delivered);
    assert_eq!(packet.data(), &big);
    assert_eq!(packet.granule_position(), 42);
    assert_eq!(br.next_packet(&mut packet).unwrap(), ReadStatus::Eof);
}

#[test]
fn test_zero_length_packet_rides_the_end_page() {
    // A zero-length packet queued before the end of the stream shares the
    // end-of-stream page with the last packet and is read back in order;
    // the last packet drained from that page carries the end-of-stream
    // mark.
    let mut bw = StreamWriter::new(Vec::new());
    bw.begin_logical_stream(9, &[1]).unwrap();
    bw.push_packet(9, &[], 5).unwrap();
    bw.end_logical_stream(9, &[4, 5], 50).unwrap();
    let bytes = bw.into_inner();

    let mut br = FileReader::new(bytes);
    let mut packet = Packet::default();
    assert_eq!(br.next_packet(&mut packet).unwrap(), ReadStatus::Delivered);
    assert_eq!(packet.data(), &[1]);
    assert_eq!(br.next_packet(&mut packet).unwrap(), ReadStatus::Delivered);
    assert_eq!(packet.data().len(), 0);
    assert!(!packet.is_eos());
    assert_eq!(br.next_packet(&mut packet).unwrap(), ReadStatus::Delivered);
    assert_eq!(packet.data(), &[4, 5]);
    assert!(packet.is_eos());
    assert_eq!(br.next_packet(&mut packet).unwrap(), ReadStatus::Eof);
}
