use oggpage::format::{
    BITSTREAM_SERIAL_NUMBER_INDEX, BOS_VALUE, EOS_VALUE, GRANULE_POSITION_INDEX,
    HEADER_TYPE_INDEX, MAX_PAGE_DATA_SIZE, NO_GRANULE_POSITION, PAGE_SEQUENCE_NUMBER_INDEX,
    SEGMENT_COUNT_INDEX, SEGMENT_TABLE_INDEX, VERSION_INDEX,
};
use oggpage::{parse_u32_le, parse_u64_le, StreamWriter, WriteError};

const PAGER_MARKER: [u8; 4] = [0x4F, 0x67, 0x67, 0x53];

fn assert_page(
    buffer: &[u8],
    offset: usize,
    header_type: u8,
    bitstream_serial_number: u32,
    granule_position: u64,
    page_sequence_number: u32,
    packet_data: Vec<&[u8]>,
) -> usize {
    assert_eq!(&buffer[offset..offset + 4], &PAGER_MARKER);
    assert_eq!(buffer[VERSION_INDEX + offset], 0);
    assert_eq!(buffer[HEADER_TYPE_INDEX + offset], header_type);
    assert_eq!(
        parse_u64_le(&buffer[GRANULE_POSITION_INDEX + offset..GRANULE_POSITION_INDEX + offset + 8]),
        granule_position
    );
    assert_eq!(
        parse_u32_le(
            &buffer[BITSTREAM_SERIAL_NUMBER_INDEX + offset..BITSTREAM_SERIAL_NUMBER_INDEX + offset + 4]
        ),
        bitstream_serial_number
    );
    assert_eq!(
        parse_u32_le(
            &buffer[PAGE_SEQUENCE_NUMBER_INDEX + offset..PAGE_SEQUENCE_NUMBER_INDEX + offset + 4]
        ),
        page_sequence_number
    );

    let mut segment_count: usize = 0;
    for data in packet_data.iter() {
        let size = data.len();
        let full_segments = size / 255;
        for _ in 0..full_segments {
            let byte = buffer[SEGMENT_TABLE_INDEX + offset + segment_count];
            assert_eq!(byte, 255);
            segment_count += 1;
        }

        // The terminating lace is always written for a packet that ends on
        // this page, 0 included.
        let remainder = (size % 255) as u8;
        let byte = buffer[SEGMENT_TABLE_INDEX + offset + segment_count];
        assert_eq!(byte, remainder);
        segment_count += 1;
    }

    let segment_table_size = segment_count;
    let mut data_size = 0;
    for data in packet_data.iter() {
        let size = data.len();
        let data_offset = SEGMENT_TABLE_INDEX + offset + segment_table_size + data_size;
        assert_eq!(&buffer[data_offset..data_offset + size], *data);
        data_size += size;
    }

    assert_eq!(buffer[offset + SEGMENT_COUNT_INDEX] as usize, segment_count);

    SEGMENT_TABLE_INDEX + segment_table_size + data_size
}

#[test]
fn test_bos_eos() {
    let mut bw = StreamWriter::new(Vec::new());

    let streams = [
        (11, [0x11, 0x11, 0x11, 0x11]),
        (12, [0x22, 0x22, 0x22, 0x22]),
        (13, [0x33, 0x33, 0x33, 0x33]),
        (14, [0x44, 0x44, 0x44, 0x44]),
    ];

    for stream in &streams {
        bw.begin_logical_stream(stream.0, &stream.1).unwrap();
    }

    for stream in &streams {
        bw.end_logical_stream(stream.0, &stream.1, 126).unwrap();
    }

    let buffer = bw.into_inner();

    let mut offset = 0;
    for (bitstream_serial_number, packet_data) in &streams {
        let size = assert_page(
            &buffer,
            offset,
            BOS_VALUE,
            *bitstream_serial_number,
            0,
            0,
            vec![packet_data],
        );
        offset += size;
    }

    for (bitstream_serial_number, packet_data) in &streams {
        let size = assert_page(
            &buffer,
            offset,
            EOS_VALUE,
            *bitstream_serial_number,
            126,
            1,
            vec![packet_data],
        );
        offset += size;
    }
    assert_eq!(offset, buffer.len());
}

#[test]
fn test_is_empty() {
    let mut bw = StreamWriter::new(Vec::new());

    bw.begin_logical_stream(11, &[0x0, 0x1, 0x2, 0x4]).unwrap();
    assert!(bw.page_is_empty(11).unwrap());

    bw.push_packet(11, &[0x0, 0x1, 0x2, 0x4], 12).unwrap();
    assert!(!bw.page_is_empty(11).unwrap());
}

#[test]
fn test_write() {
    let mut bw = StreamWriter::new(Vec::new());
    bw.begin_logical_stream(42, &[0x0, 0x1, 0x2, 0x4]).unwrap();
    bw.push_packet(42, &[0xFF, 0xFF], 127).unwrap();
    bw.flush(42).unwrap();

    let buffer = bw.into_inner();

    let offset = assert_page(&buffer, 0, BOS_VALUE, 42, 0, 0, vec![&[0x0, 0x1, 0x2, 0x4]]);
    assert_page(&buffer, offset, 0, 42, 127, 1, vec![&[0xFF, 0xFF]]);
}

#[test]
fn test_dont_flush_empty_page() {
    let mut bw = StreamWriter::new(Vec::new());
    bw.begin_logical_stream(42, &[0x0, 0x1, 0x2, 0x4]).unwrap();
    bw.flush(42).unwrap();

    let buffer = bw.into_inner();

    assert_eq!(buffer.len(), 32)
}

#[test]
fn test_begin_twice_fails() {
    let mut bw = StreamWriter::new(Vec::new());
    bw.begin_logical_stream(9, &[1, 2]).unwrap();
    assert_eq!(
        bw.begin_logical_stream(9, &[3, 4]),
        Err(WriteError::BitstreamAlreadyInitialized)
    );
}

#[test]
fn test_initial_packet_too_big() {
    let mut bw = StreamWriter::new(Vec::new());
    let big = vec![0u8; MAX_PAGE_DATA_SIZE + 1];
    assert_eq!(
        bw.begin_logical_stream(9, &big),
        Err(WriteError::InitialPacketTooBig)
    );
}

#[test]
fn test_unknown_serial() {
    let mut bw = StreamWriter::new(Vec::new());
    assert_eq!(
        bw.push_packet(1, &[1], 0),
        Err(WriteError::UnknownBitstreamSerialNumber)
    );
    assert_eq!(bw.flush(1), Err(WriteError::UnknownBitstreamSerialNumber));
    assert_eq!(
        bw.end_logical_stream(1, &[1], 0),
        Err(WriteError::UnknownBitstreamSerialNumber)
    );
    assert_eq!(
        bw.page_is_empty(1),
        Err(WriteError::UnknownBitstreamSerialNumber)
    );
}

#[test]
fn test_split_packet_pages() {
    // A packet of 70_000 bytes does not fit one page: it is split over
    // exactly two pages — a full slice under the no-granule mark, then the
    // final slice with the real granule, tagged as a continuation.
    let mut bw = StreamWriter::new(Vec::new());
    bw.begin_logical_stream(7, &[9]).unwrap();
    let big: Vec<u8> = (0..70_000u32).map(|i| (i % 251) as u8).collect();
    bw.push_packet(7, &big, 999).unwrap();

    let buffer = bw.into_inner();

    // The begin page.
    let mut offset = assert_page(&buffer, 0, BOS_VALUE, 7, 0, 0, vec![&[9]]);

    // The full slice: 255 laces of 255, no terminating lace.
    assert_eq!(buffer[offset + HEADER_TYPE_INDEX], 0);
    assert_eq!(
        parse_u64_le(&buffer[offset + GRANULE_POSITION_INDEX..offset + GRANULE_POSITION_INDEX + 8]),
        NO_GRANULE_POSITION
    );
    assert_eq!(
        parse_u32_le(
            &buffer[offset + PAGE_SEQUENCE_NUMBER_INDEX..offset + PAGE_SEQUENCE_NUMBER_INDEX + 4]
        ),
        1
    );
    assert_eq!(buffer[offset + SEGMENT_COUNT_INDEX], 255);
    for j in 0..255 {
        assert_eq!(buffer[offset + SEGMENT_TABLE_INDEX + j], 255);
    }
    let data_start = offset + SEGMENT_TABLE_INDEX + 255;
    assert_eq!(
        &buffer[data_start..data_start + MAX_PAGE_DATA_SIZE],
        &big[..MAX_PAGE_DATA_SIZE]
    );
    offset = data_start + MAX_PAGE_DATA_SIZE;

    // The final slice: continuation, real granule, rest of the bytes.
    let size = assert_page(&buffer, offset, 0x1, 7, 999, 2, vec![&big[MAX_PAGE_DATA_SIZE..]]);
    offset += size;
    assert_eq!(offset, buffer.len());
}

#[test]
fn test_push_flushes_full_page() {
    // A packet that does not fit the open page pushes the open page out
    // first.
    let mut bw = StreamWriter::new(Vec::new());
    bw.begin_logical_stream(3, &[1]).unwrap();
    let a = vec![0xAAu8; 40_000];
    let b = vec![0xBBu8; 40_000];
    bw.push_packet(3, &a, 5).unwrap();
    bw.push_packet(3, &b, 6).unwrap();
    bw.flush(3).unwrap();

    let buffer = bw.into_inner();
    let mut offset = assert_page(&buffer, 0, BOS_VALUE, 3, 0, 0, vec![&[1]]);
    offset += assert_page(&buffer, offset, 0, 3, 5, 1, vec![&a]);
    offset += assert_page(&buffer, offset, 0, 3, 6, 2, vec![&b]);
    assert_eq!(offset, buffer.len());
}

#[test]
fn test_segment_table_capacity() {
    // The segment table holds at most 255 laces: the 256th one-byte packet
    // pushes the open page out first, so no emitted table overflows.
    let mut bw = StreamWriter::new(Vec::new());
    bw.begin_logical_stream(4, &[1]).unwrap();
    let packets: Vec<Vec<u8>> = (0..300u32).map(|i| vec![(i % 256) as u8]).collect();
    for (i, p) in packets.iter().enumerate() {
        bw.push_packet(4, p, 1000 + i as u64).unwrap();
    }
    bw.flush(4).unwrap();

    let buffer = bw.into_inner();
    let mut offset = assert_page(&buffer, 0, BOS_VALUE, 4, 0, 0, vec![&[1]]);
    let first: Vec<&[u8]> = packets[..255].iter().map(|p| p.as_slice()).collect();
    offset += assert_page(&buffer, offset, 0, 4, 1000 + 254, 1, first);
    let rest: Vec<&[u8]> = packets[255..].iter().map(|p| p.as_slice()).collect();
    offset += assert_page(&buffer, offset, 0, 4, 1000 + 299, 2, rest);
    assert_eq!(offset, buffer.len());
}

#[test]
fn test_flush_with_zero_length_packet_queued_is_noop() {
    // A zero-length packet queues a lace but no bytes; with no bytes
    // buffered, flush writes nothing, and the packet rides out on the next
    // page that carries data.
    let mut bw = StreamWriter::new(Vec::new());
    bw.begin_logical_stream(9, &[1]).unwrap();
    let after_begin = {
        let mut probe = StreamWriter::new(Vec::new());
        probe.begin_logical_stream(9, &[1]).unwrap();
        probe.into_inner().len()
    };
    bw.push_packet(9, &[], 5).unwrap();
    bw.flush(9).unwrap();
    bw.push_packet(9, &[2, 3], 7).unwrap();
    bw.flush(9).unwrap();

    let buffer = bw.into_inner();
    let mut offset = assert_page(&buffer, 0, BOS_VALUE, 9, 0, 0, vec![&[1]]);
    assert_eq!(offset, after_begin);
    offset += assert_page(&buffer, offset, 0, 9, 7, 1, vec![&[], &[2, 3]]);
    assert_eq!(offset, buffer.len());
}

#[test]
fn test_end_with_zero_length_packet_queued() {
    // With only a zero-length packet queued, nothing is flushed before the
    // end-of-stream page, which then carries that packet and the last one.
    let mut bw = StreamWriter::new(Vec::new());
    bw.begin_logical_stream(9, &[1]).unwrap();
    bw.push_packet(9, &[], 5).unwrap();
    bw.end_logical_stream(9, &[4, 5], 50).unwrap();

    let buffer = bw.into_inner();
    let mut offset = assert_page(&buffer, 0, BOS_VALUE, 9, 0, 0, vec![&[1]]);
    offset += assert_page(&buffer, offset, EOS_VALUE, 9, 50, 1, vec![&[], &[4, 5]]);
    assert_eq!(offset, buffer.len());
}
