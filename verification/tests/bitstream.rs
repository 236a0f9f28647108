use oggpage::bitstream::{
    BitStreamFileReader, BitStreamStreamReader, BitStreamWriter, BitstreamReadError,
    BitstreamWriteError, Packet, PacketType, ReadStatus,
};

fn opus_head_page() -> Vec<u8> {
    vec![
        0x4F, 0x67, 0x67, 0x53, 0x00, 0x02, 0x00, 0x00, 0x00, 0x00, 0x00, 0x00, 0x00, 0x00, 0x4A,
        0xC9, 0x09, 0xB6, 0x00, 0x00, 0x00, 0x00, 0xF9, 0x20, 0x89, 0xF8, 0x01, 0x13, 0x4F, 0x70,
        0x75, 0x73, 0x48, 0x65, 0x61, 0x64, 0x01, 0x02, 0x38, 0x01, 0x80, 0xBB, 0x00, 0x00, 0x00,
        0x00, 0x00,
    ]
}

#[test]
fn reader_test_sync() {
    let d = opus_head_page();
    let mut br = BitStreamFileReader::new(d);
    let mut packet = Packet::default();
    let res = br.read_packet(&mut packet).unwrap();
    assert_eq!(res, ReadStatus::Delivered)
}

#[test]
fn reader_test_resync() {
    let mut d: Vec<u8> = vec![0x00, 0x00, 0x00, 0x00, 0x00];
    d.extend_from_slice(&opus_head_page());
    let mut br = BitStreamFileReader::new(d);
    let mut packet = Packet::default();
    let res = br.read_packet(&mut packet).unwrap();
    assert_eq!(res, ReadStatus::Delivered)
}

#[test]
fn stream_reader_reads_fixture() {
    let mut br = BitStreamStreamReader::new(opus_head_page());
    let mut packet = Packet::default();
    assert_eq!(br.read_packet(&mut packet).unwrap(), ReadStatus::Delivered);
    assert_eq!(packet.bitstream_serial_number(), 0xB609C94A);
    assert_eq!(br.read_packet(&mut packet).unwrap(), ReadStatus::Eof);
}

#[test]
fn bitstream_writer_round_trip() {
    let mut out: Vec<u8> = Vec::new();
    let mut bw = BitStreamWriter::new();
    bw.write_packet(&mut out, &[1, 2, 3], 77, 0, PacketType::Bos).unwrap();
    bw.write_packet(&mut out, &[4, 5], 77, 10, PacketType::Normal).unwrap();
    bw.write_packet(&mut out, &[6], 77, 20, PacketType::Eos).unwrap();
    bw.flush(&mut out).unwrap();

    let mut br = BitStreamFileReader::new(out);
    let mut packet = Packet::default();

    assert_eq!(br.read_packet(&mut packet).unwrap(), ReadStatus::Delivered);
    assert_eq!(packet.data(), &[1, 2, 3]);
    assert_eq!(packet.bitstream_serial_number(), 77);
    assert!(packet.is_bos());

    assert_eq!(br.read_packet(&mut packet).unwrap(), ReadStatus::Delivered);
    assert_eq!(packet.data(), &[4, 5]);
    assert_eq!(packet.granule_position(), 10);

    assert_eq!(br.read_packet(&mut packet).unwrap(), ReadStatus::Delivered);
    assert_eq!(packet.data(), &[6]);
    assert_eq!(packet.granule_position(), 20);

    assert_eq!(br.read_packet(&mut packet).unwrap(), ReadStatus::Eof);
}

#[test]
fn bitstream_writer_serial_too_big() {
    let mut out: Vec<u8> = Vec::new();
    let mut bw = BitStreamWriter::new();
    assert_eq!(
        bw.write_packet(&mut out, &[1], 0x1_0000_0000u64, 0, PacketType::Normal),
        Err(BitstreamWriteError::TryFromIntError)
    );
    assert!(out.is_empty());
}

#[test]
fn bitstream_writer_packet_too_big() {
    let mut out: Vec<u8> = Vec::new();
    let mut bw = BitStreamWriter::new();
    let big = vec![0u8; 65_025];
    assert_eq!(
        bw.write_packet(&mut out, &big, 1, 0, PacketType::Normal),
        Err(BitstreamWriteError::InitialPacketTooBig)
    );
    assert!(out.is_empty());
}

#[test]
fn bitstream_file_reader_seek() {
    let mut out: Vec<u8> = Vec::new();
    let mut bw = BitStreamWriter::new();
    for i in 0..20u64 {
        let t = if i == 0 { PacketType::Bos } else { PacketType::Normal };
        bw.write_packet(&mut out, &[i as u8; 16], 9, i * 50, t).unwrap();
    }
    let mut br = BitStreamFileReader::new(out);
    let mut packet = Packet::default();
    br.seek(9, 500).unwrap();
    assert_eq!(br.read_packet(&mut packet).unwrap(), ReadStatus::Delivered);
    assert!(packet.granule_position() >= 500);

    br.seek(9, 0).unwrap();
    assert_eq!(br.read_packet(&mut packet).unwrap(), ReadStatus::Delivered);
    assert_eq!(packet.granule_position(), 0);
}

#[test]
fn bitstream_reader_unable_to_sync() {
    let noise = vec![0x55u8; 70_000];
    let mut br = BitStreamStreamReader::new(noise);
    let mut packet = Packet::default();
    assert_eq!(
        br.read_packet(&mut packet),
        Err(BitstreamReadError::UnableToSync)
    );
}
