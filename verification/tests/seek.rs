use oggpage::{FileReader, Packet, ReadStatus, StreamWriter};

/// One page per packet, granules 0, 100, 200, ... for serial 5.
fn build_stream() -> Vec<u8> {
    let mut bw = StreamWriter::new(Vec::new());
    bw.begin_logical_stream(5, &[0]).unwrap();
    for i in 1..60u64 {
        let body: Vec<u8> = vec![i as u8; 40];
        bw.push_packet(5, &body, i * 100).unwrap();
        bw.flush(5).unwrap();
    }
    bw.into_inner()
}

#[test]
fn test_seek_to_zero() {
    let mut br = FileReader::new(build_stream());
    let mut packet = Packet::default();

    // Move forward first, then rewind.
    assert_eq!(br.next_packet(&mut packet).unwrap(), ReadStatus::Delivered);
    assert_eq!(br.next_packet(&mut packet).unwrap(), ReadStatus::Delivered);
    br.seek(5, 0).unwrap();
    assert_eq!(br.next_packet(&mut packet).unwrap(), ReadStatus::Delivered);
    assert_eq!(packet.granule_position(), 0);
    assert!(packet.is_bos());
}

#[test]
fn test_seek_to_end() {
    let mut br = FileReader::new(build_stream());
    let mut packet = Packet::default();
    br.seek(5, u64::MAX).unwrap();
    assert_eq!(br.next_packet(&mut packet).unwrap(), ReadStatus::Eof);
}

#[test]
fn test_seek_middle() {
    let mut br = FileReader::new(build_stream());
    let mut packet = Packet::default();
    br.seek(5, 2500).unwrap();
    assert_eq!(br.next_packet(&mut packet).unwrap(), ReadStatus::Delivered);
    assert!(packet.granule_position() >= 2500);
    assert!(packet.granule_position() <= 2700);
}

#[test]
fn test_seek_exact() {
    let mut br = FileReader::new(build_stream());
    let mut packet = Packet::default();
    br.seek(5, 3000).unwrap();
    assert_eq!(br.next_packet(&mut packet).unwrap(), ReadStatus::Delivered);
    assert!(packet.granule_position() >= 3000);
    assert!(packet.granule_position() <= 3200);
}

#[test]
fn test_seek_past_stream() {
    // Seeking almost past the end leaves the reader near the last pages:
    // every packet still delivered belongs to the stream's tail, and the
    // input soon runs out.
    let mut br = FileReader::new(build_stream());
    let mut packet = Packet::default();
    br.seek(5, u64::MAX - 1).unwrap();
    let mut delivered = 0;
    loop {
        match br.next_packet(&mut packet).unwrap() {
            ReadStatus::Delivered => {
                assert!(packet.granule_position() >= 5500);
                delivered += 1;
                assert!(delivered < 10);
            },
            ReadStatus::Eof => break,
            ReadStatus::Missing => {},
        }
    }
}
