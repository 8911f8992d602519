use ttyman::{
    calc_time_streaming, extract_frame_from_buffer, read_frame, read_header, write_frame,
    write_header, write_raw_frame, Frame, FrameError, FrameReader, Header, HeaderError,
    MAX_RECORD_LEN,
};

#[test]
fn test_standard_timestamp_roundtrip() {
    let header = Header { sec: 1700000000, usec: 500000, len: 1024 };
    let bytes = header.serialize();
    let decoded = Header::deserialize(&bytes).unwrap();
    assert_eq!(header, decoded);
}

#[test]
fn test_y2038_extended_timestamp_roundtrip() {
    let header = Header { sec: 3_000_000_000, usec: 123456, len: 2048 };
    let bytes = header.serialize();
    let decoded = Header::deserialize(&bytes).unwrap();
    assert_eq!(header, decoded);
}

#[test]
fn test_max_44bit_sec_roundtrip() {
    let max_sec = (1u64 << 44) - 1;
    let header = Header { sec: max_sec, usec: 999999, len: MAX_RECORD_LEN };
    let bytes = header.serialize();
    let decoded = Header::deserialize(&bytes).unwrap();
    assert_eq!(header, decoded);
}

#[test]
fn test_invalid_usec() {
    let mut buf = [0u8; 12];
    buf[4..8].copy_from_slice(&1_000_000u32.to_le_bytes());
    assert!(matches!(Header::deserialize(&buf), Err(HeaderError::InvalidUsec(_))));
}

#[test]
fn test_invalid_lengths() {
    let err = Header::new(100, 100, MAX_RECORD_LEN + 1);
    assert!(matches!(err, Err(HeaderError::InvalidLength(_))));
}

#[test]
fn test_read_write_frame_roundtrip() {
    let payload = b"Hello, tt terminal world!\r\n";
    let header = Header { sec: 1700000000, usec: 543210, len: payload.len() as u32 };
    let frame = Frame { header, data: payload.to_vec() };

    let mut buffer = Vec::new();
    write_frame(&mut buffer, &frame).unwrap();

    let decoded = read_frame(&buffer).unwrap().expect("should read frame");

    assert_eq!(frame, decoded);
}

#[test]
fn test_incomplete_header_error() {
    let buffer = vec![0u8; 6]; // Incomplete header
    let res = read_frame(&buffer);
    assert!(res.is_ok());
    assert_eq!(res.unwrap(), None);
}

#[test]
fn test_incomplete_payload_error() {
    let header = Header { sec: 100, usec: 100, len: 50 };
    let mut buffer = Vec::new();
    write_header(&mut buffer, &header).unwrap();
    buffer.extend_from_slice(b"too short");

    let res = read_frame(&buffer);
    assert!(matches!(res, Err(FrameError::IncompletePayload { .. })));
}

#[test]
fn test_frame_reader_fragmented_stream() {
    let frame1 = Frame { header: Header::new(100, 200, 5).unwrap(), data: b"hello".to_vec() };
    let frame2 = Frame { header: Header::new(101, 300, 6).unwrap(), data: b"world!".to_vec() };

    let mut total_bytes = Vec::new();
    write_frame(&mut total_bytes, &frame1).unwrap();
    write_frame(&mut total_bytes, &frame2).unwrap();

    // Feed bytes in tiny 3-byte chunks to test buffering
    let mut chunks = total_bytes.chunks(3);
    let mut reader = FrameReader::new();
    let mut next_frame = |reader: &mut FrameReader| -> Option<Frame> {
        loop {
            if let Some(f) = reader.read_next_frame().unwrap() {
                return Some(f);
            }
            match chunks.next() {
                Some(c) => reader.push_bytes(c),
                None => return None,
            }
        }
    };
    let f1 = next_frame(&mut reader).expect("frame 1");
    assert_eq!(f1, frame1);
    let f2 = next_frame(&mut reader).expect("frame 2");
    assert_eq!(f2, frame2);
    let f3 = next_frame(&mut reader);
    assert!(f3.is_none());
    assert!(reader.is_buffer_empty());
}

#[test]
fn header_new_checks_usec_first() {
    assert_eq!(Header::new(1, 1_000_000, MAX_RECORD_LEN + 1), Err(HeaderError::InvalidUsec(1_000_000)));
    assert_eq!(Header::new(1, 999_999, MAX_RECORD_LEN), Ok(Header { sec: 1, usec: 999_999, len: MAX_RECORD_LEN }));
}

#[test]
fn header_serialize_layout() {
    let h = Header { sec: 0x0ABC_1122_3344, usec: 0x0F_4240 - 1, len: 0x12_3456 };
    let b = h.serialize();
    assert_eq!(&b[0..4], &0x1122_3344u32.to_le_bytes());
    assert_eq!(&b[4..8], &((0x0F_423Fu32) | (0xABC << 20)).to_le_bytes());
    assert_eq!(&b[8..12], &0x12_3456u32.to_le_bytes());
}

#[test]
fn header_now_is_valid() {
    let h = Header::now(7).unwrap();
    assert_eq!(h.len, 7);
    assert!(h.usec <= 999_999);
    assert!(h.sec > 1_600_000_000);
    assert!(matches!(Header::now(MAX_RECORD_LEN + 1), Err(HeaderError::InvalidLength(_))));
}

#[test]
fn read_header_from_stream() {
    let h = Header { sec: 5, usec: 6, len: 0 };
    let mut out = Vec::new();
    write_raw_frame(&mut out, &h, b"").unwrap();
    assert_eq!(read_header(&out).unwrap(), Some(h));
    assert_eq!(read_header(&out[..11]).unwrap(), None);
    let mut bad = out.clone();
    bad[4] = 0xFF;
    bad[5] = 0xFF;
    bad[6] = 0x0F; // microseconds 0xFFFFF > 999999
    assert!(matches!(read_header(&bad), Err(FrameError::Header(HeaderError::InvalidUsec(_)))));
}

#[test]
fn extract_leaves_partial_frames_buffered() {
    let f = Frame { header: Header::new(9, 9, 3).unwrap(), data: b"abc".to_vec() };
    let mut bytes = Vec::new();
    write_frame(&mut bytes, &f).unwrap();
    bytes.extend_from_slice(b"rest");
    for k in 0..15 {
        let mut partial = bytes[..k].to_vec();
        assert!(extract_frame_from_buffer(&mut partial).unwrap().is_none());
        assert_eq!(partial, bytes[..k].to_vec());
    }
    let mut buf = bytes.clone();
    assert_eq!(extract_frame_from_buffer(&mut buf).unwrap(), Some(f));
    assert_eq!(buf, b"rest".to_vec());
}

#[test]
fn calc_time_reads_first_and_last_headers() {
    let mut out = Vec::new();
    write_raw_frame(&mut out, &Header::new(100, 0, 2).unwrap(), b"ab").unwrap();
    write_raw_frame(&mut out, &Header::new(130, 0, 0).unwrap(), b"").unwrap();
    write_raw_frame(&mut out, &Header::new(160, 5, 1).unwrap(), b"z").unwrap();
    assert_eq!(calc_time_streaming(&out), 60);
    // a truncated last payload still counts its header
    assert_eq!(calc_time_streaming(&out[..out.len() - 1]), 60);
    assert_eq!(calc_time_streaming(b"short"), 0);
    let mut backwards = Vec::new();
    write_raw_frame(&mut backwards, &Header::new(100, 0, 0).unwrap(), b"").unwrap();
    write_raw_frame(&mut backwards, &Header::new(50, 0, 0).unwrap(), b"").unwrap();
    assert_eq!(calc_time_streaming(&backwards), 0);
}

#[test]
fn frame_reader_any_split_gives_frames_in_order() {
    let frames: Vec<Frame> = (0..4u32)
        .map(|i| Frame { header: Header::new(10 + i as u64, i, i).unwrap(), data: vec![b'a' + i as u8; i as usize] })
        .collect();
    let mut stream = Vec::new();
    for f in &frames {
        write_frame(&mut stream, f).unwrap();
    }
    let partial = Frame { header: Header::new(99, 1, 4).unwrap(), data: b"tail".to_vec() };
    let mut tail = Vec::new();
    write_frame(&mut tail, &partial).unwrap();
    stream.extend_from_slice(&tail[..7]);
    for size in 1..=stream.len() {
        let mut reader = FrameReader::new();
        let mut got = Vec::new();
        for chunk in stream.chunks(size) {
            reader.push_bytes(chunk);
            while let Some(f) = reader.read_next_frame().unwrap() {
                got.push(f);
            }
        }
        assert_eq!(got, frames);
        assert!(reader.read_next_frame().unwrap().is_none());
        reader.push_bytes(&tail[7..]);
        assert_eq!(reader.read_next_frame().unwrap(), Some(partial.clone()));
        assert!(reader.is_buffer_empty());
    }
}
