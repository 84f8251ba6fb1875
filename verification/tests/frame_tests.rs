use broker_core::frame::{DecodeError, Frame, FrameType};

fn frame(frame_type: FrameType, stream_id: u64, offset: u64, payload: &[u8]) -> Frame {
    Frame { frame_type, stream_id, offset, payload: payload.to_vec() }
}

fn same(a: &Frame, b: &Frame) -> bool {
    a.frame_type == b.frame_type
        && a.stream_id == b.stream_id
        && a.offset == b.offset
        && a.payload == b.payload
}

fn header(kind: u8, stream_id: u64, offset: u64, declared: u32) -> Vec<u8> {
    let mut bytes = vec![kind];
    bytes.extend_from_slice(&stream_id.to_le_bytes());
    bytes.extend_from_slice(&offset.to_le_bytes());
    bytes.extend_from_slice(&declared.to_le_bytes());
    bytes
}

#[test]
fn header_len_is_21() {
    assert_eq!(Frame::HEADER_LEN, 21);
}

#[test]
fn wire_codes_are_one_to_four() {
    assert_eq!(FrameType::Publish.as_u8(), 0x01);
    assert_eq!(FrameType::Message.as_u8(), 0x02);
    assert_eq!(FrameType::Subscribe.as_u8(), 0x03);
    assert_eq!(FrameType::Ack.as_u8(), 0x04);
}

#[test]
fn from_u8_knows_exactly_four_codes() {
    assert_eq!(FrameType::from_u8(0x01), Some(FrameType::Publish));
    assert_eq!(FrameType::from_u8(0x02), Some(FrameType::Message));
    assert_eq!(FrameType::from_u8(0x03), Some(FrameType::Subscribe));
    assert_eq!(FrameType::from_u8(0x04), Some(FrameType::Ack));
    for b in 0u16..=255 {
        let b = b as u8;
        let known = (1..=4).contains(&b);
        assert_eq!(FrameType::from_u8(b).is_some(), known);
        if let Some(kind) = FrameType::from_u8(b) {
            assert_eq!(kind.as_u8(), b);
        }
    }
}

#[test]
fn encode_lays_out_header_then_payload() {
    let f = frame(
        FrameType::Message,
        0x0102_0304_0506_0708,
        0x1112_1314_1516_1718,
        &[0xaa, 0xbb, 0xcc],
    );
    let bytes = f.encode();
    assert_eq!(
        bytes,
        vec![
            0x02, 0x08, 0x07, 0x06, 0x05, 0x04, 0x03, 0x02, 0x01, 0x18, 0x17, 0x16, 0x15, 0x14,
            0x13, 0x12, 0x11, 0x03, 0x00, 0x00, 0x00, 0xaa, 0xbb, 0xcc,
        ]
    );
}

#[test]
fn encode_agrees_with_std_little_endian() {
    let f = frame(FrameType::Publish, u64::MAX - 5, 0xdead_beef, &[9u8; 300]);
    let mut expected = header(0x01, u64::MAX - 5, 0xdead_beef, 300);
    expected.extend_from_slice(&[9u8; 300]);
    assert_eq!(f.encode(), expected);
}

#[test]
fn encoded_length_is_header_plus_payload() {
    for n in [1usize, 2, 255, 256, 257, 70_000] {
        let f = frame(FrameType::Publish, 1, 0, &vec![7u8; n]);
        assert_eq!(f.encode().len(), 21 + n);
    }
    assert_eq!(frame(FrameType::Ack, 1, 2, &[]).encode().len(), 21);
}

#[test]
fn encode_is_deterministic() {
    let f = frame(FrameType::Publish, 3, 0, b"abc");
    assert_eq!(f.encode(), f.encode());
}

#[test]
fn decode_of_encode_is_identity() {
    let frames = vec![
        frame(FrameType::Publish, 7, 0, b"hello"),
        frame(FrameType::Message, u64::MAX, u64::MAX, &[0u8; 1000]),
        frame(FrameType::Subscribe, 0, 0, &[]),
        frame(FrameType::Ack, 12, 99, &[]),
        frame(FrameType::Ack, 12, 99, b"with payload"),
    ];
    for f in &frames {
        let back = Frame::decode(&f.encode()).unwrap();
        assert!(same(f, &back));
    }
}

#[test]
fn decode_rejects_short_input() {
    for n in 0..21 {
        assert!(matches!(Frame::decode(&vec![0x01; n]), Err(DecodeError::TooShort)));
    }
}

#[test]
fn decode_rejects_unknown_type() {
    for kind in [0x00u8, 0x05, 0x7f, 0xff] {
        let bytes = header(kind, 1, 2, 0);
        assert!(matches!(Frame::decode(&bytes), Err(DecodeError::UnknownFrameType)));
    }
}

#[test]
fn unknown_type_is_reported_before_length_mismatch() {
    let mut bytes = header(0x00, 1, 2, 10);
    bytes.extend_from_slice(&[0u8; 5]);
    assert!(matches!(Frame::decode(&bytes), Err(DecodeError::UnknownFrameType)));
}

#[test]
fn decode_rejects_length_mismatch() {
    let mut short = header(0x01, 1, 0, 10);
    short.extend_from_slice(&[1, 2, 3, 4, 5]);
    assert!(matches!(Frame::decode(&short), Err(DecodeError::LengthMismatch)));

    let mut long = header(0x01, 1, 0, 2);
    long.extend_from_slice(&[1, 2, 3]);
    assert!(matches!(Frame::decode(&long), Err(DecodeError::LengthMismatch)));
}

#[test]
fn decode_accepts_publish_without_payload() {
    let back = Frame::decode(&header(0x01, 4, 0, 0)).unwrap();
    assert_eq!(back.frame_type, FrameType::Publish);
    assert!(back.payload.is_empty());
    assert!(!back.is_valid());
}

#[test]
fn is_valid_asks_payload_of_publish_and_message() {
    assert!(frame(FrameType::Publish, 1, 0, b"x").is_valid());
    assert!(frame(FrameType::Message, 1, 0, b"x").is_valid());
    assert!(!frame(FrameType::Publish, 1, 0, b"").is_valid());
    assert!(!frame(FrameType::Message, 1, 0, b"").is_valid());
    assert!(frame(FrameType::Subscribe, 1, 0, b"").is_valid());
    assert!(frame(FrameType::Ack, 1, 0, b"").is_valid());
    assert!(frame(FrameType::Ack, 1, 0, b"x").is_valid());
}

#[test]
fn try_decode_needs_a_whole_header() {
    for n in 0..21 {
        let mut buf = vec![0x01u8; n];
        assert!(matches!(Frame::try_decode(&mut buf), Ok(None)));
        assert_eq!(buf, vec![0x01u8; n]);
    }
}

#[test]
fn try_decode_needs_the_whole_payload() {
    let whole = frame(FrameType::Publish, 7, 0, b"hello").encode();
    for n in 21..whole.len() {
        let mut buf = whole[..n].to_vec();
        assert!(matches!(Frame::try_decode(&mut buf), Ok(None)));
        assert_eq!(buf, whole[..n].to_vec());
    }
}

#[test]
fn try_decode_consumes_exactly_one_frame() {
    let first = frame(FrameType::Publish, 7, 0, b"hello");
    let second = frame(FrameType::Subscribe, 9, 0, b"");
    let mut buf = first.encode();
    buf.extend_from_slice(&second.encode());
    buf.extend_from_slice(&[0x04, 0x01]);

    let got = Frame::try_decode(&mut buf).unwrap().unwrap();
    assert!(same(&got, &first));
    assert_eq!(buf.len(), 21 + 2);

    let got = Frame::try_decode(&mut buf).unwrap().unwrap();
    assert!(same(&got, &second));
    assert_eq!(buf, vec![0x04, 0x01]);

    assert!(matches!(Frame::try_decode(&mut buf), Ok(None)));
    assert_eq!(buf, vec![0x04, 0x01]);
}

#[test]
fn try_decode_reports_unknown_type_once_the_frame_is_there() {
    let mut bytes = header(0xff, 1, 0, 3);
    let mut partial = bytes.clone();
    partial.push(1);
    assert!(matches!(Frame::try_decode(&mut partial), Ok(None)));

    bytes.extend_from_slice(&[1, 2, 3]);
    let before = bytes.clone();
    assert!(matches!(Frame::try_decode(&mut bytes), Err(DecodeError::UnknownFrameType)));
    assert_eq!(bytes, before);
}

#[test]
fn try_decode_on_empty_buffer_needs_more_data() {
    let mut buf: Vec<u8> = Vec::new();
    assert!(matches!(Frame::try_decode(&mut buf), Ok(None)));
    assert!(buf.is_empty());
}

#[test]
fn streaming_one_byte_at_a_time_yields_the_frames_in_order() {
    let frames = vec![
        frame(FrameType::Publish, 7, 0, b"hello"),
        frame(FrameType::Subscribe, 7, 0, b""),
        frame(FrameType::Publish, 8, 0, &[0u8; 300]),
        frame(FrameType::Ack, 1, 5, b""),
        frame(FrameType::Message, 2, 6, b"m"),
    ];
    let mut wire = Vec::new();
    for f in &frames {
        wire.extend_from_slice(&f.encode());
    }
    let mut buf = Vec::new();
    let mut got = Vec::new();
    for byte in wire {
        buf.push(byte);
        while let Some(f) = Frame::try_decode(&mut buf).unwrap() {
            got.push(f);
        }
    }
    assert_eq!(got.len(), frames.len());
    for (a, b) in frames.iter().zip(got.iter()) {
        assert!(same(a, b));
    }
    assert!(buf.is_empty());
    assert!(matches!(Frame::try_decode(&mut buf), Ok(None)));
}

#[test]
fn streaming_is_independent_of_chunk_boundaries() {
    let frames = vec![
        frame(FrameType::Publish, 1, 0, b"a"),
        frame(FrameType::Publish, 2, 0, b"bb"),
        frame(FrameType::Publish, 3, 0, b"ccc"),
    ];
    let mut wire = Vec::new();
    for f in &frames {
        wire.extend_from_slice(&f.encode());
    }
    for chunk in [1usize, 2, 3, 5, 7, 20, 21, 22, 23, 50, 1000] {
        let mut buf = Vec::new();
        let mut got = Vec::new();
        for piece in wire.chunks(chunk) {
            buf.extend_from_slice(piece);
            while let Some(f) = Frame::try_decode(&mut buf).unwrap() {
                got.push(f);
            }
        }
        assert_eq!(got.len(), 3);
        for (a, b) in frames.iter().zip(got.iter()) {
            assert!(same(a, b));
        }
        assert!(buf.is_empty());
    }
}

#[test]
fn is_admissible_asks_the_invariant_of_publish_only() {
    assert!(frame(FrameType::Publish, 1, 0, b"x").is_admissible());
    assert!(!frame(FrameType::Publish, 1, 0, b"").is_admissible());
    assert!(frame(FrameType::Message, 1, 0, b"").is_admissible());
    assert!(frame(FrameType::Subscribe, 1, 0, b"").is_admissible());
    assert!(frame(FrameType::Ack, 1, 0, b"").is_admissible());
}
