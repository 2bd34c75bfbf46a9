use bittorrent::message::{parse_frame, PeerMessage, PeerMessageCodec, ProtocolError, MAX_FRAME};

fn all_messages() -> Vec<PeerMessage> {
    vec![
        PeerMessage::KeepAlive,
        PeerMessage::Choke,
        PeerMessage::Unchoke,
        PeerMessage::Interested,
        PeerMessage::NotInterested,
        PeerMessage::Have(0xDEADBEEF),
        PeerMessage::Bitfield(vec![0xC0, 0x01]),
        PeerMessage::Bitfield(Vec::new()),
        PeerMessage::Request { index: 1, begin: 16384, length: 16384 },
        PeerMessage::Piece { index: 7, begin: 32768, block: b"abcdef".to_vec() },
        PeerMessage::Piece { index: u32::MAX, begin: 0, block: Vec::new() },
        PeerMessage::Cancel { index: 2, begin: 3, length: 4 },
    ]
}

fn encode_one(m: PeerMessage) -> Vec<u8> {
    let mut codec = PeerMessageCodec;
    let mut buf = Vec::new();
    codec.encode(m, &mut buf).unwrap();
    buf
}

#[test]
fn every_message_round_trips() {
    for m in all_messages() {
        let expected = format!("{:?}", m);
        let bytes = encode_one(m);
        let mut codec = PeerMessageCodec;
        let mut buf = bytes.clone();
        buf.extend_from_slice(&[9, 9, 9]);
        let back = codec.decode(&mut buf).unwrap().unwrap();
        assert_eq!(format!("{:?}", back), expected);
        assert_eq!(buf, vec![9, 9, 9]);
    }
}

#[test]
fn frames_have_the_documented_layout() {
    assert_eq!(encode_one(PeerMessage::KeepAlive), vec![0, 0, 0, 0]);
    assert_eq!(encode_one(PeerMessage::Interested), vec![0, 0, 0, 1, 2]);
    assert_eq!(encode_one(PeerMessage::Have(5)), vec![0, 0, 0, 5, 4, 0, 0, 0, 5]);
    assert_eq!(
        encode_one(PeerMessage::Request { index: 0, begin: 0x4000, length: 6 }),
        vec![0, 0, 0, 13, 6, 0, 0, 0, 0, 0, 0, 0x40, 0, 0, 0, 0, 6]
    );
    assert_eq!(
        encode_one(PeerMessage::Piece { index: 1, begin: 2, block: vec![7, 8] }),
        vec![0, 0, 0, 11, 7, 0, 0, 0, 1, 0, 0, 0, 2, 7, 8]
    );
}

#[test]
fn fragmented_stream_gives_same_messages() {
    let mut stream = Vec::new();
    for m in all_messages() {
        stream.extend(encode_one(m));
    }
    let expected: Vec<String> = all_messages().iter().map(|m| format!("{:?}", m)).collect();
    for chunk in 1..=stream.len() {
        let mut codec = PeerMessageCodec;
        let mut buf = Vec::new();
        let mut got = Vec::new();
        for piece in stream.chunks(chunk) {
            buf.extend_from_slice(piece);
            while let Some(m) = codec.decode(&mut buf).unwrap() {
                got.push(format!("{:?}", m));
            }
        }
        assert!(buf.is_empty());
        assert_eq!(got, expected);
    }
}

#[test]
fn partial_frame_needs_more() {
    let bytes = encode_one(PeerMessage::Request { index: 1, begin: 2, length: 3 });
    for cut in 0..bytes.len() {
        assert_eq!(parse_frame(&bytes[..cut]), Ok(None));
    }
    let mut codec = PeerMessageCodec;
    let mut buf = bytes[..10].to_vec();
    assert_eq!(codec.decode(&mut buf), Ok(None));
    assert_eq!(buf, bytes[..10].to_vec());
}

#[test]
fn parse_consumes_exactly_the_frame() {
    let mut bytes = encode_one(PeerMessage::Bitfield(vec![1, 2, 3]));
    let n = bytes.len();
    bytes.extend(encode_one(PeerMessage::Choke));
    let (m, used) = parse_frame(&bytes).unwrap().unwrap();
    assert_eq!(m, PeerMessage::Bitfield(vec![1, 2, 3]));
    assert_eq!(used, n);
}

#[test]
fn unknown_id_is_rejected() {
    assert_eq!(parse_frame(&[0, 0, 0, 1, 9]), Err(ProtocolError::BadId));
    assert_eq!(parse_frame(&[0, 0, 0, 1, 200]), Err(ProtocolError::BadId));
}

#[test]
fn oversized_frame_is_rejected() {
    assert_eq!(parse_frame(&[0, 0x10, 0, 1]), Err(ProtocolError::FrameTooLarge));
    assert_eq!(parse_frame(&[0, 0x10, 0, 0]), Ok(None));
    let mut codec = PeerMessageCodec;
    let mut buf = Vec::new();
    let big = PeerMessage::Bitfield(vec![0; MAX_FRAME as usize]);
    assert_eq!(codec.encode(big, &mut buf), Err(ProtocolError::FrameTooLarge));
    assert!(buf.is_empty());
}

#[test]
fn length_must_fit_id() {
    assert_eq!(parse_frame(&[0, 0, 0, 2, 1, 0]), Err(ProtocolError::BadLength));
    assert_eq!(parse_frame(&[0, 0, 0, 4, 4, 0, 0, 0]), Err(ProtocolError::BadLength));
    assert_eq!(parse_frame(&[0, 0, 0, 8, 7, 0, 0, 0, 0, 0, 0, 0]), Err(ProtocolError::BadLength));
}

#[test]
fn eof_inside_frame_is_an_error() {
    let mut codec = PeerMessageCodec;
    let mut buf = vec![0, 0, 0, 5, 4];
    assert_eq!(codec.decode_eof(&mut buf), Err(ProtocolError::UnexpectedEOF));
    let mut empty = Vec::new();
    assert_eq!(codec.decode_eof(&mut empty), Ok(None));
}

#[test]
fn decode_all_takes_whole_frames_only() {
    let mut buf = encode_one(PeerMessage::Unchoke);
    buf.extend(encode_one(PeerMessage::Have(9)));
    let tail = encode_one(PeerMessage::Request { index: 1, begin: 2, length: 3 });
    buf.extend_from_slice(&tail[..7]);
    let mut codec = PeerMessageCodec;
    let (msgs, err) = codec.decode_all(&mut buf);
    assert_eq!(msgs, vec![PeerMessage::Unchoke, PeerMessage::Have(9)]);
    assert_eq!(err, None);
    assert_eq!(buf, tail[..7].to_vec());
}

#[test]
fn decode_all_stops_at_bad_frame() {
    let mut buf = encode_one(PeerMessage::Choke);
    buf.extend_from_slice(&[0, 0, 0, 1, 42]);
    let mut codec = PeerMessageCodec;
    let (msgs, err) = codec.decode_all(&mut buf);
    assert_eq!(msgs, vec![PeerMessage::Choke]);
    assert_eq!(err, Some(ProtocolError::BadId));
    assert_eq!(buf, vec![0, 0, 0, 1, 42]);
}
