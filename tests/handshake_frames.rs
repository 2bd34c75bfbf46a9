use bittorrent::handshake::{Handshake, HandshakeError};

fn reply(hash: &[u8], peer: &[u8]) -> Vec<u8> {
    let mut b = vec![19u8];
    b.extend_from_slice(b"BitTorrent protocol");
    b.extend_from_slice(&[0u8; 8]);
    b.extend_from_slice(hash);
    b.extend_from_slice(peer);
    b
}

#[test]
fn handshake_layout() {
    let h = Handshake::new(vec![7u8; 20], "00112233445566778899");
    let bytes = h.to_bytes();
    assert_eq!(bytes.len(), 68);
    assert_eq!(bytes, reply(&[7u8; 20], b"00112233445566778899"));
}

#[test]
fn reply_is_read() {
    let ours = Handshake::new(vec![7u8; 20], "00112233445566778899");
    let got = ours.check_reply(&reply(&[7u8; 20], &[9u8; 20])).unwrap();
    assert_eq!(got.peer_id, [9u8; 20]);
    assert_eq!(got.info_hash, [7u8; 20]);
}

#[test]
fn bad_protocol_is_refused() {
    let mut b = reply(&[7u8; 20], &[9u8; 20]);
    b[0] = 18;
    assert_eq!(Handshake::from_bytes(&b).unwrap_err(), HandshakeError::BadProtocol);
    let mut b = reply(&[7u8; 20], &[9u8; 20]);
    b[5] = b'x';
    assert_eq!(Handshake::from_bytes(&b).unwrap_err(), HandshakeError::BadProtocol);
}

#[test]
fn other_torrent_is_refused() {
    let ours = Handshake::new(vec![7u8; 20], "00112233445566778899");
    assert_eq!(
        ours.check_reply(&reply(&[8u8; 20], &[9u8; 20])).unwrap_err(),
        HandshakeError::InfoHashMismatch
    );
}
