use bittorrent::bencode::BencodeError;
use bittorrent::tracker::{Peer, Tracker, TrackerError};

const COMPACT: [u8; 12] = [192, 0, 2, 1, 0x1A, 0xE1, 10, 0, 0, 2, 0x00, 0x50];

fn body(peers: &[u8]) -> Vec<u8> {
    let mut b = b"d8:intervali1800e5:peers".to_vec();
    b.extend(format!("{}:", peers.len()).into_bytes());
    b.extend_from_slice(peers);
    b.push(b'e');
    b
}

#[test]
fn compact_peers_decode() {
    let t = Tracker::from_bytes(&body(&COMPACT)).unwrap();
    let ips: Vec<String> = t.peer_list().into_iter().map(|p| p.ip).collect();
    assert_eq!(ips, vec!["192.0.2.1:6881".to_string(), "10.0.0.2:80".to_string()]);
}

#[test]
fn peer_from_six_bytes() {
    assert_eq!(Peer::new(&[192, 0, 2, 1, 0x1A, 0xE1]).ip, "192.0.2.1:6881");
    assert_eq!(Peer::new(&[255, 255, 255, 255, 0xFF, 0xFF]).ip, "255.255.255.255:65535");
    assert_eq!(Peer::new(&[0, 0, 0, 0, 0, 0]).ip, "0.0.0.0:0");
}

#[test]
fn iterator_walks_the_list() {
    let t = Tracker::from_response(200, &body(&COMPACT)).unwrap();
    assert_eq!(t.interval, 1800);
    assert_eq!(t.complete, None);
    let mut it = t.into_iter();
    assert_eq!(it.next().unwrap().ip, "192.0.2.1:6881");
    assert_eq!(it.next().unwrap().ip, "10.0.0.2:80");
    assert!(it.next().is_none());
    assert!(it.next().is_none());
}

#[test]
fn optional_fields_are_read() {
    let mut b = b"d8:completei3e10:incompletei1e8:intervali60e12:min intervali30e5:peers6:".to_vec();
    b.extend_from_slice(&COMPACT[..6]);
    b.push(b'e');
    let t = Tracker::from_bytes(&b).unwrap();
    assert_eq!(t.complete, Some(3));
    assert_eq!(t.incomplete, Some(1));
    assert_eq!(t.min_interval, Some(30));
    assert_eq!(t.interval, 60);
}

#[test]
fn http_error_status() {
    assert_eq!(
        Tracker::from_response(404, &body(&COMPACT)).unwrap_err(),
        TrackerError::HttpStatus(404)
    );
}

#[test]
fn body_not_bencoded() {
    assert_eq!(
        Tracker::from_response(200, b"<html>").unwrap_err(),
        TrackerError::Bencode(BencodeError::UnexpectedByte)
    );
}

#[test]
fn missing_peers() {
    assert_eq!(
        Tracker::from_bytes(b"d8:intervali1800ee").unwrap_err(),
        TrackerError::MissingField
    );
}

#[test]
fn peer_list_not_multiple_of_six() {
    assert_eq!(
        Tracker::from_bytes(&body(&COMPACT[..7])).unwrap_err(),
        TrackerError::BadPeerList
    );
}

#[test]
fn minimal_reply_is_accepted() {
    let mut b = b"d8:intervali60e5:peers12:".to_vec();
    b.extend_from_slice(&COMPACT);
    b.push(b'e');
    let t = Tracker::from_response(200, &b).unwrap();
    assert_eq!(t.interval, 60);
    assert_eq!(t.peers, COMPACT.to_vec());
    let mut it = t.into_iter();
    assert_eq!(it.next().unwrap().ip, "192.0.2.1:6881");
    assert_eq!(it.next().unwrap().ip, "10.0.0.2:80");
    assert!(it.next().is_none());
}

#[test]
fn field_kinds_are_checked() {
    assert_eq!(
        Tracker::from_bytes(b"d8:interval2:605:peers0:e").unwrap_err(),
        TrackerError::WrongType
    );
    assert_eq!(
        Tracker::from_bytes(b"d8:completei-1e8:intervali60e5:peers0:e").unwrap_err(),
        TrackerError::WrongType
    );
    assert_eq!(
        Tracker::from_bytes(b"d8:intervali60e5:peersi1ee").unwrap_err(),
        TrackerError::WrongType
    );
    assert_eq!(Tracker::from_bytes(b"le").unwrap_err(), TrackerError::WrongType);
    assert_eq!(
        Tracker::from_bytes(b"d5:peers0:e").unwrap_err(),
        TrackerError::MissingField
    );
}
