use bittorrent::bencode::BencodeError;
use bittorrent::torrent::{Info, MetainfoError, Torrent};
use sha1::{Digest, Sha1};

fn digest(data: &[u8]) -> Vec<u8> {
    Sha1::digest(data).to_vec()
}

fn info_bytes() -> Vec<u8> {
    let mut pieces = digest(b"abcdef");
    pieces.extend(digest(b"ghijkl"));
    let mut info = b"d6:lengthi12e4:name8:file.txt12:piece lengthi6e6:pieces40:".to_vec();
    info.extend(pieces);
    info.push(b'e');
    info
}

fn metainfo_bytes() -> Vec<u8> {
    let mut m = b"d8:announce17:http://t/announce4:info".to_vec();
    m.extend(info_bytes());
    m.push(b'e');
    m
}

#[test]
fn reads_scenario_metainfo() {
    let t = Torrent::from_bytes(&metainfo_bytes()).unwrap();
    assert_eq!(t.announce, "http://t/announce");
    assert_eq!(t.info.length, 12);
    assert_eq!(t.info.plen, 6);
    assert_eq!(t.info.name, "file.txt");
    assert_eq!(t.info.get_piece_count(), 2);
    assert_eq!(t.info.get_piece(0), &digest(b"abcdef")[..]);
    assert_eq!(t.info.get_piece(1), &digest(b"ghijkl")[..]);
    assert_eq!(hex::encode(t.info.get_piece(0)), "1f8ac10f23c5b5bc1167bda84b833e5c057a77d2");
    assert_eq!(hex::encode(t.info.get_piece(1)), "cb614a5d3214e2276af851f9b99611ca59e7094f");
}

#[test]
fn info_hash_is_digest_of_info_bytes() {
    let t = Torrent::from_bytes(&metainfo_bytes()).unwrap();
    assert_eq!(t.info_bytes, info_bytes());
    assert_eq!(t.get_info_hash(), digest(&info_bytes()));
    assert_eq!(t.get_info_hash().len(), 20);
    assert_eq!(hex::encode(t.get_info_hash()), "9b2e8f1f828177622a5c99c97bed78d36be139d4");
}

#[test]
fn info_hash_keeps_extra_info_keys() {
    let mut info = b"d6:lengthi12e4:name8:file.txt12:piece lengthi6e6:pieces40:".to_vec();
    info.extend(digest(b"abcdef"));
    info.extend(digest(b"ghijkl"));
    info.extend(b"7:privatei1ee");
    let mut m = b"d8:announce17:http://t/announce4:info".to_vec();
    m.extend(info.clone());
    m.push(b'e');
    let t = Torrent::from_bytes(&m).unwrap();
    assert_eq!(t.get_info_hash(), digest(&info));
}

#[test]
fn piece_sizes_trim_the_last_piece() {
    let pieces = vec![0u8; 60];
    let info = Info::new(13, "f".to_string(), 6, pieces);
    assert_eq!(info.get_piece_count(), 3);
    assert_eq!(info.piece_size(0), 6);
    assert_eq!(info.piece_size(1), 6);
    assert_eq!(info.piece_size(2), 1);
    let exact = Info::new(12, "f".to_string(), 6, vec![0u8; 40]);
    assert_eq!(exact.piece_size(1), 6);
}

#[test]
fn piece_count_covers_length() {
    let t = Torrent::from_bytes(&metainfo_bytes()).unwrap();
    let n = t.info.get_piece_count();
    assert_eq!(t.info.pieces.len() % 20, 0);
    assert!(n * t.info.plen >= t.info.length);
    assert!(t.info.length > (n - 1) * t.info.plen);
}

#[test]
fn rejects_bad_bencode() {
    assert_eq!(Torrent::from_bytes(b"d8:announce").err(), Some(MetainfoError::Bencode(BencodeError::UnexpectedEnd)));
}

#[test]
fn rejects_missing_field() {
    assert_eq!(Torrent::from_bytes(b"d8:announce1:ae").err(), Some(MetainfoError::MissingField));
}

#[test]
fn rejects_wrong_type() {
    assert_eq!(Torrent::from_bytes(b"i1e").err(), Some(MetainfoError::WrongType));
    assert_eq!(Torrent::from_bytes(b"d8:announce1:a4:infoi1ee").err(), Some(MetainfoError::WrongType));
}

#[test]
fn rejects_piece_count_mismatch() {
    let mut info = b"d6:lengthi13e4:name1:f12:piece lengthi6e6:pieces40:".to_vec();
    info.extend(vec![0u8; 40]);
    info.push(b'e');
    let mut m = b"d8:announce1:a4:info".to_vec();
    m.extend(info);
    m.push(b'e');
    assert_eq!(Torrent::from_bytes(&m).err(), Some(MetainfoError::Invalid));
}

#[test]
fn rejects_zero_piece_length() {
    let m = b"d8:announce1:a4:infod6:lengthi0e4:name1:f12:piece lengthi0e6:pieces0:ee";
    assert_eq!(Torrent::from_bytes(m).err(), Some(MetainfoError::Invalid));
}

#[test]
fn tracker_url_carries_query_and_hash() {
    let t = Torrent::from_bytes(&metainfo_bytes()).unwrap();
    let url = t.tracker_url("00112233445566778899");
    let hash = digest(&info_bytes());
    let mut expected = "http://t/announce?peer_id=00112233445566778899&port=6881&uploaded=0&downloaded=0&left=12&compact=1&info_hash=".to_string();
    for b in &hash {
        expected.push_str(&format!("%{:02x}", b));
    }
    assert_eq!(url, expected);
}

#[test]
fn tracker_url_form_encodes_peer_id() {
    let t = Torrent::from_bytes(&metainfo_bytes()).unwrap();
    let url = t.tracker_url("a b%/~*-._Zé");
    assert!(url.starts_with("http://t/announce?peer_id=a+b%25%2F%7E*-._Z%C3%A9&port=6881&"));
}

#[test]
fn urlencode_escapes_every_byte() {
    assert_eq!(bittorrent::text::urlencode(&[0x00, 0xab, 0x41]), "%00%ab%41");
    assert_eq!(bittorrent::text::urlencode(&[]), "");
}

#[test]
fn metainfo_errors_follow_field_order() {
    assert_eq!(Torrent::from_bytes(b"de").err(), Some(MetainfoError::MissingField));
    assert_eq!(Torrent::from_bytes(b"d8:announcei1ee").err(), Some(MetainfoError::WrongType));
    assert_eq!(Torrent::from_bytes(b"d8:announce1:\xffe").err(), Some(MetainfoError::Invalid));
    assert_eq!(
        Torrent::from_bytes(b"d8:announce1:a4:infod6:lengthi-1eee").err(),
        Some(MetainfoError::Invalid)
    );
    assert_eq!(
        Torrent::from_bytes(b"d8:announce1:a4:infod6:lengthi1e4:namei1eee").err(),
        Some(MetainfoError::WrongType)
    );
}

#[test]
fn info_bytes_are_a_range_of_the_source() {
    let m = metainfo_bytes();
    let t = Torrent::from_bytes(&m).unwrap();
    let n = t.info_bytes.len();
    assert!(m.windows(n).any(|w| w == &t.info_bytes[..]));
}
