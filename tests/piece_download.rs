use bittorrent::download::{Action, Phase, PieceDownload, PieceError, BLOCK};
use bittorrent::message::PeerMessage;
use bittorrent::torrent::Info;
use sha1::{Digest, Sha1};

fn info_for(file: &[u8], plen: usize) -> Info {
    let mut pieces = Vec::new();
    for chunk in file.chunks(plen) {
        pieces.extend(Sha1::digest(chunk).to_vec());
    }
    Info::new(file.len(), "f".to_string(), plen, pieces)
}

/// Drives a download against a stub peer that answers each request from
/// `file`, after `tamper` has had its say on each block.
fn run(info: &Info, index: usize, file: &[u8], tamper: &dyn Fn(u32, &mut Vec<u8>)) -> Result<Vec<u8>, PieceError> {
    let mut d = PieceDownload::new(info, index)?;
    let mut inbox = vec![PeerMessage::Have(3), PeerMessage::Bitfield(vec![0xC0])];
    loop {
        let msg = match inbox.pop() {
            Some(m) => m,
            None => return Err(d.closed()),
        };
        match d.handle(msg) {
            Action::Wait => {}
            Action::Send(PeerMessage::Interested) => inbox.push(PeerMessage::Unchoke),
            Action::Send(PeerMessage::Request { index, begin, length }) => {
                let start = index as usize * info.plen + begin as usize;
                let mut block = file[start..start + length as usize].to_vec();
                tamper(begin, &mut block);
                inbox.push(PeerMessage::Piece { index, begin, block });
            }
            Action::Send(other) => panic!("unexpected message {:?}", other),
            Action::Finished(piece) => return Ok(piece),
            Action::Abort(e) => return Err(e),
        }
    }
}

#[test]
fn downloads_scenario_piece() {
    let file = b"abcdefghijkl";
    let info = info_for(file, 6);
    assert_eq!(run(&info, 0, file, &|_, _| {}), Ok(b"abcdef".to_vec()));
    assert_eq!(run(&info, 1, file, &|_, _| {}), Ok(b"ghijkl".to_vec()));
}

#[test]
fn session_follows_the_state_table() {
    let file = b"abcdefghijkl";
    let info = info_for(file, 6);
    let mut d = PieceDownload::new(&info, 0).unwrap();
    assert!(d.session.am_choking && !d.session.am_interested);
    assert!(d.session.peer_choking && !d.session.peer_interested);
    assert!(matches!(d.handle(PeerMessage::Unchoke), Action::Wait));
    assert_eq!(d.phase, Phase::AwaitingBitfield);
    assert!(!d.session.peer_choking);
    assert!(matches!(d.handle(PeerMessage::Bitfield(vec![0xC0])), Action::Send(PeerMessage::Interested)));
    assert_eq!(d.bitfield, vec![0xC0]);
    assert!(d.session.am_interested);
    assert!(matches!(d.handle(PeerMessage::Choke), Action::Wait));
    assert!(d.session.peer_choking);
    match d.handle(PeerMessage::Unchoke) {
        Action::Send(PeerMessage::Request { index, begin, length }) => {
            assert_eq!((index, begin, length), (0, 0, 6));
        }
        other => panic!("unexpected action {:?}", other),
    }
    assert!(matches!(d.handle(PeerMessage::Have(1)), Action::Wait));
    assert!(matches!(
        d.handle(PeerMessage::Piece { index: 1, begin: 0, block: b"ghijkl".to_vec() }),
        Action::Wait
    ));
    match d.handle(PeerMessage::Piece { index: 0, begin: 0, block: b"abcdef".to_vec() }) {
        Action::Finished(p) => assert_eq!(p, b"abcdef".to_vec()),
        other => panic!("unexpected action {:?}", other),
    }
    assert_eq!(d.phase, Phase::Done);
}

#[test]
fn multi_block_piece_is_assembled() {
    let file: Vec<u8> = (0..100_000u32).map(|i| (i * 7 % 251) as u8).collect();
    let plen = 2 * BLOCK as usize + 1000;
    let info = info_for(&file, plen);
    let count = info.get_piece_count();
    for index in 0..count {
        let start = index * plen;
        let end = usize::min(start + plen, file.len());
        assert_eq!(run(&info, index, &file, &|_, _| {}), Ok(file[start..end].to_vec()));
    }
}

#[test]
fn tampered_block_is_a_digest_mismatch() {
    let file: Vec<u8> = (0..40_000u32).map(|i| (i % 256) as u8).collect();
    let info = info_for(&file, 40_000);
    let result = run(&info, 0, &file, &|begin, block| {
        if begin == BLOCK {
            block[0] ^= 1;
        }
    });
    assert_eq!(result, Err(PieceError::DigestMismatch));
}

#[test]
fn short_block_is_refused() {
    let file = b"abcdefghijkl";
    let info = info_for(file, 6);
    let result = run(&info, 0, file, &|_, block| {
        block.pop();
    });
    assert_eq!(result, Err(PieceError::BadBlock));
}

#[test]
fn index_out_of_range() {
    let info = info_for(b"abcdefghijkl", 6);
    assert_eq!(PieceDownload::new(&info, 2).err(), Some(PieceError::OutOfRange));
}

#[test]
fn peer_closing_aborts() {
    let info = info_for(b"abcdefghijkl", 6);
    let mut d = PieceDownload::new(&info, 0).unwrap();
    assert_eq!(d.closed(), PieceError::PeerClosed);
    assert_eq!(d.phase, Phase::Failed);
}
