//! The piece download driver as a state machine: the caller feeds it the
//! messages that arrive from the peer and performs the actions it returns.

use vstd::prelude::*;
use crate::bencode::{bytes_eq, copy_bytes, push_all};
use crate::message::PeerMessage;
use crate::torrent::{lemma_piece_bounds, sha1_digest, sha1_of, Info};

verus! {

/// Bytes asked for in one request.
pub const BLOCK: u32 = 16384;

/// Where a piece download stands.
#[derive(Debug, Clone, Copy, PartialEq, Eq, Structural)]
pub enum Phase {
    AwaitingBitfield,
    AwaitingUnchoke,
    Downloading,
    Done,
    Failed,
}

/// Why a piece could not be had.
#[derive(Debug, Clone, Copy, PartialEq, Eq, Structural)]
pub enum PieceError {
    /// The assembled piece does not have the recorded digest.
    DigestMismatch,
    /// The peer closed the connection before the piece was complete.
    PeerClosed,
    /// The piece index is not in the torrent.
    OutOfRange,
    /// A block for the outstanding request has the wrong length.
    BadBlock,
}

/// What the caller does next.
#[derive(Debug)]
pub enum Action {
    /// Nothing to send: read the next message.
    Wait,
    /// Send this message, then read the next one.
    Send(PeerMessage),
    /// The piece is complete and verified.
    Finished(Vec<u8>),
    /// The download of this piece is over, without a piece.
    Abort(PieceError),
}

/// What the machine makes of an incoming message.
pub enum Event {
    Bitfield,
    Unchoke,
    Block { index: int, begin: int, data: Seq<u8> },
    Other,
}

/// The event that a message from the peer is.
pub open spec fn event_of(m: PeerMessage) -> Event {
    match m {
        PeerMessage::Bitfield(_) => Event::Bitfield,
        PeerMessage::Unchoke => Event::Unchoke,
        PeerMessage::Piece { index, begin, block } => Event::Block {
            index: index as int,
            begin: begin as int,
            data: block@,
        },
        _ => Event::Other,
    }
}

/// The part of a download that changes: its phase and what has been
/// assembled so far.
pub struct DownloadState {
    pub phase: Phase,
    pub buffer: Seq<u8>,
}

/// Length of the request at `offset` of a piece of `size` bytes.
pub open spec fn block_len(size: int, offset: int) -> int {
    if size - offset < BLOCK {
        size - offset
    } else {
        BLOCK as int
    }
}

/// One transition, for piece `index` of `size` bytes whose digest is `hash`.
pub open spec fn step(index: int, size: int, hash: Seq<u8>, s: DownloadState, e: Event) -> DownloadState {
    match s.phase {
        Phase::AwaitingBitfield => if e is Bitfield {
            DownloadState { phase: Phase::AwaitingUnchoke, buffer: s.buffer }
        } else {
            s
        },
        Phase::AwaitingUnchoke => if e is Unchoke {
            DownloadState { phase: Phase::Downloading, buffer: s.buffer }
        } else {
            s
        },
        Phase::Downloading => match e {
            Event::Block { index: i, begin, data } => {
                if i == index && begin == s.buffer.len() {
                    if data.len() != block_len(size, s.buffer.len() as int) {
                        DownloadState { phase: Phase::Failed, buffer: s.buffer }
                    } else {
                        let buf = s.buffer + data;
                        if buf.len() < size {
                            DownloadState { phase: Phase::Downloading, buffer: buf }
                        } else if sha1_of(buf) == hash {
                            DownloadState { phase: Phase::Done, buffer: buf }
                        } else {
                            DownloadState { phase: Phase::Failed, buffer: buf }
                        }
                    }
                } else {
                    s
                }
            },
            _ => s,
        },
        _ => s,
    }
}

/// A request for the block at `offset` of piece `index`.
pub open spec fn is_request(m: PeerMessage, index: int, size: int, offset: int) -> bool {
    m matches PeerMessage::Request { index: i, begin: b, length: l } && i == index && b == offset
        && l == block_len(size, offset)
}

/// The action that goes with a transition from `s` to `t` on `e`.
pub open spec fn action_fits(
    a: Action,
    index: int,
    size: int,
    s: DownloadState,
    t: DownloadState,
    e: Event,
) -> bool {
    if s.phase == Phase::AwaitingBitfield && t.phase == Phase::AwaitingUnchoke {
        a matches Action::Send(PeerMessage::Interested)
    } else if s.phase == Phase::AwaitingUnchoke && t.phase == Phase::Downloading {
        a matches Action::Send(m) && is_request(m, index, size, 0)
    } else if s.phase == Phase::Downloading && t.phase == Phase::Downloading && t.buffer.len()
        > s.buffer.len() {
        a matches Action::Send(m) && is_request(m, index, size, t.buffer.len() as int)
    } else if s.phase == Phase::Downloading && t.phase == Phase::Done {
        a matches Action::Finished(p) && p@ == t.buffer
    } else if s.phase == Phase::Downloading && t.phase == Phase::Failed {
        if t.buffer.len() == s.buffer.len() {
            a == Action::Abort(PieceError::BadBlock)
        } else {
            a == Action::Abort(PieceError::DigestMismatch)
        }
    } else {
        a is Wait
    }
}

/// The choke and interest flags of both ends of a session.
#[derive(Debug, Clone, Copy, PartialEq, Eq, Structural)]
pub struct Session {
    pub am_choking: bool,
    pub am_interested: bool,
    pub peer_choking: bool,
    pub peer_interested: bool,
}

/// Both ends choke and neither is interested.
pub open spec fn initial_session() -> Session {
    Session { am_choking: true, am_interested: false, peer_choking: true, peer_interested: false }
}

/// The flags after message `m` from the peer, and after our sending
/// `Interested` when `sent_interested` holds.
pub open spec fn session_after(s: Session, m: PeerMessage, sent_interested: bool) -> Session {
    let t = match m {
        PeerMessage::Choke => Session { peer_choking: true, ..s },
        PeerMessage::Unchoke => Session { peer_choking: false, ..s },
        PeerMessage::Interested => Session { peer_interested: true, ..s },
        PeerMessage::NotInterested => Session { peer_interested: false, ..s },
        _ => s,
    };
    if sent_interested {
        Session { am_interested: true, ..t }
    } else {
        t
    }
}

/// The download of one piece.
#[derive(Debug)]
pub struct PieceDownload {
    pub index: u32,
    pub size: usize,
    pub hash: Vec<u8>,
    pub phase: Phase,
    pub buffer: Vec<u8>,
    pub bitfield: Vec<u8>,
    pub session: Session,
}

impl PieceDownload {
    /// The phase and the bytes assembled so far.
    pub open spec fn state(&self) -> DownloadState {
        DownloadState { phase: self.phase, buffer: self.buffer@ }
    }

    /// The assembled bytes never pass the piece size, nothing is assembled
    /// before the download starts, and a piece is not empty and can be
    /// addressed with `u32` offsets.
    pub open spec fn wf(&self) -> bool {
        &&& 0 < self.size <= u32::MAX
        &&& self.buffer@.len() <= self.size
        &&& (self.phase == Phase::Downloading ==> self.buffer@.len() < self.size)
        &&& (self.phase == Phase::AwaitingBitfield || self.phase == Phase::AwaitingUnchoke
            ==> self.buffer@.len() == 0)
    }

    /// Starts the download of piece `index`. The index must name a piece,
    /// whose size must fit in a `u32`.
    pub fn new(info: &Info, index: usize) -> (r: Result<PieceDownload, PieceError>)
        requires
            info.wf(),
        ensures
            (index < info.piece_count_spec() && index <= u32::MAX && info.piece_size_spec(index as int)
                <= u32::MAX) <==> r is Ok,
            r is Err ==> r == Err::<PieceDownload, PieceError>(PieceError::OutOfRange),
            r matches Ok(d) ==> {
                &&& d.wf()
                &&& d.index == index
                &&& d.size == info.piece_size_spec(index as int)
                &&& d.hash@ == info.piece_hash_spec(index as int)
                &&& d.phase == Phase::AwaitingBitfield
                &&& d.buffer@.len() == 0
                &&& d.session == initial_session()
            },
    {
        if index >= info.get_piece_count() || index > u32::MAX as usize {
            return Err(PieceError::OutOfRange);
        }
        let size = info.piece_size(index);
        if size > u32::MAX as usize {
            return Err(PieceError::OutOfRange);
        }
        let hash = copy_bytes(info.get_piece(index));
        Ok(PieceDownload {
            index: index as u32,
            size,
            hash,
            phase: Phase::AwaitingBitfield,
            buffer: Vec::new(),
            bitfield: Vec::new(),
            session: Session {
                am_choking: true,
                am_interested: false,
                peer_choking: true,
                peer_interested: false,
            },
        })
    }

    fn request_at(&self, offset: usize) -> (m: PeerMessage)
        requires
            self.wf(),
            offset < self.size,
        ensures
            is_request(m, self.index as int, self.size as int, offset as int),
    {
        let left = self.size - offset;
        let length = if left < BLOCK as usize {
            left as u32
        } else {
            BLOCK
        };
        PeerMessage::Request { index: self.index, begin: offset as u32, length }
    }

    /// Takes one message from the peer and says what to do next.
    pub fn handle(&mut self, msg: PeerMessage) -> (a: Action)
        requires
            old(self).wf(),
        ensures
            final(self).wf(),
            final(self).index == old(self).index,
            final(self).size == old(self).size,
            final(self).hash == old(self).hash,
            final(self).state() == step(
                old(self).index as int,
                old(self).size as int,
                old(self).hash@,
                old(self).state(),
                event_of(msg),
            ),
            action_fits(
                a,
                old(self).index as int,
                old(self).size as int,
                old(self).state(),
                final(self).state(),
                event_of(msg),
            ),
            final(self).session == session_after(
                old(self).session,
                msg,
                a matches Action::Send(PeerMessage::Interested),
            ),
    {
        match msg {
            PeerMessage::Choke => {
                self.session.peer_choking = true;
            },
            PeerMessage::Unchoke => {
                self.session.peer_choking = false;
            },
            PeerMessage::Interested => {
                self.session.peer_interested = true;
            },
            PeerMessage::NotInterested => {
                self.session.peer_interested = false;
            },
            _ => {},
        }
        match self.phase {
            Phase::AwaitingBitfield => {
                match msg {
                    PeerMessage::Bitfield(bf) => {
                        self.bitfield = bf;
                        self.phase = Phase::AwaitingUnchoke;
                        self.session.am_interested = true;
                        Action::Send(PeerMessage::Interested)
                    },
                    _ => Action::Wait,
                }
            },
            Phase::AwaitingUnchoke => {
                match msg {
                    PeerMessage::Unchoke => {
                        self.phase = Phase::Downloading;
                        Action::Send(self.request_at(0))
                    },
                    _ => Action::Wait,
                }
            },
            Phase::Downloading => {
                match msg {
                    PeerMessage::Piece { index, begin, block } => {
                        let offset = self.buffer.len();
                        if index != self.index || begin as usize != offset {
                            return Action::Wait;
                        }
                        let left = self.size - offset;
                        let expected = if left < BLOCK as usize {
                            left
                        } else {
                            BLOCK as usize
                        };
                        if block.len() != expected {
                            self.phase = Phase::Failed;
                            return Action::Abort(PieceError::BadBlock);
                        }
                        push_all(&mut self.buffer, block.as_slice());
                        if self.buffer.len() < self.size {
                            let next = self.buffer.len();
                            Action::Send(self.request_at(next))
                        } else {
                            let digest = sha1_digest(self.buffer.as_slice());
                            if bytes_eq(digest.as_slice(), self.hash.as_slice()) {
                                self.phase = Phase::Done;
                                Action::Finished(copy_bytes(self.buffer.as_slice()))
                            } else {
                                self.phase = Phase::Failed;
                                Action::Abort(PieceError::DigestMismatch)
                            }
                        }
                    },
                    _ => Action::Wait,
                }
            },
            _ => Action::Wait,
        }
    }

    /// The peer closed the connection.
    pub fn closed(&mut self) -> (e: PieceError)
        requires
            old(self).wf(),
        ensures
            final(self).wf(),
            e == PieceError::PeerClosed,
            final(self).phase == Phase::Failed,
            final(self).buffer == old(self).buffer,
            final(self).session == old(self).session,
    {
        self.phase = Phase::Failed;
        PieceError::PeerClosed
    }
}


/// What a peer that serves `piece` faithfully sends for the request at
/// `offset`: exactly the requested bytes.
pub open spec fn honest_reply(index: int, size: int, piece: Seq<u8>, offset: int) -> Event {
    Event::Block {
        index,
        begin: offset,
        data: piece.subrange(offset, offset + block_len(size, offset)),
    }
}

/// Runs the download against a faithful peer until it leaves `Downloading`.
pub open spec fn run_honest(
    index: int,
    size: int,
    hash: Seq<u8>,
    piece: Seq<u8>,
    s: DownloadState,
) -> DownloadState
    decreases size - s.buffer.len(),
{
    if s.phase == Phase::Downloading && s.buffer.len() < size && size == piece.len() {
        run_honest(
            index,
            size,
            hash,
            piece,
            step(index, size, hash, s, honest_reply(index, size, piece, s.buffer.len() as int)),
        )
    } else {
        s
    }
}

/// Against a peer that answers each request with the requested bytes of
/// the piece, the download assembles exactly the piece, and ends `Done`
/// when the piece has the recorded digest and `Failed` when it has not.
pub proof fn lemma_honest_peer(index: int, size: int, hash: Seq<u8>, piece: Seq<u8>, s: DownloadState)
    requires
        piece.len() == size,
        s.phase == Phase::Downloading,
        s.buffer.len() < size,
        s.buffer == piece.take(s.buffer.len() as int),
    ensures
        run_honest(index, size, hash, piece, s).buffer == piece,
        run_honest(index, size, hash, piece, s).phase == (if sha1_of(piece) == hash {
            Phase::Done
        } else {
            Phase::Failed
        }),
    decreases size - s.buffer.len(),
{
    let off = s.buffer.len() as int;
    let e = honest_reply(index, size, piece, off);
    let t = step(index, size, hash, s, e);
    let bl = block_len(size, off);
    assert(s.buffer + piece.subrange(off, off + bl) =~= piece.take(off + bl));
    if off + bl < size {
        lemma_honest_peer(index, size, hash, piece, t);
    } else {
        assert(piece.take(off + bl) =~= piece);
    }
}


/// For piece `index` of a valid torrent whose recorded digests are those of
/// file `f`, a peer that answers every request with the requested bytes of
/// `f` makes the download end `Done` holding exactly that piece of `f`.
pub proof fn lemma_honest_file(info: &Info, index: int, f: Seq<u8>)
    requires
        info.wf(),
        0 <= index < info.piece_count_spec(),
        f.len() == info.length,
        info.piece_hash_spec(index) == sha1_of(
            f.subrange(index * info.plen, index * info.plen + info.piece_size_spec(index)),
        ),
    ensures
        ({
            let size = info.piece_size_spec(index);
            let start = index * info.plen;
            let piece = f.subrange(start, start + size);
            let s = DownloadState { phase: Phase::Downloading, buffer: Seq::empty() };
            let end = run_honest(index, size, info.piece_hash_spec(index), piece, s);
            &&& 0 < size <= info.plen
            &&& start + size <= f.len()
            &&& end.phase == Phase::Done
            &&& end.buffer == piece
        }),
{
    lemma_piece_bounds(info);
    let c = info.piece_count_spec();
    let p = info.plen as int;
    let size = info.piece_size_spec(index);
    let start = index * p;
    assert((c - 1) * p == c * p - p) by (nonlinear_arith);
    if index == c - 1 {
        assert(start + size == info.length);
        assert(0 < size <= p);
    } else {
        assert(start + p <= (c - 1) * p) by (nonlinear_arith)
            requires
                index + 1 <= c - 1,
                start == index * p,
                p > 0,
        ;
    }
    assert(start >= 0) by (nonlinear_arith)
        requires
            start == index * p,
            index >= 0,
            p > 0,
    ;
    let piece = f.subrange(start, start + size);
    let s = DownloadState { phase: Phase::Downloading, buffer: Seq::empty() };
    assert(piece.take(0) =~= s.buffer);
    lemma_honest_peer(index, size, info.piece_hash_spec(index), piece, s);
}

} // verus!
