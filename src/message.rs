//! Peer wire messages: length-prefixed frames with a one-byte id.

use vstd::prelude::*;
use crate::bencode::push_all;

verus! {

/// The largest payload a frame may announce.
pub const MAX_FRAME: u32 = 1048576;

/// A message of the peer wire protocol.
#[derive(Debug, PartialEq, Eq)]
pub enum PeerMessage {
    Choke,
    Unchoke,
    Interested,
    NotInterested,
    Have(u32),
    Bitfield(Vec<u8>),
    Request { index: u32, begin: u32, length: u32 },
    Piece { index: u32, begin: u32, block: Vec<u8> },
    Cancel { index: u32, begin: u32, length: u32 },
    KeepAlive,
}

/// Why a frame cannot be decoded.
#[derive(Debug, Clone, Copy, PartialEq, Eq, Structural)]
pub enum ProtocolError {
    /// The id byte names no message.
    BadId,
    /// The stream ended inside a frame.
    UnexpectedEOF,
    /// The announced length is over `MAX_FRAME`.
    FrameTooLarge,
    /// The announced length does not fit the message id.
    BadLength,
}

/// Big-endian bytes of a `u32`.
pub open spec fn be32(n: u32) -> Seq<u8> {
    seq![((n >> 24u32) & 0xff) as u8, ((n >> 16u32) & 0xff) as u8, ((n >> 8u32) & 0xff) as u8, (n & 0xff) as u8]
}

/// The `u32` whose big-endian bytes are `s[0..4]`.
pub open spec fn be32_value(s: Seq<u8>) -> u32 {
    ((s[0] as u32) << 24u32) | ((s[1] as u32) << 16u32) | ((s[2] as u32) << 8u32) | (s[3] as u32)
}

proof fn lemma_be32(n: u32)
    ensures
        be32_value(be32(n)) == n,
{
    assert((((((n >> 24u32) & 0xff) as u8) as u32) << 24u32) | (((((n >> 16u32) & 0xff) as u8) as u32) << 16u32)
        | (((((n >> 8u32) & 0xff) as u8) as u32) << 8u32) | (((n & 0xff) as u8) as u32) == n) by (bit_vector);
}

/// The id byte and body of a message; empty for a keep-alive.
pub open spec fn payload(m: PeerMessage) -> Seq<u8> {
    match m {
        PeerMessage::KeepAlive => Seq::empty(),
        PeerMessage::Choke => seq![0u8],
        PeerMessage::Unchoke => seq![1u8],
        PeerMessage::Interested => seq![2u8],
        PeerMessage::NotInterested => seq![3u8],
        PeerMessage::Have(p) => seq![4u8] + be32(p),
        PeerMessage::Bitfield(bf) => seq![5u8] + bf@,
        PeerMessage::Request { index, begin, length } => seq![6u8] + be32(index) + be32(begin)
            + be32(length),
        PeerMessage::Piece { index, begin, block } => seq![7u8] + be32(index) + be32(begin)
            + block@,
        PeerMessage::Cancel { index, begin, length } => seq![8u8] + be32(index) + be32(begin)
            + be32(length),
    }
}

/// The whole frame: the payload's length, big-endian, then the payload.
pub open spec fn frame(m: PeerMessage) -> Seq<u8> {
    be32(payload(m).len() as u32) + payload(m)
}

/// The payload fits in a frame.
pub open spec fn within_bounds(m: PeerMessage) -> bool {
    payload(m).len() <= MAX_FRAME
}

/// Two messages of the same variant with the same fields.
pub open spec fn same_message(a: PeerMessage, b: PeerMessage) -> bool {
    match (a, b) {
        (PeerMessage::KeepAlive, PeerMessage::KeepAlive) => true,
        (PeerMessage::Choke, PeerMessage::Choke) => true,
        (PeerMessage::Unchoke, PeerMessage::Unchoke) => true,
        (PeerMessage::Interested, PeerMessage::Interested) => true,
        (PeerMessage::NotInterested, PeerMessage::NotInterested) => true,
        (PeerMessage::Have(x), PeerMessage::Have(y)) => x == y,
        (PeerMessage::Bitfield(x), PeerMessage::Bitfield(y)) => x@ == y@,
        (
            PeerMessage::Request { index: i1, begin: b1, length: l1 },
            PeerMessage::Request { index: i2, begin: b2, length: l2 },
        ) => i1 == i2 && b1 == b2 && l1 == l2,
        (
            PeerMessage::Piece { index: i1, begin: b1, block: k1 },
            PeerMessage::Piece { index: i2, begin: b2, block: k2 },
        ) => i1 == i2 && b1 == b2 && k1@ == k2@,
        (
            PeerMessage::Cancel { index: i1, begin: b1, length: l1 },
            PeerMessage::Cancel { index: i2, begin: b2, length: l2 },
        ) => i1 == i2 && b1 == b2 && l1 == l2,
        _ => false,
    }
}

/// The payload lengths that each message id allows.
pub open spec fn length_fits_id(id: u8, n: int) -> bool {
    if id <= 3 {
        n == 1
    } else if id == 4 {
        n == 5
    } else if id == 5 {
        n >= 1
    } else if id == 6 || id == 8 {
        n == 13
    } else if id == 7 {
        n >= 9
    } else {
        false
    }
}

/// What the front of a receive buffer holds: `Ok(None)` when more bytes are
/// needed, `Ok(Some(n))` when a whole valid frame of `n` bytes is there, or
/// the error that its header or id shows.
pub open spec fn frame_outcome(buf: Seq<u8>) -> Result<Option<int>, ProtocolError> {
    if buf.len() < 4 {
        Ok(None)
    } else {
        let n = be32_value(buf) as int;
        if n == 0 {
            Ok(Some(4))
        } else if n > MAX_FRAME {
            Err(ProtocolError::FrameTooLarge)
        } else if buf.len() < 4 + n {
            Ok(None)
        } else if buf[4] > 8 {
            Err(ProtocolError::BadId)
        } else if !length_fits_id(buf[4], n) {
            Err(ProtocolError::BadLength)
        } else {
            Ok(Some(4 + n))
        }
    }
}

/// What `parse_frame` promises for a buffer.
pub open spec fn parse_post(buf: Seq<u8>, r: Result<Option<(PeerMessage, usize)>, ProtocolError>) -> bool {
    match r {
        Ok(Some((m, n))) => frame_outcome(buf) == Ok::<Option<int>, ProtocolError>(Some(n as int))
            && frame(m) == buf.take(n as int),
        Ok(None) => frame_outcome(buf) == Ok::<Option<int>, ProtocolError>(None),
        Err(e) => frame_outcome(buf) == Err::<Option<int>, ProtocolError>(e),
    }
}

fn push_be32(out: &mut Vec<u8>, n: u32)
    ensures
        final(out)@ == old(out)@ + be32(n),
{
    out.push(((n >> 24u32) & 0xff) as u8);
    out.push(((n >> 16u32) & 0xff) as u8);
    out.push(((n >> 8u32) & 0xff) as u8);
    out.push((n & 0xff) as u8);
    proof {
        assert(final(out)@ =~= old(out)@ + be32(n));
    }
}

fn read_be32(b: &[u8], at: usize) -> (r: u32)
    requires
        at + 4 <= b@.len(),
    ensures
        r == be32_value(b@.subrange(at as int, at + 4)),
{
    ((b[at] as u32) << 24u32) | ((b[at + 1] as u32) << 16u32) | ((b[at + 2] as u32) << 8u32) | (b[at + 3] as u32)
}

proof fn lemma_be32_inv(s: Seq<u8>)
    requires
        s.len() >= 4,
    ensures
        be32(be32_value(s)) == s.take(4),
{
    let b0 = s[0];
    let b1 = s[1];
    let b2 = s[2];
    let b3 = s[3];
    let v = be32_value(s);
    assert(v == ((b0 as u32) << 24u32) | ((b1 as u32) << 16u32) | ((b2 as u32) << 8u32) | (b3 as u32));
    assert(((v >> 24u32) & 0xff) as u8 == b0 && ((v >> 16u32) & 0xff) as u8 == b1 && ((v >> 8u32)
        & 0xff) as u8 == b2 && (v & 0xff) as u8 == b3) by (bit_vector)
        requires
            v == ((b0 as u32) << 24u32) | ((b1 as u32) << 16u32) | ((b2 as u32) << 8u32) | (b3 as u32),
    ;
    assert(be32(v) =~= s.take(4));
}

proof fn lemma_be32_at(buf: Seq<u8>, at: int)
    requires
        0 <= at,
        at + 4 <= buf.len(),
    ensures
        be32(be32_value(buf.subrange(at, at + 4))) == buf.subrange(at, at + 4),
{
    lemma_be32_inv(buf.subrange(at, at + 4));
    assert(buf.subrange(at, at + 4).take(4) =~= buf.subrange(at, at + 4));
}

/// Decodes the frame at the front of `buf`, if a whole one is there, and
/// returns the message with the number of bytes the frame takes.
pub fn parse_frame(buf: &[u8]) -> (r: Result<Option<(PeerMessage, usize)>, ProtocolError>)
    ensures
        parse_post(buf@, r),
{
    let len = buf.len();
    if len < 4 {
        return Ok(None);
    }
    let n = read_be32(buf, 0);
    proof {
        assert(buf@.subrange(0, 4)[0] == buf@[0] && buf@.subrange(0, 4)[1] == buf@[1]
            && buf@.subrange(0, 4)[2] == buf@[2] && buf@.subrange(0, 4)[3] == buf@[3]);
        assert(n == be32_value(buf@));
        lemma_be32_at(buf@, 0);
        assert(buf@.subrange(0, 4) =~= buf@.take(4));
    }
    if n == 0 {
        proof {
            assert(frame(PeerMessage::KeepAlive) =~= buf@.take(4));
        }
        return Ok(Some((PeerMessage::KeepAlive, 4)));
    }
    if n > MAX_FRAME {
        return Err(ProtocolError::FrameTooLarge);
    }
    if len - 4 < n as usize {
        return Ok(None);
    }
    let end: usize = 4 + n as usize;
    let id = buf[4];
    if id > 8 {
        return Err(ProtocolError::BadId);
    }
    let fits = if id <= 3 {
        n == 1
    } else if id == 4 {
        n == 5
    } else if id == 5 {
        n >= 1
    } else if id == 6 || id == 8 {
        n == 13
    } else {
        n >= 9
    };
    if !fits {
        return Err(ProtocolError::BadLength);
    }
    let ghost head = buf@.take(4);
    let m = if id == 0 {
        PeerMessage::Choke
    } else if id == 1 {
        PeerMessage::Unchoke
    } else if id == 2 {
        PeerMessage::Interested
    } else if id == 3 {
        PeerMessage::NotInterested
    } else if id == 4 {
        let piece = read_be32(buf, 5);
        proof {
            lemma_be32_at(buf@, 5);
        }
        PeerMessage::Have(piece)
    } else if id == 5 {
        let mut bitfield: Vec<u8> = Vec::new();
        push_all(&mut bitfield, &buf[5..end]);
        PeerMessage::Bitfield(bitfield)
    } else if id == 7 {
        let index = read_be32(buf, 5);
        let begin = read_be32(buf, 9);
        proof {
            lemma_be32_at(buf@, 5);
            lemma_be32_at(buf@, 9);
        }
        let mut block: Vec<u8> = Vec::new();
        push_all(&mut block, &buf[13..end]);
        PeerMessage::Piece { index, begin, block }
    } else {
        let index = read_be32(buf, 5);
        let begin = read_be32(buf, 9);
        let length = read_be32(buf, 13);
        proof {
            lemma_be32_at(buf@, 5);
            lemma_be32_at(buf@, 9);
            lemma_be32_at(buf@, 13);
        }
        if id == 6 {
            PeerMessage::Request { index, begin, length }
        } else {
            PeerMessage::Cancel { index, begin, length }
        }
    };
    proof {
        assert(payload(m).len() == n);
        assert(be32(payload(m).len() as u32) == head);
        assert(frame(m) =~= buf@.take(end as int));
    }
    Ok(Some((m, end)))
}

/// Encoder and decoder of peer-message frames. It keeps no state: partial
/// frames stay in the caller's buffer.
pub struct PeerMessageCodec;

impl PeerMessageCodec {
    /// Appends the frame of `item` to `buf`; a payload over `MAX_FRAME`
    /// bytes is refused and `buf` left as it was.
    pub fn encode(&mut self, item: PeerMessage, buf: &mut Vec<u8>) -> (r: Result<(), ProtocolError>)
        ensures
            within_bounds(item) ==> r is Ok && final(buf)@ == old(buf)@ + frame(item),
            !within_bounds(item) ==> r == Err::<(), ProtocolError>(ProtocolError::FrameTooLarge)
                && final(buf)@ == old(buf)@,
    {
        let ghost start = buf@;
        match item {
            PeerMessage::KeepAlive => {
                push_be32(buf, 0);
            },
            PeerMessage::Choke => {
                push_be32(buf, 1);
                buf.push(0u8);
            },
            PeerMessage::Unchoke => {
                push_be32(buf, 1);
                buf.push(1u8);
            },
            PeerMessage::Interested => {
                push_be32(buf, 1);
                buf.push(2u8);
            },
            PeerMessage::NotInterested => {
                push_be32(buf, 1);
                buf.push(3u8);
            },
            PeerMessage::Have(piece) => {
                push_be32(buf, 5);
                buf.push(4u8);
                push_be32(buf, piece);
            },
            PeerMessage::Bitfield(bitfield) => {
                if bitfield.len() >= MAX_FRAME as usize {
                    return Err(ProtocolError::FrameTooLarge);
                }
                push_be32(buf, 1 + bitfield.len() as u32);
                buf.push(5u8);
                push_all(buf, bitfield.as_slice());
            },
            PeerMessage::Request { index, begin, length } => {
                push_be32(buf, 13);
                buf.push(6u8);
                push_be32(buf, index);
                push_be32(buf, begin);
                push_be32(buf, length);
            },
            PeerMessage::Piece { index, begin, block } => {
                if block.len() > (MAX_FRAME - 9) as usize {
                    return Err(ProtocolError::FrameTooLarge);
                }
                push_be32(buf, 9 + block.len() as u32);
                buf.push(7u8);
                push_be32(buf, index);
                push_be32(buf, begin);
                push_all(buf, block.as_slice());
            },
            PeerMessage::Cancel { index, begin, length } => {
                push_be32(buf, 13);
                buf.push(8u8);
                push_be32(buf, index);
                push_be32(buf, begin);
                push_be32(buf, length);
            },
        }
        proof {
            assert(buf@ =~= start + frame(item));
        }
        Ok(())
    }

    /// Takes the next whole frame off the front of `buf`. With too few bytes
    /// for a frame it returns `Ok(None)`; then, and on an error, `buf` is
    /// left as it was.
    pub fn decode(&mut self, buf: &mut Vec<u8>) -> (r: Result<Option<PeerMessage>, ProtocolError>)
        ensures
            match r {
                Ok(Some(m)) => frame_outcome(old(buf)@) matches Ok(Some(n)) && frame(m) == old(
                    buf,
                )@.take(n) && final(buf)@ == old(buf)@.skip(n),
                Ok(None) => frame_outcome(old(buf)@) == Ok::<Option<int>, ProtocolError>(None)
                    && final(buf)@ == old(buf)@,
                Err(e) => frame_outcome(old(buf)@) == Err::<Option<int>, ProtocolError>(e)
                    && final(buf)@ == old(buf)@,
            },
    {
        match parse_frame(buf.as_slice()) {
            Ok(Some((m, n))) => {
                let mut rest: Vec<u8> = Vec::new();
                push_all(&mut rest, &buf.as_slice()[n..buf.len()]);
                proof {
                    assert(rest@ =~= buf@.skip(n as int));
                }
                *buf = rest;
                Ok(Some(m))
            },
            Ok(None) => Ok(None),
            Err(e) => Err(e),
        }
    }

    /// As `decode`, once the stream has ended: bytes left over that do not
    /// make a whole frame are `UnexpectedEOF`.
    pub fn decode_eof(&mut self, buf: &mut Vec<u8>) -> (r: Result<Option<PeerMessage>, ProtocolError>)
        ensures
            match r {
                Ok(Some(m)) => frame_outcome(old(buf)@) matches Ok(Some(n)) && frame(m) == old(
                    buf,
                )@.take(n) && final(buf)@ == old(buf)@.skip(n),
                Ok(None) => frame_outcome(old(buf)@) == Ok::<Option<int>, ProtocolError>(None)
                    && old(buf)@.len() == 0 && final(buf)@ == old(buf)@,
                Err(e) => final(buf)@ == old(buf)@ && (frame_outcome(old(buf)@) == Err::<
                    Option<int>,
                    ProtocolError,
                >(e) || (frame_outcome(old(buf)@) == Ok::<Option<int>, ProtocolError>(None)
                    && old(buf)@.len() > 0 && e == ProtocolError::UnexpectedEOF)),
            },
    {
        match self.decode(buf) {
            Ok(None) => {
                if buf.len() > 0 {
                    Err(ProtocolError::UnexpectedEOF)
                } else {
                    Ok(None)
                }
            },
            other => other,
        }
    }

    /// Takes every whole frame off the front of `buf`, in order, until too
    /// few bytes are left for the next one or it is an error; the error, if
    /// any, comes back beside the messages taken before it.
    pub fn decode_all(&mut self, buf: &mut Vec<u8>) -> (r: (Vec<PeerMessage>, Option<ProtocolError>))
        ensures
            frames_of(r.0@) == drain(old(buf)@).0,
            final(buf)@ == drain(old(buf)@).1,
            r.1 is Some == drain(old(buf)@).2,
            r.1 matches Some(e) ==> frame_outcome(final(buf)@) == Err::<Option<int>, ProtocolError>(e),
    {
        let ghost start = buf@;
        let mut msgs: Vec<PeerMessage> = Vec::new();
        proof {
            assert(frames_of(msgs@) + drain(buf@).0 =~= drain(buf@).0);
        }
        loop
            invariant
                start == old(buf)@,
                drain(start).0 == frames_of(msgs@) + drain(buf@).0,
                drain(start).1 == drain(buf@).1,
                drain(start).2 == drain(buf@).2,
            decreases buf@.len(),
        {
            let ghost before = buf@;
            match self.decode(buf) {
                Ok(Some(m)) => {
                    proof {
                        let n = frame_outcome(before)->Ok_0->Some_0;
                        assert(0 < n <= before.len());
                        assert(frames_of(msgs@.push(m)) =~= frames_of(msgs@) + seq![frame(m)]);
                        assert(frames_of(msgs@) + drain(before).0 =~= frames_of(msgs@.push(m))
                            + drain(buf@).0);
                    }
                    msgs.push(m);
                },
                Ok(None) => {
                    proof {
                        assert(drain(buf@) == (Seq::<Seq<u8>>::empty(), buf@, false));
                        assert(frames_of(msgs@) + drain(buf@).0 =~= frames_of(msgs@));
                    }
                    return (msgs, None);
                },
                Err(e) => {
                    proof {
                        assert(drain(buf@) == (Seq::<Seq<u8>>::empty(), buf@, true));
                        assert(frame_outcome(buf@) == Err::<Option<int>, ProtocolError>(e));
                        assert(frames_of(msgs@) + drain(buf@).0 =~= frames_of(msgs@));
                    }
                    return (msgs, Some(e));
                },
            }
        }
    }
}

/// Round trip: the frame of any message within bounds, followed by any
/// bytes, decodes as one whole frame of exactly its own length, and a
/// message with that frame is the same message.
pub proof fn lemma_frame_round_trip(m: PeerMessage, rest: Seq<u8>)
    requires
        within_bounds(m),
    ensures
        frame_outcome(frame(m) + rest) == Ok::<Option<int>, ProtocolError>(Some(frame(m).len() as int)),
        (frame(m) + rest).take(frame(m).len() as int) == frame(m),
        forall|m2: PeerMessage| #[trigger] frame(m2) == frame(m) ==> same_message(m2, m),
{
    let buf = frame(m) + rest;
    let p = payload(m);
    lemma_be32(p.len() as u32);
    assert(buf.take(frame(m).len() as int) =~= frame(m));
    assert(be32_value(buf) == be32_value(be32(p.len() as u32)));
    if p.len() > 0 {
        assert(buf[4] == p[0]);
    }
    assert forall|m2: PeerMessage| #[trigger] frame(m2) == frame(m) implies same_message(m2, m) by {
        let p2 = payload(m2);
        lemma_be32(p2.len() as u32);
        assert(be32_value(frame(m2)) == be32_value(be32(p2.len() as u32)));
        assert(be32_value(frame(m)) == be32_value(be32(p.len() as u32)));
        assert(p2 =~= frame(m2).skip(4));
        assert(p =~= frame(m).skip(4));
        if p.len() > 0 {
            assert(p2[0] == p[0]);
        }
        match (m2, m) {
            (PeerMessage::Have(x), PeerMessage::Have(y)) => {
                assert(be32(x) =~= p.subrange(1, 5));
                assert(be32(y) =~= p.subrange(1, 5));
                lemma_be32(x);
                lemma_be32(y);
            },
            (PeerMessage::Bitfield(x), PeerMessage::Bitfield(y)) => {
                assert(x@ =~= p.skip(1));
                assert(y@ =~= p.skip(1));
            },
            (
                PeerMessage::Request { index: i1, begin: b1, length: l1 },
                PeerMessage::Request { index: i2, begin: b2, length: l2 },
            ) => {
                assert(be32(i1) =~= p.subrange(1, 5));
                assert(be32(i2) =~= p.subrange(1, 5));
                assert(be32(b1) =~= p.subrange(5, 9));
                assert(be32(b2) =~= p.subrange(5, 9));
                assert(be32(l1) =~= p.subrange(9, 13));
                assert(be32(l2) =~= p.subrange(9, 13));
                lemma_be32(i1);
                lemma_be32(i2);
                lemma_be32(b1);
                lemma_be32(b2);
                lemma_be32(l1);
                lemma_be32(l2);
            },
            (
                PeerMessage::Cancel { index: i1, begin: b1, length: l1 },
                PeerMessage::Cancel { index: i2, begin: b2, length: l2 },
            ) => {
                assert(be32(i1) =~= p.subrange(1, 5));
                assert(be32(i2) =~= p.subrange(1, 5));
                assert(be32(b1) =~= p.subrange(5, 9));
                assert(be32(b2) =~= p.subrange(5, 9));
                assert(be32(l1) =~= p.subrange(9, 13));
                assert(be32(l2) =~= p.subrange(9, 13));
                lemma_be32(i1);
                lemma_be32(i2);
                lemma_be32(b1);
                lemma_be32(b2);
                lemma_be32(l1);
                lemma_be32(l2);
            },
            (
                PeerMessage::Piece { index: i1, begin: b1, block: k1 },
                PeerMessage::Piece { index: i2, begin: b2, block: k2 },
            ) => {
                assert(be32(i1) =~= p.subrange(1, 5));
                assert(be32(i2) =~= p.subrange(1, 5));
                assert(be32(b1) =~= p.subrange(5, 9));
                assert(be32(b2) =~= p.subrange(5, 9));
                assert(k1@ =~= p.skip(9));
                assert(k2@ =~= p.skip(9));
                lemma_be32(i1);
                lemma_be32(i2);
                lemma_be32(b1);
                lemma_be32(b2);
            },
            _ => {},
        }
    }
}

/// Fragmentation: what a prefix of a stream shows is either "need more" or
/// exactly what the whole stream shows, with the same frame bytes. So a
/// stream read in chunks of any size decodes to the same messages.
pub proof fn lemma_prefix_outcome(s: Seq<u8>, p: Seq<u8>)
    requires
        p.len() <= s.len(),
        p == s.take(p.len() as int),
    ensures
        frame_outcome(p) == Ok::<Option<int>, ProtocolError>(None) || frame_outcome(p)
            == frame_outcome(s),
        frame_outcome(p) matches Ok(Some(n)) ==> p.take(n) == s.take(n),
{
    if p.len() >= 4 {
        assert(p[0] == s[0] && p[1] == s[1] && p[2] == s[2] && p[3] == s[3]);
        assert(be32_value(p) == be32_value(s));
        if p.len() > 4 {
            assert(p[4] == s[4]);
        }
        if let Ok(Some(n)) = frame_outcome(p) {
            assert(p.take(n) =~= s.take(n));
        }
    }
}


/// The frames of a sequence of messages.
pub open spec fn frames_of(ms: Seq<PeerMessage>) -> Seq<Seq<u8>> {
    ms.map_values(|m: PeerMessage| frame(m))
}

/// Takes whole frames off the front of a buffer while there are any: the
/// frames taken, what is left, and whether it stopped on an error.
pub open spec fn drain(buf: Seq<u8>) -> (Seq<Seq<u8>>, Seq<u8>, bool)
    decreases buf.len(),
{
    match frame_outcome(buf) {
        Ok(Some(n)) => if 0 < n <= buf.len() {
            let (f, r, e) = drain(buf.skip(n));
            (seq![buf.take(n)] + f, r, e)
        } else {
            (Seq::empty(), buf, false)
        },
        Ok(None) => (Seq::empty(), buf, false),
        Err(_) => (Seq::empty(), buf, true),
    }
}

/// Chunking: draining `a`, then draining what was left followed by `b`,
/// takes the same frames, leaves the same bytes and meets the same error as
/// draining `a ++ b` at once. By induction, a stream read in chunks of any
/// sizes decodes to the same sequence of frames.
pub proof fn lemma_drain_chunks(a: Seq<u8>, b: Seq<u8>)
    ensures
        !drain(a).2 ==> drain(a + b) == (
            drain(a).0 + drain(drain(a).1 + b).0,
            drain(drain(a).1 + b).1,
            drain(drain(a).1 + b).2,
        ),
        drain(a).2 ==> drain(a + b).2 && drain(a + b).0 == drain(a).0,
    decreases a.len(),
{
    let s = a + b;
    assert(s.take(a.len() as int) =~= a);
    lemma_prefix_outcome(s, a);
    match frame_outcome(a) {
        Ok(Some(n)) => {
            if 0 < n <= a.len() {
                assert(s.skip(n) =~= a.skip(n) + b);
                lemma_drain_chunks(a.skip(n), b);
                assert(s.take(n) == a.take(n));
                let (f, r, e) = drain(a.skip(n));
                if !e {
                    assert(seq![a.take(n)] + f + drain(r + b).0 =~= seq![a.take(n)] + (f + drain(
                        r + b,
                    ).0));
                }
            }
        },
        Ok(None) => {
            assert(Seq::<Seq<u8>>::empty() + drain(a + b).0 =~= drain(a + b).0);
        },
        Err(_) => {},
    }
}

} // verus!
