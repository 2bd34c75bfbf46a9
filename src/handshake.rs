//! The fixed 68-byte handshake that opens a peer session.

use vstd::prelude::*;
use vstd::string::StringSliceAdditionalSpecFns;
use crate::bencode::{bytes_eq, push_all};

verus! {

/// Bytes in a handshake.
pub const HANDSHAKE_LEN: usize = 68;

/// `BitTorrent protocol`
pub open spec fn protocol_name() -> Seq<u8> {
    seq![66u8, 105, 116, 84, 111, 114, 114, 101, 110, 116, 32, 112, 114, 111, 116, 111, 99, 111, 108]
}

/// Why a handshake is refused.
#[derive(Debug, Clone, Copy, PartialEq, Eq, Structural)]
pub enum HandshakeError {
    /// The reply does not start with the protocol's length byte and name.
    BadProtocol,
    /// The peer answered for another torrent.
    InfoHashMismatch,
}

/// A handshake frame, split into its fields.
#[derive(Debug)]
pub struct Handshake {
    pub protocol: [u8; 19],
    pub reserved: [u8; 8],
    pub info_hash: [u8; 20],
    pub peer_id: [u8; 20],
}

/// The bytes of `b` as an array of its length.
fn array_of<const N: usize>(b: &[u8]) -> (r: [u8; N])
    requires
        b@.len() == N,
    ensures
        r@ == b@,
{
    let mut a = [0u8; N];
    let mut i: usize = 0;
    while i < N
        invariant
            i <= N,
            b@.len() == N,
            a@.len() == N,
            forall|j: int| 0 <= j < i ==> a@[j] == b@[j],
        decreases N - i,
    {
        a[i] = b[i];
        i = i + 1;
    }
    proof {
        assert(a@ =~= b@);
    }
    a
}

/// A well-formed reply: length byte 19, then the protocol name.
pub open spec fn valid_protocol(b: Seq<u8>) -> bool {
    b[0] == 19 && b.subrange(1, 20) == protocol_name()
}

impl Handshake {
    /// The frame: length byte, protocol name, reserved bytes, info hash,
    /// peer id.
    pub open spec fn frame(&self) -> Seq<u8> {
        seq![19u8] + self.protocol@ + self.reserved@ + self.info_hash@ + self.peer_id@
    }

    /// Our handshake for the torrent with info hash `ih`, as peer `peer_id`.
    pub fn new(ih: Vec<u8>, peer_id: &str) -> (r: Self)
        requires
            ih@.len() == 20,
            peer_id.spec_bytes().len() == 20,
        ensures
            r.protocol@ == protocol_name(),
            r.reserved@ == Seq::new(8, |i: int| 0u8),
            r.info_hash@ == ih@,
            r.peer_id@ == peer_id.spec_bytes(),
    {
        let name: Vec<u8> = vec![
            66u8, 105, 116, 84, 111, 114, 114, 101, 110, 116, 32, 112, 114, 111, 116, 111, 99,
            111, 108,
        ];
        let zeros: Vec<u8> = vec![0u8, 0, 0, 0, 0, 0, 0, 0];
        proof {
            assert(name@ =~= protocol_name());
            assert(zeros@ =~= Seq::new(8, |i: int| 0u8));
        }
        Self {
            protocol: array_of(name.as_slice()),
            reserved: array_of(zeros.as_slice()),
            info_hash: array_of(ih.as_slice()),
            peer_id: array_of(peer_id.as_bytes()),
        }
    }

    /// The 68 bytes to send.
    pub fn to_bytes(&self) -> (r: Vec<u8>)
        ensures
            r@ == self.frame(),
            r@.len() == HANDSHAKE_LEN,
    {
        let mut buf: Vec<u8> = Vec::new();
        buf.push(19u8);
        push_all(&mut buf, self.protocol.as_slice());
        push_all(&mut buf, self.reserved.as_slice());
        push_all(&mut buf, self.info_hash.as_slice());
        push_all(&mut buf, self.peer_id.as_slice());
        proof {
            assert(buf@ =~= self.frame());
        }
        buf
    }

    /// Reads a handshake from the 68 bytes a peer sent.
    pub fn from_bytes(b: &[u8]) -> (r: Result<Handshake, HandshakeError>)
        requires
            b@.len() == HANDSHAKE_LEN,
        ensures
            valid_protocol(b@) <==> r is Ok,
            r is Err ==> r == Err::<Handshake, HandshakeError>(HandshakeError::BadProtocol),
            r matches Ok(h) ==> h.frame() == b@,
    {
        let name: Vec<u8> = vec![
            66u8, 105, 116, 84, 111, 114, 114, 101, 110, 116, 32, 112, 114, 111, 116, 111, 99,
            111, 108,
        ];
        proof {
            assert(name@ =~= protocol_name());
        }
        if b[0] != 19 || !bytes_eq(&b[1..20], name.as_slice()) {
            return Err(HandshakeError::BadProtocol);
        }
        let h = Handshake {
            protocol: array_of(&b[1..20]),
            reserved: array_of(&b[20..28]),
            info_hash: array_of(&b[28..48]),
            peer_id: array_of(&b[48..68]),
        };
        proof {
            assert(h.frame() =~= b@);
        }
        Ok(h)
    }

    /// Checks a peer's reply to this handshake: a valid frame for the same
    /// info hash.
    pub fn check_reply(&self, b: &[u8]) -> (r: Result<Handshake, HandshakeError>)
        requires
            b@.len() == HANDSHAKE_LEN,
        ensures
            !valid_protocol(b@) ==> r == Err::<Handshake, HandshakeError>(HandshakeError::BadProtocol),
            valid_protocol(b@) && b@.subrange(28, 48) != self.info_hash@ ==> r == Err::<
                Handshake,
                HandshakeError,
            >(HandshakeError::InfoHashMismatch),
            valid_protocol(b@) && b@.subrange(28, 48) == self.info_hash@ ==> r is Ok,
            r matches Ok(h) ==> h.frame() == b@,
    {
        let h = Handshake::from_bytes(b)?;
        if !bytes_eq(h.info_hash.as_slice(), self.info_hash.as_slice()) {
            proof {
                assert(h.info_hash@ =~= h.frame().subrange(28, 48));
            }
            return Err(HandshakeError::InfoHashMismatch);
        }
        proof {
            assert(h.info_hash@ =~= h.frame().subrange(28, 48));
        }
        Ok(h)
    }
}

} // verus!
