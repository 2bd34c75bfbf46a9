//! The tracker: the announce request, the response body, and the compact
//! peer list it carries.

use vstd::prelude::*;
use crate::bencode::{
    bytes_field, copy_bytes, decode, decode_post, dict_get, encoding, int_field, is_canonical,
    is_canonical_encoding, lemma_lookup_same, lookup, same_entries, same_value, BencodeError,
    Value,
};
use crate::text::{
    decimal_chars, form_encode, form_urlencoded, pairs_view, percent_text, push_char,
    push_decimal, urlencode,
};
use crate::torrent::{sha1_of, Torrent};

verus! {

/// `a.b.c.d:port` for six bytes of a compact peer list.
pub open spec fn peer_text(b: Seq<u8>) -> Seq<char> {
    decimal_chars(b[0] as nat) + seq!['.'] + decimal_chars(b[1] as nat) + seq!['.'] + decimal_chars(
        b[2] as nat,
    ) + seq!['.'] + decimal_chars(b[3] as nat) + seq![':'] + decimal_chars(
        (b[4] * 256 + b[5]) as nat,
    )
}

/// A peer's address.
#[derive(Debug)]
pub struct Peer {
    pub ip: String,
}

impl Peer {
    /// The peer in six bytes of a compact list: IPv4 address, then port,
    /// big-endian.
    pub fn new(ip_and_port: &[u8]) -> (r: Peer)
        requires
            ip_and_port@.len() == 6,
        ensures
            r.ip@ == peer_text(ip_and_port@),
    {
        let mut ip = String::new();
        push_decimal(&mut ip, ip_and_port[0] as u64);
        push_char(&mut ip, '.');
        push_decimal(&mut ip, ip_and_port[1] as u64);
        push_char(&mut ip, '.');
        push_decimal(&mut ip, ip_and_port[2] as u64);
        push_char(&mut ip, '.');
        push_decimal(&mut ip, ip_and_port[3] as u64);
        push_char(&mut ip, ':');
        let port: u64 = (ip_and_port[4] as u64) * 256 + ip_and_port[5] as u64;
        push_decimal(&mut ip, port);
        proof {
            assert(ip@ =~= peer_text(ip_and_port@));
        }
        Peer { ip }
    }
}

/// The key `interval`.
pub open spec fn key_interval() -> Seq<u8> {
    seq![105u8, 110, 116, 101, 114, 118, 97, 108]
}

/// The key `peers`.
pub open spec fn key_peers() -> Seq<u8> {
    seq![112u8, 101, 101, 114, 115]
}

/// The key `complete`.
pub open spec fn key_complete() -> Seq<u8> {
    seq![99u8, 111, 109, 112, 108, 101, 116, 101]
}

/// The key `incomplete`.
pub open spec fn key_incomplete() -> Seq<u8> {
    seq![105u8, 110, 99, 111, 109, 112, 108, 101, 116, 101]
}

/// The key `min interval`.
pub open spec fn key_min_interval() -> Seq<u8> {
    seq![109u8, 105, 110, 32, 105, 110, 116, 101, 114, 118, 97, 108]
}

/// Why a tracker response is refused.
#[derive(Debug, Clone, Copy, PartialEq, Eq, Structural)]
pub enum TrackerError {
    /// The HTTP status is not a success.
    HttpStatus(u16),
    /// The body is not a canonical bencoding.
    Bencode(BencodeError),
    /// `interval` or `peers` is absent.
    MissingField,
    /// A field has the wrong kind of value or is out of range.
    WrongType,
    /// The compact peer list is not a whole number of six-byte entries.
    BadPeerList,
}

/// A decoded tracker response.
#[derive(Debug)]
pub struct Tracker {
    pub complete: Option<u32>,
    pub incomplete: Option<u32>,
    pub interval: u32,
    pub min_interval: Option<u32>,
    pub peers: Vec<u8>,
}

/// An optional integer field: absent, or an integer equal to `o`'s value.
pub open spec fn optional_holds(s: Seq<(Vec<u8>, Value)>, key: Seq<u8>, o: Option<u32>) -> bool {
    match o {
        Some(x) => int_field(s, key) == Some(x as int),
        None => lookup(s, key) is None,
    }
}

/// `t` is what the response value `v` says.
pub open spec fn tracker_holds(v: Value, t: Tracker) -> bool {
    match v {
        Value::Dict(top) => {
            &&& int_field(top@, key_interval()) == Some(t.interval as int)
            &&& bytes_field(top@, key_peers()) == Some(t.peers@)
            &&& t.peers@.len() % 6 == 0
            &&& optional_holds(top@, key_complete(), t.complete)
            &&& optional_holds(top@, key_incomplete(), t.incomplete)
            &&& optional_holds(top@, key_min_interval(), t.min_interval)
        },
        _ => false,
    }
}

/// An optional field that is absent or an integer in `u32` range.
pub open spec fn optional_ok(s: Seq<(Vec<u8>, Value)>, key: Seq<u8>) -> bool {
    match lookup(s, key) {
        None => true,
        Some(Value::Int(n)) => 0 <= n <= u32::MAX,
        _ => false,
    }
}

/// The error a response value gives, checked in this order: not a
/// dictionary; `interval` absent, or not an integer in `u32` range; `peers`
/// absent, or not a byte string, or not whole six-byte entries; an optional
/// field present but not an integer in `u32` range.
pub open spec fn tracker_error(v: Value) -> Option<TrackerError> {
    match v {
        Value::Dict(top) => {
            let s = top@;
            match lookup(s, key_interval()) {
                None => Some(TrackerError::MissingField),
                Some(iv) => if !(iv is Int && 0 <= iv->Int_0 <= u32::MAX) {
                    Some(TrackerError::WrongType)
                } else {
                    match lookup(s, key_peers()) {
                        None => Some(TrackerError::MissingField),
                        Some(pv) => if !(pv is Bytes) {
                            Some(TrackerError::WrongType)
                        } else if pv->Bytes_0@.len() % 6 != 0 {
                            Some(TrackerError::BadPeerList)
                        } else if !(optional_ok(s, key_complete()) && optional_ok(
                            s,
                            key_incomplete(),
                        ) && optional_ok(s, key_min_interval())) {
                            Some(TrackerError::WrongType)
                        } else {
                            None
                        },
                    }
                },
            }
        },
        _ => Some(TrackerError::WrongType),
    }
}

fn optional_u32(top: &Vec<(Vec<u8>, Value)>, key: &[u8]) -> (r: Result<Option<u32>, TrackerError>)
    ensures
        r is Ok <==> optional_ok(top@, key@),
        r matches Ok(o) ==> optional_holds(top@, key@, o),
        r is Err ==> forall|o: Option<u32>| !optional_holds(top@, key@, o),
        r is Err ==> r == Err::<Option<u32>, TrackerError>(TrackerError::WrongType),
{
    match dict_get(top, key) {
        None => Ok(None),
        Some(Value::Int(n)) => {
            if *n < 0 || *n > u32::MAX as i64 {
                Err(TrackerError::WrongType)
            } else {
                Ok(Some(*n as u32))
            }
        },
        Some(_) => Err(TrackerError::WrongType),
    }
}

impl Tracker {
    /// Reads a tracker response out of a decoded value.
    pub fn from_value(v: &Value) -> (r: Result<Tracker, TrackerError>)
        ensures
            r matches Ok(t) ==> tracker_holds(*v, t),
            r is Err ==> forall|t: Tracker| !tracker_holds(*v, t),
            match r {
                Ok(_) => tracker_error(*v) is None,
                Err(e) => tracker_error(*v) == Some(e),
            },
            !(r matches Err(TrackerError::Bencode(_))),
            !(r matches Err(TrackerError::HttpStatus(_))),
    {
        let top = match v {
            Value::Dict(top) => top,
            _ => {
                return Err(TrackerError::WrongType);
            },
        };
        let k: Vec<u8> = vec![105u8, 110, 116, 101, 114, 118, 97, 108];
        proof {
            assert(k@ =~= key_interval());
        }
        let interval = match dict_get(top, k.as_slice()) {
            Some(Value::Int(n)) => *n,
            Some(_) => {
                return Err(TrackerError::WrongType);
            },
            None => {
                return Err(TrackerError::MissingField);
            },
        };
        if interval < 0 || interval > u32::MAX as i64 {
            return Err(TrackerError::WrongType);
        }
        let k: Vec<u8> = vec![112u8, 101, 101, 114, 115];
        proof {
            assert(k@ =~= key_peers());
        }
        let peers = match dict_get(top, k.as_slice()) {
            Some(Value::Bytes(p)) => copy_bytes(p.as_slice()),
            Some(_) => {
                return Err(TrackerError::WrongType);
            },
            None => {
                return Err(TrackerError::MissingField);
            },
        };
        if peers.len() % 6 != 0 {
            return Err(TrackerError::BadPeerList);
        }
        let k: Vec<u8> = vec![99u8, 111, 109, 112, 108, 101, 116, 101];
        proof {
            assert(k@ =~= key_complete());
        }
        let complete = match optional_u32(top, k.as_slice()) {
            Ok(o) => o,
            Err(e) => {
                return Err(e);
            },
        };
        let k: Vec<u8> = vec![105u8, 110, 99, 111, 109, 112, 108, 101, 116, 101];
        proof {
            assert(k@ =~= key_incomplete());
        }
        let incomplete = match optional_u32(top, k.as_slice()) {
            Ok(o) => o,
            Err(e) => {
                return Err(e);
            },
        };
        let k: Vec<u8> = vec![109u8, 105, 110, 32, 105, 110, 116, 101, 114, 118, 97, 108];
        proof {
            assert(k@ =~= key_min_interval());
        }
        let min_interval = match optional_u32(top, k.as_slice()) {
            Ok(o) => o,
            Err(e) => {
                return Err(e);
            },
        };
        Ok(Tracker { complete, incomplete, interval: interval as u32, min_interval, peers })
    }

    /// Reads a tracker response body.
    pub fn from_bytes(body: &[u8]) -> (r: Result<Tracker, TrackerError>)
        ensures
            (r matches Err(TrackerError::Bencode(_))) <==> !is_canonical_encoding(body@),
            !(r matches Err(TrackerError::HttpStatus(_))),
            r matches Ok(t) ==> is_canonical_encoding(body@) && forall|v: Value|
                #![trigger tracker_holds(v, t)]
                is_canonical(v) && encoding(v) == body@ ==> tracker_holds(v, t),
            (r is Err && !(r matches Err(TrackerError::Bencode(_)))) ==> forall|v: Value, t: Tracker|
                #![trigger tracker_holds(v, t)]
                is_canonical(v) && encoding(v) == body@ ==> !tracker_holds(v, t),
            (exists|v: Value, t: Tracker|
                #![trigger tracker_holds(v, t)]
                is_canonical(v) && encoding(v) == body@ && tracker_holds(v, t)) ==> r is Ok,
            r matches Err(e) ==> (e is Bencode || forall|v: Value|
                #![trigger tracker_error(v)]
                is_canonical(v) && encoding(v) == body@ ==> tracker_error(v) == Some(e)),
    {
        match decode(body) {
            Ok(v) => {
                let r = Tracker::from_value(&v);
                proof {
                    assert(decode_post(body@, Ok::<Value, BencodeError>(v)));
                    assert forall|w: Value, t: Tracker|
                        #![trigger tracker_holds(w, t)]
                        is_canonical(w) && encoding(w) == body@ implies tracker_holds(w, t)
                            == tracker_holds(v, t) by {
                        assert(same_value(w, v));
                        lemma_tracker_same(w, v, t);
                    }
                    assert forall|w: Value|
                        #![trigger tracker_error(w)]
                        is_canonical(w) && encoding(w) == body@ implies tracker_error(w)
                            == tracker_error(v) by {
                        assert(same_value(w, v));
                        lemma_tracker_same(w, v, r->Ok_0);
                    }
                }
                r
            },
            Err(e) => Err(TrackerError::Bencode(e)),
        }
    }

    /// Reads a tracker's HTTP reply: a success status and a valid body.
    pub fn from_response(status: u16, body: &[u8]) -> (r: Result<Tracker, TrackerError>)
        ensures
            !(200 <= status < 300) <==> r == Err::<Tracker, TrackerError>(
                TrackerError::HttpStatus(status),
            ),
            200 <= status < 300 ==> !(r matches Err(TrackerError::HttpStatus(_))),
            200 <= status < 300 ==> ((r matches Err(TrackerError::Bencode(_)))
                <==> !is_canonical_encoding(body@)),
            r matches Ok(t) ==> forall|v: Value|
                #![trigger tracker_holds(v, t)]
                is_canonical(v) && encoding(v) == body@ ==> tracker_holds(v, t),
            (200 <= status < 300 && r is Err && !(r matches Err(TrackerError::Bencode(_))))
                ==> forall|v: Value, t: Tracker|
                #![trigger tracker_holds(v, t)]
                is_canonical(v) && encoding(v) == body@ ==> !tracker_holds(v, t),
            (200 <= status < 300 && exists|v: Value, t: Tracker|
                #![trigger tracker_holds(v, t)]
                is_canonical(v) && encoding(v) == body@ && tracker_holds(v, t)) ==> r is Ok,
            200 <= status < 300 ==> (r matches Err(e) ==> (e is Bencode || forall|v: Value|
                #![trigger tracker_error(v)]
                is_canonical(v) && encoding(v) == body@ ==> tracker_error(v) == Some(e))),
    {
        if status < 200 || status >= 300 {
            return Err(TrackerError::HttpStatus(status));
        }
        Tracker::from_bytes(body)
    }

    /// Number of peers in the compact list.
    pub open spec fn peer_count(&self) -> int {
        self.peers@.len() as int / 6
    }

    /// The six bytes of peer `i`.
    pub open spec fn peer_bytes(&self, i: int) -> Seq<u8> {
        self.peers@.subrange(6 * i, 6 * i + 6)
    }

    /// The peers of the compact list, in order.
    pub fn peer_list(&self) -> (r: Vec<Peer>)
        ensures
            r@.len() == self.peer_count(),
            forall|i: int| 0 <= i < r@.len() ==> #[trigger] r@[i].ip@ == peer_text(self.peer_bytes(i)),
    {
        let mut r: Vec<Peer> = Vec::new();
        let mut at: usize = 0;
        let len = self.peers.len();
        while len - at >= 6
            invariant
                len == self.peers@.len(),
                at == 6 * r@.len(),
                at <= len,
                forall|i: int| 0 <= i < r@.len() ==> #[trigger] r@[i].ip@ == peer_text(self.peer_bytes(i)),
            decreases len - at,
        {
            let p = Peer::new(&self.peers.as_slice()[at..at + 6]);
            r.push(p);
            at = at + 6;
        }
        proof {
            assert(r@.len() == len as int / 6) by (nonlinear_arith)
                requires
                    at == 6 * r@.len(),
                    at <= len,
                    len < at + 6,
            ;
        }
        r
    }

    /// An iterator over the peers, from the first.
    pub fn into_iter(self) -> (r: PeerIterator)
        ensures
            r.peers@ == self.peers@,
            r.index == 0,
    {
        PeerIterator { peers: self.peers, index: 0 }
    }
}

/// Walks a compact peer list six bytes at a time.
pub struct PeerIterator {
    pub peers: Vec<u8>,
    pub index: usize,
}

impl PeerIterator {
    /// The next peer, if six more bytes remain.
    pub fn next(&mut self) -> (r: Option<Peer>)
        ensures
            final(self).peers == old(self).peers,
            old(self).index + 6 <= old(self).peers@.len() ==> {
                &&& r matches Some(p)
                &&& p.ip@ == peer_text(
                    old(self).peers@.subrange(old(self).index as int, old(self).index + 6),
                )
                &&& final(self).index == old(self).index + 6
            },
            old(self).index + 6 > old(self).peers@.len() ==> r is None && final(self).index == old(
                self,
            ).index,
    {
        if self.index >= self.peers.len() || self.peers.len() - self.index < 6 {
            return None;
        }
        let peer = Peer::new(&self.peers.as_slice()[self.index..self.index + 6]);
        self.index = self.index + 6;
        Some(peer)
    }
}

/// The query pairs of an announce, but for the info hash.
pub open spec fn query_pairs(peer_id: Seq<char>, left: nat) -> Seq<(Seq<char>, Seq<char>)> {
    seq![
        ("peer_id"@, peer_id),
        ("port"@, "6881"@),
        ("uploaded"@, "0"@),
        ("downloaded"@, "0"@),
        ("left"@, decimal_chars(left)),
        ("compact"@, "1"@),
    ]
}

/// The announce URL: the tracker URL, `?`, the encoded query, then the info
/// hash percent-encoded byte by byte.
pub fn announce_url(announce: &str, query: &str, info_hash: &[u8]) -> (r: String)
    ensures
        r@ == announce@ + seq!['?'] + query@ + "&info_hash="@ + percent_text(info_hash@),
{
    let mut url = String::new();
    url.append(announce);
    push_char(&mut url, '?');
    url.append(query);
    url.append("&info_hash=");
    let h = urlencode(info_hash);
    url.append(h.as_str());
    url
}

impl Torrent {
    /// The URL of the announce request for this torrent, as peer `peer_id`,
    /// with nothing downloaded yet.
    pub fn tracker_url(&self, peer_id: &str) -> (r: String)
        ensures
            r@ == self.announce@ + seq!['?'] + form_urlencoded(
                query_pairs(peer_id@, self.info.length as nat),
            ) + "&info_hash="@ + percent_text(sha1_of(self.info_bytes@)),
    {
        let mut left = String::new();
        push_decimal(&mut left, self.info.length as u64);
        let mut pairs: Vec<(String, String)> = Vec::new();
        pairs.push(("peer_id".to_owned(), peer_id.to_owned()));
        pairs.push(("port".to_owned(), "6881".to_owned()));
        pairs.push(("uploaded".to_owned(), "0".to_owned()));
        pairs.push(("downloaded".to_owned(), "0".to_owned()));
        pairs.push(("left".to_owned(), left));
        pairs.push(("compact".to_owned(), "1".to_owned()));
        proof {
            assert(pairs_view(pairs@) =~= query_pairs(peer_id@, self.info.length as nat));
        }
        let query = form_encode(&pairs).unwrap();
        let hash = self.get_info_hash();
        announce_url(self.announce.as_str(), query.as_str(), hash.as_slice())
    }
}


/// A tracker response read from the same tree is the same.
pub proof fn lemma_tracker_same(w: Value, v: Value, t: Tracker)
    requires
        same_value(w, v),
    ensures
        tracker_holds(w, t) == tracker_holds(v, t),
        tracker_error(w) == tracker_error(v),
{
    if let Value::Dict(tw) = w {
        let tv = v->Dict_0;
        assert(same_entries(tw@, tv@)) by {
            assert forall|j: int| #![trigger tw@[j]] 0 <= j < tv@.len() implies tw@[j].0@ == tv@[j].0@
                && same_value(tw@[j].1, tv@[j].1) by {}
        }
        lemma_lookup_same(tw@, tv@, key_interval());
        lemma_lookup_same(tw@, tv@, key_peers());
        lemma_lookup_same(tw@, tv@, key_complete());
        lemma_lookup_same(tw@, tv@, key_incomplete());
        lemma_lookup_same(tw@, tv@, key_min_interval());
    }
}

} // verus!
