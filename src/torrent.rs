//! The metainfo model: the typed view of a single-file torrent, its
//! validation, piece geometry and info hash.

use vstd::prelude::*;
use vstd::utf8::{decode_utf8, valid_utf8};
use sha1::Digest;
use crate::bencode::{
    bytes_field, copy_bytes, decode, decode_post, dict_get, encode, encoding, int_field,
    dict_encoding, is_canonical, is_canonical_encoding, lemma_entry_span, lemma_lookup_index,
    lemma_lookup_same, lemma_same_encoding, lookup, same_entries, same_value, BencodeError, Value,
};
use crate::text::utf8_string;

verus! {

/// The SHA-1 digest of a byte string.
pub uninterp spec fn sha1_of(data: Seq<u8>) -> Seq<u8>;

/// Relies on `sha1::Sha1::digest`: the SHA-1 digest of the input, 20 bytes.
#[verifier::external_body]
pub(crate) fn sha1_digest(data: &[u8]) -> (r: Vec<u8>)
    ensures
        r@ == sha1_of(data@),
        r@.len() == 20,
{
    sha1::Sha1::digest(data).to_vec()
}

/// Length of a digest in `pieces`.
pub const HASH_LEN: usize = 20;

/// The key `announce`.
pub open spec fn key_announce() -> Seq<u8> {
    seq![97u8, 110, 110, 111, 117, 110, 99, 101]
}

/// The key `info`.
pub open spec fn key_info() -> Seq<u8> {
    seq![105u8, 110, 102, 111]
}

/// The key `length`.
pub open spec fn key_length() -> Seq<u8> {
    seq![108u8, 101, 110, 103, 116, 104]
}

/// The key `name`.
pub open spec fn key_name() -> Seq<u8> {
    seq![110u8, 97, 109, 101]
}

/// The key `piece length`.
pub open spec fn key_piece_length() -> Seq<u8> {
    seq![112u8, 105, 101, 99, 101, 32, 108, 101, 110, 103, 116, 104]
}

/// The key `pieces`.
pub open spec fn key_pieces() -> Seq<u8> {
    seq![112u8, 105, 101, 99, 101, 115]
}

/// `a / b` rounded up.
pub open spec fn ceil_div(a: int, b: int) -> int {
    a / b + if a % b == 0 {
        0int
    } else {
        1int
    }
}

/// The `info` dictionary of a single-file torrent.
#[derive(Debug)]
pub struct Info {
    pub length: usize,
    pub name: String,
    pub plen: usize,
    pub pieces: Vec<u8>,
}

impl Info {
    /// Number of piece digests held.
    pub open spec fn piece_count_spec(&self) -> int {
        self.pieces@.len() as int / 20
    }

    /// A positive piece length, whole digests, and one digest per piece.
    pub open spec fn wf(&self) -> bool {
        &&& self.plen > 0
        &&& self.pieces@.len() % 20 == 0
        &&& self.piece_count_spec() == ceil_div(self.length as int, self.plen as int)
    }

    /// Every piece has the piece length but the last, which has the rest.
    pub open spec fn piece_size_spec(&self, i: int) -> int {
        if i == self.piece_count_spec() - 1 {
            self.length - (self.piece_count_spec() - 1) * self.plen
        } else {
            self.plen as int
        }
    }

    /// The recorded digest of piece `i`.
    pub open spec fn piece_hash_spec(&self, i: int) -> Seq<u8> {
        self.pieces@.subrange(20 * i, 20 * i + 20)
    }

    /// An info dictionary with the given fields.
    pub fn new(length: usize, name: String, plen: usize, pieces: Vec<u8>) -> (r: Self)
        ensures
            r.length == length,
            r.name == name,
            r.plen == plen,
            r.pieces == pieces,
    {
        Self { length, name, plen, pieces }
    }

    /// Number of piece digests held.
    pub fn get_piece_count(&self) -> (r: usize)
        ensures
            r == self.piece_count_spec(),
    {
        self.pieces.len() / HASH_LEN
    }

    /// The digest of piece `index`.
    pub fn get_piece(&self, index: usize) -> (r: &[u8])
        requires
            index < self.piece_count_spec(),
        ensures
            r@ == self.piece_hash_spec(index as int),
    {
        let len = self.pieces.len();
        proof {
            assert(index * 20 + 20 <= len) by (nonlinear_arith)
                requires
                    index < len as int / 20,
            ;
        }
        let start = index * HASH_LEN;
        let end = start + HASH_LEN;
        &self.pieces.as_slice()[start..end]
    }

    /// The size of piece `index`: the piece length, or what is left for the
    /// last piece.
    pub fn piece_size(&self, index: usize) -> (r: usize)
        requires
            self.wf(),
            index < self.piece_count_spec(),
        ensures
            r == self.piece_size_spec(index as int),
            0 < r <= self.plen,
    {
        proof {
            lemma_piece_bounds(self);
        }
        let count = self.get_piece_count();
        if index == count - 1 {
            proof {
                assert((count - 1) * self.plen == count * self.plen - self.plen) by (nonlinear_arith);
            }
            self.length - (count - 1) * self.plen
        } else {
            self.plen
        }
    }
}

/// In a valid info dictionary the digests are whole, and the pieces cover
/// the length exactly: all of them together reach it, all but the last
/// fall short of it.
pub proof fn lemma_piece_bounds(info: &Info)
    requires
        info.wf(),
    ensures
        info.pieces@.len() % 20 == 0,
        info.piece_count_spec() * info.plen >= info.length,
        info.length > (info.piece_count_spec() - 1) * info.plen,
        info.piece_count_spec() >= 0,
{
    let a = info.length as int;
    let b = info.plen as int;
    let c = info.piece_count_spec();
    assert(a == (a / b) * b + a % b && 0 <= a % b < b && a / b >= 0) by (nonlinear_arith)
        requires
            b > 0,
            a >= 0,
    ;
    if a % b == 0 {
        assert(c == a / b);
        assert((c - 1) * b == c * b - b) by (nonlinear_arith);
    } else {
        assert(c == a / b + 1);
        assert(c * b == (a / b) * b + b) by (nonlinear_arith)
            requires
                c == a / b + 1,
        ;
    }
}

/// Why metainfo cannot be read.
#[derive(Debug, Clone, Copy, PartialEq, Eq, Structural)]
pub enum MetainfoError {
    /// The bytes are not a canonical bencoding.
    Bencode(BencodeError),
    /// A required field is absent.
    MissingField,
    /// A field has the wrong kind of value.
    WrongType,
    /// A field's value is out of range, not UTF-8, or breaks the piece layout.
    Invalid,
}

/// A single-file torrent: tracker URL, info dictionary, and the canonical
/// bytes of that dictionary as they stand in the metainfo.
#[derive(Debug)]
pub struct Torrent {
    pub announce: String,
    pub info: Info,
    pub info_bytes: Vec<u8>,
}

/// `info` is what the info dictionary value `iv` says.
pub open spec fn info_holds(iv: Value, info: Info) -> bool {
    match iv {
        Value::Dict(d) => {
            &&& int_field(d@, key_length()) == Some(info.length as int)
            &&& int_field(d@, key_piece_length()) == Some(info.plen as int)
            &&& bytes_field(d@, key_pieces()) == Some(info.pieces@)
            &&& bytes_field(d@, key_name()) matches Some(nm)
            &&& valid_utf8(nm)
            &&& info.name@ == decode_utf8(nm)
            &&& info.wf()
        },
        _ => false,
    }
}

/// `t` is what the metainfo value `v` says.
pub open spec fn metainfo_holds(v: Value, t: Torrent) -> bool {
    match v {
        Value::Dict(top) => {
            &&& bytes_field(top@, key_announce()) matches Some(a)
            &&& valid_utf8(a)
            &&& t.announce@ == decode_utf8(a)
            &&& lookup(top@, key_info()) matches Some(iv)
            &&& info_holds(iv, t.info)
            &&& t.info_bytes@ == encoding(iv)
        },
        _ => false,
    }
}

/// A byte-string field: absent is `MissingField`, another kind `WrongType`.
pub open spec fn bytes_check(x: Option<Value>) -> Option<MetainfoError> {
    match x {
        None => Some(MetainfoError::MissingField),
        Some(Value::Bytes(_)) => None,
        _ => Some(MetainfoError::WrongType),
    }
}

/// A UTF-8 text field: as `bytes_check`, then `Invalid` if not UTF-8.
pub open spec fn text_check(x: Option<Value>) -> Option<MetainfoError> {
    match x {
        Some(Value::Bytes(b)) => if valid_utf8(b@) {
            None
        } else {
            Some(MetainfoError::Invalid)
        },
        _ => bytes_check(x),
    }
}

/// An integer field: absent is `MissingField`, another kind `WrongType`,
/// outside `[lo, usize::MAX]` `Invalid`.
pub open spec fn int_check(x: Option<Value>, lo: int) -> Option<MetainfoError> {
    match x {
        None => Some(MetainfoError::MissingField),
        Some(Value::Int(n)) => if lo <= n <= usize::MAX {
            None
        } else {
            Some(MetainfoError::Invalid)
        },
        _ => Some(MetainfoError::WrongType),
    }
}

/// The error an info dictionary's entries give, checked in this order:
/// `length`, `name`, `piece length`, `pieces`, then the piece layout.
pub open spec fn info_error(d: Seq<(Vec<u8>, Value)>) -> Option<MetainfoError> {
    let length = lookup(d, key_length());
    let name = lookup(d, key_name());
    let plen = lookup(d, key_piece_length());
    let pieces = lookup(d, key_pieces());
    if int_check(length, 0) is Some {
        int_check(length, 0)
    } else if text_check(name) is Some {
        text_check(name)
    } else if int_check(plen, 1) is Some {
        int_check(plen, 1)
    } else if bytes_check(pieces) is Some {
        bytes_check(pieces)
    } else {
        let n = pieces->Some_0->Bytes_0@.len();
        if n % 20 == 0 && n / 20 == ceil_div(
            length->Some_0->Int_0 as int,
            plen->Some_0->Int_0 as int,
        ) {
            None
        } else {
            Some(MetainfoError::Invalid)
        }
    }
}

/// The error a metainfo value gives, checked in this order: not a
/// dictionary; `announce`; `info` absent or not a dictionary; its entries.
pub open spec fn metainfo_error(v: Value) -> Option<MetainfoError> {
    match v {
        Value::Dict(top) => {
            let a = lookup(top@, key_announce());
            if text_check(a) is Some {
                text_check(a)
            } else {
                match lookup(top@, key_info()) {
                    None => Some(MetainfoError::MissingField),
                    Some(Value::Dict(d)) => info_error(d@),
                    _ => Some(MetainfoError::WrongType),
                }
            }
        },
        _ => Some(MetainfoError::WrongType),
    }
}

impl Torrent {
    /// Reads the typed metainfo out of a decoded value.
    pub fn from_value(v: &Value) -> (r: Result<Torrent, MetainfoError>)
        ensures
            r matches Ok(t) ==> metainfo_holds(*v, t),
            r is Err ==> forall|t: Torrent| !metainfo_holds(*v, t),
            match r {
                Ok(_) => metainfo_error(*v) is None,
                Err(e) => metainfo_error(*v) == Some(e),
            },
            !(r matches Err(MetainfoError::Bencode(_))),
    {
        let top = match v {
            Value::Dict(top) => top,
            _ => {
                return Err(MetainfoError::WrongType);
            },
        };
        let k: Vec<u8> = vec![97u8, 110, 110, 111, 117, 110, 99, 101];
        proof {
            assert(k@ =~= key_announce());
        }
        let announce = match dict_get(top, k.as_slice()) {
            Some(Value::Bytes(a)) => a,
            Some(_) => {
                return Err(MetainfoError::WrongType);
            },
            None => {
                return Err(MetainfoError::MissingField);
            },
        };
        let announce = match utf8_string(announce.as_slice()) {
            Some(s) => s,
            None => {
                return Err(MetainfoError::Invalid);
            },
        };
        let k: Vec<u8> = vec![105u8, 110, 102, 111];
        proof {
            assert(k@ =~= key_info());
        }
        let iv = match dict_get(top, k.as_slice()) {
            Some(iv) => iv,
            None => {
                return Err(MetainfoError::MissingField);
            },
        };
        let d = match iv {
            Value::Dict(d) => d,
            _ => {
                return Err(MetainfoError::WrongType);
            },
        };
        let k: Vec<u8> = vec![108u8, 101, 110, 103, 116, 104];
        proof {
            assert(k@ =~= key_length());
        }
        let length = match dict_get(d, k.as_slice()) {
            Some(Value::Int(n)) => *n,
            Some(_) => {
                return Err(MetainfoError::WrongType);
            },
            None => {
                return Err(MetainfoError::MissingField);
            },
        };
        if length < 0 || length as u64 > usize::MAX as u64 {
            return Err(MetainfoError::Invalid);
        }
        let length = length as usize;
        let k: Vec<u8> = vec![110u8, 97, 109, 101];
        proof {
            assert(k@ =~= key_name());
        }
        let name = match dict_get(d, k.as_slice()) {
            Some(Value::Bytes(nm)) => nm,
            Some(_) => {
                return Err(MetainfoError::WrongType);
            },
            None => {
                return Err(MetainfoError::MissingField);
            },
        };
        let name = match utf8_string(name.as_slice()) {
            Some(s) => s,
            None => {
                return Err(MetainfoError::Invalid);
            },
        };
        let k: Vec<u8> = vec![112u8, 105, 101, 99, 101, 32, 108, 101, 110, 103, 116, 104];
        proof {
            assert(k@ =~= key_piece_length());
        }
        let plen = match dict_get(d, k.as_slice()) {
            Some(Value::Int(n)) => *n,
            Some(_) => {
                return Err(MetainfoError::WrongType);
            },
            None => {
                return Err(MetainfoError::MissingField);
            },
        };
        if plen <= 0 || plen as u64 > usize::MAX as u64 {
            return Err(MetainfoError::Invalid);
        }
        let plen = plen as usize;
        let k: Vec<u8> = vec![112u8, 105, 101, 99, 101, 115];
        proof {
            assert(k@ =~= key_pieces());
        }
        let pieces = match dict_get(d, k.as_slice()) {
            Some(Value::Bytes(p)) => copy_bytes(p.as_slice()),
            Some(_) => {
                return Err(MetainfoError::WrongType);
            },
            None => {
                return Err(MetainfoError::MissingField);
            },
        };
        let count = pieces.len() / HASH_LEN;
        let whole = length / plen;
        let fits = if length % plen == 0 {
            count == whole
        } else {
            count > whole && count - whole == 1
        };
        if pieces.len() % HASH_LEN != 0 || !fits {
            return Err(MetainfoError::Invalid);
        }
        let info = Info { length, name, plen, pieces };
        let info_bytes = encode(iv);
        Ok(Torrent { announce, info, info_bytes })
    }

    /// Reads metainfo from its bencoded bytes.
    pub fn from_bytes(b: &[u8]) -> (r: Result<Torrent, MetainfoError>)
        ensures
            (r matches Err(MetainfoError::Bencode(_))) <==> !is_canonical_encoding(b@),
            r matches Ok(t) ==> is_canonical_encoding(b@) && forall|v: Value|
                #![trigger metainfo_holds(v, t)]
                is_canonical(v) && encoding(v) == b@ ==> metainfo_holds(v, t),
            r matches Ok(t) ==> exists|start: int|
                0 <= start && start + t.info_bytes@.len() <= b@.len() && #[trigger] b@.subrange(
                    start,
                    start + t.info_bytes@.len(),
                ) == t.info_bytes@,
            (r is Err && !(r matches Err(MetainfoError::Bencode(_)))) ==> forall|v: Value, t: Torrent|
                #![trigger metainfo_holds(v, t)]
                is_canonical(v) && encoding(v) == b@ ==> !metainfo_holds(v, t),
            (exists|v: Value, t: Torrent|
                #![trigger metainfo_holds(v, t)]
                is_canonical(v) && encoding(v) == b@ && metainfo_holds(v, t)) ==> r is Ok,
            r matches Err(e) ==> (e is Bencode || forall|v: Value|
                #![trigger metainfo_error(v)]
                is_canonical(v) && encoding(v) == b@ ==> metainfo_error(v) == Some(e)),
    {
        match decode(b) {
            Ok(v) => {
                let r = Torrent::from_value(&v);
                proof {
                    assert(decode_post(b@, Ok::<Value, BencodeError>(v)));
                    assert forall|w: Value, t: Torrent|
                        #![trigger metainfo_holds(w, t)]
                        is_canonical(w) && encoding(w) == b@ implies metainfo_holds(w, t)
                            == metainfo_holds(v, t) by {
                        assert(same_value(w, v));
                        lemma_metainfo_same(w, v, t);
                    }
                    assert forall|w: Value|
                        #![trigger metainfo_error(w)]
                        is_canonical(w) && encoding(w) == b@ implies metainfo_error(w)
                            == metainfo_error(v) by {
                        assert(same_value(w, v));
                        lemma_metainfo_same(w, v, r->Ok_0);
                    }
                    if r is Ok {
                        let t = r->Ok_0;
                        let top = v->Dict_0@;
                        let i = lemma_lookup_index(top, key_info());
                        let st = lemma_entry_span(top, i);
                        let e = t.info_bytes@;
                        assert(e == encoding(top[i].1));
                        let whole = seq![100u8] + dict_encoding(top) + seq![101u8];
                        assert(whole == b@);
                        assert(b@.subrange(st + 1, st + 1 + e.len()) =~= dict_encoding(top).subrange(
                            st,
                            st + e.len(),
                        ));
                    }
                }
                r
            },
            Err(e) => Err(MetainfoError::Bencode(e)),
        }
    }

    /// The SHA-1 digest of the info dictionary's bytes.
    pub fn get_info_hash(&self) -> (r: Vec<u8>)
        ensures
            r@ == sha1_of(self.info_bytes@),
            r@.len() == 20,
    {
        sha1_digest(self.info_bytes.as_slice())
    }
}


/// Metainfo read from the same tree is the same.
pub proof fn lemma_metainfo_same(w: Value, v: Value, t: Torrent)
    requires
        same_value(w, v),
    ensures
        metainfo_holds(w, t) == metainfo_holds(v, t),
        metainfo_error(w) == metainfo_error(v),
{
    if let Value::Dict(tw) = w {
        let tv = v->Dict_0;
        assert(same_entries(tw@, tv@)) by {
            assert forall|j: int| #![trigger tw@[j]] 0 <= j < tv@.len() implies tw@[j].0@ == tv@[j].0@
                && same_value(tw@[j].1, tv@[j].1) by {}
        }
        lemma_lookup_same(tw@, tv@, key_announce());
        lemma_lookup_same(tw@, tv@, key_info());
        if let Some(iw) = lookup(tw@, key_info()) {
            let iv = lookup(tv@, key_info())->Some_0;
            lemma_same_encoding(iw, iv);
            if let Value::Dict(dw) = iw {
                let dv = iv->Dict_0;
                assert(same_entries(dw@, dv@)) by {
                    assert forall|j: int| #![trigger dw@[j]] 0 <= j < dv@.len() implies dw@[j].0@
                        == dv@[j].0@ && same_value(dw@[j].1, dv@[j].1) by {}
                }
                lemma_lookup_same(dw@, dv@, key_length());
                lemma_lookup_same(dw@, dv@, key_piece_length());
                lemma_lookup_same(dw@, dv@, key_pieces());
                lemma_lookup_same(dw@, dv@, key_name());
            }
        }
    }
}

} // verus!
