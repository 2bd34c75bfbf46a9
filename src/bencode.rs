//! The bencode codec: a value tree, its canonical encoding, and a strict
//! decoder that accepts exactly the canonical encodings.

use vstd::prelude::*;
use crate::digits::{
    all_digits, decimal, decimal_bytes, digits_value, is_canonical_digits, is_digit,
    lemma_decimal, parse_decimal,
};

verus! {

/// A decoded bencode value. Dictionary entries are kept in the order in
/// which they were read; a canonical dictionary has strictly ascending keys.
#[derive(Debug, PartialEq, Eq)]
pub enum Value {
    Bytes(Vec<u8>),
    Int(i64),
    List(Vec<Value>),
    Dict(Vec<(Vec<u8>, Value)>),
}

/// Why a byte string is not a canonical bencoding.
#[derive(Debug, Clone, Copy, PartialEq, Eq, Structural)]
pub enum BencodeError {
    /// The input ended inside a value.
    UnexpectedEnd,
    /// A byte that cannot start or continue a value here.
    UnexpectedByte,
    /// An integer body that is empty, has a leading zero, is `-0` or does not fit an `i64`.
    BadInteger,
    /// A string length that is malformed or runs past the end of the input.
    BadLength,
    /// A dictionary key that is not a byte string.
    NonStringKey,
    /// Dictionary keys that are not strictly ascending.
    UnsortedKeys,
    /// Bytes left over after a complete value.
    TrailingData,
}

/// The text of an integer: optional `-`, then canonical digits.
pub open spec fn int_text(n: int) -> Seq<u8> {
    if n < 0 {
        seq![45u8] + decimal((-n) as nat)
    } else {
        decimal(n as nat)
    }
}

/// `<len>:<bytes>`
pub open spec fn bytes_text(b: Seq<u8>) -> Seq<u8> {
    decimal(b.len()) + seq![58u8] + b
}

/// The canonical encoding of a value.
pub open spec fn encoding(v: Value) -> Seq<u8>
    decreases v,
{
    match v {
        Value::Bytes(b) => bytes_text(b@),
        Value::Int(n) => seq![105u8] + int_text(n as int) + seq![101u8],
        Value::List(items) => seq![108u8] + list_encoding(items@) + seq![101u8],
        Value::Dict(entries) => seq![100u8] + dict_encoding(entries@) + seq![101u8],
    }
}

/// The concatenated encodings of a sequence of values.
pub open spec fn list_encoding(s: Seq<Value>) -> Seq<u8>
    decreases s,
{
    if s.len() == 0 {
        Seq::empty()
    } else {
        list_encoding(s.subrange(0, s.len() - 1)) + encoding(s[s.len() - 1])
    }
}

/// The concatenated encodings of dictionary entries, key then value.
pub open spec fn dict_encoding(s: Seq<(Vec<u8>, Value)>) -> Seq<u8>
    decreases s,
{
    if s.len() == 0 {
        Seq::empty()
    } else {
        dict_encoding(s.subrange(0, s.len() - 1)) + bytes_text(s[s.len() - 1].0@) + encoding(
            s[s.len() - 1].1,
        )
    }
}

/// Raw byte order: `a` sorts strictly before `b`.
pub open spec fn lex_lt(a: Seq<u8>, b: Seq<u8>) -> bool
    decreases a.len(),
{
    if a.len() == 0 {
        b.len() > 0
    } else if b.len() == 0 {
        false
    } else if a[0] != b[0] {
        a[0] < b[0]
    } else {
        lex_lt(a.drop_first(), b.drop_first())
    }
}

/// Consecutive keys are strictly ascending.
pub open spec fn keys_ascending(s: Seq<(Vec<u8>, Value)>) -> bool {
    forall|i: int| #![trigger s[i]] 0 <= i < s.len() - 1 ==> lex_lt(s[i].0@, s[i + 1].0@)
}

/// A value that has a canonical encoding: every dictionary in it has strictly
/// ascending keys.
pub open spec fn is_canonical(v: Value) -> bool
    decreases v,
{
    match v {
        Value::Bytes(_) => true,
        Value::Int(_) => true,
        Value::List(items) => forall|i: int|
            0 <= i < items@.len() ==> is_canonical(#[trigger] items@[i]),
        Value::Dict(entries) => {
            &&& keys_ascending(entries@)
            &&& forall|i: int| 0 <= i < entries@.len() ==> is_canonical(#[trigger] entries@[i].1)
        },
    }
}

/// The canonical value `v` is encoded in `b` starting at `pos`.
pub open spec fn parses_at(b: Seq<u8>, pos: int, v: Value) -> bool {
    &&& is_canonical(v)
    &&& 0 <= pos
    &&& pos + encoding(v).len() <= b.len()
    &&& b.subrange(pos, pos + encoding(v).len()) == encoding(v)
}

/// Two values that are the same tree: equal byte strings and integers,
/// and lists and dictionaries whose keys are equal and whose items are the
/// same, in order.
pub open spec fn same_value(a: Value, b: Value) -> bool
    decreases a,
{
    match a {
        Value::Bytes(x) => b is Bytes && b->Bytes_0@ == x@,
        Value::Int(n) => b is Int && b->Int_0 == n,
        Value::List(xs) => {
            &&& b is List
            &&& b->List_0@.len() == xs@.len()
            &&& forall|i: int|
                0 <= i < xs@.len() ==> same_value(#[trigger] xs@[i], b->List_0@[i])
        },
        Value::Dict(xs) => {
            &&& b is Dict
            &&& b->Dict_0@.len() == xs@.len()
            &&& forall|i: int|
                #![trigger xs@[i]]
                0 <= i < xs@.len() ==> xs@[i].0@ == b->Dict_0@[i].0@ && same_value(
                    xs@[i].1,
                    b->Dict_0@[i].1,
                )
        },
    }
}

/// The first `vs.len()` items of `ws` are the same as those of `vs`.
pub open spec fn same_items(ws: Seq<Value>, vs: Seq<Value>) -> bool {
    forall|j: int| 0 <= j < vs.len() ==> same_value(#[trigger] ws[j], vs[j])
}

/// The first `vs.len()` entries of `ws` have the keys and the same values
/// as those of `vs`.
pub open spec fn same_entries(ws: Seq<(Vec<u8>, Value)>, vs: Seq<(Vec<u8>, Value)>) -> bool {
    forall|j: int|
        #![trigger ws[j]]
        0 <= j < vs.len() ==> ws[j].0@ == vs[j].0@ && same_value(ws[j].1, vs[j].1)
}

/// `b` is exactly the canonical encoding of some value.
pub open spec fn is_canonical_encoding(b: Seq<u8>) -> bool {
    exists|v: Value| is_canonical(v) && encoding(v) == b
}

// ---------------------------------------------------------------------------
// Lemmas on encodings
// ---------------------------------------------------------------------------

proof fn lemma_decimal_no_byte(n: nat, c: u8)
    requires
        !is_digit(c),
    ensures
        forall|i: int| 0 <= i < decimal(n).len() ==> decimal(n)[i] != c,
{
    lemma_decimal(n);
    assert forall|i: int| 0 <= i < decimal(n).len() implies decimal(n)[i] != c by {
        assert(is_digit(decimal(n)[i]));
    }
}

/// The first byte tells the kind of value, and every encoding has at least
/// two bytes.
proof fn lemma_first_byte(v: Value)
    ensures
        encoding(v).len() >= 2,
        match v {
            Value::Bytes(_) => is_digit(encoding(v)[0]),
            Value::Int(_) => encoding(v)[0] == 105,
            Value::List(_) => encoding(v)[0] == 108,
            Value::Dict(_) => encoding(v)[0] == 100,
        },
{
    match v {
        Value::Bytes(b) => {
            lemma_decimal(b@.len());
            assert(encoding(v)[0] == decimal(b@.len())[0]);
        },
        Value::Int(n) => {
            if n < 0 {
                lemma_decimal((-n) as nat);
            } else {
                lemma_decimal(n as nat);
            }
        },
        _ => {},
    }
}

/// Two sequences `d1 ++ [c] ++ r1 == d2 ++ [c] ++ r2` where neither `d`
/// holds `c` split at the same place.
proof fn lemma_same_stop(d1: Seq<u8>, r1: Seq<u8>, d2: Seq<u8>, r2: Seq<u8>, c: u8)
    requires
        forall|i: int| 0 <= i < d1.len() ==> d1[i] != c,
        forall|i: int| 0 <= i < d2.len() ==> d2[i] != c,
        d1 + seq![c] + r1 == d2 + seq![c] + r2,
    ensures
        d1.len() == d2.len(),
        d1 == d2,
        r1 == r2,
{
    let s = d1 + seq![c] + r1;
    if d1.len() < d2.len() {
        assert(s[d1.len() as int] == c);
        assert(s[d1.len() as int] == d2[d1.len() as int]);
    } else if d2.len() < d1.len() {
        assert(s[d2.len() as int] == c);
        assert(s[d2.len() as int] == d1[d2.len() as int]);
    }
    assert(d1 =~= s.subrange(0, d1.len() as int));
    assert(d2 =~= (d2 + seq![c] + r2).subrange(0, d2.len() as int));
    assert(r1 =~= s.subrange(d1.len() + 1int, s.len() as int));
    assert(r2 =~= (d2 + seq![c] + r2).subrange(d2.len() + 1int, s.len() as int));
}

/// An encoding equal to the text of a byte string is that byte string.
proof fn lemma_bytes_text_inj(v: Value, k: Seq<u8>)
    requires
        encoding(v) == bytes_text(k),
    ensures
        v is Bytes,
        v->Bytes_0@ == k,
{
    lemma_first_byte(v);
    lemma_decimal(k.len());
    assert(bytes_text(k)[0] == decimal(k.len())[0]);
    if let Value::Bytes(x) = v {
        lemma_decimal_no_byte(x@.len(), 58);
        lemma_decimal_no_byte(k.len(), 58);
        lemma_same_stop(decimal(x@.len()), x@, decimal(k.len()), k, 58);
        lemma_decimal(x@.len());
    }
}

/// `b[start..start+|x|+|y|] == x ++ y` splits into its two parts.
proof fn lemma_split(b: Seq<u8>, start: int, x: Seq<u8>, y: Seq<u8>)
    requires
        0 <= start,
        start + x.len() + y.len() <= b.len(),
        b.subrange(start, start + x.len() + y.len()) == x + y,
    ensures
        b.subrange(start, start + x.len()) == x,
        b.subrange(start + x.len(), start + x.len() + y.len()) == y,
{
    assert(b.subrange(start, start + x.len()) =~= (x + y).subrange(0, x.len() as int));
    assert(b.subrange(start + x.len(), start + x.len() + y.len()) =~= (x + y).subrange(
        x.len() as int,
        (x.len() + y.len()) as int,
    ));
}

/// Adjacent ranges join.
proof fn lemma_join(b: Seq<u8>, start: int, mid: int, end: int, x: Seq<u8>, y: Seq<u8>)
    requires
        0 <= start <= mid <= end <= b.len(),
        b.subrange(start, mid) == x,
        b.subrange(mid, end) == y,
    ensures
        b.subrange(start, end) == x + y,
{
    assert(b.subrange(start, end) =~= x + y);
}

/// The encoding of a prefix of a sequence of values is a prefix of its encoding.
proof fn lemma_list_prefix(s: Seq<Value>, k: int, j: int)
    requires
        0 <= k <= j <= s.len(),
    ensures
        list_encoding(s.take(k)).len() <= list_encoding(s.take(j)).len(),
        list_encoding(s.take(j)).subrange(0, list_encoding(s.take(k)).len() as int)
            == list_encoding(s.take(k)),
    decreases j - k,
{
    if k < j {
        lemma_list_prefix(s, k, j - 1);
        assert(s.take(j).subrange(0, j - 1) =~= s.take(j - 1));
        let a = list_encoding(s.take(j - 1));
        let p = list_encoding(s.take(k));
        assert(list_encoding(s.take(j)) == a + encoding(s[j - 1]));
        assert(list_encoding(s.take(j)).subrange(0, p.len() as int) =~= a.subrange(
            0,
            p.len() as int,
        ));
    } else {
        assert(list_encoding(s.take(j)).subrange(0, list_encoding(s.take(k)).len() as int)
            =~= list_encoding(s.take(k)));
    }
}

proof fn lemma_list_take_next(s: Seq<Value>, k: int)
    requires
        0 <= k < s.len(),
    ensures
        list_encoding(s.take(k + 1)) == list_encoding(s.take(k)) + encoding(s[k]),
{
    assert(s.take(k + 1).subrange(0, k) =~= s.take(k));
}

proof fn lemma_dict_prefix(s: Seq<(Vec<u8>, Value)>, k: int, j: int)
    requires
        0 <= k <= j <= s.len(),
    ensures
        dict_encoding(s.take(k)).len() <= dict_encoding(s.take(j)).len(),
        dict_encoding(s.take(j)).subrange(0, dict_encoding(s.take(k)).len() as int)
            == dict_encoding(s.take(k)),
    decreases j - k,
{
    if k < j {
        lemma_dict_prefix(s, k, j - 1);
        assert(s.take(j).subrange(0, j - 1) =~= s.take(j - 1));
        let a = dict_encoding(s.take(j - 1));
        let p = dict_encoding(s.take(k));
        assert(dict_encoding(s.take(j)) == a + bytes_text(s[j - 1].0@) + encoding(s[j - 1].1));
        assert(dict_encoding(s.take(j)).subrange(0, p.len() as int) =~= a.subrange(
            0,
            p.len() as int,
        ));
    } else {
        assert(dict_encoding(s.take(j)).subrange(0, dict_encoding(s.take(k)).len() as int)
            =~= dict_encoding(s.take(k)));
    }
}

proof fn lemma_dict_take_next(s: Seq<(Vec<u8>, Value)>, k: int)
    requires
        0 <= k < s.len(),
    ensures
        dict_encoding(s.take(k + 1)) == dict_encoding(s.take(k)) + bytes_text(s[k].0@)
            + encoding(s[k].1),
{
    assert(s.take(k + 1).subrange(0, k) =~= s.take(k));
}


// ---------------------------------------------------------------------------
// Encoding
// ---------------------------------------------------------------------------

/// Appends `src` to `out`.
pub fn push_all(out: &mut Vec<u8>, src: &[u8])
    ensures
        final(out)@ == old(out)@ + src@,
{
    let ghost start = out@;
    let mut i: usize = 0;
    while i < src.len()
        invariant
            i <= src@.len(),
            out@ == start + src@.take(i as int),
        decreases src@.len() - i,
    {
        out.push(src[i]);
        i = i + 1;
        proof {
            assert(src@.take(i as int) =~= src@.take(i - 1).push(src@[i - 1]));
        }
    }
    proof {
        assert(src@.take(i as int) =~= src@);
    }
}

fn encode_int_into(out: &mut Vec<u8>, n: i64)
    ensures
        final(out)@ == old(out)@ + int_text(n as int),
{
    if n < 0 {
        out.push(45u8);
        let mag: u64 = ((-(n + 1)) as u64) + 1;
        let d = decimal_bytes(mag);
        push_all(out, d.as_slice());
        proof {
            assert(mag == -n);
        }
    } else {
        let d = decimal_bytes(n as u64);
        push_all(out, d.as_slice());
    }
}

/// Appends the canonical encoding of `v` to `out`.
pub fn encode_into(v: &Value, out: &mut Vec<u8>)
    ensures
        final(out)@ == old(out)@ + encoding(*v),
    decreases v,
{
    let ghost start = out@;
    match v {
        Value::Bytes(b) => {
            let d = decimal_bytes(b.len() as u64);
            push_all(out, d.as_slice());
            out.push(58u8);
            push_all(out, b.as_slice());
        },
        Value::Int(n) => {
            out.push(105u8);
            encode_int_into(out, *n);
            out.push(101u8);
        },
        Value::List(items) => {
            out.push(108u8);
            let mut i: usize = 0;
            while i < items.len()
                invariant
                    i <= items@.len(),
                    out@ == start + seq![108u8] + list_encoding(items@.take(i as int)),
                    *v is List,
                    (*v)->List_0 == *items,
                decreases items@.len() - i,
            {
                proof {
                    lemma_list_take_next(items@, i as int);
                    assert(decreases_to!(*v => (*v)->List_0));
                    assert(decreases_to!(*items => items@));
                    assert(decreases_to!(items@ => items@[i as int]));
                    assert(decreases_to!(*v => items@[i as int]));
                }
                encode_into(&items[i], out);
                i = i + 1;
            }
            proof {
                assert(items@.take(i as int) =~= items@);
            }
            out.push(101u8);
        },
        Value::Dict(entries) => {
            out.push(100u8);
            let mut i: usize = 0;
            while i < entries.len()
                invariant
                    i <= entries@.len(),
                    out@ == start + seq![100u8] + dict_encoding(entries@.take(i as int)),
                    *v is Dict,
                    (*v)->Dict_0 == *entries,
                decreases entries@.len() - i,
            {
                proof {
                    lemma_dict_take_next(entries@, i as int);
                    assert(decreases_to!(*v => (*v)->Dict_0));
                    assert(decreases_to!(*entries => entries@));
                    assert(decreases_to!(entries@ => entries@[i as int]));
                    assert(decreases_to!(entries@[i as int] => entries@[i as int].1));
                    assert(decreases_to!(*v => entries@[i as int].1));
                }
                let d = decimal_bytes(entries[i].0.len() as u64);
                push_all(out, d.as_slice());
                out.push(58u8);
                push_all(out, entries[i].0.as_slice());
                encode_into(&entries[i].1, out);
                i = i + 1;
            }
            proof {
                assert(entries@.take(i as int) =~= entries@);
            }
            out.push(101u8);
        },
    }
}

/// The canonical encoding of `v`.
pub fn encode(v: &Value) -> (r: Vec<u8>)
    ensures
        r@ == encoding(*v),
{
    let mut out: Vec<u8> = Vec::new();
    encode_into(v, &mut out);
    proof {
        assert(out@ =~= encoding(*v));
    }
    out
}


// ---------------------------------------------------------------------------
// Decoding
// ---------------------------------------------------------------------------

/// What a decode starting at `pos` promises: on success the value read is
/// canonical, its encoding is exactly the bytes consumed, and no other
/// canonical value is encoded there with another length; on failure no
/// canonical value is encoded at `pos` at all (and nothing is said to
/// trail it).
pub open spec fn decode_at_post(b: Seq<u8>, pos: int, r: Result<(Value, usize), BencodeError>) -> bool {
    match r {
        Ok((v, end)) => {
            &&& pos < end <= b.len()
            &&& parses_at(b, pos, v)
            &&& encoding(v).len() == end - pos
            &&& forall|w: Value| #[trigger]
                parses_at(b, pos, w) ==> encoding(w).len() == end - pos && same_value(w, v)
        },
        Err(e) => e != BencodeError::TrailingData && forall|w: Value|
            !(#[trigger] parses_at(b, pos, w)),
    }
}

/// Index of the first `c` at or after `from`.
fn find_byte(b: &[u8], from: usize, c: u8) -> (r: Option<usize>)
    requires
        from <= b@.len(),
    ensures
        match r {
            Some(q) => {
                &&& from <= q < b@.len()
                &&& b@[q as int] == c
                &&& forall|i: int| from <= i < q ==> b@[i] != c
            },
            None => forall|i: int| from <= i < b@.len() ==> b@[i] != c,
        },
{
    let mut i = from;
    while i < b.len()
        invariant
            from <= i <= b@.len(),
            forall|j: int| from <= j < i ==> b@[j] != c,
        decreases b@.len() - i,
    {
        if b[i] == c {
            return Some(i);
        }
        i = i + 1;
    }
    None
}

/// Where `d ++ [c]` stands at `start` and `d` holds no `c`, the first `c`
/// from `start` on is at `start + |d|`.
proof fn lemma_first_stop(b: Seq<u8>, start: int, d: Seq<u8>, c: u8)
    requires
        0 <= start,
        start + d.len() < b.len(),
        b.subrange(start, start + d.len()) == d,
        b[start + d.len()] == c,
        forall|i: int| 0 <= i < d.len() ==> d[i] != c,
    ensures
        forall|i: int| start <= i < start + d.len() ==> b[i] != c,
{
    assert forall|i: int| start <= i < start + d.len() implies b[i] != c by {
        assert(b[i] == b.subrange(start, start + d.len())[i - start]);
    }
}

/// The pieces of a byte string's encoding found at `pos`.
proof fn lemma_bytes_parts(b: Seq<u8>, pos: int, w: Value)
    requires
        parses_at(b, pos, w),
        w is Bytes,
    ensures
        ({
            let x = w->Bytes_0@;
            let d = decimal(x.len());
            &&& pos + d.len() + 1 + x.len() <= b.len()
            &&& b.subrange(pos, pos + d.len()) == d
            &&& b[pos + d.len()] == 58
            &&& b.subrange(pos + d.len() + 1, pos + d.len() + 1 + x.len()) == x
            &&& forall|i: int| 0 <= i < d.len() ==> d[i] != 58
        }),
{
    let x = w->Bytes_0@;
    let d = decimal(x.len());
    assert(bytes_text(x) =~= d.push(58) + x);
    lemma_split(b, pos, d.push(58), x);
    assert(d + seq![58u8] =~= d.push(58));
    lemma_split(b, pos, d, seq![58u8]);
    assert(b.subrange(pos + d.len(), pos + d.len() + 1)[0] == b[pos + d.len()]);
    lemma_decimal_no_byte(x.len(), 58);
}

fn decode_bytes_at(b: &[u8], pos: usize) -> (r: Result<(Value, usize), BencodeError>)
    requires
        pos < b@.len(),
        is_digit(b@[pos as int]),
    ensures
        decode_at_post(b@, pos as int, r),
{
    let len = b.len();
    assert forall|w: Value| #[trigger] parses_at(b@, pos as int, w) implies w is Bytes by {
        lemma_first_byte(w);
        assert(b@[pos as int] == encoding(w)[0]);
    }
    let q = match find_byte(b, pos, 58) {
        Some(q) => q,
        None => {
            assert forall|w: Value| !(#[trigger] parses_at(b@, pos as int, w)) by {
                if parses_at(b@, pos as int, w) {
                    lemma_bytes_parts(b@, pos as int, w);
                }
            }
            return Err(BencodeError::UnexpectedEnd);
        },
    };
    assert forall|w: Value| #[trigger] parses_at(b@, pos as int, w) implies pos + decimal(
        w->Bytes_0@.len(),
    ).len() == q by {
        lemma_bytes_parts(b@, pos as int, w);
        lemma_first_stop(b@, pos as int, decimal(w->Bytes_0@.len()), 58);
    }
    let n = match parse_decimal(b, pos, q) {
        Some(n) => n,
        None => {
            assert forall|w: Value| !(#[trigger] parses_at(b@, pos as int, w)) by {
                if parses_at(b@, pos as int, w) {
                    lemma_bytes_parts(b@, pos as int, w);
                    lemma_decimal(w->Bytes_0@.len());
                }
            }
            return Err(BencodeError::BadLength);
        },
    };
    if n > (b.len() - q - 1) as u64 {
        assert forall|w: Value| !(#[trigger] parses_at(b@, pos as int, w)) by {
            if parses_at(b@, pos as int, w) {
                lemma_bytes_parts(b@, pos as int, w);
                lemma_decimal(w->Bytes_0@.len());
            }
        }
        return Err(BencodeError::BadLength);
    }
    let start = q + 1;
    let end = start + n as usize;
    let mut bytes: Vec<u8> = Vec::new();
    push_all(&mut bytes, &b[start..end]);
    let v = Value::Bytes(bytes);
    proof {
        lemma_decimal(n as nat);
        assert(b@.subrange(q as int, q + 1) =~= seq![58u8]);
        lemma_join(b@, pos as int, q as int, q + 1, decimal(n as nat), seq![58u8]);
        lemma_join(b@, pos as int, q + 1, end as int, decimal(n as nat) + seq![58u8], bytes@);
        assert(encoding(v) == bytes_text(bytes@));
        assert forall|w: Value| #[trigger] parses_at(b@, pos as int, w) implies encoding(w).len()
            == end - pos && same_value(w, v) by {
            lemma_bytes_parts(b@, pos as int, w);
            lemma_decimal(w->Bytes_0@.len());
            assert(b@.subrange(pos as int, q as int) == decimal(w->Bytes_0@.len()));
        }
    }
    Ok((v, end))
}

/// Integer texts are different for different integers.
proof fn lemma_int_text_inj(k: int, n: int)
    requires
        int_text(k) == int_text(n),
    ensures
        k == n,
{
    lemma_decimal((-k) as nat);
    lemma_decimal(k as nat);
    lemma_decimal((-n) as nat);
    lemma_decimal(n as nat);
    if k < 0 {
        assert(int_text(k)[0] == 45);
        if n >= 0 {
            assert(is_digit(int_text(n)[0]));
        }
        assert(int_text(k).drop_first() =~= decimal((-k) as nat));
        assert(int_text(n).drop_first() =~= decimal((-n) as nat));
    } else if n < 0 {
        assert(int_text(n)[0] == 45);
        assert(is_digit(int_text(k)[0]));
    }
}

proof fn lemma_int_parts(b: Seq<u8>, pos: int, w: Value)
    requires
        parses_at(b, pos, w),
        w is Int,
    ensures
        ({
            let t = int_text(w->Int_0 as int);
            &&& pos + 1 + t.len() < b.len()
            &&& b.subrange(pos + 1, pos + 1 + t.len()) == t
            &&& b[pos + 1 + t.len()] == 101
            &&& forall|i: int| 0 <= i < t.len() ==> t[i] != 101
        }),
{
    let n = w->Int_0 as int;
    let t = int_text(n);
    lemma_split(b, pos, seq![105u8] + t, seq![101u8]);
    lemma_split(b, pos, seq![105u8], t);
    assert(b.subrange(pos + 1 + t.len(), pos + 2 + t.len())[0] == b[pos + 1 + t.len()]);
    if n < 0 {
        lemma_decimal_no_byte((-n) as nat, 101);
        assert forall|i: int| 0 <= i < t.len() implies t[i] != 101 by {
            if i > 0 {
                assert(t[i] == decimal((-n) as nat)[i - 1]);
            }
        }
    } else {
        lemma_decimal_no_byte(n as nat, 101);
    }
}

fn decode_int_at(b: &[u8], pos: usize) -> (r: Result<(Value, usize), BencodeError>)
    requires
        pos < b@.len(),
        b@[pos as int] == 105,
    ensures
        decode_at_post(b@, pos as int, r),
{
    assert forall|w: Value| #[trigger] parses_at(b@, pos as int, w) implies w is Int by {
        lemma_first_byte(w);
        assert(b@[pos as int] == encoding(w)[0]);
        if w is Bytes {
            assert(is_digit(encoding(w)[0]));
        }
    }
    let len = b.len();
    let q = match find_byte(b, pos + 1, 101) {
        Some(q) => q,
        None => {
            assert forall|w: Value| !(#[trigger] parses_at(b@, pos as int, w)) by {
                if parses_at(b@, pos as int, w) {
                    lemma_int_parts(b@, pos as int, w);
                }
            }
            return Err(BencodeError::UnexpectedEnd);
        },
    };
    assert forall|w: Value| #[trigger] parses_at(b@, pos as int, w) implies pos + 1 + int_text(
        w->Int_0 as int,
    ).len() == q && b@.subrange(pos + 1, q as int) == int_text(w->Int_0 as int) by {
        lemma_int_parts(b@, pos as int, w);
        lemma_first_stop(b@, pos + 1, int_text(w->Int_0 as int), 101);
    }
    let n: i64;
    if q > pos + 1 && b[pos + 1] == 45 {
        let m = match parse_decimal(b, pos + 2, q) {
            Some(m) => m,
            None => {
                assert forall|w: Value| !(#[trigger] parses_at(b@, pos as int, w)) by {
                    if parses_at(b@, pos as int, w) {
                        let k = w->Int_0 as int;
                        lemma_decimal((-k) as nat);
                        lemma_decimal(k as nat);
                        assert(b@[pos + 1] == b@.subrange(pos + 1, q as int)[0]);
                        if k >= 0 {
                            assert(is_digit(int_text(k)[0]));
                        } else {
                            assert(b@.subrange(pos + 2, q as int) =~= b@.subrange(
                                pos + 1,
                                q as int,
                            ).drop_first());
                            assert(int_text(k).drop_first() =~= decimal((-k) as nat));
                        }
                    }
                }
                return Err(BencodeError::BadInteger);
            },
        };
        if m == 0 || m > 9223372036854775808u64 {
            assert forall|w: Value| !(#[trigger] parses_at(b@, pos as int, w)) by {
                if parses_at(b@, pos as int, w) {
                    let k = w->Int_0 as int;
                    lemma_decimal((-k) as nat);
                    lemma_decimal(k as nat);
                    assert(b@[pos + 1] == b@.subrange(pos + 1, q as int)[0]);
                    if k >= 0 {
                        assert(is_digit(int_text(k)[0]));
                    } else {
                        assert(b@.subrange(pos + 2, q as int) =~= b@.subrange(
                            pos + 1,
                            q as int,
                        ).drop_first());
                        assert(int_text(k).drop_first() =~= decimal((-k) as nat));
                    }
                }
            }
            return Err(BencodeError::BadInteger);
        }
        if m == 9223372036854775808u64 {
            n = i64::MIN;
        } else {
            n = -(m as i64);
        }
        proof {
            assert(b@.subrange(pos + 1, q as int) =~= seq![45u8] + b@.subrange(
                pos + 2,
                q as int,
            ));
            assert(int_text(n as int) == b@.subrange(pos + 1, q as int));
        }
    } else {
        let m = match parse_decimal(b, pos + 1, q) {
            Some(m) => m,
            None => {
                assert forall|w: Value| !(#[trigger] parses_at(b@, pos as int, w)) by {
                    if parses_at(b@, pos as int, w) {
                        let k = w->Int_0 as int;
                        lemma_decimal((-k) as nat);
                        lemma_decimal(k as nat);
                        if k < 0 {
                            assert(int_text(k)[0] == 45);
                            assert(b@[pos + 1] == b@.subrange(pos + 1, q as int)[0]);
                        }
                    }
                }
                return Err(BencodeError::BadInteger);
            },
        };
        if m > 9223372036854775807u64 {
            assert forall|w: Value| !(#[trigger] parses_at(b@, pos as int, w)) by {
                if parses_at(b@, pos as int, w) {
                    let k = w->Int_0 as int;
                    lemma_decimal((-k) as nat);
                    lemma_decimal(k as nat);
                    if k < 0 {
                        assert(int_text(k)[0] == 45);
                        assert(b@[pos + 1] == b@.subrange(pos + 1, q as int)[0]);
                    }
                }
            }
            return Err(BencodeError::BadInteger);
        }
        n = m as i64;
    }
    let v = Value::Int(n);
    proof {
        let t = b@.subrange(pos + 1, q as int);
        assert(b@.subrange(pos as int, pos + 1) =~= seq![105u8]);
        assert(b@.subrange(q as int, q + 1) =~= seq![101u8]);
        lemma_join(b@, pos as int, pos + 1, q as int, seq![105u8], t);
        lemma_join(b@, pos as int, q as int, q + 1, seq![105u8] + t, seq![101u8]);
        assert forall|w: Value| #[trigger] parses_at(b@, pos as int, w) implies same_value(w, v) by {
            lemma_int_text_inj(w->Int_0 as int, n as int);
        }
    }
    Ok((v, q + 1))
}


/// Raw byte comparison: `a` sorts strictly before `b`.
pub fn bytes_lt(a: &[u8], b: &[u8]) -> (r: bool)
    ensures
        r == lex_lt(a@, b@),
{
    let mut i: usize = 0;
    proof {
        assert(a@.skip(0) =~= a@);
        assert(b@.skip(0) =~= b@);
    }
    while i < a.len() && i < b.len() && a[i] == b[i]
        invariant
            i <= a@.len(),
            i <= b@.len(),
            lex_lt(a@, b@) == lex_lt(a@.skip(i as int), b@.skip(i as int)),
        decreases a@.len() - i,
    {
        proof {
            assert(a@.skip(i as int).drop_first() =~= a@.skip(i + 1));
            assert(b@.skip(i as int).drop_first() =~= b@.skip(i + 1));
        }
        i = i + 1;
    }
    proof {
        if i < a@.len() && i < b@.len() {
            assert(a@.skip(i as int)[0] == a@[i as int]);
            assert(b@.skip(i as int)[0] == b@[i as int]);
        }
    }
    if i == a.len() {
        i < b.len()
    } else if i == b.len() {
        false
    } else {
        a[i] < b[i]
    }
}

/// How far a list's encoding at some position has been matched: `k` items
/// whose encodings take `n` bytes.
pub open spec fn list_progress(w: Value, k: int, n: int) -> bool {
    &&& w is List
    &&& k <= w->List_0@.len()
    &&& list_encoding(w->List_0@.take(k)).len() == n
}

/// How far a dictionary's encoding has been matched: `k` entries taking
/// `n` bytes.
pub open spec fn dict_progress(w: Value, k: int, n: int) -> bool {
    &&& w is Dict
    &&& k <= w->Dict_0@.len()
    &&& dict_encoding(w->Dict_0@.take(k)).len() == n
}

proof fn lemma_list_step(b: Seq<u8>, pos: int, q: int, w: Value, k: int)
    requires
        parses_at(b, pos, w),
        0 <= k,
        list_progress(w, k, q - pos - 1),
    ensures
        ({
            let s = w->List_0@;
            ||| (k == s.len() && q < b.len() && b[q] == 101 && encoding(w).len() == q + 1 - pos)
            ||| (k < s.len() && q < b.len() && b[q] != 101 && parses_at(b, q, s[k]))
        }),
{
    let s = w->List_0@;
    let l = list_encoding(s);
    lemma_split(b, pos, seq![108u8] + l, seq![101u8]);
    lemma_split(b, pos, seq![108u8], l);
    assert(s.take(s.len() as int) =~= s);
    if k == s.len() {
        assert(b.subrange(pos + 1 + l.len(), pos + 2 + l.len())[0] == b[pos + 1 + l.len()]);
    } else {
        lemma_list_prefix(s, k + 1, s.len() as int);
        lemma_list_take_next(s, k);
        let p = list_encoding(s.take(k + 1));
        assert(b.subrange(pos + 1, pos + 1 + p.len()) =~= l.subrange(0, p.len() as int));
        lemma_split(b, pos + 1, list_encoding(s.take(k)), encoding(s[k]));
        lemma_first_byte(s[k]);
        assert(b[q] == encoding(s[k])[0]);
        if s[k] is Bytes {
            assert(is_digit(encoding(s[k])[0]));
        }
    }
}

proof fn lemma_dict_step(b: Seq<u8>, pos: int, q: int, w: Value, k: int)
    requires
        parses_at(b, pos, w),
        0 <= k,
        dict_progress(w, k, q - pos - 1),
    ensures
        ({
            let s = w->Dict_0@;
            ||| (k == s.len() && q < b.len() && b[q] == 101 && encoding(w).len() == q + 1 - pos)
            ||| (k < s.len() && q < b.len() && b[q] != 101
                && parses_at(b, q, Value::Bytes(s[k].0))
                && parses_at(b, q + bytes_text(s[k].0@).len(), s[k].1)
                && (k > 0 ==> lex_lt(s[k - 1].0@, s[k].0@)))
        }),
{
    let s = w->Dict_0@;
    let l = dict_encoding(s);
    lemma_split(b, pos, seq![100u8] + l, seq![101u8]);
    lemma_split(b, pos, seq![100u8], l);
    assert(s.take(s.len() as int) =~= s);
    if k == s.len() {
        assert(b.subrange(pos + 1 + l.len(), pos + 2 + l.len())[0] == b[pos + 1 + l.len()]);
    } else {
        lemma_dict_prefix(s, k + 1, s.len() as int);
        lemma_dict_take_next(s, k);
        let p = dict_encoding(s.take(k + 1));
        let kt = bytes_text(s[k].0@);
        assert(b.subrange(pos + 1, pos + 1 + p.len()) =~= l.subrange(0, p.len() as int));
        lemma_split(b, pos + 1, dict_encoding(s.take(k)) + kt, encoding(s[k].1));
        lemma_split(b, pos + 1, dict_encoding(s.take(k)), kt);
        let kv = Value::Bytes(s[k].0);
        assert(encoding(kv) == kt);
        lemma_first_byte(kv);
        assert(b[q] == encoding(kv)[0]);
        if k > 0 {
            assert(keys_ascending(s));
            assert(lex_lt(s[k - 1].0@, s[k].0@));
        }
    }
}

fn decode_list_at(b: &[u8], pos: usize) -> (r: Result<(Value, usize), BencodeError>)
    requires
        pos < b@.len(),
        b@[pos as int] == 108,
    ensures
        decode_at_post(b@, pos as int, r),
    decreases b@.len() - pos, 0nat,
{
    let len = b.len();
    assert forall|w: Value| #[trigger] parses_at(b@, pos as int, w) implies list_progress(
        w,
        0,
        0,
    ) by {
        lemma_first_byte(w);
        assert(b@[pos as int] == encoding(w)[0]);
        if w is Bytes {
            assert(is_digit(encoding(w)[0]));
        }
        assert(w->List_0@.take(0) =~= Seq::<Value>::empty());
    }
    let mut items: Vec<Value> = Vec::new();
    let mut q: usize = pos + 1;
    loop
        invariant
            len == b@.len(),
            pos < q <= len,
            b@[pos as int] == 108,
            b@.subrange(pos + 1, q as int) == list_encoding(items@),
            forall|i: int| 0 <= i < items@.len() ==> is_canonical(#[trigger] items@[i]),
            forall|w: Value| #[trigger]
                parses_at(b@, pos as int, w) ==> list_progress(w, items@.len() as int, q - pos - 1)
                    && same_items(w->List_0@, items@),
        decreases len - q,
    {
        if q >= len {
            assert forall|w: Value| !(#[trigger] parses_at(b@, pos as int, w)) by {
                if parses_at(b@, pos as int, w) {
                    lemma_list_step(b@, pos as int, q as int, w, items@.len() as int);
                }
            }
            return Err(BencodeError::UnexpectedEnd);
        }
        if b[q] == 101 {
            let ghost k = items@.len() as int;
            let v = Value::List(items);
            proof {
                assert(b@.subrange(q as int, q + 1) =~= seq![101u8]);
                assert(b@.subrange(pos as int, pos + 1) =~= seq![108u8]);
                lemma_join(b@, pos as int, pos + 1, q as int, seq![108u8], list_encoding(items@));
                lemma_join(
                    b@,
                    pos as int,
                    q as int,
                    q + 1,
                    seq![108u8] + list_encoding(items@),
                    seq![101u8],
                );
                assert forall|w: Value| #[trigger] parses_at(b@, pos as int, w) implies encoding(
                    w,
                ).len() == q + 1 - pos && same_value(w, v) by {
                    lemma_list_step(b@, pos as int, q as int, w, k);
                    assert forall|i: int| 0 <= i < w->List_0@.len() implies same_value(
                        #[trigger] w->List_0@[i],
                        v->List_0@[i],
                    ) by {
                        assert(same_items(w->List_0@, v->List_0@));
                    }
                }
            }
            return Ok((v, q + 1));
        }
        let ghost k = items@.len() as int;
        match decode_at(b, q) {
            Err(e) => {
                assert forall|w: Value| !(#[trigger] parses_at(b@, pos as int, w)) by {
                    if parses_at(b@, pos as int, w) {
                        lemma_list_step(b@, pos as int, q as int, w, k);
                    }
                }
                return Err(e);
            },
            Ok((v, e)) => {
                let ghost old_items = items@;
                items.push(v);
                proof {
                    assert(items@.subrange(0, k) =~= old_items);
                    lemma_join(b@, pos + 1, q as int, e as int, list_encoding(old_items), encoding(v));
                    assert forall|w: Value| #[trigger] parses_at(b@, pos as int, w) implies list_progress(
                        w,
                        k + 1,
                        e - pos - 1,
                    ) && same_items(w->List_0@, items@) by {
                        lemma_list_step(b@, pos as int, q as int, w, k);
                        lemma_list_take_next(w->List_0@, k);
                        assert(parses_at(b@, q as int, w->List_0@[k]));
                        assert forall|j: int| 0 <= j < items@.len() implies same_value(
                            #[trigger] w->List_0@[j],
                            items@[j],
                        ) by {
                            if j < k {
                                assert(items@[j] == old_items[j]);
                                assert(same_items(w->List_0@, old_items));
                            }
                        }
                    }
                }
                q = e;
            },
        }
    }
}

fn decode_dict_at(b: &[u8], pos: usize) -> (r: Result<(Value, usize), BencodeError>)
    requires
        pos < b@.len(),
        b@[pos as int] == 100,
    ensures
        decode_at_post(b@, pos as int, r),
    decreases b@.len() - pos, 0nat,
{
    let len = b.len();
    assert forall|w: Value| #[trigger] parses_at(b@, pos as int, w) implies dict_progress(
        w,
        0,
        0,
    ) by {
        lemma_first_byte(w);
        assert(b@[pos as int] == encoding(w)[0]);
        if w is Bytes {
            assert(is_digit(encoding(w)[0]));
        }
        assert(w->Dict_0@.take(0) =~= Seq::<(Vec<u8>, Value)>::empty());
    }
    let mut entries: Vec<(Vec<u8>, Value)> = Vec::new();
    let mut q: usize = pos + 1;
    loop
        invariant
            len == b@.len(),
            pos < q <= len,
            b@[pos as int] == 100,
            b@.subrange(pos + 1, q as int) == dict_encoding(entries@),
            keys_ascending(entries@),
            forall|i: int| 0 <= i < entries@.len() ==> is_canonical(#[trigger] entries@[i].1),
            forall|w: Value| #[trigger]
                parses_at(b@, pos as int, w) ==> dict_progress(w, entries@.len() as int, q - pos - 1)
                    && (entries@.len() > 0 ==> w->Dict_0@[entries@.len() - 1].0@
                        == entries@[entries@.len() - 1].0@) && same_entries(w->Dict_0@, entries@),
        decreases len - q,
    {
        let ghost k = entries@.len() as int;
        if q >= len {
            assert forall|w: Value| !(#[trigger] parses_at(b@, pos as int, w)) by {
                if parses_at(b@, pos as int, w) {
                    lemma_dict_step(b@, pos as int, q as int, w, k);
                }
            }
            return Err(BencodeError::UnexpectedEnd);
        }
        if b[q] == 101 {
            let ghost ents = entries@;
            let v = Value::Dict(entries);
            proof {
                assert(b@.subrange(q as int, q + 1) =~= seq![101u8]);
                assert(b@.subrange(pos as int, pos + 1) =~= seq![100u8]);
                lemma_join(b@, pos as int, pos + 1, q as int, seq![100u8], dict_encoding(entries@));
                lemma_join(
                    b@,
                    pos as int,
                    q as int,
                    q + 1,
                    seq![100u8] + dict_encoding(entries@),
                    seq![101u8],
                );
                assert forall|w: Value| #[trigger] parses_at(b@, pos as int, w) implies encoding(
                    w,
                ).len() == q + 1 - pos && same_value(w, v) by {
                    lemma_dict_step(b@, pos as int, q as int, w, k);
                    assert(v->Dict_0@ == ents);
                    assert(w->Dict_0@.len() == ents.len());
                    assert forall|i: int| #![trigger w->Dict_0@[i]] 0 <= i < w->Dict_0@.len() implies w->Dict_0@[i].0@
                        == v->Dict_0@[i].0@ && same_value(
                        w->Dict_0@[i].1,
                        v->Dict_0@[i].1,
                    ) by {
                        assert(v->Dict_0@ == ents);
                        assert(same_entries(w->Dict_0@, ents));
                        assert(same_value(w->Dict_0@[i].1, ents[i].1));
                        assert(w->Dict_0@[i].0@ == ents[i].0@);
                    }
                }
            }
            return Ok((v, q + 1));
        }
        let (kv, e1) = match decode_at(b, q) {
            Err(e) => {
                assert forall|w: Value| !(#[trigger] parses_at(b@, pos as int, w)) by {
                    if parses_at(b@, pos as int, w) {
                        lemma_dict_step(b@, pos as int, q as int, w, k);
                    }
                }
                return Err(e);
            },
            Ok(p) => p,
        };
        assert forall|w: Value| #[trigger] parses_at(b@, pos as int, w) implies kv is Bytes
            && kv->Bytes_0@ == w->Dict_0@[k].0@ && q + bytes_text(w->Dict_0@[k].0@).len() == e1 by {
            lemma_dict_step(b@, pos as int, q as int, w, k);
            let kw = Value::Bytes(w->Dict_0@[k].0);
            assert(parses_at(b@, q as int, kw));
            assert(encoding(kv) == encoding(kw));
            lemma_bytes_text_inj(kv, w->Dict_0@[k].0@);
        }
        let key = match kv {
            Value::Bytes(key) => key,
            _ => {
                return Err(BencodeError::NonStringKey);
            },
        };
        if entries.len() > 0 && !bytes_lt(entries[entries.len() - 1].0.as_slice(), key.as_slice()) {
            assert forall|w: Value| !(#[trigger] parses_at(b@, pos as int, w)) by {
                if parses_at(b@, pos as int, w) {
                    lemma_dict_step(b@, pos as int, q as int, w, k);
                }
            }
            return Err(BencodeError::UnsortedKeys);
        }
        let (val, e2) = match decode_at(b, e1) {
            Err(e) => {
                assert forall|w: Value| !(#[trigger] parses_at(b@, pos as int, w)) by {
                    if parses_at(b@, pos as int, w) {
                        lemma_dict_step(b@, pos as int, q as int, w, k);
                    }
                }
                return Err(e);
            },
            Ok(p) => p,
        };
        let ghost old_entries = entries@;
        entries.push((key, val));
        proof {
            assert(entries@.subrange(0, k) =~= old_entries);
            assert(encoding(Value::Bytes(key)) == bytes_text(key@));
            lemma_join(b@, pos + 1, q as int, e1 as int, dict_encoding(old_entries), bytes_text(key@));
            lemma_join(
                b@,
                pos + 1,
                e1 as int,
                e2 as int,
                dict_encoding(old_entries) + bytes_text(key@),
                encoding(val),
            );
            assert forall|i: int| #![trigger entries@[i]] 0 <= i < entries@.len() - 1 implies lex_lt(
                entries@[i].0@,
                entries@[i + 1].0@,
            ) by {
                assert(entries@[i] == old_entries[i]);
                if i < k - 1 {
                    assert(old_entries[i + 1] == entries@[i + 1]);
                }
            }
            assert forall|w: Value| #[trigger] parses_at(b@, pos as int, w) implies dict_progress(
                w,
                k + 1,
                e2 - pos - 1,
            ) && w->Dict_0@[k].0@ == entries@[k].0@ && same_entries(w->Dict_0@, entries@) by {
                lemma_dict_step(b@, pos as int, q as int, w, k);
                lemma_dict_take_next(w->Dict_0@, k);
                assert(parses_at(b@, e1 as int, w->Dict_0@[k].1));
                assert forall|j: int| #![trigger w->Dict_0@[j]] 0 <= j < entries@.len() implies w->Dict_0@[j].0@
                    == entries@[j].0@ && same_value(w->Dict_0@[j].1, entries@[j].1) by {
                    if j < k {
                        assert(entries@[j] == old_entries[j]);
                        assert(same_entries(w->Dict_0@, old_entries));
                        assert(same_value(w->Dict_0@[j].1, old_entries[j].1));
                        assert(w->Dict_0@[j].0@ == old_entries[j].0@);
                    } else {
                        assert(entries@[j] == (key, val));
                        assert(same_value(w->Dict_0@[k].1, val));
                    }
                }
                assert(same_entries(w->Dict_0@, entries@));
            }
        }
        q = e2;
    }
}

/// Decodes one value starting at `pos`.
fn decode_at(b: &[u8], pos: usize) -> (r: Result<(Value, usize), BencodeError>)
    requires
        pos <= b@.len(),
    ensures
        decode_at_post(b@, pos as int, r),
    decreases b@.len() - pos, 1nat,
{
    if pos >= b.len() {
        assert forall|w: Value| !(#[trigger] parses_at(b@, pos as int, w)) by {
            lemma_first_byte(w);
        }
        return Err(BencodeError::UnexpectedEnd);
    }
    let c = b[pos];
    if 48 <= c && c <= 57 {
        decode_bytes_at(b, pos)
    } else if c == 105 {
        decode_int_at(b, pos)
    } else if c == 108 {
        decode_list_at(b, pos)
    } else if c == 100 {
        decode_dict_at(b, pos)
    } else {
        assert forall|w: Value| !(#[trigger] parses_at(b@, pos as int, w)) by {
            if parses_at(b@, pos as int, w) {
                lemma_first_byte(w);
                assert(b@[pos as int] == encoding(w)[0]);
            }
        }
        Err(BencodeError::UnexpectedByte)
    }
}


/// Decodes the value at the start of `b` and returns it with the number of
/// bytes it takes; bytes after it are left alone.
pub fn decode_prefix(b: &[u8]) -> (r: Result<(Value, usize), BencodeError>)
    ensures
        decode_at_post(b@, 0, r),
{
    decode_at(b, 0)
}

/// What `decode` promises: it succeeds exactly on canonical encodings, the
/// value it returns encodes back to the input, and every canonical value
/// with that encoding is the same tree.
pub open spec fn decode_post(b: Seq<u8>, r: Result<Value, BencodeError>) -> bool {
    match r {
        Ok(v) => {
            &&& is_canonical(v)
            &&& encoding(v) == b
            &&& forall|w: Value| #[trigger]
                is_canonical(w) && encoding(w) == b ==> same_value(w, v)
        },
        Err(_) => !is_canonical_encoding(b),
    }
}

/// Decodes `b`, which must be exactly one canonical value. Bytes after a
/// complete value are `TrailingData`.
pub fn decode(b: &[u8]) -> (r: Result<Value, BencodeError>)
    ensures
        decode_post(b@, r),
        r == Err::<Value, BencodeError>(BencodeError::TrailingData) <==> exists|v: Value|
            #[trigger] parses_at(b@, 0, v) && encoding(v).len() < b@.len(),
{
    match decode_at(b, 0) {
        Ok((v, end)) => {
            if end < b.len() {
                assert forall|w: Value| is_canonical(w) implies encoding(w) != b@ by {
                    if encoding(w) == b@ {
                        assert(b@.subrange(0, b@.len() as int) =~= b@);
                        assert(parses_at(b@, 0, w));
                    }
                }
                Err(BencodeError::TrailingData)
            } else {
                proof {
                    assert(b@.subrange(0, b@.len() as int) =~= b@);
                    assert forall|w: Value| #[trigger]
                        is_canonical(w) && encoding(w) == b@ implies same_value(w, v) by {
                        assert(parses_at(b@, 0, w));
                    }
                }
                Ok(v)
            }
        },
        Err(e) => {
            assert forall|w: Value| is_canonical(w) implies encoding(w) != b@ by {
                if encoding(w) == b@ {
                    assert(b@.subrange(0, b@.len() as int) =~= b@);
                    assert(parses_at(b@, 0, w));
                }
            }
            Err(e)
        },
    }
}

/// Every canonical input decodes, and encoding what was decoded gives the
/// input back byte for byte.
pub proof fn lemma_encode_after_decode(x: Seq<u8>, r: Result<Value, BencodeError>)
    requires
        is_canonical_encoding(x),
        decode_post(x, r),
    ensures
        r is Ok,
        encoding(r->Ok_0) == x,
{
}

/// Encoding a canonical value and decoding the result succeeds, with a value
/// of the same encoding.
pub proof fn lemma_decode_after_encode(v: Value, r: Result<Value, BencodeError>)
    requires
        is_canonical(v),
        decode_post(encoding(v), r),
    ensures
        r is Ok,
        encoding(r->Ok_0) == encoding(v),
{
}


// ---------------------------------------------------------------------------
// Reading dictionaries
// ---------------------------------------------------------------------------

/// A fresh vector holding the bytes of `b`.
pub fn copy_bytes(b: &[u8]) -> (r: Vec<u8>)
    ensures
        r@ == b@,
{
    let mut r: Vec<u8> = Vec::new();
    push_all(&mut r, b);
    proof {
        assert(r@ =~= b@);
    }
    r
}

/// Byte-for-byte equality.
pub fn bytes_eq(a: &[u8], b: &[u8]) -> (r: bool)
    ensures
        r == (a@ == b@),
{
    if a.len() != b.len() {
        return false;
    }
    let mut i: usize = 0;
    while i < a.len()
        invariant
            i <= a@.len(),
            a@.len() == b@.len(),
            a@.take(i as int) == b@.take(i as int),
        decreases a@.len() - i,
    {
        if a[i] != b[i] {
            return false;
        }
        i = i + 1;
        proof {
            assert(a@.take(i as int) =~= a@.take(i - 1).push(a@[i - 1]));
            assert(b@.take(i as int) =~= b@.take(i - 1).push(b@[i - 1]));
        }
    }
    proof {
        assert(a@.take(i as int) =~= a@);
        assert(b@.take(i as int) =~= b@);
    }
    true
}

/// The value of the first entry whose key is `key`.
pub open spec fn lookup(s: Seq<(Vec<u8>, Value)>, key: Seq<u8>) -> Option<Value>
    decreases s.len(),
{
    if s.len() == 0 {
        None
    } else if s[0].0@ == key {
        Some(s[0].1)
    } else {
        lookup(s.drop_first(), key)
    }
}

/// The byte string stored under `key`, if that entry is a byte string.
pub open spec fn bytes_field(s: Seq<(Vec<u8>, Value)>, key: Seq<u8>) -> Option<Seq<u8>> {
    match lookup(s, key) {
        Some(Value::Bytes(b)) => Some(b@),
        _ => None,
    }
}

/// The integer stored under `key`, if that entry is an integer.
pub open spec fn int_field(s: Seq<(Vec<u8>, Value)>, key: Seq<u8>) -> Option<int> {
    match lookup(s, key) {
        Some(Value::Int(n)) => Some(n as int),
        _ => None,
    }
}

/// The value stored under `key` in a dictionary's entries.
pub fn dict_get<'a>(entries: &'a Vec<(Vec<u8>, Value)>, key: &[u8]) -> (r: Option<&'a Value>)
    ensures
        match r {
            Some(x) => lookup(entries@, key@) == Some(*x),
            None => lookup(entries@, key@) is None,
        },
{
    let mut i: usize = 0;
    proof {
        assert(entries@.skip(0) =~= entries@);
    }
    while i < entries.len()
        invariant
            i <= entries@.len(),
            lookup(entries@, key@) == lookup(entries@.skip(i as int), key@),
        decreases entries@.len() - i,
    {
        proof {
            assert(entries@.skip(i as int)[0] == entries@[i as int]);
            assert(entries@.skip(i as int).drop_first() =~= entries@.skip(i + 1));
        }
        if bytes_eq(entries[i].0.as_slice(), key) {
            return Some(&entries[i].1);
        }
        i = i + 1;
    }
    None
}


/// Lookups in dictionaries with the same entries find the same values.
pub proof fn lemma_lookup_same(s1: Seq<(Vec<u8>, Value)>, s2: Seq<(Vec<u8>, Value)>, key: Seq<u8>)
    requires
        s1.len() == s2.len(),
        same_entries(s1, s2),
    ensures
        (lookup(s1, key) is None) == (lookup(s2, key) is None),
        lookup(s1, key) is Some ==> same_value(lookup(s1, key)->Some_0, lookup(s2, key)->Some_0),
    decreases s1.len(),
{
    if s1.len() > 0 {
        assert(s1[0] == s1[0]);
        assert(same_entries(s1.drop_first(), s2.drop_first())) by {
            assert forall|j: int| #![trigger s1.drop_first()[j]] 0 <= j < s2.drop_first().len() implies s1.drop_first()[j].0@
                == s2.drop_first()[j].0@ && same_value(
                s1.drop_first()[j].1,
                s2.drop_first()[j].1,
            ) by {
                assert(s1.drop_first()[j] == s1[j + 1]);
                assert(s2.drop_first()[j] == s2[j + 1]);
            }
        }
        lemma_lookup_same(s1.drop_first(), s2.drop_first(), key);
    }
}

/// The same tree has the same encoding.
pub proof fn lemma_same_encoding(a: Value, b: Value)
    requires
        same_value(a, b),
    ensures
        encoding(a) == encoding(b),
    decreases a, 1nat, 0int,
{
    match a {
        Value::List(xs) => {
            lemma_same_list_prefix(a, b, xs@.len() as int);
            assert(xs@.take(xs@.len() as int) =~= xs@);
            assert(b->List_0@.take(xs@.len() as int) =~= b->List_0@);
        },
        Value::Dict(xs) => {
            lemma_same_dict_prefix(a, b, xs@.len() as int);
            assert(xs@.take(xs@.len() as int) =~= xs@);
            assert(b->Dict_0@.take(xs@.len() as int) =~= b->Dict_0@);
        },
        _ => {},
    }
}

proof fn lemma_same_list_prefix(a: Value, b: Value, k: int)
    requires
        same_value(a, b),
        a is List,
        0 <= k <= a->List_0@.len(),
    ensures
        list_encoding(a->List_0@.take(k)) == list_encoding(b->List_0@.take(k)),
    decreases a, 0nat, k,
{
    let xs = a->List_0@;
    let ys = b->List_0@;
    if k > 0 {
        lemma_same_list_prefix(a, b, k - 1);
        assert(decreases_to!(a => a->List_0));
        assert(decreases_to!(a->List_0 => xs));
        assert(decreases_to!(xs => xs[k - 1]));
        assert(same_value(xs[k - 1], ys[k - 1]));
        lemma_same_encoding(xs[k - 1], ys[k - 1]);
        lemma_list_take_next(xs, k - 1);
        lemma_list_take_next(ys, k - 1);
    } else {
        assert(xs.take(0) =~= Seq::<Value>::empty());
        assert(ys.take(0) =~= Seq::<Value>::empty());
    }
}

proof fn lemma_same_dict_prefix(a: Value, b: Value, k: int)
    requires
        same_value(a, b),
        a is Dict,
        0 <= k <= a->Dict_0@.len(),
    ensures
        dict_encoding(a->Dict_0@.take(k)) == dict_encoding(b->Dict_0@.take(k)),
    decreases a, 0nat, k,
{
    let xs = a->Dict_0@;
    let ys = b->Dict_0@;
    if k > 0 {
        lemma_same_dict_prefix(a, b, k - 1);
        assert(decreases_to!(a => a->Dict_0));
        assert(decreases_to!(a->Dict_0 => xs));
        assert(decreases_to!(xs => xs[k - 1]));
        assert(decreases_to!(xs[k - 1] => xs[k - 1].1));
        assert(xs[k - 1] == xs[k - 1]);
        assert(same_value(xs[k - 1].1, ys[k - 1].1));
        lemma_same_encoding(xs[k - 1].1, ys[k - 1].1);
        lemma_dict_take_next(xs, k - 1);
        lemma_dict_take_next(ys, k - 1);
    } else {
        assert(xs.take(0) =~= Seq::<(Vec<u8>, Value)>::empty());
        assert(ys.take(0) =~= Seq::<(Vec<u8>, Value)>::empty());
    }
}


/// A value found by a lookup is one of the entries.
pub proof fn lemma_lookup_index(s: Seq<(Vec<u8>, Value)>, key: Seq<u8>) -> (i: int)
    requires
        lookup(s, key) is Some,
    ensures
        0 <= i < s.len(),
        s[i].1 == lookup(s, key)->Some_0,
    decreases s.len(),
{
    if s[0].0@ == key {
        0
    } else {
        let j = lemma_lookup_index(s.drop_first(), key);
        assert(s.drop_first()[j] == s[j + 1]);
        j + 1
    }
}

/// The encoding of a dictionary's value stands, unchanged, inside the
/// dictionary's encoding.
pub proof fn lemma_entry_span(s: Seq<(Vec<u8>, Value)>, i: int) -> (start: int)
    requires
        0 <= i < s.len(),
    ensures
        0 <= start,
        start + encoding(s[i].1).len() <= dict_encoding(s).len(),
        dict_encoding(s).subrange(start, start + encoding(s[i].1).len()) == encoding(s[i].1),
{
    lemma_dict_prefix(s, i + 1, s.len() as int);
    lemma_dict_take_next(s, i);
    assert(s.take(s.len() as int) =~= s);
    let p = dict_encoding(s.take(i)) + bytes_text(s[i].0@);
    let e = encoding(s[i].1);
    let whole = dict_encoding(s);
    let pre = dict_encoding(s.take(i + 1));
    assert(pre == p + e);
    assert(whole.subrange(0, pre.len() as int) == pre);
    assert(whole.subrange(p.len() as int, (p.len() + e.len()) as int) =~= pre.subrange(
        p.len() as int,
        (p.len() + e.len()) as int,
    ));
    assert(pre.subrange(p.len() as int, (p.len() + e.len()) as int) =~= e);
    p.len() as int
}

} // verus!
