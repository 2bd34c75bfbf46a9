//! Text helpers: hexadecimal, percent and decimal renderings, UTF-8 checks,
//! and the string operations that the rest of the library builds on.

use vstd::prelude::*;
use vstd::utf8::{decode_utf8, encode_utf8, valid_utf8};
use crate::digits::{decimal, decimal_bytes};

verus! {

/// The lowercase hexadecimal digit for `d < 16`.
pub open spec fn hex_digit(d: u8) -> char {
    if d < 10 {
        ((48 + d) as u8) as char
    } else {
        ((87 + d) as u8) as char
    }
}

/// Two lowercase hex digits per byte, high nibble first.
pub open spec fn hex_text(b: Seq<u8>) -> Seq<char>
    decreases b.len(),
{
    if b.len() == 0 {
        Seq::empty()
    } else {
        hex_text(b.drop_last()) + seq![hex_digit(b.last() / 16), hex_digit(b.last() % 16)]
    }
}

/// `%xx` for every byte, lowercase hex.
pub open spec fn percent_text(b: Seq<u8>) -> Seq<char>
    decreases b.len(),
{
    if b.len() == 0 {
        Seq::empty()
    } else {
        percent_text(b.drop_last()) + seq!['%'] + hex_text(seq![b.last()])
    }
}

/// The decimal rendering of `n` as characters.
pub open spec fn decimal_chars(n: nat) -> Seq<char> {
    decimal(n).map_values(|c: u8| c as char)
}

/// The contents of each pair of strings.
pub open spec fn pairs_view(p: Seq<(String, String)>) -> Seq<(Seq<char>, Seq<char>)> {
    p.map_values(|x: (String, String)| (x.0@, x.1@))
}

/// An uppercase hexadecimal digit for `d < 16`.
pub open spec fn upper_hex_digit(d: u8) -> char {
    if d < 10 {
        ((48 + d) as u8) as char
    } else {
        ((55 + d) as u8) as char
    }
}

/// Bytes that form encoding keeps as they are: `*-._`, digits and letters.
pub open spec fn form_unchanged(c: u8) -> bool {
    c == 42 || c == 45 || c == 46 || c == 95 || (48 <= c <= 57) || (65 <= c <= 90) || (97
        <= c <= 122)
}

/// One byte of form encoding: kept, `+` for a space, else `%XX`.
pub open spec fn form_byte(c: u8) -> Seq<char> {
    if form_unchanged(c) {
        seq![c as char]
    } else if c == 32 {
        seq!['+']
    } else {
        seq!['%', upper_hex_digit(c / 16), upper_hex_digit(c % 16)]
    }
}

/// Form encoding of a byte string.
pub open spec fn form_bytes(b: Seq<u8>) -> Seq<char>
    decreases b.len(),
{
    if b.len() == 0 {
        Seq::empty()
    } else {
        form_bytes(b.drop_last()) + form_byte(b.last())
    }
}

/// Form encoding of text: of its UTF-8 bytes.
pub open spec fn form_text(s: Seq<char>) -> Seq<char> {
    form_bytes(encode_utf8(s))
}

/// `application/x-www-form-urlencoded` serialisation of key/value pairs:
/// `key=value` for each pair, joined by `&`.
pub open spec fn form_urlencoded(pairs: Seq<(Seq<char>, Seq<char>)>) -> Seq<char>
    decreases pairs.len(),
{
    if pairs.len() == 0 {
        Seq::empty()
    } else {
        let p = pairs.last();
        let item = form_text(p.0) + seq!['='] + form_text(p.1);
        if pairs.len() == 1 {
            item
        } else {
            form_urlencoded(pairs.drop_last()) + seq!['&'] + item
        }
    }
}

/// Relies on `hex::encode`: two lowercase hex digits for each byte, high
/// nibble first.
#[verifier::external_body]
pub(crate) fn to_hex(b: &[u8]) -> (r: String)
    ensures
        r@ == hex_text(b@),
{
    hex::encode(b)
}

/// Relies on `serde_urlencoded::to_string` applied to a sequence of string
/// pairs: it never fails on them, and writes each pair as `key=value` through
/// `form_urlencoded`'s byte serialiser (UTF-8 bytes; `*-._`, digits and
/// letters kept, space as `+`, other bytes as `%XX`), joined by `&`.
#[verifier::external_body]
pub(crate) fn form_encode(pairs: &Vec<(String, String)>) -> (r: Option<String>)
    ensures
        r is Some,
        r matches Some(s) ==> s@ == form_urlencoded(pairs_view(pairs@)),
{
    serde_urlencoded::to_string(pairs).ok()
}

/// Relies on `std::str::from_utf8`: it succeeds exactly on valid UTF-8, and
/// the text then holds the characters that the bytes encode.
#[verifier::external_body]
pub(crate) fn utf8_chars(b: &[u8]) -> (r: Option<Vec<char>>)
    ensures
        r is Some <==> valid_utf8(b@),
        r matches Some(cs) ==> cs@ == decode_utf8(b@),
{
    match std::str::from_utf8(b) {
        Ok(s) => Some(s.chars().collect()),
        Err(_) => None,
    }
}

/// Relies on `String::push`: appends one character.
#[verifier::external_body]
pub(crate) fn push_char(s: &mut String, c: char)
    ensures
        final(s)@ == old(s)@.push(c),
{
    s.push(c)
}

/// A string holding the characters of `cs`.
pub fn string_from_chars(cs: &Vec<char>) -> (r: String)
    ensures
        r@ == cs@,
{
    let mut r = String::new();
    let mut i: usize = 0;
    while i < cs.len()
        invariant
            i <= cs@.len(),
            r@ == cs@.take(i as int),
        decreases cs@.len() - i,
    {
        push_char(&mut r, cs[i]);
        i = i + 1;
        proof {
            assert(cs@.take(i as int) =~= cs@.take(i - 1).push(cs@[i - 1]));
        }
    }
    proof {
        assert(cs@.take(i as int) =~= cs@);
    }
    r
}

/// The text of UTF-8 bytes, if they are valid UTF-8.
pub fn utf8_string(b: &[u8]) -> (r: Option<String>)
    ensures
        r is Some <==> valid_utf8(b@),
        r matches Some(s) ==> s@ == decode_utf8(b@),
{
    match utf8_chars(b) {
        Some(cs) => Some(string_from_chars(&cs)),
        None => None,
    }
}

/// Appends the decimal rendering of `n`.
pub fn push_decimal(s: &mut String, n: u64)
    ensures
        final(s)@ == old(s)@ + decimal_chars(n as nat),
{
    let ghost start = s@;
    let d = decimal_bytes(n);
    let mut i: usize = 0;
    while i < d.len()
        invariant
            i <= d@.len(),
            d@ == decimal(n as nat),
            s@ == start + decimal_chars(n as nat).take(i as int),
        decreases d@.len() - i,
    {
        push_char(s, d[i] as char);
        i = i + 1;
        proof {
            assert(decimal_chars(n as nat).take(i as int) =~= decimal_chars(n as nat).take(i - 1).push(
                d@[i - 1] as char,
            ));
        }
    }
    proof {
        assert(decimal_chars(n as nat).take(i as int) =~= decimal_chars(n as nat));
    }
}

/// Percent-encodes every byte as `%xx`, as a tracker query expects the raw
/// info hash.
pub fn urlencode(t: &[u8]) -> (r: String)
    ensures
        r@ == percent_text(t@),
{
    let mut encoded = String::new();
    let mut i: usize = 0;
    while i < t.len()
        invariant
            i <= t@.len(),
            encoded@ == percent_text(t@.take(i as int)),
        decreases t@.len() - i,
    {
        push_char(&mut encoded, '%');
        let h = to_hex(&t[i..i + 1]);
        encoded.append(h.as_str());
        proof {
            assert(t@.subrange(i as int, i + 1) =~= seq![t@[i as int]]);
            assert(t@.take(i + 1).drop_last() =~= t@.take(i as int));
        }
        i = i + 1;
    }
    proof {
        assert(t@.take(i as int) =~= t@);
    }
    encoded
}

} // verus!
