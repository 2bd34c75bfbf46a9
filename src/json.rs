//! Rendering of bencode values as compact JSON: byte strings as strings
//! (they must be UTF-8), integers as numbers, lists as arrays and
//! dictionaries as objects.

use vstd::prelude::*;
use vstd::utf8::{decode_utf8, valid_utf8};
use crate::bencode::{
    decode, decode_post, encoding, is_canonical, is_canonical_encoding, same_value, BencodeError,
    Value,
};
use crate::text::{decimal_chars, hex_digit, push_char, push_decimal, utf8_chars};

verus! {

/// The JSON escape of one character inside a string.
pub open spec fn escape_char(c: char) -> Seq<char> {
    if c == '"' {
        seq!['\\', '"']
    } else if c == '\\' {
        seq!['\\', '\\']
    } else if c == '\n' {
        seq!['\\', 'n']
    } else if c == '\r' {
        seq!['\\', 'r']
    } else if c == '\t' {
        seq!['\\', 't']
    } else if c == '\u{8}' {
        seq!['\\', 'b']
    } else if c == '\u{c}' {
        seq!['\\', 'f']
    } else if (c as u32) < 32 {
        seq!['\\', 'u', '0', '0', hex_digit(((c as u32) / 16) as u8), hex_digit(((c as u32) % 16) as u8)]
    } else {
        seq![c]
    }
}

/// The escapes of every character of a string's contents.
pub open spec fn escape_text(s: Seq<char>) -> Seq<char>
    decreases s.len(),
{
    if s.len() == 0 {
        Seq::empty()
    } else {
        escape_text(s.drop_last()) + escape_char(s.last())
    }
}

/// A JSON string literal.
pub open spec fn json_string(s: Seq<char>) -> Seq<char> {
    seq!['"'] + escape_text(s) + seq!['"']
}

/// A JSON string literal for UTF-8 bytes, if they are UTF-8.
pub open spec fn json_bytes(b: Seq<u8>) -> Option<Seq<char>> {
    if valid_utf8(b) {
        Some(json_string(decode_utf8(b)))
    } else {
        None
    }
}

/// An integer as a JSON number.
pub open spec fn json_int(n: int) -> Seq<char> {
    if n < 0 {
        seq!['-'] + decimal_chars((-n) as nat)
    } else {
        decimal_chars(n as nat)
    }
}

/// The JSON text of a value; `None` when a byte string in it is not UTF-8.
pub open spec fn json_of(v: Value) -> Option<Seq<char>>
    decreases v,
{
    match v {
        Value::Bytes(b) => json_bytes(b@),
        Value::Int(n) => Some(json_int(n as int)),
        Value::List(items) => match json_items(items@) {
            Some(t) => Some(seq!['['] + t + seq![']']),
            None => None,
        },
        Value::Dict(entries) => match json_members(entries@) {
            Some(t) => Some(seq!['{'] + t + seq!['}']),
            None => None,
        },
    }
}

/// Array elements separated by commas.
pub open spec fn json_items(s: Seq<Value>) -> Option<Seq<char>>
    decreases s,
{
    if s.len() == 0 {
        Some(Seq::empty())
    } else {
        match (json_items(s.subrange(0, s.len() - 1)), json_of(s[s.len() - 1])) {
            (Some(a), Some(b)) => Some(
                if s.len() == 1 {
                    b
                } else {
                    a + seq![','] + b
                },
            ),
            _ => None,
        }
    }
}

/// Object members `"key":value` separated by commas.
pub open spec fn json_members(s: Seq<(Vec<u8>, Value)>) -> Option<Seq<char>>
    decreases s,
{
    if s.len() == 0 {
        Some(Seq::empty())
    } else {
        match (
            json_members(s.subrange(0, s.len() - 1)),
            json_bytes(s[s.len() - 1].0@),
            json_of(s[s.len() - 1].1),
        ) {
            (Some(a), Some(k), Some(b)) => Some(
                if s.len() == 1 {
                    k + seq![':'] + b
                } else {
                    a + seq![','] + k + seq![':'] + b
                },
            ),
            _ => None,
        }
    }
}

fn hex_char(d: u8) -> (c: char)
    requires
        d < 16,
    ensures
        c == hex_digit(d),
{
    if d < 10 {
        (48 + d) as char
    } else {
        (87 + d) as char
    }
}

fn push_escaped(out: &mut String, c: char)
    ensures
        final(out)@ == old(out)@ + escape_char(c),
{
    let ghost start = out@;
    if c == '"' {
        push_char(out, '\\');
        push_char(out, '"');
    } else if c == '\\' {
        push_char(out, '\\');
        push_char(out, '\\');
    } else if c == '\n' {
        push_char(out, '\\');
        push_char(out, 'n');
    } else if c == '\r' {
        push_char(out, '\\');
        push_char(out, 'r');
    } else if c == '\t' {
        push_char(out, '\\');
        push_char(out, 't');
    } else if c == '\u{8}' {
        push_char(out, '\\');
        push_char(out, 'b');
    } else if c == '\u{c}' {
        push_char(out, '\\');
        push_char(out, 'f');
    } else if (c as u32) < 32 {
        let n = c as u32;
        push_char(out, '\\');
        push_char(out, 'u');
        push_char(out, '0');
        push_char(out, '0');
        push_char(out, hex_char((n / 16) as u8));
        push_char(out, hex_char((n % 16) as u8));
    } else {
        push_char(out, c);
    }
    proof {
        assert(out@ =~= start + escape_char(c));
    }
}

/// Appends the JSON string for UTF-8 bytes; false when they are not UTF-8.
fn push_json_bytes(out: &mut String, b: &[u8]) -> (ok: bool)
    ensures
        ok == json_bytes(b@) is Some,
        ok ==> final(out)@ == old(out)@ + json_bytes(b@)->Some_0,
{
    let cs = match utf8_chars(b) {
        Some(cs) => cs,
        None => {
            return false;
        },
    };
    let ghost start = out@;
    push_char(out, '"');
    let mut i: usize = 0;
    while i < cs.len()
        invariant
            i <= cs@.len(),
            out@ == start + seq!['"'] + escape_text(cs@.take(i as int)),
        decreases cs@.len() - i,
    {
        proof {
            assert(cs@.take(i + 1).drop_last() =~= cs@.take(i as int));
        }
        push_escaped(out, cs[i]);
        i = i + 1;
        proof {
            assert(out@ =~= start + seq!['"'] + escape_text(cs@.take(i as int)));
        }
    }
    push_char(out, '"');
    proof {
        assert(cs@.take(i as int) =~= cs@);
        assert(out@ =~= start + json_string(cs@));
    }
    true
}

/// Appends the JSON text of `v`; false when a byte string in it is not
/// UTF-8, and then `out` holds an unfinished text.
pub fn render_json_into(v: &Value, out: &mut String) -> (ok: bool)
    ensures
        ok == json_of(*v) is Some,
        ok ==> final(out)@ == old(out)@ + json_of(*v)->Some_0,
    decreases v,
{
    let ghost start = out@;
    match v {
        Value::Bytes(b) => push_json_bytes(out, b.as_slice()),
        Value::Int(n) => {
            if *n < 0 {
                push_char(out, '-');
                let mag: u64 = ((-(*n + 1)) as u64) + 1;
                push_decimal(out, mag);
            } else {
                push_decimal(out, *n as u64);
            }
            proof {
                assert(out@ =~= start + json_int(*n as int));
            }
            true
        },
        Value::List(items) => {
            push_char(out, '[');
            let mut i: usize = 0;
            while i < items.len()
                invariant
                    i <= items@.len(),
                    *v is List,
                    (*v)->List_0 == *items,
                    json_items(items@.take(i as int)) is Some,
                    out@ == start + seq!['['] + json_items(items@.take(i as int))->Some_0,
                decreases items@.len() - i,
            {
                proof {
                    assert(items@.take(i + 1).subrange(0, i as int) =~= items@.take(i as int));
                    assert(decreases_to!(*v => (*v)->List_0));
                    assert(decreases_to!(*items => items@));
                    assert(decreases_to!(items@ => items@[i as int]));
                }
                if i > 0 {
                    push_char(out, ',');
                }
                if !render_json_into(&items[i], out) {
                    proof {
                        assert(json_items(items@.take(i + 1)) is None);
                        assert(json_items(items@) is None) by {
                            lemma_items_none(items@, i + 1);
                        }
                    }
                    return false;
                }
                i = i + 1;
                proof {
                    assert(out@ =~= start + seq!['['] + json_items(items@.take(i as int))->Some_0);
                }
            }
            push_char(out, ']');
            proof {
                assert(items@.take(i as int) =~= items@);
            }
            true
        },
        Value::Dict(entries) => {
            push_char(out, '{');
            let mut i: usize = 0;
            while i < entries.len()
                invariant
                    i <= entries@.len(),
                    *v is Dict,
                    (*v)->Dict_0 == *entries,
                    json_members(entries@.take(i as int)) is Some,
                    out@ == start + seq!['{'] + json_members(entries@.take(i as int))->Some_0,
                decreases entries@.len() - i,
            {
                proof {
                    assert(entries@.take(i + 1).subrange(0, i as int) =~= entries@.take(i as int));
                    assert(decreases_to!(*v => (*v)->Dict_0));
                    assert(decreases_to!(*entries => entries@));
                    assert(decreases_to!(entries@ => entries@[i as int]));
                    assert(decreases_to!(entries@[i as int] => entries@[i as int].1));
                }
                if i > 0 {
                    push_char(out, ',');
                }
                if !push_json_bytes(out, entries[i].0.as_slice()) {
                    proof {
                        assert(json_members(entries@.take(i + 1)) is None);
                        lemma_members_none(entries@, i + 1);
                    }
                    return false;
                }
                push_char(out, ':');
                if !render_json_into(&entries[i].1, out) {
                    proof {
                        assert(json_members(entries@.take(i + 1)) is None);
                        lemma_members_none(entries@, i + 1);
                    }
                    return false;
                }
                i = i + 1;
                proof {
                    assert(out@ =~= start + seq!['{'] + json_members(entries@.take(i as int))->Some_0);
                }
            }
            push_char(out, '}');
            proof {
                assert(entries@.take(i as int) =~= entries@);
            }
            true
        },
    }
}

proof fn lemma_items_none(s: Seq<Value>, k: int)
    requires
        0 <= k <= s.len(),
        json_items(s.take(k)) is None,
    ensures
        json_items(s) is None,
    decreases s.len() - k,
{
    if k < s.len() {
        assert(s.take(k + 1).subrange(0, k) =~= s.take(k));
        lemma_items_none(s, k + 1);
    } else {
        assert(s.take(k) =~= s);
    }
}

proof fn lemma_members_none(s: Seq<(Vec<u8>, Value)>, k: int)
    requires
        0 <= k <= s.len(),
        json_members(s.take(k)) is None,
    ensures
        json_members(s) is None,
    decreases s.len() - k,
{
    if k < s.len() {
        assert(s.take(k + 1).subrange(0, k) =~= s.take(k));
        lemma_members_none(s, k + 1);
    } else {
        assert(s.take(k) =~= s);
    }
}

/// The JSON text of `v`, if every byte string in it is UTF-8.
pub fn render_json(v: &Value) -> (r: Option<String>)
    ensures
        r is Some <==> json_of(*v) is Some,
        r matches Some(s) ==> s@ == json_of(*v)->Some_0,
{
    let mut out = String::new();
    if render_json_into(v, &mut out) {
        proof {
            assert(out@ =~= json_of(*v)->Some_0);
        }
        Some(out)
    } else {
        None
    }
}

/// Why a bencoded string cannot be shown as JSON.
#[derive(Debug, Clone, Copy, PartialEq, Eq, Structural)]
pub enum JsonError {
    /// The input is not a canonical bencoding.
    Bencode(BencodeError),
    /// A byte string in it is not UTF-8.
    NotUtf8,
}

/// Decodes a bencoded value and renders it as JSON.
pub fn decode_bencoded_value(encoded: &[u8]) -> (r: Result<String, JsonError>)
    ensures
        (r matches Err(JsonError::Bencode(_))) <==> !is_canonical_encoding(encoded@),
        r matches Ok(s) ==> is_canonical_encoding(encoded@) && forall|v: Value|
            #![trigger json_of(v)]
            is_canonical(v) && encoding(v) == encoded@ ==> json_of(v) == Some(s@),
        r == Err::<String, JsonError>(JsonError::NotUtf8) <==> (is_canonical_encoding(encoded@)
            && forall|v: Value|
            #![trigger json_of(v)]
            is_canonical(v) && encoding(v) == encoded@ ==> json_of(v) is None),
{
    match decode(encoded) {
        Ok(v) => {
            proof {
                assert(decode_post(encoded@, Ok::<Value, BencodeError>(v)));
                assert forall|w: Value|
                    #![trigger json_of(w)]
                    is_canonical(w) && encoding(w) == encoded@ implies json_of(w) == json_of(v) by {
                    assert(same_value(w, v));
                    lemma_same_json(w, v);
                }
            }
            match render_json(&v) {
                Some(s) => Ok(s),
                None => Err(JsonError::NotUtf8),
            }
        },
        Err(e) => Err(JsonError::Bencode(e)),
    }
}

/// The same tree renders to the same JSON.
pub proof fn lemma_same_json(a: Value, b: Value)
    requires
        same_value(a, b),
    ensures
        json_of(a) == json_of(b),
    decreases a, 1nat, 0int,
{
    match a {
        Value::List(xs) => {
            lemma_same_items_json(a, b, xs@.len() as int);
            assert(xs@.take(xs@.len() as int) =~= xs@);
            assert(b->List_0@.take(xs@.len() as int) =~= b->List_0@);
        },
        Value::Dict(xs) => {
            lemma_same_members_json(a, b, xs@.len() as int);
            assert(xs@.take(xs@.len() as int) =~= xs@);
            assert(b->Dict_0@.take(xs@.len() as int) =~= b->Dict_0@);
        },
        _ => {},
    }
}

proof fn lemma_same_items_json(a: Value, b: Value, k: int)
    requires
        same_value(a, b),
        a is List,
        0 <= k <= a->List_0@.len(),
    ensures
        json_items(a->List_0@.take(k)) == json_items(b->List_0@.take(k)),
    decreases a, 0nat, k,
{
    let xs = a->List_0@;
    let ys = b->List_0@;
    if k > 0 {
        lemma_same_items_json(a, b, k - 1);
        assert(decreases_to!(a => a->List_0));
        assert(decreases_to!(a->List_0 => xs));
        assert(decreases_to!(xs => xs[k - 1]));
        assert(same_value(xs[k - 1], ys[k - 1]));
        lemma_same_json(xs[k - 1], ys[k - 1]);
        assert(xs.take(k).subrange(0, k - 1) =~= xs.take(k - 1));
        assert(ys.take(k).subrange(0, k - 1) =~= ys.take(k - 1));
    } else {
        assert(xs.take(0) =~= Seq::<Value>::empty());
        assert(ys.take(0) =~= Seq::<Value>::empty());
    }
}

proof fn lemma_same_members_json(a: Value, b: Value, k: int)
    requires
        same_value(a, b),
        a is Dict,
        0 <= k <= a->Dict_0@.len(),
    ensures
        json_members(a->Dict_0@.take(k)) == json_members(b->Dict_0@.take(k)),
    decreases a, 0nat, k,
{
    let xs = a->Dict_0@;
    let ys = b->Dict_0@;
    if k > 0 {
        lemma_same_members_json(a, b, k - 1);
        assert(decreases_to!(a => a->Dict_0));
        assert(decreases_to!(a->Dict_0 => xs));
        assert(decreases_to!(xs => xs[k - 1]));
        assert(decreases_to!(xs[k - 1] => xs[k - 1].1));
        assert(xs[k - 1] == xs[k - 1]);
        assert(same_value(xs[k - 1].1, ys[k - 1].1));
        lemma_same_json(xs[k - 1].1, ys[k - 1].1);
        assert(xs.take(k).subrange(0, k - 1) =~= xs.take(k - 1));
        assert(ys.take(k).subrange(0, k - 1) =~= ys.take(k - 1));
    } else {
        assert(xs.take(0) =~= Seq::<(Vec<u8>, Value)>::empty());
        assert(ys.take(0) =~= Seq::<(Vec<u8>, Value)>::empty());
    }
}

} // verus!
