//! Decimal digit strings: rendering of naturals and parsing of canonical
//! digit runs (no leading zeros except the single digit `0`).

use vstd::prelude::*;

verus! {

/// True when `c` is an ASCII decimal digit.
pub open spec fn is_digit(c: u8) -> bool {
    48 <= c <= 57
}

/// True when every byte of `s` is a decimal digit.
pub open spec fn all_digits(s: Seq<u8>) -> bool {
    forall|i: int| 0 <= i < s.len() ==> is_digit(#[trigger] s[i])
}

/// The canonical decimal rendering of `n`: no leading zeros, `0` for zero.
pub open spec fn decimal(n: nat) -> Seq<u8>
    decreases n,
{
    if n < 10 {
        seq![(48 + n) as u8]
    } else {
        decimal(n / 10).push((48 + n % 10) as u8)
    }
}

/// The value of a run of decimal digits, most significant first.
pub open spec fn digits_value(s: Seq<u8>) -> nat
    decreases s.len(),
{
    if s.len() == 0 {
        0
    } else {
        (digits_value(s.drop_last()) * 10 + (s.last() - 48)) as nat
    }
}

/// A non-empty run of digits without a leading zero (except `0` itself).
pub open spec fn is_canonical_digits(s: Seq<u8>) -> bool {
    &&& s.len() > 0
    &&& all_digits(s)
    &&& (s.len() == 1 || s[0] != 48)
}

proof fn lemma_div_mod_10(n: nat)
    requires
        n >= 10,
    ensures
        n / 10 >= 1,
        n == (n / 10) * 10 + n % 10,
        0 <= n % 10 < 10,
{
    assert(n == (n / 10) * 10 + n % 10 && 0 <= n % 10 < 10 && n / 10 >= 1) by (nonlinear_arith)
        requires
            n >= 10,
    ;
}

/// The rendering of `n` is a canonical digit run whose value is `n`.
pub proof fn lemma_decimal(n: nat)
    ensures
        is_canonical_digits(decimal(n)),
        digits_value(decimal(n)) == n,
        1 <= decimal(n).len() <= n + 1,
    decreases n,
{
    if n >= 10 {
        lemma_div_mod_10(n);
        lemma_decimal(n / 10);
        let d = decimal(n);
        assert(d.drop_last() == decimal(n / 10));
        assert(all_digits(d)) by {
            assert forall|i: int| 0 <= i < d.len() implies is_digit(#[trigger] d[i]) by {
                if i < d.len() - 1 {
                    assert(d[i] == decimal(n / 10)[i]);
                }
            }
        }
        assert(d[0] == decimal(n / 10)[0]);
        if decimal(n / 10).len() == 1 {
            assert(decimal(n / 10)[0] != 48) by {
                reveal_with_fuel(digits_value, 2);
            }
        }
        assert(d.last() == 48 + n % 10);
        assert(digits_value(d) == digits_value(decimal(n / 10)) * 10 + n % 10);
    } else {
        let d = decimal(n);
        assert(d.drop_last().len() == 0);
        assert(digits_value(d.drop_last()) == 0);
        assert(d.last() == 48 + n);
    }
}

proof fn lemma_leading_nonzero_positive(s: Seq<u8>)
    requires
        s.len() > 0,
        all_digits(s),
        s[0] != 48,
    ensures
        digits_value(s) >= 1,
    decreases s.len(),
{
    if s.len() > 1 {
        let t = s.drop_last();
        assert(t[0] == s[0]);
        assert(all_digits(t)) by {
            assert forall|i: int| 0 <= i < t.len() implies is_digit(#[trigger] t[i]) by {
                assert(t[i] == s[i]);
            }
        }
        lemma_leading_nonzero_positive(t);
    } else {
        assert(s.drop_last().len() == 0);
    }
}

/// A canonical digit run is the rendering of its own value.
pub proof fn lemma_canonical_is_decimal(s: Seq<u8>)
    requires
        is_canonical_digits(s),
    ensures
        decimal(digits_value(s)) == s,
    decreases s.len(),
{
    if s.len() == 1 {
        assert(s.drop_last().len() == 0);
        assert(digits_value(s.drop_last()) == 0);
        assert(is_digit(s[0]));
        assert(digits_value(s) == s[0] - 48);
        assert(decimal(digits_value(s)) =~= s);
    } else {
        let t = s.drop_last();
        assert(t[0] == s[0]);
        assert(all_digits(t)) by {
            assert forall|i: int| 0 <= i < t.len() implies is_digit(#[trigger] t[i]) by {
                assert(t[i] == s[i]);
            }
        }
        lemma_leading_nonzero_positive(t);
        lemma_canonical_is_decimal(t);
        let v = digits_value(s);
        let vt = digits_value(t);
        let d = (s.last() - 48) as nat;
        assert(is_digit(s[s.len() - 1]));
        assert(v == vt * 10 + d);
        assert(v >= 10 && v / 10 == vt && v % 10 == d) by (nonlinear_arith)
            requires
                v == vt * 10 + d,
                vt >= 1,
                0 <= d < 10,
        ;
        assert(decimal(v) =~= s);
    }
}

/// The value of a digit run is at least the value of any of its prefixes.
pub proof fn lemma_digits_value_prefix(s: Seq<u8>, k: int)
    requires
        all_digits(s),
        0 <= k <= s.len(),
    ensures
        digits_value(s.take(k)) <= digits_value(s),
    decreases s.len(),
{
    if k < s.len() {
        let t = s.drop_last();
        assert(all_digits(t)) by {
            assert forall|i: int| 0 <= i < t.len() implies is_digit(#[trigger] t[i]) by {
                assert(t[i] == s[i]);
            }
        }
        lemma_digits_value_prefix(t, k);
        assert(t.take(k) =~= s.take(k));
        assert(is_digit(s[s.len() - 1]));
        assert(digits_value(t) <= digits_value(s)) by (nonlinear_arith)
            requires
                digits_value(s) == digits_value(t) * 10 + (s.last() - 48),
                s.last() >= 48,
        ;
    } else {
        assert(s.take(k) =~= s);
    }
}

/// The canonical decimal rendering of `n`, as ASCII bytes.
pub fn decimal_bytes(n: u64) -> (r: Vec<u8>)
    ensures
        r@ == decimal(n as nat),
    decreases n,
{
    if n < 10 {
        let mut r: Vec<u8> = Vec::new();
        r.push(48u8 + n as u8);
        proof {
            assert(r@ =~= decimal(n as nat));
        }
        r
    } else {
        let mut r = decimal_bytes(n / 10);
        r.push(48u8 + (n % 10) as u8);
        r
    }
}

/// Reads `b[start..end]` as a canonical digit run.
///
/// Returns `Some(v)` exactly when the range is a canonical digit run whose
/// value fits in a `u64`; `v` is then that value.
pub fn parse_decimal(b: &[u8], start: usize, end: usize) -> (r: Option<u64>)
    requires
        start <= end <= b@.len(),
    ensures
        match r {
            Some(v) => {
                &&& is_canonical_digits(b@.subrange(start as int, end as int))
                &&& digits_value(b@.subrange(start as int, end as int)) == v
                &&& decimal(v as nat) == b@.subrange(start as int, end as int)
            },
            None => !is_canonical_digits(b@.subrange(start as int, end as int))
                || digits_value(b@.subrange(start as int, end as int)) > u64::MAX,
        },
{
    let ghost s = b@.subrange(start as int, end as int);
    if start == end {
        return None;
    }
    if end - start > 1 && b[start] == 48 {
        return None;
    }
    let mut acc: u64 = 0;
    let mut i = start;
    while i < end
        invariant
            start <= i <= end <= b@.len(),
            s == b@.subrange(start as int, end as int),
            all_digits(s.take(i - start)),
            acc == digits_value(s.take(i - start)),
        decreases end - i,
    {
        let c = b[i];
        proof {
            assert(s.take(i - start + 1).drop_last() =~= s.take(i - start));
        }
        if c < 48 || c > 57 {
            proof {
                assert(s[i - start] == c);
            }
            return None;
        }
        let next = match acc.checked_mul(10) {
            Some(m) => m.checked_add((c - 48) as u64),
            None => None,
        };
        match next {
            Some(v) => {
                acc = v;
            },
            None => {
                proof {
                    let p = s.take(i - start + 1);
                    assert(all_digits(p)) by {
                        assert forall|j: int| 0 <= j < p.len() implies is_digit(#[trigger] p[j]) by {
                            if j < p.len() - 1 {
                                assert(p[j] == s.take(i - start)[j]);
                            }
                        }
                    }
                    if all_digits(s) {
                        lemma_digits_value_prefix(s, i - start + 1);
                    }
                }
                return None;
            },
        }
        i = i + 1;
        proof {
            let p = s.take(i - start);
            assert forall|j: int| 0 <= j < p.len() implies is_digit(#[trigger] p[j]) by {
                if j < p.len() - 1 {
                    assert(p[j] == s.take(i - start - 1)[j]);
                }
            }
        }
    }
    proof {
        assert(s.take(end - start) =~= s);
        lemma_canonical_is_decimal(s);
    }
    Some(acc)
}

} // verus!
