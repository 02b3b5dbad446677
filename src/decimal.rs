//! Decimal text for unsigned and signed integers, and the syntax of
//! plain decimal numbers.
use vstd::prelude::*;

verus! {

pub open spec fn is_digit(c: u8) -> bool {
    48 <= c <= 57
}

pub open spec fn all_digits(s: Seq<u8>) -> bool {
    forall|i: int| 0 <= i < s.len() ==> is_digit(#[trigger] s[i])
}

/// The value of a string of decimal digits, most significant first.
pub open spec fn digits_value(s: Seq<u8>) -> nat
    decreases s.len(),
{
    if s.len() == 0 {
        0
    } else {
        digits_value(s.drop_last()) * 10 + (s.last() - 48) as nat
    }
}

/// The shortest decimal text of `n`.
pub open spec fn decimal_digits(n: nat) -> Seq<u8>
    decreases n,
{
    if n < 10 {
        seq![(n + 48) as u8]
    } else {
        decimal_digits(n / 10).push((n % 10 + 48) as u8)
    }
}

/// Text of a signed integer: a minus sign before the digits of a negative one.
pub open spec fn signed_digits(v: int) -> Seq<u8> {
    if v < 0 {
        seq![45u8] + decimal_digits((-v) as nat)
    } else {
        decimal_digits(v as nat)
    }
}

/// What `parse_u64` accepts: one or more digits whose value fits in a `u64`.
pub open spec fn spec_parse_u64(s: Seq<u8>) -> Option<u64> {
    if s.len() > 0 && all_digits(s) && digits_value(s) <= u64::MAX {
        Some(digits_value(s) as u64)
    } else {
        None
    }
}

/// What `parse_i64` accepts: an optional minus sign and one or more digits,
/// whose value fits in an `i64`.
pub open spec fn spec_parse_i64(s: Seq<u8>) -> Option<i64> {
    if s.len() > 0 && s[0] == 45u8 {
        let m = s.skip(1);
        if m.len() > 0 && all_digits(m) && digits_value(m) <= 0x8000_0000_0000_0000 {
            Some((0 - digits_value(m)) as i64)
        } else {
            None
        }
    } else {
        if s.len() > 0 && all_digits(s) && digits_value(s) <= i64::MAX {
            Some(digits_value(s) as i64)
        } else {
            None
        }
    }
}

/// A plain decimal number without sign: digits, optionally followed by a
/// point and more digits, with at least one digit in all.
pub open spec fn is_unsigned_decimal(s: Seq<u8>) -> bool {
    exists|k: int|
        0 <= k <= s.len() && all_digits(#[trigger] s.take(k)) && if k == s.len() {
            k > 0
        } else {
            s[k] == 46u8 && all_digits(s.skip(k + 1)) && (k > 0 || k + 1 < s.len())
        }
}

/// A plain decimal number with an optional leading `+` or `-`.
pub open spec fn is_decimal_number(s: Seq<u8>) -> bool {
    if s.len() > 0 && (s[0] == 45u8 || s[0] == 43u8) {
        is_unsigned_decimal(s.skip(1))
    } else {
        is_unsigned_decimal(s)
    }
}

pub proof fn lemma_decimal_digits(n: nat)
    ensures
        decimal_digits(n).len() > 0,
        all_digits(decimal_digits(n)),
        digits_value(decimal_digits(n)) == n,
    decreases n,
{
    let d = decimal_digits(n);
    if n < 10 {
        assert(d.drop_last() =~= Seq::<u8>::empty());
        assert(d.last() == (n + 48) as u8);
        assert(digits_value(d) == digits_value(d.drop_last()) * 10 + (d.last() - 48) as nat);
    } else {
        lemma_decimal_digits(n / 10);
        assert(d.drop_last() =~= decimal_digits(n / 10));
        assert(d.last() == (n % 10 + 48) as u8);
        assert(digits_value(d) == digits_value(d.drop_last()) * 10 + (d.last() - 48) as nat);
        assert(n == (n / 10) * 10 + n % 10);
        assert forall|i: int| 0 <= i < d.len() implies is_digit(#[trigger] d[i]) by {
            if i < d.len() - 1 {
                assert(d[i] == decimal_digits(n / 10)[i]);
            }
        }
    }
}

proof fn lemma_digits_value_monotone(s: Seq<u8>, i: int, j: int)
    requires
        0 <= i <= j <= s.len(),
        all_digits(s),
    ensures
        digits_value(s.take(i)) <= digits_value(s.take(j)),
    decreases j - i,
{
    if i < j {
        lemma_digits_value_monotone(s, i, j - 1);
        assert(s.take(j).drop_last() =~= s.take(j - 1));
    }
}

/// Round trip of the unsigned decimal text.
pub proof fn lemma_parse_u64_digits(n: u64)
    ensures
        spec_parse_u64(decimal_digits(n as nat)) == Some(n),
{
    lemma_decimal_digits(n as nat);
}

/// Round trip of the signed decimal text.
pub proof fn lemma_parse_i64_digits(v: i64)
    ensures
        spec_parse_i64(signed_digits(v as int)) == Some(v),
{
    let s = signed_digits(v as int);
    if v < 0 {
        lemma_decimal_digits((-v) as nat);
        assert(s.skip(1) =~= decimal_digits((-v) as nat));
    } else {
        lemma_decimal_digits(v as nat);
        assert(s[0] != 45u8);
    }
}

/// Reads an unsigned decimal integer.
pub fn parse_u64(s: &[u8]) -> (r: Option<u64>)
    ensures
        r == spec_parse_u64(s@),
{
    if s.len() == 0 {
        return None;
    }
    let mut acc: u64 = 0;
    let mut i: usize = 0;
    while i < s.len()
        invariant
            0 <= i <= s.len(),
            all_digits(s@.take(i as int)),
            acc as nat == digits_value(s@.take(i as int)),
        decreases s.len() - i,
    {
        let c = s[i];
        assert(s@.take(i + 1).drop_last() =~= s@.take(i as int));
        if c < 48 || c > 57 {
            assert(!is_digit(s@[i as int]));
            return None;
        }
        let d = (c - 48) as u64;
        if acc > (u64::MAX - d) / 10 {
            proof {
                assert(s@.take(s@.len() as int) =~= s@);
                if all_digits(s@) {
                    lemma_digits_value_monotone(s@, i + 1, s@.len() as int);
                }
            }
            return None;
        }
        acc = acc * 10 + d;
        i = i + 1;
        assert(all_digits(s@.take(i as int))) by {
            assert forall|j: int| 0 <= j < i implies is_digit(#[trigger] s@.take(i as int)[j]) by {
                if j < i - 1 {
                    assert(s@.take(i as int)[j] == s@.take(i - 1)[j]);
                }
            }
        }
    }
    assert(s@.take(s@.len() as int) =~= s@);
    Some(acc)
}

/// Reads a signed decimal integer with an optional leading minus sign.
pub fn parse_i64(s: &[u8]) -> (r: Option<i64>)
    ensures
        r == spec_parse_i64(s@),
{
    if s.len() > 0 && s[0] == 45u8 {
        let m = parse_u64(&s[1..s.len()]);
        assert(s@.subrange(1, s@.len() as int) =~= s@.skip(1));
        match m {
            Some(v) => {
                if v <= 0x8000_0000_0000_0000 {
                    if v == 0x8000_0000_0000_0000 {
                        Some(i64::MIN)
                    } else {
                        Some(0 - (v as i64))
                    }
                } else {
                    None
                }
            },
            None => None,
        }
    } else {
        match parse_u64(s) {
            Some(v) => {
                if v <= i64::MAX as u64 {
                    Some(v as i64)
                } else {
                    None
                }
            },
            None => None,
        }
    }
}

/// Appends the decimal text of `n`.
pub fn push_u64(out: &mut Vec<u8>, n: u64)
    ensures
        final(out)@ == old(out)@ + decimal_digits(n as nat),
    decreases n,
{
    if n >= 10 {
        push_u64(out, n / 10);
    }
    out.push((n % 10 + 48) as u8);
    proof {
        if n >= 10 {
            assert(decimal_digits(n as nat) == decimal_digits((n / 10) as nat).push(
                (n % 10 + 48) as u8,
            ));
        }
    }
    assert(final(out)@ =~= old(out)@ + decimal_digits(n as nat));
}

/// Appends the decimal text of `v`, with a minus sign when negative.
pub fn push_i64(out: &mut Vec<u8>, v: i64)
    ensures
        final(out)@ == old(out)@ + signed_digits(v as int),
{
    if v < 0 {
        out.push(45u8);
        let m: u64 = if v == i64::MIN {
            0x8000_0000_0000_0000
        } else {
            (0 - v) as u64
        };
        push_u64(out, m);
        assert(final(out)@ =~= old(out)@ + signed_digits(v as int));
    } else {
        push_u64(out, v as u64);
    }
}

/// Tells whether `s` is a plain decimal number without sign.
pub fn unsigned_decimal(s: &[u8]) -> (r: bool)
    ensures
        r == is_unsigned_decimal(s@),
{
    let mut k: usize = 0;
    while k < s.len() && 48 <= s[k] && s[k] <= 57
        invariant
            0 <= k <= s.len(),
            all_digits(s@.take(k as int)),
        decreases s.len() - k,
    {
        k = k + 1;
        assert(all_digits(s@.take(k as int))) by {
            assert forall|j: int| 0 <= j < k implies is_digit(#[trigger] s@.take(k as int)[j]) by {
                if j < k - 1 {
                    assert(s@.take(k as int)[j] == s@.take(k - 1)[j]);
                }
            }
        }
    }
    // `k` is the first position that is not a digit.
    let r = if k == s.len() {
        k > 0
    } else if s[k] != 46u8 {
        false
    } else {
        let mut j: usize = k + 1;
        let mut ok = true;
        while j < s.len()
            invariant
                k + 1 <= j <= s.len(),
                ok == all_digits(s@.subrange(k + 1, j as int)),
            decreases s.len() - j,
        {
            let c = s[j];
            j = j + 1;
            assert(s@.subrange(k + 1, j as int).drop_last() =~= s@.subrange(k + 1, j - 1));
            ok = ok && 48 <= c && c <= 57;
            proof {
                let t = s@.subrange(k + 1, j as int);
                if ok {
                    assert forall|m: int| 0 <= m < t.len() implies is_digit(#[trigger] t[m]) by {
                        if m < t.len() - 1 {
                            assert(t[m] == t.drop_last()[m]);
                        }
                    }
                } else {
                    if !(48 <= c && c <= 57) {
                        assert(!is_digit(t[t.len() - 1]));
                    } else {
                        assert(!all_digits(t.drop_last()));
                        let m = choose|m: int| 0 <= m < t.len() - 1 && !is_digit(#[trigger] t.drop_last()[m]);
                        assert(t[m] == t.drop_last()[m]);
                    }
                }
            }
        }
        assert(s@.subrange(k + 1, s@.len() as int) =~= s@.skip(k + 1));
        ok && (k > 0 || k + 1 < s.len())
    };
    proof {
        if r {
            assert(0 <= k <= s@.len() && all_digits(s@.take(k as int)));
        } else {
            assert forall|k2: int|
                0 <= k2 <= s@.len() && all_digits(#[trigger] s@.take(k2)) implies !(if k2 == s@.len() {
                k2 > 0
            } else {
                s@[k2] == 46u8 && all_digits(s@.skip(k2 + 1)) && (k2 > 0 || k2 + 1 < s@.len())
            }) by {
                if k2 < k {
                    assert(s@.take(k as int)[k2] == s@[k2]);
                } else if k2 > k {
                    assert(s@.take(k2)[k as int] == s@[k as int]);
                }
            }
        }
    }
    r
}

/// Tells whether `s` is a plain decimal number with an optional sign.
pub fn decimal_number(s: &[u8]) -> (r: bool)
    ensures
        r == is_decimal_number(s@),
{
    if s.len() > 0 && (s[0] == 45u8 || s[0] == 43u8) {
        assert(s@.subrange(1, s@.len() as int) =~= s@.skip(1));
        unsigned_decimal(&s[1..s.len()])
    } else {
        unsigned_decimal(s)
    }
}

} // verus!
