//! Depth values as decimal fixed-point numbers with four places, read from
//! decimal text and written with exactly four decimals.
use vstd::prelude::*;
use crate::decimal::{
    all_digits, decimal_digits, digits_value, is_digit, is_unsigned_decimal, parse_u64,
    push_u64, unsigned_decimal,
};

verus! {

/// A number of ten-thousandths with a sign: `-1.5` is negative with 15000.
#[derive(Clone, Copy, Debug, PartialEq, Eq, Structural)]
pub struct Fixed4 {
    pub negative: bool,
    pub scaled: u64,
}

/// The signed value in ten-thousandths.
pub open spec fn fixed_value(v: Fixed4) -> int {
    if v.negative {
        -(v.scaled as int)
    } else {
        v.scaled as int
    }
}

pub open spec fn digit_at(f: Seq<u8>, i: int) -> nat {
    if 0 <= i < f.len() {
        (f[i] - 48) as nat
    } else {
        0
    }
}

/// The first four fraction digits as ten-thousandths, plus one where the
/// fifth digit is five or more.
pub open spec fn frac_scaled(f: Seq<u8>) -> nat {
    digit_at(f, 0) * 1000 + digit_at(f, 1) * 100 + digit_at(f, 2) * 10 + digit_at(f, 3) + if f.len()
        > 4 && f[4] >= 53 {
        1nat
    } else {
        0nat
    }
}

/// Where the integer part of an unsigned decimal ends.
pub open spec fn int_end(s: Seq<u8>) -> int {
    choose|k: int| 0 <= k <= s.len() && all_digits(#[trigger] s.take(k)) && (k == s.len() || s[k] == 46u8)
}

/// The magnitude of an unsigned decimal in ten-thousandths, rounded half up.
pub open spec fn unsigned_scaled(s: Seq<u8>) -> nat {
    let k = int_end(s);
    digits_value(s.take(k)) * 10000 + if k < s.len() {
        frac_scaled(s.skip(k + 1))
    } else {
        0
    }
}

/// What `parse_fixed4` reads: an optional sign and an unsigned decimal whose
/// magnitude in ten-thousandths fits in a `u64`.
pub open spec fn spec_parse_fixed4(s: Seq<u8>) -> Option<Fixed4> {
    let signed = s.len() > 0 && (s[0] == 45u8 || s[0] == 43u8);
    let body = if signed {
        s.skip(1)
    } else {
        s
    };
    if is_unsigned_decimal(body) && unsigned_scaled(body) <= u64::MAX {
        Some(Fixed4 { negative: signed && s[0] == 45u8, scaled: unsigned_scaled(body) as u64 })
    } else {
        None
    }
}

/// The four-digit text of `n % 10000`, zeros in front.
pub open spec fn four_digits(n: nat) -> Seq<u8> {
    seq![
        ((n / 1000) % 10 + 48) as u8,
        ((n / 100) % 10 + 48) as u8,
        ((n / 10) % 10 + 48) as u8,
        (n % 10 + 48) as u8,
    ]
}

/// The text of a value with exactly four decimals.
pub open spec fn fixed_text(v: Fixed4) -> Seq<u8> {
    (if v.negative {
        seq![45u8]
    } else {
        Seq::<u8>::empty()
    }) + decimal_digits((v.scaled / 10000) as nat) + seq![46u8] + four_digits(v.scaled as nat)
}

proof fn lemma_int_end_unique(s: Seq<u8>, k: int)
    requires
        0 <= k <= s.len(),
        all_digits(s.take(k)),
        k == s.len() || s[k] == 46u8,
    ensures
        int_end(s) == k,
{
    assert(0 <= k <= s.len() && all_digits(s.take(k)) && (k == s.len() || s[k] == 46u8));
    let j = int_end(s);
    assert(0 <= j <= s.len() && all_digits(s.take(j)) && (j == s.len() || s[j] == 46u8));
    if j < k {
        assert(s.take(k)[j] == s[j]);
    } else if k < j {
        assert(s.take(j)[k] == s[k]);
    }
}

/// Reads a decimal number as a fixed-point value, rounding half up at the
/// fifth decimal.
pub fn parse_fixed4(s: &[u8]) -> (r: Option<Fixed4>)
    ensures
        r == spec_parse_fixed4(s@),
{
    let signed = s.len() > 0 && (s[0] == 45u8 || s[0] == 43u8);
    let body: &[u8] = if signed {
        &s[1..s.len()]
    } else {
        s
    };
    assert(signed ==> body@ =~= s@.skip(1));
    if !unsigned_decimal(body) {
        return None;
    }
    let mut k: usize = 0;
    while k < body.len() && body[k] != 46u8
        invariant
            0 <= k <= body.len(),
            all_digits(body@.take(k as int)),
            is_unsigned_decimal(body@),
        decreases body.len() - k,
    {
        proof {
            let w = choose|w: int|
                0 <= w <= body@.len() && all_digits(#[trigger] body@.take(w)) && if w == body@.len() {
                    w > 0
                } else {
                    body@[w] == 46u8 && all_digits(body@.skip(w + 1)) && (w > 0 || w + 1
                        < body@.len())
                };
            if w < k {
                assert(body@.take(k as int)[w] == body@[w]);
            }
            if w > k {
                assert(body@.take(w)[k as int] == body@[k as int]);
            } else if w == k {
            } else {
                assert(body@.skip(w + 1)[k - w - 1] == body@[k as int]);
            }
        }
        k = k + 1;
        assert(all_digits(body@.take(k as int))) by {
            assert forall|j: int| 0 <= j < k implies is_digit(#[trigger] body@.take(k as int)[j]) by {
                if j < k - 1 {
                    assert(body@.take(k as int)[j] == body@.take(k - 1)[j]);
                }
            }
        }
    }
    proof {
        lemma_int_end_unique(body@, k as int);
        let w = choose|w: int|
            0 <= w <= body@.len() && all_digits(#[trigger] body@.take(w)) && if w == body@.len() {
                w > 0
            } else {
                body@[w] == 46u8 && all_digits(body@.skip(w + 1)) && (w > 0 || w + 1 < body@.len())
            };
        lemma_int_end_unique(body@, w);
    }
    let ghost ip = body@.take(k as int);
    let int_part: u64 = if k == 0 {
        assert(ip =~= Seq::<u8>::empty());
        0
    } else {
        assert(body@.subrange(0, k as int) =~= ip);
        match parse_u64(&body[0..k]) {
            Some(v) => v,
            None => {
                return None;
            },
        }
    };
    let mut frac: u64 = 0;
    if k < body.len() {
        let ghost f = body@.skip(k + 1);
        assert(all_digits(f));
        assert(forall|i: int| 0 <= i < f.len() ==> digit_at(f, i) <= 9);
        let mut scale: u64 = 1000;
        let mut j: usize = 0;
        while j < 4
            invariant
                j <= 4,
                k < body.len(),
                f == body@.skip(k + 1),
                all_digits(f),
                scale == if j == 0 { 1000u64 } else if j == 1 { 100u64 } else if j == 2 { 10u64 } else if j == 3 { 1u64 } else { 0u64 },
                frac as nat == (if j > 0 { digit_at(f, 0) * 1000 } else { 0nat }) + (if j > 1 { digit_at(f, 1) * 100 } else { 0nat })
                    + (if j > 2 { digit_at(f, 2) * 10 } else { 0nat }) + (if j > 3 { digit_at(f, 3) } else { 0nat }),
                digit_at(f, 0) <= 9 && digit_at(f, 1) <= 9 && digit_at(f, 2) <= 9 && digit_at(f, 3) <= 9,
            decreases 4 - j,
        {
            if j + 1 < body.len() - k {
                let p = k + 1 + j;
                assert(f[j as int] == body@[p as int]);
                assert(is_digit(f[j as int]));
                frac = frac + ((body[p] - 48) as u64) * scale;
            }
            j = j + 1;
            scale = scale / 10;
        }
        if 5 < body.len() - k && body[k + 5] >= 53 {
            assert(f[4] == body@[k + 5]);
            frac = frac + 1;
        }
        assert(frac == frac_scaled(f));
    }
    if int_part > (u64::MAX - frac) / 10000 {
        return None;
    }
    let scaled = int_part * 10000 + frac;
    Some(Fixed4 { negative: signed && s[0] == 45u8, scaled })
}

/// Appends the value with exactly four decimals.
pub fn push_fixed4(out: &mut Vec<u8>, v: Fixed4)
    ensures
        final(out)@ == old(out)@ + fixed_text(v),
{
    if v.negative {
        out.push(45u8);
    }
    push_u64(out, v.scaled / 10000);
    out.push(46u8);
    let n = v.scaled;
    out.push(((n / 1000) % 10 + 48) as u8);
    out.push(((n / 100) % 10 + 48) as u8);
    out.push(((n / 10) % 10 + 48) as u8);
    out.push((n % 10 + 48) as u8);
    assert(final(out)@ =~= old(out)@ + fixed_text(v));
}

} // verus!
