//! Decimal text of integers, as it appears in length and count lines.

use vstd::prelude::*;

verus! {

/// ASCII `0`.
pub const ZERO: u8 = 48;

/// ASCII `9`.
pub const NINE: u8 = 57;

/// ASCII `+`.
pub const PLUS: u8 = 43;

/// ASCII `-`.
pub const MINUS: u8 = 45;

/// `2^63`, the magnitude of the least `i64`.
pub const I64_MIN_MAGNITUDE: u64 = 0x8000_0000_0000_0000;

pub open spec fn is_digit(b: u8) -> bool {
    ZERO <= b <= NINE
}

pub open spec fn all_digits(s: Seq<u8>) -> bool {
    forall|i: int| 0 <= i < s.len() ==> is_digit(#[trigger] s[i])
}

/// The number that a sequence of decimal digits denotes, most significant
/// digit first. Leading zeros do not change it.
pub open spec fn digits_value(s: Seq<u8>) -> nat
    decreases s.len(),
{
    if s.len() == 0 {
        0
    } else {
        (digits_value(s.drop_last()) * 10 + (s.last() - ZERO)) as nat
    }
}

/// The shortest decimal text of `n`: no sign, no leading zero.
pub open spec fn decimal(n: nat) -> Seq<u8>
    decreases n,
{
    if n < 10 {
        seq![(ZERO + n) as u8]
    } else {
        decimal(n / 10).push((ZERO + n % 10) as u8)
    }
}

/// A non-empty run of digits and the number it denotes.
pub open spec fn parse_digits(s: Seq<u8>) -> Option<nat> {
    if s.len() > 0 && all_digits(s) {
        Some(digits_value(s))
    } else {
        None
    }
}

/// An unsigned decimal number that fits in `u64`: an optional `+`, then one or
/// more digits.
pub open spec fn parse_unsigned(s: Seq<u8>) -> Option<nat> {
    let body = if s.len() > 0 && s[0] == PLUS {
        s.skip(1)
    } else {
        s
    };
    match parse_digits(body) {
        Some(v) => if v <= u64::MAX {
            Some(v)
        } else {
            None
        },
        None => None,
    }
}

/// A signed decimal number that fits in `i64`: an optional `+` or `-`, then
/// one or more digits.
pub open spec fn parse_signed(s: Seq<u8>) -> Option<int> {
    if s.len() > 0 && s[0] == MINUS {
        match parse_digits(s.skip(1)) {
            Some(v) => if v <= I64_MIN_MAGNITUDE {
                Some(-(v as int))
            } else {
                None
            },
            None => None,
        }
    } else {
        let body = if s.len() > 0 && s[0] == PLUS {
            s.skip(1)
        } else {
            s
        };
        match parse_digits(body) {
            Some(v) => if v <= i64::MAX {
                Some(v as int)
            } else {
                None
            },
            None => None,
        }
    }
}

/// A longer run of digits denotes at least as much as any of its prefixes.
pub proof fn lemma_digits_value_monotonic(s: Seq<u8>, k: int)
    requires
        all_digits(s),
        0 <= k <= s.len(),
    ensures
        digits_value(s.take(k)) <= digits_value(s),
    decreases s.len() - k,
{
    if k == s.len() {
        assert(s.take(k) =~= s);
    } else {
        lemma_digits_value_monotonic(s, k + 1);
        assert(s.take(k + 1).drop_last() =~= s.take(k));
        assert(is_digit(s.take(k + 1).last()));
    }
}

/// The shortest decimal text of a number is a non-empty run of digits that
/// denotes that number.
pub proof fn lemma_decimal_parses(n: nat)
    ensures
        decimal(n).len() > 0,
        all_digits(decimal(n)),
        digits_value(decimal(n)) == n,
        parse_digits(decimal(n)) == Some(n),
    decreases n,
{
    if n < 10 {
        let s = decimal(n);
        assert(s.len() == 1);
        assert(s.drop_last().len() == 0);
        assert(digits_value(s) == digits_value(s.drop_last()) * 10 + (s.last() - ZERO));
    } else {
        lemma_decimal_parses(n / 10);
        let s = decimal(n);
        assert(s.drop_last() =~= decimal(n / 10));
        assert(s.last() == (ZERO + n % 10) as u8);
    }
}

/// Reads a run of digits from `text[start..]`, up to `limit`.
fn parse_magnitude(text: &[u8], start: usize, limit: u64) -> (r: Option<u64>)
    requires
        start <= text@.len(),
    ensures
        r == match parse_digits(text@.skip(start as int)) {
            Some(v) => if v <= limit {
                Some(v as u64)
            } else {
                None
            },
            None => None,
        },
{
    let ghost body = text@.skip(start as int);
    if start == text.len() {
        return None;
    }
    let mut acc: u128 = 0;
    let mut i: usize = start;
    while i < text.len()
        invariant
            start <= i <= text@.len(),
            body == text@.skip(start as int),
            all_digits(body.take(i - start)),
            acc == digits_value(body.take(i - start)),
            acc <= limit,
        decreases text@.len() - i,
    {
        let c = text[i];
        if c < ZERO || c > NINE {
            assert(!is_digit(body[i - start]));
            return None;
        }
        let next: u128 = acc * 10 + (c - ZERO) as u128;
        proof {
            let k = i - start;
            assert(body.take(k + 1).drop_last() =~= body.take(k));
            assert(body.take(k + 1).last() == c);
            assert(next == digits_value(body.take(k + 1)));
            assert forall|j: int| 0 <= j < k + 1 implies is_digit(
                #[trigger] body.take(k + 1)[j],
            ) by {
                if j < k {
                    assert(body.take(k + 1)[j] == body.take(k)[j]);
                }
            }
        }
        if next > limit as u128 {
            proof {
                if all_digits(body) {
                    lemma_digits_value_monotonic(body, i - start + 1);
                }
            }
            return None;
        }
        acc = next;
        i = i + 1;
    }
    proof {
        assert(body.take(i - start) =~= body);
    }
    Some(acc as u64)
}

/// Reads an unsigned decimal number, as `str::parse::<u64>` accepts it.
pub fn parse_u64(text: &[u8]) -> (r: Option<u64>)
    ensures
        r == match parse_unsigned(text@) {
            Some(v) => Some(v as u64),
            None => None,
        },
{
    if text.len() > 0 && text[0] == PLUS {
        parse_magnitude(text, 1, u64::MAX)
    } else {
        assert(text@.skip(0) =~= text@);
        parse_magnitude(text, 0, u64::MAX)
    }
}

/// Reads a signed decimal number, as `str::parse::<i64>` accepts it.
pub fn parse_i64(text: &[u8]) -> (r: Option<i64>)
    ensures
        r == match parse_signed(text@) {
            Some(v) => Some(v as i64),
            None => None,
        },
{
    if text.len() > 0 && text[0] == MINUS {
        match parse_magnitude(text, 1, I64_MIN_MAGNITUDE) {
            Some(v) => {
                if v == I64_MIN_MAGNITUDE {
                    Some(i64::MIN)
                } else {
                    Some(-(v as i64))
                }
            },
            None => None,
        }
    } else {
        let start: usize = if text.len() > 0 && text[0] == PLUS {
            1
        } else {
            0
        };
        assert(text@.skip(0) =~= text@);
        match parse_magnitude(text, start, 0x7fff_ffff_ffff_ffff) {
            Some(v) => Some(v as i64),
            None => None,
        }
    }
}

/// Appends the shortest decimal text of `n` to `out`.
pub fn push_decimal(out: &mut Vec<u8>, n: usize)
    ensures
        final(out)@ == old(out)@ + decimal(n as nat),
    decreases n,
{
    if n >= 10 {
        push_decimal(out, n / 10);
    }
    out.push(ZERO + (n % 10) as u8);
    proof {
        if n >= 10 {
            assert(final(out)@ =~= old(out)@ + decimal(n as nat));
        } else {
            assert(final(out)@ =~= old(out)@ + decimal(n as nat));
        }
    }
}

} // verus!
