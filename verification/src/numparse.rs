//! Integer literal parsing: decimal, or hexadecimal behind a `0x`
//! prefix, with an optional leading minus sign.

use vstd::prelude::*;
use vstd::string::StrSliceExecFns;
use crate::errors::AsmError;

verus! {

/// A digit of the given base (10 or 16; hex accepts both letter cases).
pub open spec fn is_digit(c: char, base: int) -> bool {
    let v = c as u32;
    if base == 16 {
        (48 <= v && v <= 57) || (65 <= v && v <= 70) || (97 <= v && v <= 102)
    } else {
        48 <= v && v <= 57
    }
}

/// The numeric value of a digit character.
pub open spec fn digit_val(c: char) -> int {
    let v = c as u32;
    if 97 <= v {
        v - 87
    } else if 65 <= v {
        v - 55
    } else {
        v - 48
    }
}

/// Every character of `s` is a digit of the base.
pub open spec fn all_digits(s: Seq<char>, base: int) -> bool {
    forall|i: int| 0 <= i < s.len() ==> is_digit(#[trigger] s[i], base)
}

/// The value of a digit string read in the given base.
pub open spec fn radix_val(s: Seq<char>, base: int) -> int
    decreases s.len(),
{
    if s.len() == 0 {
        0
    } else {
        radix_val(s.drop_last(), base) * base + digit_val(s.last())
    }
}

/// The value of an unsigned literal: `0x` followed by at least one hex
/// digit, or at least one decimal digit; anything else is malformed.
pub open spec fn parse_mag(s: Seq<char>) -> Option<int> {
    if s.len() >= 2 && s[0] == '0' && s[1] == 'x' {
        let rest = s.subrange(2, s.len() as int);
        if rest.len() >= 1 && all_digits(rest, 16) {
            Some(radix_val(rest, 16))
        } else {
            None
        }
    } else {
        if s.len() >= 1 && all_digits(s, 10) {
            Some(radix_val(s, 10))
        } else {
            None
        }
    }
}

/// The value of an integer literal: an optional minus sign before an
/// unsigned literal.
pub open spec fn parse_int(s: Seq<char>) -> Option<int> {
    if s.len() >= 1 && s[0] == '-' {
        match parse_mag(s.drop_first()) {
            Some(v) => Some(-v),
            None => None,
        }
    } else {
        parse_mag(s)
    }
}

proof fn lemma_radix_val_nonneg(s: Seq<char>, base: int)
    requires
        base >= 2,
        all_digits(s, base),
    ensures
        radix_val(s, base) >= 0,
    decreases s.len(),
{
    if s.len() > 0 {
        assert(is_digit(s.last(), base));
        assert(all_digits(s.drop_last(), base)) by {
            let d = s.drop_last();
            assert forall|i: int| 0 <= i < d.len() implies is_digit(#[trigger] d[i], base) by {
                assert(d[i] == s[i]);
            }
        }
        lemma_radix_val_nonneg(s.drop_last(), base);
        assert(radix_val(s.drop_last(), base) * base >= 0) by (nonlinear_arith)
            requires
                radix_val(s.drop_last(), base) >= 0,
                base >= 2,
        ;
    }
}

/// Reading more digits never shrinks the value.
proof fn lemma_radix_prefix_le(s: Seq<char>, base: int, n: int)
    requires
        base >= 2,
        all_digits(s, base),
        0 <= n <= s.len(),
    ensures
        radix_val(s.subrange(0, n), base) <= radix_val(s, base),
    decreases s.len() - n,
{
    if n == s.len() {
        assert(s.subrange(0, n) =~= s);
    } else {
        let p0 = s.subrange(0, n);
        let p1 = s.subrange(0, n + 1);
        assert(p1.drop_last() =~= p0);
        assert(p1.last() == s[n]);
        assert(all_digits(p0, base)) by {
            assert forall|i: int| 0 <= i < p0.len() implies is_digit(#[trigger] p0[i], base) by {
                assert(p0[i] == s[i]);
            }
        }
        lemma_radix_val_nonneg(p0, base);
        assert(is_digit(s[n], base));
        assert(radix_val(p0, base) * base >= radix_val(p0, base)) by (nonlinear_arith)
            requires
                radix_val(p0, base) >= 0,
                base >= 2,
        ;
        lemma_radix_prefix_le(s, base, n + 1);
    }
}

/// How `str_to_int` takes a literal apart: `neg` records a leading
/// minus sign, `base` and `digits` the radix prefix and the digit text
/// of the remaining magnitude.
spec fn split_shape(s: Seq<char>, neg: bool, base: int, digits: Seq<char>) -> bool {
    let mag = if neg {
        s.drop_first()
    } else {
        s
    };
    &&& (neg ==> s.len() >= 1 && s[0] == '-')
    &&& (!neg ==> !(s.len() >= 1 && s[0] == '-'))
    &&& (if mag.len() >= 2 && mag[0] == '0' && mag[1] == 'x' {
        base == 16 && digits == mag.subrange(2, mag.len() as int)
    } else {
        base == 10 && digits == mag
    })
}

proof fn lemma_split_parse(s: Seq<char>, neg: bool, base: int, digits: Seq<char>)
    requires
        split_shape(s, neg, base, digits),
    ensures
        parse_int(s) == (if digits.len() >= 1 && all_digits(digits, base) {
            Some(
                if neg {
                    -radix_val(digits, base)
                } else {
                    radix_val(digits, base)
                },
            )
        } else {
            None
        }),
{
}

/// The digit value of `c`, or `None` when `c` is no digit of the base.
fn digit_of(c: char, base: u32) -> (r: Option<u32>)
    requires
        base == 10 || base == 16,
    ensures
        r is Some <==> is_digit(c, base as int),
        r is Some ==> r.unwrap() as int == digit_val(c) && r.unwrap() < base,
{
    let v = c as u32;
    if 48 <= v && v <= 57 {
        Some(v - 48)
    } else if base == 16 && 65 <= v && v <= 70 {
        Some(v - 55)
    } else if base == 16 && 97 <= v && v <= 102 {
        Some(v - 87)
    } else {
        None
    }
}

/// Parses an integer literal. A malformed literal is `BadImmediate`;
/// a well-formed one whose magnitude exceeds 2^32 - 1 (wider than any
/// instruction field) is `ImmediateOutOfRange`.
pub fn str_to_int(s: &str) -> (r: Result<i64, AsmError>)
    ensures
        match parse_int(s@) {
            Some(v) => if -0xFFFF_FFFF <= v <= 0xFFFF_FFFF {
                r == Ok::<i64, AsmError>(v as i64)
            } else {
                r == Err::<i64, AsmError>(AsmError::ImmediateOutOfRange)
            },
            None => r == Err::<i64, AsmError>(AsmError::BadImmediate),
        },
{
    let len = s.unicode_len();
    let mut pos: usize = 0;
    let mut neg: bool = false;
    if len >= 1 && s.get_char(0) == '-' {
        neg = true;
        pos = 1;
    }
    let ghost mag = if neg {
        s@.drop_first()
    } else {
        s@
    };
    proof {
        assert(mag =~= s@.subrange(pos as int, len as int));
    }
    let mut base: u32 = 10;
    if pos + 2 <= len && s.get_char(pos) == '0' && s.get_char(pos + 1) == 'x' {
        base = 16;
        pos = pos + 2;
    }
    let ghost digits = s@.subrange(pos as int, len as int);
    proof {
        if mag.len() >= 2 && mag[0] == '0' && mag[1] == 'x' {
            assert(base == 16);
            assert(mag.subrange(2, mag.len() as int) =~= digits);
        } else {
            assert(base == 10);
            assert(mag =~= digits);
        }
        assert(split_shape(s@, neg, base as int, digits));
    }
    if pos == len {
        proof {
            lemma_split_parse(s@, neg, base as int, digits);
        }
        return Err(AsmError::BadImmediate);
    }
    let mut i: usize = pos;
    while i < len
        invariant
            pos <= i <= len,
            len == s@.len(),
            base == 10 || base == 16,
            digits == s@.subrange(pos as int, len as int),
            digits.len() >= 1,
            split_shape(s@, neg, base as int, digits),
            forall|j: int| pos <= j < i ==> is_digit(#[trigger] s@[j], base as int),
        decreases len - i,
    {
        let c = s.get_char(i);
        if digit_of(c, base).is_none() {
            proof {
                assert(digits[i - pos as int] == s@[i as int]);
                assert(!all_digits(digits, base as int));
                lemma_split_parse(s@, neg, base as int, digits);
            }
            return Err(AsmError::BadImmediate);
        }
        i += 1;
    }
    proof {
        assert(all_digits(digits, base as int)) by {
            assert forall|j: int| 0 <= j < digits.len() implies is_digit(
                #[trigger] digits[j],
                base as int,
            ) by {
                assert(digits[j] == s@[pos + j]);
            }
        }
    }
    let mut val: i64 = 0;
    let mut k: usize = pos;
    while k < len
        invariant
            pos <= k <= len,
            len == s@.len(),
            base == 10 || base == 16,
            digits == s@.subrange(pos as int, len as int),
            digits.len() >= 1,
            split_shape(s@, neg, base as int, digits),
            neg == (s@.len() >= 1 && s@[0] == '-'),
            all_digits(digits, base as int),
            0 <= val <= 0xFFFF_FFFF,
            val as int == radix_val(s@.subrange(pos as int, k as int), base as int),
        decreases len - k,
    {
        let c = s.get_char(k);
        let d = match digit_of(c, base) {
            Some(d) => d,
            None => {
                proof {
                    assert(digits[k - pos as int] == s@[k as int]);
                    assert(is_digit(s@[k as int], base as int));
                }
                return Err(AsmError::BadImmediate);
            },
        };
        proof {
            assert((val as int) * (base as int) <= 0xFFFF_FFFFi64 * 16) by (nonlinear_arith)
                requires
                    0 <= val as int <= 0xFFFF_FFFFi64,
                    base as int <= 16,
            ;
            assert((val as int) * (base as int) >= 0) by (nonlinear_arith)
                requires
                    0 <= val as int,
                    0 <= base as int,
            ;
        }
        let new_val: i64 = val * (base as i64) + (d as i64);
        proof {
            let p0 = s@.subrange(pos as int, k as int);
            let p1 = s@.subrange(pos as int, k as int + 1);
            assert(p1.drop_last() =~= p0);
            assert(p1.last() == s@[k as int]);
            assert(new_val as int == radix_val(p1, base as int));
        }
        val = new_val;
        k += 1;
        if val > 0xFFFF_FFFF {
            proof {
                let done = s@.subrange(pos as int, k as int);
                assert(done =~= digits.subrange(0, k - pos as int));
                lemma_radix_prefix_le(digits, base as int, k - pos as int);
                assert(radix_val(digits, base as int) > 0xFFFF_FFFF);
                lemma_split_parse(s@, neg, base as int, digits);
            }
            return Err(AsmError::ImmediateOutOfRange);
        }
    }
    proof {
        assert(s@.subrange(pos as int, k as int) =~= digits);
        assert(val as int == radix_val(digits, base as int));
        lemma_split_parse(s@, neg, base as int, digits);
    }
    if neg {
        Ok(-val)
    } else {
        Ok(val)
    }
}

} // verus!
