//! Addresses as they stand in a snapshot: signed numbers in base 16.

use crate::text::{
    DIGIT_0, DIGIT_9, LOWER_A, LOWER_F, MINUS, PLUS, UPPER_A, UPPER_F,
};
use vstd::prelude::*;

verus! {

/// The value of one hexadecimal digit, in either case.
pub open spec fn hex_digit(b: u8) -> Option<int> {
    if DIGIT_0 <= b <= DIGIT_9 {
        Some(b - DIGIT_0)
    } else if LOWER_A <= b <= LOWER_F {
        Some(b - LOWER_A + 10)
    } else if UPPER_A <= b <= UPPER_F {
        Some(b - UPPER_A + 10)
    } else {
        None
    }
}

/// Every byte of `s` is a hexadecimal digit.
pub open spec fn all_hex_digits(s: Seq<u8>) -> bool {
    forall|i: int| 0 <= i < s.len() ==> hex_digit(#[trigger] s[i]) is Some
}

/// The number that a string of hexadecimal digits denotes, most significant
/// digit first.
pub open spec fn hex_magnitude(s: Seq<u8>) -> int
    decreases s.len(),
{
    if s.len() == 0 {
        0
    } else {
        16 * hex_magnitude(s.drop_last()) + hex_digit(s.last()).unwrap_or(0)
    }
}

/// The digits of a token: the token without its sign, if it has one.
pub open spec fn hex_digits_of(token: Seq<u8>) -> Seq<u8> {
    if token.len() > 0 && (token[0] == PLUS || token[0] == MINUS) {
        token.skip(1)
    } else {
        token
    }
}

/// The number that a token denotes in base 16, sign included.
pub open spec fn hex_signed(token: Seq<u8>) -> int {
    if token.len() > 0 && token[0] == MINUS {
        -hex_magnitude(hex_digits_of(token))
    } else {
        hex_magnitude(hex_digits_of(token))
    }
}

/// The signed 64-bit integer that `token` denotes in base 16: an optional
/// sign, then one or more hexadecimal digits, with a value in range. Any
/// other token denotes nothing.
pub open spec fn hex_value(token: Seq<u8>) -> Option<i64> {
    let digits = hex_digits_of(token);
    if digits.len() > 0 && all_hex_digits(digits) && i64::MIN <= hex_signed(token) <= i64::MAX {
        Some(hex_signed(token) as i64)
    } else {
        None
    }
}

/// Appending digits never lowers the magnitude.
pub proof fn lemma_hex_magnitude_grows(s: Seq<u8>, k: int)
    requires
        0 <= k <= s.len(),
    ensures
        0 <= hex_magnitude(s.take(k)) <= hex_magnitude(s),
    decreases s.len() - k,
{
    if k == s.len() {
        assert(s.take(k) =~= s);
        lemma_hex_magnitude_nonnegative(s);
    } else {
        lemma_hex_magnitude_grows(s, k + 1);
        assert(s.take(k + 1).drop_last() =~= s.take(k));
        lemma_hex_magnitude_nonnegative(s.take(k));
    }
}

/// A magnitude is never negative.
pub proof fn lemma_hex_magnitude_nonnegative(s: Seq<u8>)
    ensures
        0 <= hex_magnitude(s),
    decreases s.len(),
{
    if s.len() > 0 {
        lemma_hex_magnitude_nonnegative(s.drop_last());
    }
}

/// The value of the hexadecimal digit `b`, if it is one.
pub fn hex_digit_value(b: u8) -> (r: Option<u8>)
    ensures
        match r {
            Some(d) => hex_digit(b) == Some(d as int) && d < 16,
            None => hex_digit(b) is None,
        },
{
    if b >= DIGIT_0 && b <= DIGIT_9 {
        Some(b - DIGIT_0)
    } else if b >= LOWER_A && b <= LOWER_F {
        Some(b - LOWER_A + 10)
    } else if b >= UPPER_A && b <= UPPER_F {
        Some(b - UPPER_A + 10)
    } else {
        None
    }
}

/// Decodes a token as a signed 64-bit integer written in base 16.
pub fn parse_hex(token: &[u8]) -> (r: Option<i64>)
    ensures
        r == hex_value(token@),
{
    if token.len() == 0 {
        return None;
    }
    let negative = token[0] == MINUS;
    let start: usize = if token[0] == PLUS || token[0] == MINUS {
        1
    } else {
        0
    };
    if start == token.len() {
        return None;
    }
    let ghost digits = hex_digits_of(token@);
    assert(digits =~= token@.skip(start as int));
    let limit: u64 = if negative {
        0x8000_0000_0000_0000
    } else {
        0x7fff_ffff_ffff_ffff
    };
    let mut acc: u64 = 0;
    let mut i: usize = start;
    while i < token.len()
        invariant
            start <= i <= token.len(),
            digits == token@.skip(start as int),
            digits == hex_digits_of(token@),
            negative == (token@.len() > 0 && token@[0] == MINUS),
            limit == if negative {
                0x8000_0000_0000_0000u64
            } else {
                0x7fff_ffff_ffff_ffffu64
            },
            acc == hex_magnitude(digits.take(i - start)),
            acc <= limit,
            all_hex_digits(digits.take(i - start)),
        decreases token.len() - i,
    {
        let ghost k = i - start;
        proof {
            assert(digits.take(k + 1).drop_last() =~= digits.take(k));
            assert(digits.take(k + 1).last() == token@[i as int]);
        }
        match hex_digit_value(token[i]) {
            None => {
                assert(digits[k] == token@[i as int]);
                assert(hex_digit(digits[k]) is None);
                return None;
            },
            Some(d) => {
                if acc > (limit - d as u64) / 16 {
                    proof {
                        lemma_hex_magnitude_grows(digits, k + 1);
                    }
                    return None;
                }
                acc = acc * 16 + d as u64;
                assert forall|j: int| 0 <= j < digits.take(k + 1).len() implies hex_digit(
                    #[trigger] digits.take(k + 1)[j],
                ) is Some by {
                    if j < k {
                        assert(digits.take(k)[j] == digits.take(k + 1)[j]);
                    }
                }
            },
        }
        i += 1;
    }
    assert(digits.take(i - start) =~= digits);
    if negative {
        if acc == 0x8000_0000_0000_0000 {
            Some(i64::MIN)
        } else {
            let v: i64 = acc as i64;
            Some(-v)
        }
    } else {
        Some(acc as i64)
    }
}

} // verus!
