//! Decimal integers as they appear on the wire: ASCII digits with an optional sign.

use vstd::prelude::*;

verus! {

/// ASCII code of the digit zero.
pub const DIGIT_ZERO: u8 = 48;

/// ASCII code of the minus sign.
pub const MINUS: u8 = 45;

/// ASCII code of the plus sign.
pub const PLUS: u8 = 43;

/// True when `b` is an ASCII decimal digit.
pub open spec fn is_digit(b: u8) -> bool {
    48 <= b <= 57
}

/// True when every byte of `s` is an ASCII decimal digit.
pub open spec fn all_digits(s: Seq<u8>) -> bool {
    forall|i: int| 0 <= i < s.len() ==> is_digit(#[trigger] s[i])
}

/// The number that a sequence of digits denotes in base ten; leading zeros count for nothing.
pub open spec fn digits_value(s: Seq<u8>) -> nat
    decreases s.len(),
{
    if s.len() == 0 {
        0
    } else {
        digits_value(s.drop_last()) * 10 + (s.last() - 48) as nat
    }
}

/// The shortest base-ten text of `n`: no leading zeros, and `0` for zero.
pub open spec fn decimal(n: nat) -> Seq<u8>
    decreases n,
{
    if n < 10 {
        seq![(48 + n) as u8]
    } else {
        decimal(n / 10).push((48 + n % 10) as u8)
    }
}

/// The base-ten text of a signed integer: a minus sign before the digits of a negative one.
pub open spec fn signed_decimal(i: int) -> Seq<u8> {
    if i < 0 {
        seq![MINUS] + decimal((-i) as nat)
    } else {
        decimal(i as nat)
    }
}

/// The number that an unsigned text denotes: an optional plus sign, then at least one digit.
pub open spec fn unsigned_value(s: Seq<u8>) -> Option<nat> {
    let digits = if s.len() > 0 && s[0] == PLUS {
        s.skip(1)
    } else {
        s
    };
    if digits.len() > 0 && all_digits(digits) {
        Some(digits_value(digits))
    } else {
        None
    }
}

/// The integer that a signed text denotes: an optional sign, then at least one digit.
pub open spec fn signed_value(s: Seq<u8>) -> Option<int> {
    if s.len() > 0 && s[0] == MINUS {
        let digits = s.skip(1);
        if digits.len() > 0 && all_digits(digits) {
            Some(-(digits_value(digits) as int))
        } else {
            None
        }
    } else {
        match unsigned_value(s) {
            Some(n) => Some(n as int),
            None => None,
        }
    }
}

/// The `i64` that a text denotes, if it denotes an integer that an `i64` can hold.
pub open spec fn i64_value(s: Seq<u8>) -> Option<i64> {
    match signed_value(s) {
        Some(v) => if i64::MIN <= v <= i64::MAX {
            Some(v as i64)
        } else {
            None
        },
        None => None,
    }
}

/// The `u64` that a text denotes, if it denotes a number that a `u64` can hold.
pub open spec fn u64_value(s: Seq<u8>) -> Option<u64> {
    match unsigned_value(s) {
        Some(v) => if v <= u64::MAX {
            Some(v as u64)
        } else {
            None
        },
        None => None,
    }
}

/// The length or the count that a header declares, if the text denotes an integer that an
/// `i64` or a `u64` can hold: every length that can be written is one of them, and so is the
/// -1 of the null value.
pub open spec fn declared_value(s: Seq<u8>) -> Option<int> {
    match signed_value(s) {
        Some(v) => if i64::MIN <= v <= u64::MAX {
            Some(v)
        } else {
            None
        },
        None => None,
    }
}

/// A prefix of a digit sequence never denotes more than the whole sequence.
pub proof fn lemma_digits_value_prefix(s: Seq<u8>, k: int)
    requires
        0 <= k <= s.len(),
    ensures
        digits_value(s.take(k)) <= digits_value(s),
    decreases s.len(),
{
    if k == s.len() {
        assert(s.take(k) =~= s);
    } else {
        assert(s.drop_last().take(k) =~= s.take(k));
        lemma_digits_value_prefix(s.drop_last(), k);
    }
}

/// Appending one digit multiplies the value by ten and adds the digit.
pub proof fn lemma_digits_value_push(s: Seq<u8>, d: u8)
    ensures
        digits_value(s.push(d)) == digits_value(s) * 10 + (d - 48) as nat,
{
    assert(s.push(d).drop_last() =~= s);
}

/// The text of a number consists of digits only and denotes that number.
pub proof fn lemma_decimal_value(n: nat)
    ensures
        decimal(n).len() > 0,
        all_digits(decimal(n)),
        digits_value(decimal(n)) == n,
    decreases n,
{
    if n < 10 {
        let s = decimal(n);
        assert(s.drop_last() =~= Seq::<u8>::empty());
        assert(digits_value(s.drop_last()) == 0);
    } else {
        lemma_decimal_value(n / 10);
        lemma_digits_value_push(decimal(n / 10), (48 + n % 10) as u8);
    }
}

/// Reading back the text of a number gives the number.
pub proof fn lemma_unsigned_value_of_decimal(n: nat)
    ensures
        unsigned_value(decimal(n)) == Some(n),
{
    lemma_decimal_value(n);
    assert(is_digit(decimal(n)[0]));
}

/// Reading back the text of a signed integer gives the integer.
pub proof fn lemma_signed_value_of_decimal(i: int)
    ensures
        signed_value(signed_decimal(i)) == Some(i),
{
    if i < 0 {
        let digits = decimal((-i) as nat);
        lemma_decimal_value((-i) as nat);
        assert(signed_decimal(i).skip(1) =~= digits);
    } else {
        lemma_unsigned_value_of_decimal(i as nat);
        assert(is_digit(decimal(i as nat)[0])) by {
            lemma_decimal_value(i as nat);
        }
    }
}

/// Reads the digits of `bytes` from index `start` on, as a number that is at most `limit`.
fn parse_digits(bytes: &[u8], start: usize, limit: u128) -> (r: Option<u128>)
    requires
        start <= bytes@.len(),
        limit <= 0x1_0000_0000_0000_0000,
    ensures
        r == ({
            let digits = bytes@.skip(start as int);
            if digits.len() > 0 && all_digits(digits) && digits_value(digits) <= limit {
                Some(digits_value(digits) as u128)
            } else {
                None
            }
        }),
{
    let ghost digits = bytes@.skip(start as int);
    if start == bytes.len() {
        return None;
    }
    let mut acc: u128 = 0;
    let mut i: usize = start;
    while i < bytes.len()
        invariant
            start <= i <= bytes@.len(),
            digits == bytes@.skip(start as int),
            all_digits(digits.take(i - start)),
            acc == digits_value(digits.take(i - start)),
            acc <= limit,
            limit <= 0x1_0000_0000_0000_0000,
        decreases bytes@.len() - i,
    {
        let b = bytes[i];
        if b < 48 || b > 57 {
            assert(!is_digit(digits[i - start]));
            return None;
        }
        let next: u128 = acc * 10 + (b - 48) as u128;
        proof {
            assert(digits.take(i - start + 1) =~= digits.take(i - start).push(b));
            lemma_digits_value_push(digits.take(i - start), b);
            lemma_digits_value_prefix(digits, i - start + 1);
        }
        if next > limit {
            return None;
        }
        acc = next;
        i += 1;
    }
    assert(digits.take(i - start) =~= digits);
    Some(acc)
}

/// Reads an unsigned decimal text: an optional plus sign, then digits; `None` when the text is
/// anything else or denotes more than a `u64` holds.
pub fn parse_u64(bytes: &[u8]) -> (r: Option<u64>)
    ensures
        r == u64_value(bytes@),
{
    let start: usize = if bytes.len() > 0 && bytes[0] == PLUS {
        1
    } else {
        0
    };
    assert(bytes@.skip(0) =~= bytes@);
    match parse_digits(bytes, start, 0xffff_ffff_ffff_ffff) {
        Some(v) => Some(v as u64),
        None => None,
    }
}

/// Reads a signed decimal text: an optional sign, then digits; `None` when the text is anything
/// else or denotes an integer outside of `i64`.
pub fn parse_i64(bytes: &[u8]) -> (r: Option<i64>)
    ensures
        r == i64_value(bytes@),
{
    assert(bytes@.skip(0) =~= bytes@);
    if bytes.len() > 0 && bytes[0] == MINUS {
        match parse_digits(bytes, 1, 0x8000_0000_0000_0000) {
            Some(v) => {
                if v == 0x8000_0000_0000_0000 {
                    Some(i64::MIN)
                } else {
                    Some(-(v as i64))
                }
            },
            None => None,
        }
    } else {
        let start: usize = if bytes.len() > 0 && bytes[0] == PLUS {
            1
        } else {
            0
        };
        match parse_digits(bytes, start, 0x7fff_ffff_ffff_ffff) {
            Some(v) => Some(v as i64),
            None => None,
        }
    }
}

/// Appends the base-ten text of `n` to `out`.
pub fn push_decimal(out: &mut Vec<u8>, n: u64)
    ensures
        final(out)@ == old(out)@ + decimal(n as nat),
    decreases n,
{
    if n >= 10 {
        push_decimal(out, n / 10);
    }
    out.push(DIGIT_ZERO + (n % 10) as u8);
    assert(final(out)@ =~= old(out)@ + decimal(n as nat)) by {
        assert(out@ =~= old(out)@ + decimal(n as nat));
    }
}

/// Appends the base-ten text of the signed integer `i` to `out`.
pub fn push_signed_decimal(out: &mut Vec<u8>, i: i64)
    ensures
        final(out)@ == old(out)@ + signed_decimal(i as int),
{
    if i < 0 {
        out.push(MINUS);
        let magnitude: u64 = (-(i + 1)) as u64 + 1;
        push_decimal(out, magnitude);
        assert(out@ =~= old(out)@ + signed_decimal(i as int));
    } else {
        push_decimal(out, i as u64);
    }
}

/// Reads the length or the count that a header declares: a signed decimal text that denotes
/// an integer that an `i64` or a `u64` can hold; `None` for any other text.
pub fn parse_declared(bytes: &[u8]) -> (r: Option<i128>)
    ensures
        match declared_value(bytes@) {
            Some(v) => r == Some(v as i128),
            None => r is None,
        },
{
    proof {
        if bytes@.len() > 0 && bytes@[0] == MINUS {
            assert(!is_digit(bytes@[0]));
        }
    }
    match parse_i64(bytes) {
        Some(i) => Some(i as i128),
        None => match parse_u64(bytes) {
            Some(u) => Some(u as i128),
            None => None,
        },
    }
}

} // verus!
