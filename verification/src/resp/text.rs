//! Texts and the bytes that hold them.

use super::number::is_digit;
use super::number::lemma_decimal_value;
use super::number::push_signed_decimal;
use super::number::signed_decimal;
use vstd::prelude::*;
use vstd::utf8::decode_utf8;
use vstd::utf8::encode_utf8;
use vstd::utf8::valid_utf8;

verus! {

/// The text whose characters have the given bytes as their codes.
pub open spec fn ascii_text(bytes: Seq<u8>) -> Seq<char> {
    Seq::new(bytes.len(), |i: int| bytes[i] as char)
}

/// Bytes below 128 are UTF-8 as they stand.
pub proof fn lemma_ascii_is_utf8(bytes: Seq<u8>)
    requires
        forall|i: int| 0 <= i < bytes.len() ==> bytes[i] < 128,
    ensures
        valid_utf8(bytes),
{
    lemma_ascii_text(bytes);
}

/// Bytes below 128 hold the text whose characters have those bytes as their codes.
pub proof fn lemma_ascii_text(bytes: Seq<u8>)
    requires
        forall|i: int| 0 <= i < bytes.len() ==> bytes[i] < 128,
    ensures
        valid_utf8(bytes),
        decode_utf8(bytes) == ascii_text(bytes),
        encode_utf8(ascii_text(bytes)) == bytes,
{
    let chars = ascii_text(bytes);
    assert(vstd::utf8::is_ascii_chars(chars));
    vstd::utf8::is_ascii_chars_encode_utf8(chars);
    assert(encode_utf8(chars) =~= bytes);
    vstd::utf8::encode_utf8_valid_utf8(chars);
    vstd::utf8::encode_utf8_decode_utf8(chars);
}

/// `String::from_utf8`: the text that a vector of bytes holds, if the bytes are UTF-8. The
/// standard library documents that it succeeds exactly on UTF-8 and that the text then consists
/// of the characters that the bytes encode.
#[verifier::external_body]
pub(crate) fn string_from_utf8(bytes: Vec<u8>) -> (text: Option<String>)
    ensures
        text is Some <==> valid_utf8(bytes@),
        text matches Some(s) ==> s@ == decode_utf8(bytes@),
{
    match String::from_utf8(bytes) {
        Ok(s) => Some(s),
        Err(_) => None,
    }
}

/// Appends a copy of `bytes` to `out`.
pub fn push_bytes(out: &mut Vec<u8>, bytes: &[u8])
    ensures
        final(out)@ == old(out)@ + bytes@,
{
    let mut i: usize = 0;
    while i < bytes.len()
        invariant
            i <= bytes@.len(),
            out@ == old(out)@ + bytes@.take(i as int),
        decreases bytes@.len() - i,
    {
        out.push(bytes[i]);
        assert(bytes@.take(i + 1) =~= bytes@.take(i as int).push(bytes@[i as int]));
        i += 1;
    }
    assert(bytes@.take(i as int) =~= bytes@);
}

/// The base-ten text of a signed integer, as a string.
pub fn decimal_string(i: i64) -> (text: String)
    ensures
        text@ == ascii_text(signed_decimal(i as int)),
{
    let mut bytes: Vec<u8> = Vec::new();
    push_signed_decimal(&mut bytes, i);
    proof {
        let digits = signed_decimal(i as int);
        assert(bytes@ =~= digits);
        assert forall|j: int| 0 <= j < digits.len() implies digits[j] < 128 by {
            if i < 0 {
                lemma_decimal_value((-i) as nat);
                if j > 0 {
                    assert(is_digit(super::number::decimal((-i) as nat)[j - 1]));
                }
            } else {
                lemma_decimal_value(i as nat);
                assert(is_digit(digits[j]));
            }
        }
        lemma_ascii_text(digits);
    }
    match string_from_utf8(bytes) {
        Some(text) => text,
        None => String::new(),
    }
}

} // verus!
