//! What holds of encoding and decoding taken together.

use super::decode::decoded;
use super::decode::decoded_array;
use super::decode::decoded_bulk_string;
use super::decode::decoded_items;
use super::decode::header;
use super::decode::lemma_decoded_bound;
use super::decode::lemma_decoded_items_bound;
use super::decode::lemma_header_bound;
use super::decode::taken;
use super::line::crlf;
use super::line::crlf_at;
use super::line::lemma_line_end_cases;
use super::line::lemma_line_end_extends;
use super::line::lemma_line_end_of_cut_line;
use super::line::lemma_line_end_of_line;
use super::line::lemma_line_end_of_prefix;
use super::line::line_end;
use super::line::no_crlf;
use super::number::decimal;
use super::number::declared_value;
use super::number::is_digit;
use super::number::lemma_decimal_value;
use super::number::lemma_signed_value_of_decimal;
use super::number::lemma_unsigned_value_of_decimal;
use super::number::signed_decimal;
use super::value::SpecValue;
use super::value::sized;
use super::value::tagged_line;
use super::value::wire;
use super::value::wire_all;
use super::value::TAG_ARRAY;
use super::value::TAG_BULK_STRING;
use super::value::TAG_INTEGER;
use super::value::TAG_SIMPLE_STRING;
use vstd::prelude::*;
use vstd::utf8::encode_utf8;

verus! {

/// True when a value holds no error value, and no simple string whose bytes hold a line
/// terminator: an error has a tag that the decoder refuses, and a simple string ends at the
/// first line terminator.
pub open spec fn plain(v: SpecValue) -> bool
    decreases v,
{
    match v {
        SpecValue::SimpleString(s) => no_crlf(encode_utf8(s)),
        SpecValue::Error(_) => false,
        SpecValue::Array(items) => forall|i: int|
            0 <= i < items.len() ==> plain(#[trigger] items[i]),
        _ => true,
    }
}

/// The values that the decoder gives back as they were encoded: the null value, integers, bulk
/// strings, simple strings whose bytes hold no line terminator, and arrays of such values, of
/// the lengths and counts that values in memory have.
pub open spec fn decodable(v: SpecValue) -> bool {
    sized(v) && plain(v)
}

/// True when a text holds neither a carriage return nor a line feed.
pub open spec fn single_line(s: Seq<char>) -> bool {
    forall|i: int| 0 <= i < s.len() ==> #[trigger] s[i] != '\r' && s[i] != '\n'
}

/// A carriage return among the UTF-8 bytes of a character is that character itself: the bytes
/// of any other character are either the character's own code or at least 128.
proof fn lemma_scalar_has_no_carriage_return(c: u32)
    requires
        vstd::utf8::is_scalar(c),
        c != 13,
    ensures
        forall|i: int|
            0 <= i < vstd::utf8::encode_scalar(c).len() ==> #[trigger] vstd::utf8::encode_scalar(
                c,
            )[i] != 13,
{
    assert(c <= 0x7f ==> ((c & 0x7F) as u8) != 13) by (bit_vector)
        requires
            c != 13,
    ;
    assert((0xC0u8 | (((c >> 6) & 0x1F) as u8)) >= 0x80) by (bit_vector);
    assert((0xE0u8 | (((c >> 12) & 0x0F) as u8)) >= 0x80) by (bit_vector);
    assert((0xF0u8 | (((c >> 18) & 0x7) as u8)) >= 0x80) by (bit_vector);
    assert((0x80u8 | ((c & 0x3F) as u8)) >= 0x80) by (bit_vector);
    assert((0x80u8 | (((c >> 6) & 0x3F) as u8)) >= 0x80) by (bit_vector);
    assert((0x80u8 | (((c >> 12) & 0x3F) as u8)) >= 0x80) by (bit_vector);
}

/// The UTF-8 bytes of a text without a carriage return hold no carriage return.
proof fn lemma_text_has_no_carriage_return(s: Seq<char>)
    requires
        forall|i: int| 0 <= i < s.len() ==> #[trigger] s[i] != '\r',
    ensures
        forall|j: int| 0 <= j < encode_utf8(s).len() ==> #[trigger] encode_utf8(s)[j] != 13,
    decreases s.len(),
{
    if s.len() > 0 {
        let head = vstd::utf8::encode_scalar(s[0] as u32);
        let tail = encode_utf8(s.drop_first());
        vstd::utf8::char_is_scalar(s[0]);
        assert(s[0] as u32 != 13) by {
            assert('\r' as u32 == 13);
            if s[0] as u32 == 13 {
                vstd::utf8::char_u32_cast(s[0], 13u32);
                vstd::utf8::char_u32_cast('\r', 13u32);
            }
        }
        lemma_scalar_has_no_carriage_return(s[0] as u32);
        assert forall|i: int| 0 <= i < s.drop_first().len() implies #[trigger] s.drop_first()[i]
            != '\r' by {
            assert(s.drop_first()[i] == s[i + 1]);
        }
        lemma_text_has_no_carriage_return(s.drop_first());
        assert forall|j: int| 0 <= j < encode_utf8(s).len() implies #[trigger] encode_utf8(s)[j]
            != 13 by {
            if j < head.len() {
                assert(encode_utf8(s)[j] == head[j]);
            } else {
                assert(encode_utf8(s)[j] == tail[j - head.len()]);
            }
        }
    }
}

/// The UTF-8 bytes of a text that holds neither a carriage return nor a line feed hold no line
/// terminator, so a simple string with such a text is among the values that can be decoded.
pub proof fn lemma_single_line_is_decodable(s: Seq<char>)
    requires
        single_line(s),
    ensures
        decodable(SpecValue::SimpleString(s)),
{
    lemma_text_has_no_carriage_return(s);
    assert forall|i: int| !crlf_at(encode_utf8(s), i) by {
        if 0 <= i < encode_utf8(s).len() {
            assert(encode_utf8(s)[i] != 13);
        }
    }
}

/// The text of a number holds no line terminator.
proof fn lemma_decimal_no_crlf(n: nat)
    ensures
        no_crlf(decimal(n)),
{
    lemma_decimal_value(n);
    assert forall|i: int| !crlf_at(decimal(n), i) by {
        if 0 <= i < decimal(n).len() {
            assert(is_digit(decimal(n)[i]));
        }
    }
}

/// The text of a signed integer holds no line terminator.
proof fn lemma_signed_decimal_no_crlf(i: int)
    ensures
        no_crlf(signed_decimal(i)),
{
    let text = signed_decimal(i);
    if i < 0 {
        let digits = decimal((-i) as nat);
        lemma_decimal_value((-i) as nat);
        assert forall|j: int| !crlf_at(text, j) by {
            if 1 <= j < text.len() {
                assert(text[j] == digits[j - 1]);
                assert(is_digit(digits[j - 1]));
            }
        }
    } else {
        lemma_decimal_no_crlf(i as nat);
    }
}

/// The header of a tagged line whose content holds no line terminator is that content,
/// whatever follows the line.
proof fn lemma_header_of_line(tag: u8, content: Seq<u8>, rest: Seq<u8>)
    requires
        no_crlf(content),
    ensures
        header(tagged_line(tag, content) + rest) == Some((content, (content.len() + 3) as nat)),
{
    let b = tagged_line(tag, content) + rest;
    assert(b.skip(1) =~= content + crlf() + rest);
    lemma_line_end_of_line(content, rest);
    assert(b.skip(1).take(content.len() as int) =~= content);
}

/// A tagged line that was cut before its end has no header yet.
proof fn lemma_header_of_cut_line(tag: u8, content: Seq<u8>, k: int)
    requires
        no_crlf(content),
        1 <= k < content.len() + 3,
    ensures
        header(tagged_line(tag, content).take(k)) is None,
{
    let b = tagged_line(tag, content).take(k);
    assert(b.skip(1) =~= (content + crlf()).take(k - 1));
    lemma_line_end_of_cut_line(content, k - 1);
}

/// A header that has arrived stays as it is when more bytes follow.
proof fn lemma_header_extends(b: Seq<u8>, rest: Seq<u8>)
    requires
        header(b) is Some,
    ensures
        header(b + rest) == header(b),
{
    assert((b + rest).skip(1) =~= b.skip(1) + rest);
    lemma_line_end_extends(b.skip(1), rest);
    lemma_line_end_cases(b.skip(1));
    let i = line_end(b.skip(1))->0;
    assert((b.skip(1) + rest).take(i) =~= b.skip(1).take(i));
}

/// A header is the header of every prefix that holds all of it.
proof fn lemma_header_of_prefix(b: Seq<u8>, k: int)
    requires
        header(b) matches Some((_, used)) && used <= k <= b.len(),
    ensures
        header(b.take(k)) == header(b),
{
    lemma_header_bound(b);
    let i = line_end(b.skip(1))->0;
    assert(b.take(k).skip(1) =~= b.skip(1).take(k - 1));
    lemma_line_end_of_prefix(b.skip(1), k - 1);
    assert(b.skip(1).take(k - 1).take(i) =~= b.skip(1).take(i));
}

/// Round trip: decoding the encoding of a value gives the value and the length of the
/// encoding, whatever bytes follow it in the buffer.
pub proof fn lemma_decoded_wire(v: SpecValue, rest: Seq<u8>)
    requires
        decodable(v),
    ensures
        decoded(wire(v) + rest) matches Ok(Some((value, used))) && value == v && used == wire(
            v,
        ).len(),
    decreases v,
{
    let b = wire(v) + rest;
    match v {
        SpecValue::SimpleString(s) => {
            let content = encode_utf8(s);
            lemma_header_of_line(TAG_SIMPLE_STRING, content, rest);
            vstd::utf8::encode_utf8_valid_utf8(s);
            vstd::utf8::encode_utf8_decode_utf8(s);
        },
        SpecValue::Integer(i) => {
            let content = signed_decimal(i as int);
            lemma_signed_decimal_no_crlf(i as int);
            lemma_header_of_line(TAG_INTEGER, content, rest);
            lemma_signed_value_of_decimal(i as int);
        },
        SpecValue::Null => {
            lemma_signed_decimal_no_crlf(-1);
            lemma_header_of_line(TAG_BULK_STRING, signed_decimal(-1), rest);
            lemma_signed_value_of_decimal(-1);
            assert(decoded(b) == decoded_bulk_string(b));
        },
        SpecValue::BulkString(s) => {
            let payload = encode_utf8(s);
            let content = decimal(payload.len());
            let used: int = (content.len() + 3) as int;
            lemma_decimal_no_crlf(payload.len());
            assert(b =~= tagged_line(TAG_BULK_STRING, content) + (payload + crlf() + rest));
            lemma_header_of_line(TAG_BULK_STRING, content, payload + crlf() + rest);
            lemma_unsigned_value_of_decimal(payload.len());
            lemma_declared_value_of_decimal(payload.len());
            assert(crlf_at(b, used + payload.len()));
            assert(b.subrange(used, used + payload.len()) =~= payload);
            vstd::utf8::encode_utf8_valid_utf8(s);
            vstd::utf8::encode_utf8_decode_utf8(s);
            assert(decoded(b) == decoded_bulk_string(b));
        },
        SpecValue::Array(items) => {
            let content = decimal(items.len());
            let used: int = (content.len() + 3) as int;
            lemma_decimal_no_crlf(items.len());
            assert(b =~= tagged_line(TAG_ARRAY, content) + (wire_all(items) + rest));
            lemma_header_of_line(TAG_ARRAY, content, wire_all(items) + rest);
            lemma_declared_value_of_decimal(items.len());
            assert(b.skip(used) =~= wire_all(items) + rest);
            lemma_decoded_items_wire(items, rest);
            assert(decoded(b) == decoded_array(b));
        },
        _ => {},
    }
}

/// The text of a length that a `u64` can hold reads back as that length.
proof fn lemma_declared_value_of_decimal(n: nat)
    requires
        n <= u64::MAX,
    ensures
        declared_value(decimal(n)) == Some(n as int),
{
    lemma_unsigned_value_of_decimal(n);
    lemma_decimal_value(n);
    assert(is_digit(decimal(n)[0]));
}

/// Round trip for a sequence of values: decoding as many values as were encoded gives them
/// back, whatever bytes follow.
pub proof fn lemma_decoded_items_wire(items: Seq<SpecValue>, rest: Seq<u8>)
    requires
        forall|i: int| 0 <= i < items.len() ==> decodable(#[trigger] items[i]),
    ensures
        decoded_items(wire_all(items) + rest, items.len()) matches Ok(Some((values, used)))
            && values == items && used == wire_all(items).len(),
    decreases items,
{
    if items.len() == 0 {
        assert(items =~= Seq::<SpecValue>::empty());
    } else {
        let first = items[0];
        let tail = items.drop_first();
        let b = wire_all(items) + rest;
        assert(decodable(first));
        assert forall|i: int| 0 <= i < tail.len() implies decodable(#[trigger] tail[i]) by {
            assert(tail[i] == items[i + 1]);
        }
        assert(b =~= wire(first) + (wire_all(tail) + rest));
        lemma_decoded_wire(first, wire_all(tail) + rest);
        assert(b.skip(wire(first).len() as int) =~= wire_all(tail) + rest);
        lemma_decoded_items_wire(tail, rest);
        assert(seq![first] + tail =~= items);
    }
}

/// Partial delivery: as long as a part of the encoding of a value is missing, the decoder asks
/// for more data.
pub proof fn lemma_decoded_cut(v: SpecValue, k: int)
    requires
        decodable(v),
        0 <= k < wire(v).len(),
    ensures
        decoded(wire(v).take(k)) matches Ok(None),
    decreases v,
{
    let b = wire(v).take(k);
    if k > 0 {
        match v {
            SpecValue::SimpleString(s) => {
                lemma_header_of_cut_line(TAG_SIMPLE_STRING, encode_utf8(s), k);
            },
            SpecValue::Integer(i) => {
                lemma_signed_decimal_no_crlf(i as int);
                lemma_header_of_cut_line(TAG_INTEGER, signed_decimal(i as int), k);
            },
            SpecValue::Null => {
                lemma_signed_decimal_no_crlf(-1);
                lemma_header_of_cut_line(TAG_BULK_STRING, signed_decimal(-1), k);
                assert(decoded(b) == decoded_bulk_string(b));
            },
            SpecValue::BulkString(s) => {
                let payload = encode_utf8(s);
                let content = decimal(payload.len());
                let used: int = (content.len() + 3) as int;
                lemma_decimal_no_crlf(payload.len());
                if k < used {
                    assert(b =~= tagged_line(TAG_BULK_STRING, content).take(k));
                    lemma_header_of_cut_line(TAG_BULK_STRING, content, k);
                } else {
                    let more = (payload + crlf()).take(k - used);
                    assert(b =~= tagged_line(TAG_BULK_STRING, content) + more);
                    lemma_header_of_line(TAG_BULK_STRING, content, more);
                    lemma_declared_value_of_decimal(payload.len());
                }
                assert(decoded(b) == decoded_bulk_string(b));
            },
            SpecValue::Array(items) => {
                let content = decimal(items.len());
                let used: int = (content.len() + 3) as int;
                lemma_decimal_no_crlf(items.len());
                if k < used {
                    assert(b =~= tagged_line(TAG_ARRAY, content).take(k));
                    lemma_header_of_cut_line(TAG_ARRAY, content, k);
                } else {
                    let more = wire_all(items).take(k - used);
                    assert(b =~= tagged_line(TAG_ARRAY, content) + more);
                    lemma_header_of_line(TAG_ARRAY, content, more);
                    lemma_declared_value_of_decimal(items.len());
                    assert(b.skip(used) =~= more);
                    lemma_decoded_items_cut(items, k - used);
                }
                assert(decoded(b) == decoded_array(b));
            },
            _ => {},
        }
    }
}

/// Partial delivery for a sequence of values: as long as a part of their encoding is missing,
/// decoding all of them asks for more data.
pub proof fn lemma_decoded_items_cut(items: Seq<SpecValue>, k: int)
    requires
        forall|i: int| 0 <= i < items.len() ==> decodable(#[trigger] items[i]),
        0 <= k < wire_all(items).len(),
    ensures
        decoded_items(wire_all(items).take(k), items.len()) matches Ok(None),
    decreases items,
{
    let first = items[0];
    let tail = items.drop_first();
    let b = wire_all(items).take(k);
    let n = wire(first).len();
    assert(decodable(first));
    assert forall|i: int| 0 <= i < tail.len() implies decodable(#[trigger] tail[i]) by {
        assert(tail[i] == items[i + 1]);
    }
    if k < n {
        assert(b =~= wire(first).take(k));
        lemma_decoded_cut(first, k);
    } else {
        let more = wire_all(tail).take(k - n);
        assert(b =~= wire(first) + more);
        lemma_decoded_wire(first, more);
        assert(b.skip(n as int) =~= more);
        lemma_decoded_items_cut(tail, k - n);
    }
}

/// A decision of the decoder is final: once a buffer holds a value or is malformed, bytes that
/// arrive later change neither the value, nor the number of bytes it takes, nor the error.
pub proof fn lemma_decoded_extends(b: Seq<u8>, rest: Seq<u8>)
    requires
        !(decoded(b) matches Ok(None)),
    ensures
        decoded(b + rest) == decoded(b),
    decreases b.len(), 1nat,
{
    let c = b + rest;
    assert(c[0] == b[0]);
    if b[0] == TAG_SIMPLE_STRING || b[0] == TAG_INTEGER {
        lemma_header_extends(b, rest);
    } else if b[0] == TAG_BULK_STRING {
        lemma_header_extends(b, rest);
        lemma_header_bound(b);
        let (content, used) = header(b)->0;
        if let Some(length) = declared_value(content) {
            if length >= 0 {
                assert(crlf_at(c, used + length) == crlf_at(b, used + length));
                assert(c.subrange(used as int, used + length) =~= b.subrange(
                    used as int,
                    used + length,
                ));
            }
        }
    } else if b[0] == TAG_ARRAY {
        lemma_header_extends(b, rest);
        lemma_header_bound(b);
        let (content, used) = header(b)->0;
        if let Some(count) = declared_value(content) {
            if count >= 0 {
                assert(c.skip(used as int) =~= b.skip(used as int) + rest);
                lemma_decoded_items_extends(b.skip(used as int), count as nat, rest);
            }
        }
        assert(decoded(b) == decoded_array(b));
        assert(decoded(c) == decoded_array(c));
    }
}

/// A decision on a sequence of values is final in the same way.
pub proof fn lemma_decoded_items_extends(b: Seq<u8>, count: nat, rest: Seq<u8>)
    requires
        !(decoded_items(b, count) matches Ok(None)),
    ensures
        decoded_items(b + rest, count) == decoded_items(b, count),
    decreases b.len(), count + 2,
{
    if count > 0 {
        lemma_decoded_bound(b);
        lemma_decoded_extends(b, rest);
        if let Ok(Some((first, used))) = decoded(b) {
            assert((b + rest).skip(used as int) =~= b.skip(used as int) + rest);
            lemma_decoded_items_extends(b.skip(used as int), (count - 1) as nat, rest);
        }
    }
}

/// The bytes that a value took are enough to decode it: cut after them, the buffer decodes to
/// the same value.
pub proof fn lemma_decoded_of_prefix(b: Seq<u8>)
    requires
        decoded(b) matches Ok(Some(_)),
    ensures
        decoded(b) matches Ok(Some((_, used))) && used <= b.len() && decoded(b.take(used as int))
            == decoded(b),
    decreases b.len(), 1nat,
{
    lemma_decoded_bound(b);
    lemma_header_bound(b);
    let n = taken(decoded(b));
    let c = b.take(n as int);
    assert(c[0] == b[0]);
    if b[0] == TAG_SIMPLE_STRING || b[0] == TAG_INTEGER {
        lemma_header_of_prefix(b, n as int);
    } else if b[0] == TAG_BULK_STRING {
        lemma_header_of_prefix(b, n as int);
        let (content, used) = header(b)->0;
        let length = declared_value(content)->0;
        if length >= 0 {
            assert(crlf_at(c, used + length));
            assert(c.subrange(used as int, used + length) =~= b.subrange(
                used as int,
                used + length,
            ));
        }
    } else if b[0] == TAG_ARRAY {
        let (content, used) = header(b)->0;
        let count = declared_value(content)->0;
        lemma_decoded_items_bound(b.skip(used as int), count as nat);
        lemma_header_of_prefix(b, n as int);
        lemma_decoded_items_of_prefix(b.skip(used as int), count as nat);
        assert(c.skip(used as int) =~= b.skip(used as int).take(n - used));
        assert(decoded(b) == decoded_array(b));
        assert(decoded(c) == decoded_array(c));
    }
}

/// The bytes that a sequence of values took are enough to decode them.
pub proof fn lemma_decoded_items_of_prefix(b: Seq<u8>, count: nat)
    requires
        decoded_items(b, count) matches Ok(Some(_)),
    ensures
        decoded_items(b, count) matches Ok(Some((_, used))) && used <= b.len() && decoded_items(
            b.take(used as int),
            count,
        ) == decoded_items(b, count),
    decreases b.len(), count + 2,
{
    lemma_decoded_items_bound(b, count);
    if count > 0 {
        lemma_decoded_bound(b);
        let (first, used) = decoded(b)->Ok_0->0;
        let tail = b.skip(used as int);
        let (others, more) = decoded_items(tail, (count - 1) as nat)->Ok_0->0;
        let end: int = (used + more) as int;
        let c = b.take(end);
        lemma_decoded_items_bound(tail, (count - 1) as nat);
        lemma_decoded_of_prefix(b);
        assert(c =~= b.take(used as int) + b.subrange(used as int, end));
        lemma_decoded_extends(b.take(used as int), b.subrange(used as int, end));
        lemma_decoded_items_of_prefix(tail, (count - 1) as nat);
        assert(c.skip(used as int) =~= tail.take(more as int));
    }
}

/// Round trip: decoding the encoding of a value gives back the value, and takes all the bytes
/// of the encoding.
pub proof fn lemma_round_trip(v: SpecValue)
    requires
        decodable(v),
    ensures
        decoded(wire(v)) matches Ok(Some((value, used))) && value == v && used == wire(v).len(),
{
    lemma_decoded_wire(v, Seq::empty());
    assert(wire(v) + Seq::<u8>::empty() =~= wire(v));
}

/// Byte conservation: a value that was decoded took at least one byte and no more than the
/// buffer holds, and it was decoded from those bytes alone: whatever follows them in the
/// buffer, the same value is decoded from the same number of bytes.
pub proof fn lemma_decoded_is_local(b: Seq<u8>, rest: Seq<u8>)
    requires
        decoded(b) matches Ok(Some(_)),
    ensures
        decoded(b) matches Ok(Some((_, used))) && 0 < used <= b.len() && decoded(
            b.take(used as int) + rest,
        ) == decoded(b),
{
    lemma_decoded_bound(b);
    lemma_decoded_of_prefix(b);
    let used = taken(decoded(b));
    lemma_decoded_extends(b.take(used as int), rest);
}

/// Byte conservation for two values in a row: the value decoded from what is left of a buffer
/// after a first value lies in bytes of its own, after those of the first value and within
/// the buffer, and each of the two is decoded from its own bytes alone.
pub proof fn lemma_consecutive_values(b: Seq<u8>)
    requires
        decoded(b) matches Ok(Some((_, used))) && used <= b.len() && decoded(b.skip(used as int))
            matches Ok(Some(_)),
    ensures
        ({
            let first = taken(decoded(b)) as int;
            let second = taken(decoded(b.skip(first))) as int;
            &&& 0 < first
            &&& 0 < second
            &&& first + second <= b.len()
            &&& decoded(b.subrange(0, first)) == decoded(b)
            &&& decoded(b.subrange(first, first + second)) == decoded(b.skip(first))
        }),
{
    let first = taken(decoded(b)) as int;
    let tail = b.skip(first);
    let second = taken(decoded(tail)) as int;
    lemma_decoded_bound(b);
    lemma_decoded_bound(tail);
    lemma_decoded_of_prefix(b);
    lemma_decoded_of_prefix(tail);
    assert(b.take(first) =~= b.subrange(0, first));
    assert(tail.take(second) =~= b.subrange(first, first + second));
}

} // verus!
