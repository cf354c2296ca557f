//! Decoding: from the bytes received so far to the first value that they hold.

use super::buffer::as_slice;
use super::buffer::contents;
use super::error::FormatError;
use super::line::crlf_at;
use super::line::lemma_line_end_cases;
use super::line::line_end;
use super::line::read_until_crlf;
use super::line::CARRIAGE_RETURN;
use super::line::LINE_FEED;
use super::number::declared_value;
use super::number::i64_value;
use super::number::parse_declared;
use super::number::parse_i64;
use super::text::string_from_utf8;
use super::value::lemma_view_of_array;
use super::value::views;
use super::value::SpecValue;
use super::value::Value;
use super::value::TAG_ARRAY;
use super::value::TAG_BULK_STRING;
use super::value::TAG_INTEGER;
use super::value::TAG_SIMPLE_STRING;
use bytes::BytesMut;
use vstd::prelude::*;
use vstd::slice::slice_subrange;
use vstd::slice::slice_to_vec;
use vstd::utf8::decode_utf8;
use vstd::utf8::valid_utf8;

verus! {

/// The line that follows the type tag of a message: its content, and the number of bytes
/// that the tag, the content and the terminator take together. `None` while the terminator has
/// not arrived.
pub open spec fn header(b: Seq<u8>) -> Option<(Seq<u8>, nat)> {
    if b.len() == 0 {
        None
    } else {
        match line_end(b.skip(1)) {
            Some(i) => Some((b.skip(1).take(i), (i + 3) as nat)),
            None => None,
        }
    }
}

/// The text that a run of bytes holds.
pub open spec fn decoded_text(bytes: Seq<u8>) -> Result<Seq<char>, FormatError> {
    if valid_utf8(bytes) {
        Ok(decode_utf8(bytes))
    } else {
        Err(FormatError::InvalidText)
    }
}

/// What a buffer that starts with the tag of a simple string decodes to.
pub open spec fn decoded_simple_string(b: Seq<u8>) -> Result<
    Option<(SpecValue, nat)>,
    FormatError,
> {
    match header(b) {
        None => Ok(None),
        Some((content, used)) => match decoded_text(content) {
            Ok(text) => Ok(Some((SpecValue::SimpleString(text), used))),
            Err(e) => Err(e),
        },
    }
}

/// What a buffer that starts with the tag of an integer decodes to.
pub open spec fn decoded_integer(b: Seq<u8>) -> Result<Option<(SpecValue, nat)>, FormatError> {
    match header(b) {
        None => Ok(None),
        Some((content, used)) => match i64_value(content) {
            Some(i) => Ok(Some((SpecValue::Integer(i), used))),
            None => Err(FormatError::InvalidInteger),
        },
    }
}

/// What a buffer that starts with the tag of a bulk string decodes to. A header that declares
/// the length -1 is the null value, and nothing follows it. Any other header declares the
/// number of bytes of the payload; the payload is followed by a line terminator. Until all of
/// that has arrived, more data is needed.
pub open spec fn decoded_bulk_string(b: Seq<u8>) -> Result<Option<(SpecValue, nat)>, FormatError> {
    match header(b) {
        None => Ok(None),
        Some((content, used)) => match declared_value(content) {
            None => Err(FormatError::InvalidInteger),
            Some(length) => if length == -1 {
                Ok(Some((SpecValue::Null, used)))
            } else if length < 0 {
                Err(FormatError::LengthMismatch)
            } else if b.len() < used + length + 2 {
                Ok(None)
            } else if !crlf_at(b, used + length) {
                Err(FormatError::LengthMismatch)
            } else {
                match decoded_text(b.subrange(used as int, used + length)) {
                    Ok(text) => Ok(Some((SpecValue::BulkString(text), (used + length + 2) as nat))),
                    Err(e) => Err(e),
                }
            },
        },
    }
}

/// Puts values that were decoded earlier, and the bytes that they took, before the outcome of
/// decoding what follows them.
pub open spec fn after(
    done: Seq<SpecValue>,
    used: nat,
    then: Result<Option<(Seq<SpecValue>, nat)>, FormatError>,
) -> Result<Option<(Seq<SpecValue>, nat)>, FormatError> {
    match then {
        Ok(Some((rest, more))) => Ok(Some((done + rest, used + more))),
        Ok(None) => Ok(None),
        Err(e) => Err(e),
    }
}

/// What a buffer decodes to: the first value that it holds and the number of bytes that this
/// value takes, terminators included; `Ok(None)` while the value has not arrived in full;
/// an error where no further bytes could make the buffer start with a value.
pub open spec fn decoded(b: Seq<u8>) -> Result<Option<(SpecValue, nat)>, FormatError>
    decreases b.len(), 1nat,
{
    if b.len() == 0 {
        Ok(None)
    } else if b[0] == TAG_SIMPLE_STRING {
        decoded_simple_string(b)
    } else if b[0] == TAG_INTEGER {
        decoded_integer(b)
    } else if b[0] == TAG_BULK_STRING {
        decoded_bulk_string(b)
    } else if b[0] == TAG_ARRAY {
        decoded_array(b)
    } else {
        Err(FormatError::UnrecognizedType)
    }
}

/// What a buffer that starts with the tag of an array decodes to. The header declares the
/// number of elements, which follow one after the other.
pub open spec fn decoded_array(b: Seq<u8>) -> Result<Option<(SpecValue, nat)>, FormatError>
    decreases b.len(), 0nat,
{
    match header(b) {
        None => Ok(None),
        Some((content, used)) => match declared_value(content) {
            None => Err(FormatError::InvalidInteger),
            Some(count) => if count < 0 {
                Err(FormatError::LengthMismatch)
            } else {
                proof {
                    lemma_header_bound(b);
                }
                match decoded_items(b.skip(used as int), count as nat) {
                    Ok(Some((items, more))) => Ok(Some((SpecValue::Array(items), used + more))),
                    Ok(None) => Ok(None),
                    Err(e) => Err(e),
                }
            },
        },
    }
}

/// What a buffer decodes to as `count` values in a row: the values and the number of bytes that
/// they take together. The first value that is incomplete or malformed decides for all.
///
/// A value never takes more bytes than the buffer holds (`lemma_decoded_bound`); the test on
/// `used` is there for the definition to be well founded.
pub open spec fn decoded_items(b: Seq<u8>, count: nat) -> Result<
    Option<(Seq<SpecValue>, nat)>,
    FormatError,
>
    decreases b.len(), count + 2,
{
    if count == 0 {
        Ok(Some((Seq::empty(), 0)))
    } else {
        match decoded(b) {
            Err(e) => Err(e),
            Ok(None) => Ok(None),
            Ok(Some((first, used))) => if used <= b.len() {
                after(seq![first], used, decoded_items(b.skip(used as int), (count - 1) as nat))
            } else {
                Ok(None)
            },
        }
    }
}

/// The number of bytes that a decoded value took; zero where no value was decoded.
pub open spec fn taken(r: Result<Option<(SpecValue, nat)>, FormatError>) -> nat {
    match r {
        Ok(Some((_, used))) => used,
        _ => 0,
    }
}

/// The model of what a decoder returns.
pub open spec fn decoded_view(r: Result<Option<(Value, usize)>, FormatError>) -> Result<
    Option<(SpecValue, nat)>,
    FormatError,
> {
    match r {
        Ok(Some((value, used))) => Ok(Some((value@, used as nat))),
        Ok(None) => Ok(None),
        Err(e) => Err(e),
    }
}

/// The header of a message never reaches past the end of the buffer.
pub proof fn lemma_header_bound(b: Seq<u8>)
    ensures
        header(b) matches Some((content, used)) ==> 3 <= used <= b.len() && content.len() + 3
            == used && b.subrange(1, used - 2) == content && crlf_at(b, used - 2),
{
    if b.len() > 0 {
        lemma_line_end_cases(b.skip(1));
        if let Some(i) = line_end(b.skip(1)) {
            assert(crlf_at(b.skip(1), i));
            assert(b.skip(1).take(i) =~= b.subrange(1, i + 1));
        }
    }
}

/// A value that was decoded took at least one byte and no more bytes than the buffer holds.
pub proof fn lemma_decoded_bound(b: Seq<u8>)
    ensures
        decoded(b) matches Ok(Some((_, used))) ==> 0 < used <= b.len(),
    decreases b.len(), 1nat,
{
    if b.len() > 0 {
        lemma_header_bound(b);
        if b[0] == TAG_ARRAY {
            lemma_decoded_array_bound(b);
        }
    }
}

/// An array that was decoded took at least one byte and no more bytes than the buffer holds.
proof fn lemma_decoded_array_bound(b: Seq<u8>)
    ensures
        decoded_array(b) matches Ok(Some((_, used))) ==> 0 < used <= b.len(),
    decreases b.len(), 0nat,
{
    lemma_header_bound(b);
    if let Some((content, used)) = header(b) {
        if let Some(count) = declared_value(content) {
            if count >= 0 {
                lemma_decoded_items_bound(b.skip(used as int), count as nat);
            }
        }
    }
}

/// Values that were decoded in a row took no more bytes than the buffer holds, and there are
/// as many of them as were asked for.
pub proof fn lemma_decoded_items_bound(b: Seq<u8>, count: nat)
    ensures
        decoded_items(b, count) matches Ok(Some((items, used))) ==> used <= b.len() && items.len()
            == count,
    decreases b.len(), count + 2,
{
    if count > 0 {
        lemma_decoded_bound(b);
        if let Ok(Some((first, used))) = decoded(b) {
            lemma_decoded_items_bound(b.skip(used as int), (count - 1) as nat);
        }
    }
}

/// Reads the text that `bytes` holds.
pub fn parse_string(bytes: &[u8]) -> (r: Result<String, FormatError>)
    ensures
        match decoded_text(bytes@) {
            Ok(text) => r matches Ok(s) && s@ == text,
            Err(e) => r matches Err(refused) && refused == e,
        },
{
    match string_from_utf8(slice_to_vec(bytes)) {
        Some(s) => Ok(s),
        None => Err(FormatError::InvalidText),
    }
}

/// Reads the decimal integer that `bytes` holds.
pub fn parse_integer(bytes: &[u8]) -> (r: Result<i64, FormatError>)
    ensures
        match i64_value(bytes@) {
            Some(i) => r matches Ok(integer) && integer == i,
            None => r matches Err(FormatError::InvalidInteger),
        },
{
    match parse_i64(bytes) {
        Some(i) => Ok(i),
        None => Err(FormatError::InvalidInteger),
    }
}

/// Reads the length or the count that the header of a bulk string or of an array declares.
pub fn parse_length(bytes: &[u8]) -> (r: Result<i128, FormatError>)
    ensures
        match declared_value(bytes@) {
            Some(v) => r matches Ok(length) && length == v,
            None => r matches Err(FormatError::InvalidInteger),
        },
{
    match parse_declared(bytes) {
        Some(length) => Ok(length),
        None => Err(FormatError::InvalidInteger),
    }
}

/// Reads the header line of a message: the line after the type tag, and the number of bytes
/// that tag, line and terminator take.
fn read_header(buffer: &[u8]) -> (r: Option<(&[u8], usize)>)
    ensures
        match header(buffer@) {
            Some((content, used)) => r matches Some((line, n)) && line@ == content && n == used,
            None => r is None,
        },
{
    if buffer.len() == 0 {
        return None;
    }
    let tail = slice_subrange(buffer, 1, buffer.len());
    assert(tail@ =~= buffer@.skip(1));
    proof {
        lemma_line_end_cases(tail@);
    }
    match read_until_crlf(tail) {
        Some((line, len)) => Some((line, len + 1)),
        None => None,
    }
}

/// Decodes a simple string from a buffer that starts with its tag.
pub fn decode_simple_string(buffer: &[u8]) -> (r: Result<Option<(Value, usize)>, FormatError>)
    ensures
        decoded_view(r) == decoded_simple_string(buffer@),
{
    if let Some((line, len)) = read_header(buffer) {
        match parse_string(line) {
            Ok(text) => Ok(Some((Value::SimpleString(text), len))),
            Err(e) => Err(e),
        }
    } else {
        Ok(None)
    }
}

/// Decodes an integer from a buffer that starts with its tag.
pub fn decode_integer(buffer: &[u8]) -> (r: Result<Option<(Value, usize)>, FormatError>)
    ensures
        decoded_view(r) == decoded_integer(buffer@),
{
    if let Some((line, len)) = read_header(buffer) {
        match parse_integer(line) {
            Ok(integer) => Ok(Some((Value::Integer(integer), len))),
            Err(e) => Err(e),
        }
    } else {
        Ok(None)
    }
}

/// Decodes a bulk string, or the null value, from a buffer that starts with their tag.
pub fn decode_bulk_string(buffer: &[u8]) -> (r: Result<Option<(Value, usize)>, FormatError>)
    ensures
        decoded_view(r) == decoded_bulk_string(buffer@),
{
    let (bulk_length, bytes_consumed) = if let Some((line, len)) = read_header(buffer) {
        match parse_length(line) {
            Ok(n) => (n, len),
            Err(e) => {
                return Err(e);
            },
        }
    } else {
        return Ok(None);
    };
    proof {
        lemma_header_bound(buffer@);
    }
    if bulk_length == -1 {
        return Ok(Some((Value::Null, bytes_consumed)));
    }
    if bulk_length < 0 {
        return Err(FormatError::LengthMismatch);
    }
    let remaining = buffer.len() - bytes_consumed;
    if (remaining as i128) < bulk_length + 2 {
        return Ok(None);
    }
    let payload_end = bytes_consumed + bulk_length as usize;
    if buffer[payload_end] != CARRIAGE_RETURN || buffer[payload_end + 1] != LINE_FEED {
        return Err(FormatError::LengthMismatch);
    }
    let payload = slice_subrange(buffer, bytes_consumed, payload_end);
    match parse_string(payload) {
        Ok(text) => Ok(Some((Value::BulkString(text), payload_end + 2))),
        Err(e) => Err(e),
    }
}

/// Decodes an array from a buffer that starts with its tag: the declared number of
/// elements, one after the other. No part of an array is returned before all of it has arrived.
pub fn decode_array(buffer: &[u8]) -> (r: Result<Option<(Value, usize)>, FormatError>)
    ensures
        decoded_view(r) == decoded_array(buffer@),
    decreases buffer@.len(), 0nat,
{
    let (array_length, start) = if let Some((line, len)) = read_header(buffer) {
        match parse_length(line) {
            Ok(n) => (n, len),
            Err(e) => {
                return Err(e);
            },
        }
    } else {
        return Ok(None);
    };
    proof {
        lemma_header_bound(buffer@);
    }
    if array_length < 0 {
        return Err(FormatError::LengthMismatch);
    }
    let ghost all = decoded_items(buffer@.skip(start as int), array_length as nat);
    let mut items: Vec<Value> = Vec::new();
    let mut bytes_consumed: usize = start;
    let mut left: i128 = array_length;
    while left > 0
        invariant
            0 <= left <= array_length <= u64::MAX,
            0 < start <= bytes_consumed <= buffer@.len(),
            all == decoded_items(buffer@.skip(start as int), array_length as nat),
            decoded_array(buffer@) == (match all {
                Ok(Some((values, more))) => Ok(
                    Some((SpecValue::Array(values), (start + more) as nat)),
                ),
                Ok(None) => Ok(None),
                Err(e) => Err(e),
            }),
            all == after(
                views(items@),
                (bytes_consumed - start) as nat,
                decoded_items(buffer@.skip(bytes_consumed as int), left as nat),
            ),
        decreases left,
    {
        let rest = slice_subrange(buffer, bytes_consumed, buffer.len());
        assert(rest@ =~= buffer@.skip(bytes_consumed as int));
        proof {
            lemma_decoded_bound(rest@);
        }
        match decode(rest) {
            Ok(Some((v, len))) => {
                proof {
                    let tail = decoded_items(rest@.skip(len as int), (left - 1) as nat);
                    assert(rest@.skip(len as int) =~= buffer@.skip(bytes_consumed + len));
                    assert(views(items@.push(v)) =~= views(items@) + seq![v@]);
                    assert(after(
                        views(items@),
                        (bytes_consumed - start) as nat,
                        after(seq![v@], len as nat, tail),
                    ) == after(
                        views(items@.push(v)),
                        (bytes_consumed + len - start) as nat,
                        tail,
                    )) by {
                        if let Ok(Some((more, n))) = tail {
                            assert(views(items@) + (seq![v@] + more) =~= views(items@.push(v))
                                + more);
                        }
                    }
                }
                items.push(v);
                bytes_consumed += len;
                left -= 1;
            },
            Ok(None) => {
                return Ok(None);
            },
            Err(e) => {
                return Err(e);
            },
        }
    }
    let value = Value::Array(items);
    proof {
        lemma_view_of_array(value);
        assert(views(items@) + Seq::<SpecValue>::empty() =~= views(items@));
    }
    Ok(Some((value, bytes_consumed)))
}

/// Decodes the first value that `buffer` holds. Returns the value and the number of bytes
/// that it takes; `Ok(None)` while more data is needed, on an empty buffer too; an error where
/// the bytes are malformed.
pub fn decode(buffer: &[u8]) -> (r: Result<Option<(Value, usize)>, FormatError>)
    ensures
        decoded_view(r) == decoded(buffer@),
        r matches Ok(Some((_, used))) ==> 0 < used <= buffer@.len(),
    decreases buffer@.len(), 1nat,
{
    proof {
        lemma_decoded_bound(buffer@);
    }
    if buffer.len() == 0 {
        return Ok(None);
    }
    let tag = buffer[0];
    if tag == TAG_SIMPLE_STRING {
        decode_simple_string(buffer)
    } else if tag == TAG_INTEGER {
        decode_integer(buffer)
    } else if tag == TAG_BULK_STRING {
        decode_bulk_string(buffer)
    } else if tag == TAG_ARRAY {
        decode_array(buffer)
    } else {
        Err(FormatError::UnrecognizedType)
    }
}

/// Decodes the first value that a buffer holds. Returns the value and the number of bytes that
/// it takes, terminators included, so that the caller can keep what follows them; `Ok(None)`
/// while more data is needed; an error where the bytes are malformed.
pub fn parse_message(buffer: BytesMut) -> (r: Result<Option<(Value, usize)>, FormatError>)
    ensures
        decoded_view(r) == decoded(contents(buffer)),
        r matches Ok(Some((_, used))) ==> 0 < used <= contents(buffer).len(),
{
    proof {
        lemma_decoded_bound(contents(buffer));
    }
    decode(as_slice(&buffer))
}

} // verus!
