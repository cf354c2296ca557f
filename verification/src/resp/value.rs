//! Protocol values and their encoding on the wire.

use super::decode::decoded;
use super::error::ProtocolError;
use super::laws::lemma_round_trip;
use super::laws::plain;
use super::line::crlf;
use super::line::CARRIAGE_RETURN;
use super::line::LINE_FEED;
use super::number::decimal;
use super::number::lemma_decimal_value;
use super::number::push_decimal;
use super::number::push_signed_decimal;
use super::number::signed_decimal;
use super::text::lemma_ascii_is_utf8;
use super::text::push_bytes;
use super::text::string_from_utf8;
use vstd::prelude::*;
use vstd::utf8::decode_utf8;
use vstd::utf8::encode_utf8;
use vstd::utf8::valid_utf8;

verus! {

/// Type tag of a simple string, `+`.
pub const TAG_SIMPLE_STRING: u8 = 43;

/// Type tag of an error, `-`.
pub const TAG_ERROR: u8 = 45;

/// Type tag of an integer, `:`.
pub const TAG_INTEGER: u8 = 58;

/// Type tag of a bulk string and of the null value, `$`.
pub const TAG_BULK_STRING: u8 = 36;

/// Type tag of an array, `*`.
pub const TAG_ARRAY: u8 = 42;

/// A value of the wire protocol.
#[derive(Debug, PartialEq, Eq)]
pub enum Value {
    /// A line of text, on the wire `+OK\r\n`.
    SimpleString(String),
    /// Text of a declared length, on the wire `$5\r\nhello\r\n`.
    BulkString(String),
    /// The absence of a bulk string, on the wire `$-1\r\n`.
    Null,
    /// A failure that is sent as a reply, on the wire `-message\r\n`.
    Error(String),
    /// A signed integer, on the wire `:0\r\n`.
    Integer(i64),
    /// A sequence of values, on the wire `*2\r\n$5\r\nhello\r\n$5\r\nworld\r\n`.
    Array(Vec<Value>),
}

/// The mathematical model of a [`Value`]: texts are sequences of characters, an array is a
/// sequence of models.
pub ghost enum SpecValue {
    SimpleString(Seq<char>),
    BulkString(Seq<char>),
    Null,
    Error(Seq<char>),
    Integer(i64),
    Array(Seq<SpecValue>),
}

impl View for Value {
    type V = SpecValue;

    open spec fn view(&self) -> SpecValue
        decreases self,
    {
        match self {
            Value::SimpleString(s) => SpecValue::SimpleString(s@),
            Value::BulkString(s) => SpecValue::BulkString(s@),
            Value::Null => SpecValue::Null,
            Value::Error(s) => SpecValue::Error(s@),
            Value::Integer(i) => SpecValue::Integer(*i),
            Value::Array(items) => SpecValue::Array(
                Seq::new(
                    items@.len(),
                    |i: int|
                        if 0 <= i < items@.len() {
                            items@[i].view()
                        } else {
                            SpecValue::Null
                        },
                ),
            ),
        }
    }
}

/// The models of a sequence of values, in order.
pub open spec fn views(items: Seq<Value>) -> Seq<SpecValue> {
    Seq::new(items.len(), |i: int| items[i]@)
}

/// The model of an array is the sequence of the models of its elements.
pub proof fn lemma_view_of_array(v: Value)
    requires
        v is Array,
    ensures
        v@ == SpecValue::Array(views(v->Array_0@)),
{
    reveal_with_fuel(<Value as View>::view, 2);
    assert(v@->Array_0 =~= views(v->Array_0@));
}

/// True when every length and every count that the encoding of the value declares is one that
/// a `u64` holds: the number of bytes of each bulk string and the number of elements of each
/// array. So it is with every value in memory, as `encode_into` shows.
pub open spec fn sized(v: SpecValue) -> bool
    decreases v,
{
    match v {
        SpecValue::BulkString(s) => encode_utf8(s).len() <= u64::MAX,
        SpecValue::Array(items) => items.len() <= u64::MAX && forall|i: int|
            0 <= i < items.len() ==> sized(#[trigger] items[i]),
        _ => true,
    }
}

/// A line that starts with a type tag: the tag, the content, the terminator.
pub open spec fn tagged_line(tag: u8, content: Seq<u8>) -> Seq<u8> {
    seq![tag] + content + crlf()
}

/// The bytes that stand for a value on the wire. A text is sent as its UTF-8 bytes, and the
/// length that a bulk string declares is the number of those bytes. The null value is sent as
/// the header of a bulk string that declares the length -1.
pub open spec fn wire(v: SpecValue) -> Seq<u8>
    decreases v,
{
    match v {
        SpecValue::SimpleString(s) => tagged_line(TAG_SIMPLE_STRING, encode_utf8(s)),
        SpecValue::Error(s) => tagged_line(TAG_ERROR, encode_utf8(s)),
        SpecValue::Integer(i) => tagged_line(TAG_INTEGER, signed_decimal(i as int)),
        SpecValue::Null => tagged_line(TAG_BULK_STRING, signed_decimal(-1)),
        SpecValue::BulkString(s) => tagged_line(TAG_BULK_STRING, decimal(encode_utf8(s).len()))
            + encode_utf8(s) + crlf(),
        SpecValue::Array(items) => tagged_line(TAG_ARRAY, decimal(items.len())) + wire_all(items),
    }
}

/// The encodings of the values of a sequence, one after the other.
pub open spec fn wire_all(items: Seq<SpecValue>) -> Seq<u8>
    decreases items,
{
    if items.len() == 0 {
        Seq::empty()
    } else {
        wire(items[0]) + wire_all(items.drop_first())
    }
}

/// Encoding a sequence with one more value at its end appends the encoding of that value.
pub proof fn lemma_wire_all_push(items: Seq<SpecValue>, last: SpecValue)
    ensures
        wire_all(items.push(last)) == wire_all(items) + wire(last),
    decreases items.len(),
{
    let all = items.push(last);
    if items.len() == 0 {
        assert(all.drop_first() =~= Seq::<SpecValue>::empty());
        assert(wire_all(all.drop_first()) =~= Seq::<u8>::empty());
        assert(wire_all(all) =~= wire(last));
        assert(wire_all(items) + wire(last) =~= wire(last));
    } else {
        assert(all.drop_first() =~= items.drop_first().push(last));
        lemma_wire_all_push(items.drop_first(), last);
        assert(wire_all(all) =~= wire_all(items) + wire(last));
    }
}

/// A tagged line is UTF-8 when its tag is an ASCII byte and its content is UTF-8.
proof fn lemma_tagged_line_is_utf8(tag: u8, content: Seq<u8>)
    requires
        tag < 128,
        valid_utf8(content),
    ensures
        valid_utf8(tagged_line(tag, content)),
{
    lemma_ascii_is_utf8(seq![tag]);
    lemma_ascii_is_utf8(crlf());
    vstd::utf8::valid_utf8_concat(seq![tag], content);
    vstd::utf8::valid_utf8_concat(seq![tag] + content, crlf());
}

/// The text of a number is UTF-8.
proof fn lemma_decimal_is_utf8(n: nat)
    ensures
        valid_utf8(decimal(n)),
{
    lemma_decimal_value(n);
    assert forall|i: int| 0 <= i < decimal(n).len() implies decimal(n)[i] < 128 by {
        assert(super::number::is_digit(decimal(n)[i]));
    }
    lemma_ascii_is_utf8(decimal(n));
}

/// The encoding of a value is UTF-8, so it can be held as text.
pub proof fn lemma_wire_is_utf8(v: SpecValue)
    ensures
        valid_utf8(wire(v)),
    decreases v,
{
    match v {
        SpecValue::SimpleString(s) => {
            vstd::utf8::encode_utf8_valid_utf8(s);
            lemma_tagged_line_is_utf8(TAG_SIMPLE_STRING, encode_utf8(s));
        },
        SpecValue::Error(s) => {
            vstd::utf8::encode_utf8_valid_utf8(s);
            lemma_tagged_line_is_utf8(TAG_ERROR, encode_utf8(s));
        },
        SpecValue::Integer(i) => {
            let text = signed_decimal(i as int);
            if i < 0 {
                lemma_decimal_is_utf8((-i) as nat);
                lemma_ascii_is_utf8(seq![45u8]);
                vstd::utf8::valid_utf8_concat(seq![45u8], decimal((-i) as nat));
            } else {
                lemma_decimal_is_utf8(i as nat);
            }
            lemma_tagged_line_is_utf8(TAG_INTEGER, text);
        },
        SpecValue::Null => {
            lemma_decimal_is_utf8(1);
            lemma_ascii_is_utf8(seq![45u8]);
            vstd::utf8::valid_utf8_concat(seq![45u8], decimal(1));
            lemma_tagged_line_is_utf8(TAG_BULK_STRING, signed_decimal(-1));
        },
        SpecValue::BulkString(s) => {
            let payload = encode_utf8(s);
            vstd::utf8::encode_utf8_valid_utf8(s);
            lemma_decimal_is_utf8(payload.len());
            lemma_tagged_line_is_utf8(TAG_BULK_STRING, decimal(payload.len()));
            lemma_ascii_is_utf8(crlf());
            let head = tagged_line(TAG_BULK_STRING, decimal(payload.len()));
            vstd::utf8::valid_utf8_concat(head, payload);
            vstd::utf8::valid_utf8_concat(head + payload, crlf());
        },
        SpecValue::Array(items) => {
            lemma_decimal_is_utf8(items.len());
            lemma_tagged_line_is_utf8(TAG_ARRAY, decimal(items.len()));
            lemma_wire_all_is_utf8(items);
            let head = tagged_line(TAG_ARRAY, decimal(items.len()));
            vstd::utf8::valid_utf8_concat(head, wire_all(items));
        },
    }
}

/// The encodings of a sequence of values, taken together, are UTF-8.
pub proof fn lemma_wire_all_is_utf8(items: Seq<SpecValue>)
    ensures
        valid_utf8(wire_all(items)),
    decreases items,
{
    if items.len() == 0 {
        lemma_ascii_is_utf8(Seq::<u8>::empty());
    } else {
        lemma_wire_is_utf8(items[0]);
        lemma_wire_all_is_utf8(items.drop_first());
        vstd::utf8::valid_utf8_concat(wire(items[0]), wire_all(items.drop_first()));
    }
}

/// Appends a line terminator to `out`.
fn push_crlf(out: &mut Vec<u8>)
    ensures
        final(out)@ == old(out)@ + crlf(),
{
    out.push(CARRIAGE_RETURN);
    out.push(LINE_FEED);
    assert(out@ =~= old(out)@ + crlf());
}

impl Clone for Value {
    fn clone(&self) -> (out: Self)
        ensures
            out@ == self@,
        decreases self,
    {
        match self {
            Value::SimpleString(s) => Value::SimpleString(s.clone()),
            Value::BulkString(s) => Value::BulkString(s.clone()),
            Value::Null => Value::Null,
            Value::Error(s) => Value::Error(s.clone()),
            Value::Integer(i) => Value::Integer(*i),
            Value::Array(items) => {
                let mut copy: Vec<Value> = Vec::new();
                let mut i: usize = 0;
                while i < items.len()
                    invariant
                        *self == Value::Array(*items),
                        i <= items.len(),
                        copy@.len() == i,
                        forall|j: int| 0 <= j < i ==> copy@[j]@ == items@[j]@,
                    decreases items.len() - i,
                {
                    proof {
                        assert(decreases_to!(*self => self->Array_0));
                        assert(decreases_to!(*items => items@));
                        assert(decreases_to!(items@ => items@[i as int]));
                    }
                    copy.push(items[i].clone());
                    i += 1;
                }
                let out = Value::Array(copy);
                proof {
                    lemma_view_of_array(out);
                    lemma_view_of_array(*self);
                    assert(views(copy@) =~= views(items@));
                }
                out
            },
        }
    }
}

/// What a value is as a command: the name, which is the text of its first element, and the
/// elements after it as the arguments.
pub open spec fn command_of(v: SpecValue) -> Result<(Seq<char>, Seq<SpecValue>), ProtocolError> {
    match v {
        SpecValue::Array(items) => if items.len() > 0 {
            match items[0] {
                SpecValue::BulkString(name) => Ok((name, items.drop_first())),
                SpecValue::SimpleString(name) => Ok((name, items.drop_first())),
                _ => Err(ProtocolError::MissingCommandName),
            }
        } else {
            Err(ProtocolError::MissingCommandName)
        },
        _ => Err(ProtocolError::NotAnArray),
    }
}

impl Value {
    /// Takes the value apart as a command: the command's name and its arguments in order. The
    /// value has to be an array that starts with a bulk string or a simple string.
    pub fn to_command(&self) -> (r: Result<(String, Vec<Value>), ProtocolError>)
        ensures
            match command_of(self@) {
                Ok((name, args)) => r matches Ok((n, a)) && n@ == name && views(a@) == args,
                Err(e) => r matches Err(refused) && refused == e,
            },
    {
        match self {
            Value::Array(items) => {
                proof {
                    lemma_view_of_array(*self);
                }
                if items.len() == 0 {
                    return Err(ProtocolError::MissingCommandName);
                }
                let name = match &items[0] {
                    Value::BulkString(_) => items[0].unwrap_bulk(),
                    Value::SimpleString(_) => items[0].unwrap_bulk(),
                    _ => {
                        return Err(ProtocolError::MissingCommandName);
                    },
                };
                let mut args: Vec<Value> = Vec::new();
                let mut i: usize = 1;
                while i < items.len()
                    invariant
                        1 <= i <= items.len(),
                        args@.len() == i - 1,
                        forall|j: int| 0 <= j < i - 1 ==> args@[j]@ == items@[j + 1]@,
                    decreases items.len() - i,
                {
                    args.push(items[i].clone());
                    i += 1;
                }
                assert(views(args@) =~= self@->Array_0.drop_first());
                Ok((name, args))
            },
            _ => Err(ProtocolError::NotAnArray),
        }
    }

    /// The text of a bulk string or of a simple string.
    pub fn unwrap_bulk(&self) -> (text: String)
        requires
            self is BulkString || self is SimpleString,
        ensures
            self@ == SpecValue::BulkString(text@) || self@ == SpecValue::SimpleString(text@),
    {
        match self {
            Value::BulkString(s) => s.clone(),
            Value::SimpleString(s) => s.clone(),
            _ => String::new(),
        }
    }

    /// Appends the encoding of the value to `out`. The lengths and counts written are those
    /// of a value in memory, which a `u64` holds.
    pub fn encode_into(&self, out: &mut Vec<u8>)
        ensures
            final(out)@ == old(out)@ + wire(self@),
            sized(self@),
        decreases self,
    {
        match self {
            Value::Null => {
                out.push(TAG_BULK_STRING);
                push_signed_decimal(out, -1);
                push_crlf(out);
                assert(out@ =~= old(out)@ + wire(self@));
            },
            Value::SimpleString(s) => {
                out.push(TAG_SIMPLE_STRING);
                push_bytes(out, s.as_str().as_bytes());
                push_crlf(out);
                assert(out@ =~= old(out)@ + wire(self@));
            },
            Value::Error(s) => {
                out.push(TAG_ERROR);
                push_bytes(out, s.as_str().as_bytes());
                push_crlf(out);
                assert(out@ =~= old(out)@ + wire(self@));
            },
            Value::Integer(i) => {
                out.push(TAG_INTEGER);
                push_signed_decimal(out, *i);
                push_crlf(out);
                assert(out@ =~= old(out)@ + wire(self@));
            },
            Value::BulkString(s) => {
                let payload = s.as_str().as_bytes();
                out.push(TAG_BULK_STRING);
                push_decimal(out, payload.len() as u64);
                push_crlf(out);
                push_bytes(out, payload);
                push_crlf(out);
                assert(out@ =~= old(out)@ + wire(self@));
            },
            Value::Array(items) => {
                out.push(TAG_ARRAY);
                push_decimal(out, items.len() as u64);
                push_crlf(out);
                let ghost head = out@;
                assert(head =~= old(out)@ + tagged_line(TAG_ARRAY, decimal(items@.len())));
                let mut i: usize = 0;
                while i < items.len()
                    invariant
                        *self == Value::Array(*items),
                        i <= items.len(),
                        out@ == head + wire_all(views(items@).take(i as int)),
                        forall|j: int| 0 <= j < i ==> sized(#[trigger] views(items@)[j]),
                    decreases items.len() - i,
                {
                    proof {
                        assert(decreases_to!(*self => self->Array_0));
                        assert(decreases_to!(*items => items@));
                        assert(decreases_to!(items@ => items@[i as int]));
                        lemma_wire_all_push(views(items@).take(i as int), items@[i as int]@);
                        assert(views(items@).take(i + 1) =~= views(items@).take(i as int).push(
                            items@[i as int]@,
                        ));
                    }
                    items[i].encode_into(out);
                    assert(out@ =~= head + wire_all(views(items@).take(i + 1)));
                    i += 1;
                }
                proof {
                    assert(views(items@).take(i as int) =~= views(items@));
                    lemma_view_of_array(*self);
                    assert(out@ =~= old(out)@ + wire(self@));
                }
            },
        }
    }

    /// The encoding of the value as text: the UTF-8 bytes of the text returned are the bytes
    /// that stand for the value on the wire. The lengths and counts written are those of a
    /// value in memory, which a `u64` holds. Round trip: unless the value holds an error value
    /// or a simple string with a line terminator inside, decoding those bytes gives back the
    /// value, and takes all of them.
    pub fn encode(&self) -> (text: String)
        ensures
            encode_utf8(text@) == wire(self@),
            text@ == decode_utf8(wire(self@)),
            sized(self@),
            plain(self@) ==> (decoded(wire(self@)) matches Ok(Some((value, used))) && value
                == self@ && used == wire(self@).len()),
    {
        let mut out: Vec<u8> = Vec::new();
        self.encode_into(&mut out);
        proof {
            assert(out@ =~= wire(self@));
            lemma_wire_is_utf8(self@);
            vstd::utf8::decode_utf8_encode_utf8(wire(self@));
            if plain(self@) {
                lemma_round_trip(self@);
            }
        }
        match string_from_utf8(out) {
            Some(text) => text,
            None => String::new(),
        }
    }
}

} // verus!
