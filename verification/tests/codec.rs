use bytes::BytesMut;
use resp_kv::resp::decode::decode;
use resp_kv::resp::decode::decode_array;
use resp_kv::resp::decode::decode_bulk_string;
use resp_kv::resp::decode::decode_integer;
use resp_kv::resp::decode::decode_simple_string;
use resp_kv::resp::decode::parse_integer;
use resp_kv::resp::decode::parse_length;
use resp_kv::resp::decode::parse_message;
use resp_kv::resp::decode::parse_string;
use resp_kv::resp::error::FormatError;
use resp_kv::resp::error::ProtocolError;
use resp_kv::resp::line::read_until_crlf;
use resp_kv::resp::number::parse_declared;
use resp_kv::resp::number::parse_i64;
use resp_kv::resp::number::parse_u64;
use resp_kv::resp::number::push_decimal;
use resp_kv::resp::number::push_signed_decimal;
use resp_kv::resp::text::decimal_string;
use resp_kv::resp::text::push_bytes;
use resp_kv::resp::value::Value;

fn bulk(text: &str) -> Value {
    Value::BulkString(text.to_string())
}

fn simple(text: &str) -> Value {
    Value::SimpleString(text.to_string())
}

fn parse(bytes: &[u8]) -> Result<Option<(Value, usize)>, FormatError> {
    parse_message(BytesMut::from(bytes))
}

#[test]
fn encode_null() {
    assert_eq!(Value::Null.encode(), "$-1\r\n");
}

#[test]
fn encode_simple_string() {
    assert_eq!(simple("OK").encode(), "+OK\r\n");
    assert_eq!(simple("").encode(), "+\r\n");
}

#[test]
fn encode_error() {
    assert_eq!(Value::Error("Error message".to_string()).encode(), "-Error message\r\n");
}

#[test]
fn encode_integer() {
    assert_eq!(Value::Integer(0).encode(), ":0\r\n");
    assert_eq!(Value::Integer(1000).encode(), ":1000\r\n");
    assert_eq!(Value::Integer(-42).encode(), ":-42\r\n");
    assert_eq!(Value::Integer(i64::MAX).encode(), ":9223372036854775807\r\n");
    assert_eq!(Value::Integer(i64::MIN).encode(), ":-9223372036854775808\r\n");
}

#[test]
fn encode_bulk_string() {
    assert_eq!(bulk("hello").encode(), "$5\r\nhello\r\n");
    assert_eq!(bulk("").encode(), "$0\r\n\r\n");
    assert_eq!(bulk("0123456789ab").encode(), "$12\r\n0123456789ab\r\n");
}

#[test]
fn encode_bulk_string_declares_bytes_not_characters() {
    assert_eq!(bulk("héllo").encode(), "$6\r\nhéllo\r\n");
    assert_eq!(bulk("日本").encode(), "$6\r\n日本\r\n");
}

#[test]
fn encode_array() {
    let value = Value::Array(vec![bulk("hello"), bulk("world")]);
    assert_eq!(value.encode(), "*2\r\n$5\r\nhello\r\n$5\r\nworld\r\n");
    assert_eq!(Value::Array(vec![]).encode(), "*0\r\n");
}

#[test]
fn encode_nested_array() {
    let value = Value::Array(vec![
        Value::Integer(1),
        Value::Array(vec![simple("a"), Value::Null]),
        Value::Error("e".to_string()),
    ]);
    assert_eq!(value.encode(), "*3\r\n:1\r\n*2\r\n+a\r\n$-1\r\n-e\r\n");
}

#[test]
fn encode_into_appends() {
    let mut out = b"abc".to_vec();
    Value::Integer(7).encode_into(&mut out);
    assert_eq!(out, b"abc:7\r\n".to_vec());
}

#[test]
fn decode_empty_buffer_needs_more_data() {
    assert_eq!(parse(b""), Ok(None));
    assert_eq!(decode(b""), Ok(None));
}

#[test]
fn decode_one_byte_buffer_needs_more_data() {
    assert_eq!(parse(b"+"), Ok(None));
    assert_eq!(parse(b":"), Ok(None));
    assert_eq!(parse(b"$"), Ok(None));
    assert_eq!(parse(b"*"), Ok(None));
}

#[test]
fn decode_unrecognized_tag() {
    assert_eq!(parse(b"%1\r\n"), Err(FormatError::UnrecognizedType));
    assert_eq!(parse(b"%"), Err(FormatError::UnrecognizedType));
    assert_eq!(parse(b"-oops\r\n"), Err(FormatError::UnrecognizedType));
}

#[test]
fn decode_simple_string_from_complete_buffer() {
    assert_eq!(parse(b"+OK\r\n"), Ok(Some((simple("OK"), 5))));
    assert_eq!(parse(b"+\r\n"), Ok(Some((simple(""), 3))));
    assert_eq!(parse(b"+OK\r\nrest"), Ok(Some((simple("OK"), 5))));
    assert_eq!(parse(b"+a\rb\nc\r\n"), Ok(Some((simple("a\rb\nc"), 8))));
}

#[test]
fn decode_simple_string_needs_terminator() {
    assert_eq!(parse(b"+OK"), Ok(None));
    assert_eq!(parse(b"+OK\r"), Ok(None));
    assert_eq!(parse(b"+OK\n"), Ok(None));
}

#[test]
fn decode_simple_string_invalid_text() {
    assert_eq!(parse(b"+\xff\xfe\r\n"), Err(FormatError::InvalidText));
}

#[test]
fn decode_integer_from_complete_buffer() {
    assert_eq!(parse(b":0\r\n"), Ok(Some((Value::Integer(0), 4))));
    assert_eq!(parse(b":1000\r\n"), Ok(Some((Value::Integer(1000), 7))));
    assert_eq!(parse(b":-42\r\n"), Ok(Some((Value::Integer(-42), 6))));
    assert_eq!(parse(b":+42\r\n"), Ok(Some((Value::Integer(42), 6))));
    assert_eq!(parse(b":007\r\n"), Ok(Some((Value::Integer(7), 6))));
    assert_eq!(
        parse(b":9223372036854775807\r\n"),
        Ok(Some((Value::Integer(i64::MAX), 22)))
    );
    assert_eq!(
        parse(b":-9223372036854775808\r\n"),
        Ok(Some((Value::Integer(i64::MIN), 23)))
    );
}

#[test]
fn decode_integer_invalid() {
    assert_eq!(parse(b":\r\n"), Err(FormatError::InvalidInteger));
    assert_eq!(parse(b":-\r\n"), Err(FormatError::InvalidInteger));
    assert_eq!(parse(b":+\r\n"), Err(FormatError::InvalidInteger));
    assert_eq!(parse(b":12a\r\n"), Err(FormatError::InvalidInteger));
    assert_eq!(parse(b": 12\r\n"), Err(FormatError::InvalidInteger));
    assert_eq!(parse(b":1.5\r\n"), Err(FormatError::InvalidInteger));
    assert_eq!(parse(b":9223372036854775808\r\n"), Err(FormatError::InvalidInteger));
    assert_eq!(parse(b":-9223372036854775809\r\n"), Err(FormatError::InvalidInteger));
    assert_eq!(parse(b":\xff\r\n"), Err(FormatError::InvalidInteger));
}

#[test]
fn decode_integer_needs_terminator() {
    assert_eq!(parse(b":12"), Ok(None));
    assert_eq!(parse(b":12a"), Ok(None));
}

#[test]
fn decode_bulk_string_from_complete_buffer() {
    assert_eq!(parse(b"$5\r\nhello\r\n"), Ok(Some((bulk("hello"), 11))));
    assert_eq!(parse(b"$0\r\n\r\n"), Ok(Some((bulk(""), 6))));
    assert_eq!(parse(b"$5\r\nhello\r\n+OK\r\n"), Ok(Some((bulk("hello"), 11))));
    assert_eq!(parse("$6\r\nhéllo\r\n".as_bytes()), Ok(Some((bulk("héllo"), 12))));
}

#[test]
fn decode_bulk_string_with_line_terminator_inside() {
    assert_eq!(parse(b"$4\r\na\r\nb\r\n"), Ok(Some((bulk("a\r\nb"), 10))));
    assert_eq!(parse(b"$2\r\n\r\n\r\n"), Ok(Some((bulk("\r\n"), 8))));
}

#[test]
fn decode_bulk_string_payload_not_arrived() {
    assert_eq!(parse(b"$5"), Ok(None));
    assert_eq!(parse(b"$5\r"), Ok(None));
    assert_eq!(parse(b"$5\r\n"), Ok(None));
    assert_eq!(parse(b"$5\r\nhel"), Ok(None));
    assert_eq!(parse(b"$5\r\nhello"), Ok(None));
    assert_eq!(parse(b"$5\r\nhello\r"), Ok(None));
    assert_eq!(parse(b"$5\r\nhi\r\n"), Ok(None));
    assert_eq!(parse(b"$9223372036854775807\r\nabc\r\n"), Ok(None));
    assert_eq!(parse(b"$9223372036854775808\r\nabc\r\n"), Ok(None));
    assert_eq!(parse(b"$18446744073709551615\r\nabc\r\n"), Ok(None));
}

#[test]
fn decode_bulk_string_length_mismatch() {
    assert_eq!(parse(b"$2\r\nhello\r\n"), Err(FormatError::LengthMismatch));
    assert_eq!(parse(b"$5\r\nhelloXY"), Err(FormatError::LengthMismatch));
    assert_eq!(parse(b"$0\r\nab"), Err(FormatError::LengthMismatch));
    assert_eq!(parse(b"$-2\r\n"), Err(FormatError::LengthMismatch));
    assert_eq!(parse(b"$-5\r\nhello\r\n"), Err(FormatError::LengthMismatch));
    assert_eq!(
        parse(b"$-9223372036854775808\r\n"),
        Err(FormatError::LengthMismatch)
    );
}

#[test]
fn decode_null() {
    assert_eq!(parse(b"$-1\r\n"), Ok(Some((Value::Null, 5))));
    assert_eq!(parse(b"$-1\r\n$5\r\nhello\r\n"), Ok(Some((Value::Null, 5))));
    assert_eq!(decode_bulk_string(b"$-1\r\nrest"), Ok(Some((Value::Null, 5))));
    assert_eq!(
        parse(b"*3\r\n$-1\r\n:1\r\n$-1\r\n"),
        Ok(Some((Value::Array(vec![Value::Null, Value::Integer(1), Value::Null]), 18)))
    );
}

#[test]
fn decode_null_needs_its_terminator() {
    assert_eq!(parse(b"$-"), Ok(None));
    assert_eq!(parse(b"$-1"), Ok(None));
    assert_eq!(parse(b"$-1\r"), Ok(None));
    assert_eq!(parse(b"*2\r\n$-1\r\n"), Ok(None));
    assert_eq!(parse(b"*2\r\n$-1\r\n$-1\r"), Ok(None));
}

#[test]
fn decode_bulk_string_invalid_length() {
    assert_eq!(parse(b"$abc\r\nhello\r\n"), Err(FormatError::InvalidInteger));
    assert_eq!(parse(b"$\r\n\r\n"), Err(FormatError::InvalidInteger));
    assert_eq!(parse(b"$99999999999999999999\r\n"), Err(FormatError::InvalidInteger));
    assert_eq!(parse(b"$18446744073709551616\r\n"), Err(FormatError::InvalidInteger));
    assert_eq!(parse(b"$-9223372036854775809\r\n"), Err(FormatError::InvalidInteger));
    assert_eq!(parse(b"$-\r\n"), Err(FormatError::InvalidInteger));
}

#[test]
fn decode_bulk_string_invalid_text() {
    assert_eq!(parse(b"$2\r\n\xc3\x28\r\n"), Err(FormatError::InvalidText));
}

#[test]
fn decode_array_from_complete_buffer() {
    assert_eq!(
        parse(b"*2\r\n$5\r\nhello\r\n$5\r\nworld\r\n"),
        Ok(Some((Value::Array(vec![bulk("hello"), bulk("world")]), 26)))
    );
    assert_eq!(parse(b"*0\r\n"), Ok(Some((Value::Array(vec![]), 4))));
    assert_eq!(
        parse(b"*3\r\n:1\r\n+two\r\n$5\r\nthree\r\ntail"),
        Ok(Some((Value::Array(vec![Value::Integer(1), simple("two"), bulk("three")]), 25)))
    );
}

#[test]
fn decode_nested_array() {
    assert_eq!(
        parse(b"*2\r\n*2\r\n:1\r\n:2\r\n*1\r\n+x\r\n"),
        Ok(Some((
            Value::Array(vec![
                Value::Array(vec![Value::Integer(1), Value::Integer(2)]),
                Value::Array(vec![simple("x")]),
            ]),
            24
        )))
    );
}

#[test]
fn decode_array_needs_all_elements() {
    assert_eq!(parse(b"*2"), Ok(None));
    assert_eq!(parse(b"*2\r\n"), Ok(None));
    assert_eq!(parse(b"*2\r\n$5\r\nhello\r\n"), Ok(None));
    assert_eq!(parse(b"*2\r\n$5\r\nhello\r\n$5\r\nwor"), Ok(None));
    assert_eq!(parse(b"*2\r\n$5\r\nhello\r\n$5\r\nworld\r"), Ok(None));
    assert_eq!(parse(b"*1\r\n*1\r\n"), Ok(None));
    assert_eq!(parse(b"*18446744073709551615\r\n:1\r\n:2\r\n"), Ok(None));
    assert_eq!(parse(b"*9223372036854775808\r\n"), Ok(None));
}

#[test]
fn decode_array_malformed() {
    assert_eq!(parse(b"*x\r\n"), Err(FormatError::InvalidInteger));
    assert_eq!(parse(b"*18446744073709551616\r\n"), Err(FormatError::InvalidInteger));
    assert_eq!(parse(b"*-1\r\n"), Err(FormatError::LengthMismatch));
    assert_eq!(parse(b"*2\r\n:1\r\n%\r\n"), Err(FormatError::UnrecognizedType));
    assert_eq!(parse(b"*2\r\n:1\r\n:x\r\n"), Err(FormatError::InvalidInteger));
    assert_eq!(parse(b"*1\r\n$1\r\nabc\r\n"), Err(FormatError::LengthMismatch));
    assert_eq!(parse(b"*1\r\n$-2\r\n"), Err(FormatError::LengthMismatch));
}

#[test]
fn decode_array_first_undecided_element_decides() {
    assert_eq!(parse(b"*2\r\n+a"), Ok(None));
    assert_eq!(parse(b"*2\r\n%\r\n+a"), Err(FormatError::UnrecognizedType));
}

#[test]
fn decode_on_slice_agrees_with_parse_message() {
    let input = b"*2\r\n$3\r\nGET\r\n$1\r\nk\r\n+rest\r\n";
    assert_eq!(decode(input), parse(input));
    assert_eq!(
        decode(input),
        Ok(Some((Value::Array(vec![bulk("GET"), bulk("k")]), 20)))
    );
}

fn round_trips(value: Value) {
    let text = value.encode();
    let len = text.len();
    assert_eq!(parse(text.as_bytes()), Ok(Some((value.clone(), len))));
    let mut longer = text.clone().into_bytes();
    longer.extend_from_slice(b"+next\r\n");
    assert_eq!(parse(&longer), Ok(Some((value, len))));
}

#[test]
fn round_trip_scalars() {
    round_trips(simple("OK"));
    round_trips(simple(""));
    round_trips(simple("with spaces and ünïcode"));
    round_trips(simple("lone \r and lone \n stay"));
    round_trips(bulk("hello"));
    round_trips(bulk(""));
    round_trips(bulk("line one\r\nline two\r\n"));
    round_trips(bulk("日本語"));
    round_trips(Value::Integer(0));
    round_trips(Value::Integer(-1));
    round_trips(Value::Integer(i64::MAX));
    round_trips(Value::Integer(i64::MIN));
    round_trips(Value::Null);
}

#[test]
fn round_trip_arrays() {
    round_trips(Value::Array(vec![]));
    round_trips(Value::Array(vec![bulk("SET"), bulk("k"), bulk("v")]));
    round_trips(Value::Array(vec![
        Value::Array(vec![]),
        Value::Array(vec![Value::Integer(5), Value::Array(vec![bulk("deep\r\n")])]),
        simple("end"),
    ]));
    round_trips(Value::Array(vec![Value::Null]));
    round_trips(Value::Array(vec![
        bulk("a"),
        Value::Null,
        Value::Array(vec![Value::Null, simple("b"), Value::Null]),
    ]));
}

#[test]
fn error_values_are_not_decoded_back() {
    assert_eq!(
        parse(Value::Error("e".to_string()).encode().as_bytes()),
        Err(FormatError::UnrecognizedType)
    );
    assert_eq!(
        parse(Value::Array(vec![Value::Error("e".to_string())]).encode().as_bytes()),
        Err(FormatError::UnrecognizedType)
    );
}

#[test]
fn simple_string_with_line_terminator_is_cut_there() {
    let text = simple("a\r\nb").encode();
    assert_eq!(parse(text.as_bytes()), Ok(Some((simple("a"), 4))));
}

#[test]
fn every_proper_prefix_needs_more_data() {
    let value = Value::Array(vec![
        bulk("SET"),
        Value::Null,
        bulk("key\r\n"),
        Value::Integer(-12),
        Value::Array(vec![simple("x"), Value::Null, bulk("")]),
        Value::Null,
    ]);
    let bytes = value.encode().into_bytes();
    for k in 0..bytes.len() {
        assert_eq!(parse(&bytes[..k]), Ok(None));
    }
    assert_eq!(parse(&bytes), Ok(Some((value, bytes.len()))));
}

#[test]
fn consumed_bytes_never_exceed_the_buffer_and_values_do_not_overlap() {
    let buffer = b"+first\r\n$6\r\nsecond\r\n:3\r\n+trailing";
    let (first, used_first) = parse(buffer).unwrap().unwrap();
    assert_eq!(first, simple("first"));
    assert_eq!(used_first, 8);
    let (second, used_second) = parse(&buffer[used_first..]).unwrap().unwrap();
    assert_eq!(second, bulk("second"));
    assert_eq!(used_second, 12);
    let (third, used_third) = parse(&buffer[used_first + used_second..]).unwrap().unwrap();
    assert_eq!(third, Value::Integer(3));
    assert_eq!(used_third, 4);
    assert!(used_first + used_second + used_third <= buffer.len());
    assert_eq!(
        parse(&buffer[..used_first]),
        Ok(Some((simple("first"), used_first)))
    );
    assert_eq!(
        parse(&buffer[used_first..used_first + used_second]),
        Ok(Some((bulk("second"), used_second)))
    );
    assert_eq!(parse(&buffer[used_first + used_second + used_third..]), Ok(None));
}

#[test]
fn read_until_crlf_finds_first_line() {
    assert_eq!(read_until_crlf(b"abc\r\ndef\r\n"), Some((&b"abc"[..], 5)));
    assert_eq!(read_until_crlf(b"\r\n"), Some((&b""[..], 2)));
    assert_eq!(read_until_crlf(b"a\rb\r\n"), Some((&b"a\rb"[..], 5)));
    assert_eq!(read_until_crlf(b"a\r\r\n"), Some((&b"a\r"[..], 4)));
}

#[test]
fn read_until_crlf_on_short_buffers() {
    assert_eq!(read_until_crlf(b""), None);
    assert_eq!(read_until_crlf(b"a"), None);
    assert_eq!(read_until_crlf(b"\r"), None);
    assert_eq!(read_until_crlf(b"\n\r"), None);
    assert_eq!(read_until_crlf(b"abc\r"), None);
}

#[test]
fn parse_string_reads_utf8() {
    assert_eq!(parse_string(b"hello"), Ok("hello".to_string()));
    assert_eq!(parse_string("héllo wörld".as_bytes()), Ok("héllo wörld".to_string()));
    assert_eq!(parse_string(b""), Ok(String::new()));
    assert_eq!(parse_string(b"\xe2\x82"), Err(FormatError::InvalidText));
    assert_eq!(parse_string(b"\xff"), Err(FormatError::InvalidText));
}

#[test]
fn parse_integer_reads_decimal() {
    assert_eq!(parse_integer(b"123"), Ok(123));
    assert_eq!(parse_integer(b"-123"), Ok(-123));
    assert_eq!(parse_integer(b"-0"), Ok(0));
    assert_eq!(parse_integer(b""), Err(FormatError::InvalidInteger));
    assert_eq!(parse_integer(b"12 "), Err(FormatError::InvalidInteger));
}

#[test]
fn parse_length_reads_lengths_and_the_null_length() {
    assert_eq!(parse_length(b"0"), Ok(0));
    assert_eq!(parse_length(b"42"), Ok(42));
    assert_eq!(parse_length(b"+42"), Ok(42));
    assert_eq!(parse_length(b"-1"), Ok(-1));
    assert_eq!(parse_length(b"-7"), Ok(-7));
    assert_eq!(parse_length(b"9223372036854775807"), Ok(i64::MAX as i128));
    assert_eq!(parse_length(b"9223372036854775808"), Ok(i64::MAX as i128 + 1));
    assert_eq!(parse_length(b"18446744073709551615"), Ok(u64::MAX as i128));
    assert_eq!(parse_length(b"-9223372036854775808"), Ok(i64::MIN as i128));
    assert_eq!(parse_length(b"18446744073709551616"), Err(FormatError::InvalidInteger));
    assert_eq!(parse_length(b"-9223372036854775809"), Err(FormatError::InvalidInteger));
    assert_eq!(parse_length(b""), Err(FormatError::InvalidInteger));
    assert_eq!(parse_length(b"-"), Err(FormatError::InvalidInteger));
    assert_eq!(parse_length(b"1x"), Err(FormatError::InvalidInteger));
    assert_eq!(parse_declared(b"12"), Some(12));
    assert_eq!(parse_declared(b"x"), None);
}

#[test]
fn parse_i64_agrees_with_std() {
    let inputs: [&str; 16] = [
        "0", "-0", "+0", "7", "-7", "+7", "0007", "-", "+", "", "--1", "+-1", "1_000", "１２",
        "9223372036854775807", "-9223372036854775808",
    ];
    for input in inputs {
        assert_eq!(parse_i64(input.as_bytes()), input.parse::<i64>().ok());
    }
    assert_eq!(parse_i64(b"9223372036854775808"), None);
    assert_eq!(parse_i64(b"-9223372036854775809"), None);
    assert_eq!(parse_i64(b"00000000000000000000000000000000000000001"), Some(1));
    assert_eq!(parse_i64(b"340282366920938463463374607431768211456"), None);
}

#[test]
fn parse_u64_agrees_with_std() {
    let inputs: [&str; 12] = [
        "0", "-0", "+0", "7", "-7", "+7", "0007", "-", "+", "", "18446744073709551615",
        "18446744073709551616",
    ];
    for input in inputs {
        assert_eq!(parse_u64(input.as_bytes()), input.parse::<u64>().ok());
    }
    assert_eq!(parse_u64(b"18446744073709551615"), Some(u64::MAX));
    assert_eq!(parse_u64(b"100"), Some(100));
    assert_eq!(parse_u64(b"1e3"), None);
}

#[test]
fn push_decimal_writes_shortest_text() {
    let mut out = Vec::new();
    push_decimal(&mut out, 0);
    out.push(b' ');
    push_decimal(&mut out, 9);
    out.push(b' ');
    push_decimal(&mut out, 10);
    out.push(b' ');
    push_decimal(&mut out, 1234567890);
    out.push(b' ');
    push_decimal(&mut out, u64::MAX);
    assert_eq!(out, b"0 9 10 1234567890 18446744073709551615".to_vec());
}

#[test]
fn push_signed_decimal_agrees_with_std() {
    for i in [0i64, 1, -1, 10, -10, 99, -100, i64::MAX, i64::MIN, i64::MIN + 1] {
        let mut out = Vec::new();
        push_signed_decimal(&mut out, i);
        assert_eq!(out, format!("{}", i).into_bytes());
        assert_eq!(decimal_string(i), format!("{}", i));
    }
}

#[test]
fn to_command_splits_name_and_arguments() {
    let value = Value::Array(vec![bulk("SET"), bulk("k"), bulk("v")]);
    assert_eq!(
        value.to_command(),
        Ok(("SET".to_string(), vec![bulk("k"), bulk("v")]))
    );
    let value = Value::Array(vec![simple("PING")]);
    assert_eq!(value.to_command(), Ok(("PING".to_string(), vec![])));
    let value = Value::Array(vec![bulk("ECHO"), Value::Integer(1), Value::Array(vec![])]);
    assert_eq!(
        value.to_command(),
        Ok(("ECHO".to_string(), vec![Value::Integer(1), Value::Array(vec![])]))
    );
}

#[test]
fn to_command_refuses_what_is_not_an_array() {
    assert_eq!(bulk("PING").to_command(), Err(ProtocolError::NotAnArray));
    assert_eq!(simple("PING").to_command(), Err(ProtocolError::NotAnArray));
    assert_eq!(Value::Integer(1).to_command(), Err(ProtocolError::NotAnArray));
    assert_eq!(Value::Null.to_command(), Err(ProtocolError::NotAnArray));
    assert_eq!(
        Value::Error("e".to_string()).to_command(),
        Err(ProtocolError::NotAnArray)
    );
}

#[test]
fn to_command_refuses_an_array_without_a_name() {
    assert_eq!(
        Value::Array(vec![]).to_command(),
        Err(ProtocolError::MissingCommandName)
    );
    assert_eq!(
        Value::Array(vec![Value::Integer(1), bulk("x")]).to_command(),
        Err(ProtocolError::MissingCommandName)
    );
    assert_eq!(
        Value::Array(vec![Value::Null]).to_command(),
        Err(ProtocolError::MissingCommandName)
    );
}

#[test]
fn unwrap_bulk_gives_the_text() {
    assert_eq!(bulk("abc").unwrap_bulk(), "abc");
    assert_eq!(simple("def").unwrap_bulk(), "def");
}

#[test]
fn clone_copies_the_whole_value() {
    let value = Value::Array(vec![
        bulk("a"),
        Value::Array(vec![Value::Integer(3), Value::Null]),
        Value::Error("e".to_string()),
        simple("s"),
    ]);
    assert_eq!(value.clone(), value);
}

#[test]
fn format_error_messages() {
    assert_eq!(FormatError::UnrecognizedType.message(), "unrecognised message type");
    assert_eq!(FormatError::InvalidInteger.message(), "could not parse integer");
    assert_eq!(FormatError::InvalidText.message(), "could not parse string");
    assert_eq!(
        FormatError::LengthMismatch.message(),
        "data not matching declared length"
    );
    assert_eq!(ProtocolError::NotAnArray.message(), "not an array");
    assert_eq!(ProtocolError::MissingCommandName.message(), "missing command name");
}

#[test]
fn decoders_of_one_kind_need_more_data_on_short_buffers() {
    assert_eq!(decode_simple_string(b""), Ok(None));
    assert_eq!(decode_integer(b""), Ok(None));
    assert_eq!(decode_bulk_string(b""), Ok(None));
    assert_eq!(decode_array(b""), Ok(None));
    assert_eq!(decode_simple_string(b"+"), Ok(None));
    assert_eq!(decode_integer(b":1\r"), Ok(None));
    assert_eq!(decode_bulk_string(b"$1\r\na\r"), Ok(None));
    assert_eq!(decode_array(b"*1\r\n"), Ok(None));
    assert_eq!(decode_simple_string(b"+hi\r\n"), Ok(Some((simple("hi"), 5))));
    assert_eq!(decode_integer(b":12\r\n"), Ok(Some((Value::Integer(12), 5))));
    assert_eq!(decode_bulk_string(b"$1\r\na\r\n"), Ok(Some((bulk("a"), 7))));
    assert_eq!(
        decode_array(b"*1\r\n:1\r\n"),
        Ok(Some((Value::Array(vec![Value::Integer(1)]), 8)))
    );
}

#[test]
fn push_bytes_appends_a_copy() {
    let mut out = b"ab".to_vec();
    push_bytes(&mut out, b"cd\r\n");
    push_bytes(&mut out, b"");
    assert_eq!(out, b"abcd\r\n".to_vec());
}
