use redisrs::resp::{parse, RespError, RespValue};

#[test]
fn test_parse_simple_string() {
    let buf = b"+OK\r\n";
    let (value, consumed) = parse(buf).unwrap();
    assert_eq!(value, RespValue::SimpleString("OK".into()));
    assert_eq!(consumed, 5);
}

#[test]
fn test_parse_error() {
    let buf = b"-ERR unknown command 'foo'\r\n";
    let (value, consumed) = parse(buf).unwrap();
    assert_eq!(value, RespValue::Error("ERR unknown command 'foo'".into()));
    assert_eq!(consumed, 28);
}

#[test]
fn test_parse_integer() {
    let buf = b":42\r\n";
    let (value, consumed) = parse(buf).unwrap();
    assert_eq!(value, RespValue::Integer(42));
    assert_eq!(consumed, 5);
}

#[test]
fn test_parse_bulk_string() {
    let buf = b"$5\r\nhello\r\n";
    let (value, consumed) = parse(buf).unwrap();
    assert_eq!(value, RespValue::BulkString(Some("hello".into())));
    assert_eq!(consumed, 11);
}

#[test]
fn test_parse_array() {
    let buf = b"*2\r\n$5\r\nhello\r\n$5\r\nworld\r\n";
    let (value, consumed) = parse(buf).unwrap();
    assert_eq!(value, RespValue::Array(Some(vec![
        RespValue::BulkString(Some("hello".into())),
        RespValue::BulkString(Some("world".into())),
    ])));
    assert_eq!(consumed, 26);
}

#[test]
fn test_parse_incomplete() {
    let buf = b"$5\r\nhel";
    let err = parse(buf).unwrap_err();
    assert!(matches!(err, RespError::Incomplete));
}

fn protocol_message(buf: &[u8]) -> String {
    match parse(buf) {
        Err(RespError::Protocol(m)) => m,
        other => panic!("expected a protocol error, got {:?}", other),
    }
}

#[test]
fn parse_empty_buffer_is_incomplete() {
    assert!(matches!(parse(b""), Err(RespError::Incomplete)));
}

#[test]
fn parse_line_without_crlf_is_incomplete() {
    assert!(matches!(parse(b"+OK\r"), Err(RespError::Incomplete)));
    assert!(matches!(parse(b":42"), Err(RespError::Incomplete)));
}

#[test]
fn parse_unknown_type_byte() {
    assert_eq!(protocol_message(b"?abc\r\n"), "Unknown type byte: ?");
}

#[test]
fn parse_bad_integer() {
    assert_eq!(protocol_message(b":abc\r\n"), "Invalid integer: invalid digit found in string");
}

#[test]
fn parse_signed_integers() {
    assert_eq!(parse(b":-17\r\n").unwrap(), (RespValue::Integer(-17), 6));
    assert_eq!(parse(b":+8\r\n").unwrap(), (RespValue::Integer(8), 5));
    assert_eq!(parse(b":-9223372036854775808\r\n").unwrap().0, RespValue::Integer(i64::MIN));
}

#[test]
fn parse_integer_out_of_range() {
    let m = protocol_message(b":9223372036854775808\r\n");
    assert!(m.starts_with("Invalid integer: "));
}

#[test]
fn parse_bad_utf8_line() {
    let m = protocol_message(b"+\xff\r\n");
    assert!(m.starts_with("Invalid UTF-8 in line: "));
}

#[test]
fn parse_bad_utf8_bulk() {
    let m = protocol_message(b"$1\r\n\xff\r\n");
    assert!(m.starts_with("Invalid UTF-8 in bulk string: "));
}

#[test]
fn parse_negative_lengths() {
    assert_eq!(protocol_message(b"$-2\r\n"), "Negative bulk string length");
    assert_eq!(protocol_message(b"*-5\r\n"), "Negative array length");
}

#[test]
fn parse_bad_lengths() {
    assert!(protocol_message(b"$x\r\n").starts_with("Invalid bulk string length: "));
    assert!(protocol_message(b"*x\r\n").starts_with("Invalid array length: "));
}

#[test]
fn parse_nulls() {
    assert_eq!(parse(b"$-1\r\n").unwrap(), (RespValue::BulkString(None), 5));
    assert_eq!(parse(b"*-1\r\n").unwrap(), (RespValue::Array(None), 5));
}

#[test]
fn parse_takes_only_the_first_value() {
    let (value, consumed) = parse(b"+A\r\n+B\r\n").unwrap();
    assert_eq!(value, RespValue::SimpleString("A".into()));
    assert_eq!(consumed, 4);
}

#[test]
fn parse_nested_array() {
    let buf = b"*2\r\n*1\r\n:1\r\n$0\r\n\r\n";
    let (value, consumed) = parse(buf).unwrap();
    assert_eq!(value, RespValue::Array(Some(vec![
        RespValue::Array(Some(vec![RespValue::Integer(1)])),
        RespValue::BulkString(Some(String::new())),
    ])));
    assert_eq!(consumed, buf.len());
}

#[test]
fn parse_array_missing_element_is_incomplete() {
    assert!(matches!(parse(b"*2\r\n$5\r\nhello\r\n"), Err(RespError::Incomplete)));
}

#[test]
fn serialize_each_kind() {
    assert_eq!(RespValue::SimpleString("OK".into()).serialize(), b"+OK\r\n".to_vec());
    assert_eq!(RespValue::Error("ERR x".into()).serialize(), b"-ERR x\r\n".to_vec());
    assert_eq!(RespValue::Integer(-42).serialize(), b":-42\r\n".to_vec());
    assert_eq!(RespValue::Integer(0).serialize(), b":0\r\n".to_vec());
    assert_eq!(RespValue::BulkString(Some("héllo".into())).serialize(), "$6\r\nhéllo\r\n".as_bytes().to_vec());
    assert_eq!(RespValue::BulkString(None).serialize(), b"$-1\r\n".to_vec());
    assert_eq!(RespValue::Array(None).serialize(), b"*-1\r\n".to_vec());
    assert_eq!(
        RespValue::Array(Some(vec![RespValue::bulk("a".into()), RespValue::Integer(10)])).serialize(),
        b"*2\r\n$1\r\na\r\n:10\r\n".to_vec()
    );
}

#[test]
fn constructors() {
    assert_eq!(RespValue::ok(), RespValue::SimpleString("OK".into()));
    assert_eq!(RespValue::null(), RespValue::BulkString(None));
    assert_eq!(RespValue::err("ERR x"), RespValue::Error("ERR x".into()));
    assert_eq!(RespValue::bulk("v".into()), RespValue::BulkString(Some("v".into())));
}

#[test]
fn roundtrip_of_serialize_and_parse() {
    let values = vec![
        RespValue::SimpleString("hi there".into()),
        RespValue::Error("ERR bad".into()),
        RespValue::Integer(i64::MAX),
        RespValue::Integer(i64::MIN),
        RespValue::BulkString(Some("line\r\nbreak".into())),
        RespValue::BulkString(None),
        RespValue::Array(None),
        RespValue::Array(Some(vec![
            RespValue::Integer(3),
            RespValue::Array(Some(vec![RespValue::BulkString(Some("x".into()))])),
        ])),
    ];
    for v in values {
        let mut bytes = v.serialize();
        let n = bytes.len();
        bytes.extend_from_slice(b"+tail\r\n");
        let (back, consumed) = parse(&bytes).unwrap();
        assert_eq!(back, v);
        assert_eq!(consumed, n);
    }
}

#[test]
fn every_proper_prefix_is_incomplete() {
    let v = RespValue::Array(Some(vec![
        RespValue::BulkString(Some("SET".into())),
        RespValue::Integer(-5),
        RespValue::SimpleString("ok".into()),
    ]));
    let bytes = v.serialize();
    for k in 0..bytes.len() {
        assert!(matches!(parse(&bytes[..k]), Err(RespError::Incomplete)), "prefix of {} bytes", k);
    }
}

#[test]
fn error_messages() {
    assert_eq!(RespError::Incomplete.message(), "Incomplete data - need more bytes");
    assert_eq!(RespError::Protocol("bad".into()).message(), "Protocol error: bad");
}

#[test]
fn bulk_string_needs_crlf_after_its_data() {
    assert_eq!(protocol_message(b"$5\r\nhelloXY"), "Missing CRLF after bulk string data");
    assert_eq!(protocol_message(b"$5\r\nhello\rX"), "Missing CRLF after bulk string data");
    assert!(matches!(parse(b"$5\r\nhello\r"), Err(RespError::Incomplete)));
}

#[test]
fn trailing_bytes_change_nothing() {
    assert_eq!(parse(b":+42\r\n").unwrap(), (RespValue::Integer(42), 6));
    assert_eq!(parse(b":+42\r\nextra").unwrap(), (RespValue::Integer(42), 6));
    assert_eq!(parse(b"$05\r\nhello\r\n").unwrap(), (RespValue::BulkString(Some("hello".to_string())), 12));
    assert_eq!(parse(b"$05\r\nhello\r\n*1\r\n").unwrap(), (RespValue::BulkString(Some("hello".to_string())), 12));
}
