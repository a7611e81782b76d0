use resp_server::codec::{parse_int, parse_message, read_until_crlf, FrameError};
use resp_server::value::Value;

fn bulk(s: &[u8]) -> Value {
    Value::BulkString(s.to_vec())
}

fn expect_bulk(v: &Value) -> &Vec<u8> {
    match v {
        Value::BulkString(s) => s,
        other => panic!("expected a bulk string, got {:?}", other),
    }
}

#[test]
fn bulk_round_trip_with_crlf_bytes() {
    let payload: Vec<u8> = vec![b'a', b'\r', b'\n', 0, 255, b'\r', b'\n'];
    let wire = bulk(&payload).to_string();
    let (v, n) = parse_message(&wire).unwrap();
    assert_eq!(expect_bulk(&v), &payload);
    assert_eq!(n, wire.len());
}

#[test]
fn bulk_round_trip_empty() {
    let wire = bulk(b"").to_string();
    assert_eq!(wire, b"$0\r\n\r\n".to_vec());
    let (v, n) = parse_message(&wire).unwrap();
    assert!(expect_bulk(&v).is_empty());
    assert_eq!(n, 6);
}

#[test]
fn bulk_round_trip_with_trailing_bytes() {
    let mut wire = bulk(b"hello").to_string();
    let len = wire.len();
    wire.extend_from_slice(b"+PING\r\n");
    let (v, n) = parse_message(&wire).unwrap();
    assert_eq!(expect_bulk(&v), &b"hello".to_vec());
    assert_eq!(n, len);
}

#[test]
fn encode_simple_bulk_null() {
    assert_eq!(Value::SimpleString(b"OK".to_vec()).to_string(), b"+OK\r\n".to_vec());
    assert_eq!(bulk(b"hello").to_string(), b"$5\r\nhello\r\n".to_vec());
    assert_eq!(Value::Null.to_string(), b"$-1\r\n".to_vec());
}

#[test]
fn encode_bulk_counts_bytes_not_chars() {
    let s = "h\u{e9}llo";
    assert_eq!(s.len(), 6);
    let wire = bulk(s.as_bytes()).to_string();
    assert_eq!(&wire[..4], b"$6\r\n");
}

#[test]
fn encode_array() {
    let v = Value::Array(vec![bulk(b"GET"), bulk(b"k")]);
    assert_eq!(v.to_string(), b"*2\r\n$3\r\nGET\r\n$1\r\nk\r\n".to_vec());
    assert_eq!(Value::Array(vec![]).to_string(), b"*0\r\n".to_vec());
}

const REQUEST: &[u8] = b"*3\r\n$3\r\nSET\r\n$1\r\nk\r\n+v\r\n";

#[test]
fn array_consumes_header_and_elements() {
    let (v, n) = parse_message(REQUEST).unwrap();
    assert_eq!(n, 4 + 9 + 7 + 4);
    assert_eq!(n, REQUEST.len());
    match v {
        Value::Array(items) => {
            assert_eq!(items.len(), 3);
            assert_eq!(expect_bulk(&items[0]), &b"SET".to_vec());
            assert_eq!(expect_bulk(&items[1]), &b"k".to_vec());
            assert!(matches!(&items[2], Value::SimpleString(s) if s == b"v"));
        }
        other => panic!("expected an array, got {:?}", other),
    }
}

#[test]
fn array_short_reads_are_incomplete() {
    for k in 0..REQUEST.len() {
        assert!(matches!(parse_message(&REQUEST[..k]), Err(FrameError::Incomplete)), "prefix {}", k);
        let mut joined = REQUEST[..k].to_vec();
        joined.extend_from_slice(&REQUEST[k..]);
        let (_, n) = parse_message(&joined).unwrap();
        assert_eq!(n, REQUEST.len());
    }
}

#[test]
fn nested_array() {
    let wire = b"*2\r\n*1\r\n+a\r\n$1\r\nb\r\n";
    let (v, n) = parse_message(wire).unwrap();
    assert_eq!(n, wire.len());
    match v {
        Value::Array(items) => {
            assert!(matches!(&items[0], Value::Array(inner) if inner.len() == 1));
            assert_eq!(expect_bulk(&items[1]), &b"b".to_vec());
        }
        other => panic!("expected an array, got {:?}", other),
    }
}

#[test]
fn empty_array_is_valid() {
    let (v, n) = parse_message(b"*0\r\n").unwrap();
    assert!(matches!(v, Value::Array(items) if items.is_empty()));
    assert_eq!(n, 4);
}

#[test]
fn malformed_frames() {
    assert!(matches!(parse_message(b"?oops\r\n"), Err(FrameError::Malformed)));
    assert!(matches!(parse_message(b"$x\r\nab\r\n"), Err(FrameError::Malformed)));
    assert!(matches!(parse_message(b"$-1\r\n"), Err(FrameError::Malformed)));
    assert!(matches!(parse_message(b"$2\r\nabXY"), Err(FrameError::Malformed)));
    assert!(matches!(parse_message(b"*1\r\n?\r\n"), Err(FrameError::Malformed)));
}

#[test]
fn incomplete_frames() {
    assert!(matches!(parse_message(b""), Err(FrameError::Incomplete)));
    assert!(matches!(parse_message(b"+PON"), Err(FrameError::Incomplete)));
    assert!(matches!(parse_message(b"$10\r\nabc"), Err(FrameError::Incomplete)));
    assert!(matches!(parse_message(b"$3\r\nabc\r"), Err(FrameError::Incomplete)));
    assert!(matches!(parse_message(b"*2\r\n$1\r\na\r\n"), Err(FrameError::Incomplete)));
}

#[test]
fn simple_string_decodes() {
    let (v, n) = parse_message(b"+PONG\r\nrest").unwrap();
    assert!(matches!(v, Value::SimpleString(s) if s == b"PONG"));
    assert_eq!(n, 7);
}

#[test]
fn read_until_crlf_finds_first_pair() {
    let (line, n) = read_until_crlf(b"ab\r\ncd\r\n").unwrap();
    assert_eq!(line, b"ab");
    assert_eq!(n, 4);
    let (line, n) = read_until_crlf(b"\r\n").unwrap();
    assert!(line.is_empty());
    assert_eq!(n, 2);
    assert!(read_until_crlf(b"abc\r").is_none());
    assert!(read_until_crlf(b"").is_none());
    assert!(read_until_crlf(b"a\n\rb").is_none());
}

#[test]
fn parse_int_decimal() {
    assert_eq!(parse_int(b"0").unwrap(), 0);
    assert_eq!(parse_int(b"123").unwrap(), 123);
    assert_eq!(parse_int(b"9223372036854775807").unwrap(), i64::MAX);
    assert!(matches!(parse_int(b"9223372036854775808"), Err(FrameError::Malformed)));
    assert!(matches!(parse_int(b""), Err(FrameError::Malformed)));
    assert!(matches!(parse_int(b"-1"), Err(FrameError::Malformed)));
    assert!(matches!(parse_int(b"1a"), Err(FrameError::Malformed)));
}
