use resp_server::command::{execute, extract_command, respond, unpack_bulk_str, CommandError};
use resp_server::connection::{Action, Connection};
use resp_server::storage::Storage;
use resp_server::value::Value;

fn bulk(s: &[u8]) -> Value {
    Value::BulkString(s.to_vec())
}

fn request(parts: &[&[u8]]) -> Value {
    Value::Array(parts.iter().map(|p| bulk(p)).collect())
}

fn reply(stg: &mut Storage, parts: &[&[u8]], now: u128) -> Result<Value, CommandError> {
    respond(stg, request(parts), now)
}

#[test]
fn ping_replies_pong() {
    let mut stg = Storage::new();
    let r = reply(&mut stg, &[b"PING"], 0).unwrap();
    assert_eq!(r.to_string(), b"+PONG\r\n".to_vec());
}

#[test]
fn echo_replies_argument() {
    let mut stg = Storage::new();
    let r = reply(&mut stg, &[b"ECHO", b"hello"], 0).unwrap();
    assert_eq!(r.to_string(), b"$5\r\nhello\r\n".to_vec());
    assert!(matches!(reply(&mut stg, &[b"ECHO"], 0), Err(CommandError::MissingArgument)));
}

#[test]
fn set_then_get() {
    let mut stg = Storage::new();
    assert_eq!(reply(&mut stg, &[b"GET", b"k"], 0).unwrap().to_string(), b"$-1\r\n".to_vec());
    assert_eq!(reply(&mut stg, &[b"SET", b"k", b"v1"], 0).unwrap().to_string(), b"+OK\r\n".to_vec());
    assert_eq!(reply(&mut stg, &[b"SET", b"k", b"v2"], 1).unwrap().to_string(), b"+OK\r\n".to_vec());
    assert_eq!(reply(&mut stg, &[b"GET", b"k"], 2).unwrap().to_string(), b"$2\r\nv2\r\n".to_vec());
}

#[test]
fn set_with_px_expires() {
    let mut stg = Storage::new();
    reply(&mut stg, &[b"SET", b"key", b"v", b"PX", b"50"], 100).unwrap();
    assert!(matches!(reply(&mut stg, &[b"GET", b"key"], 100).unwrap(), Value::BulkString(s) if s == b"v"));
    assert!(matches!(reply(&mut stg, &[b"GET", b"key"], 160).unwrap(), Value::Null));
    reply(&mut stg, &[b"SET", b"other", b"v", b"px", b"10"], 0).unwrap();
    assert!(matches!(reply(&mut stg, &[b"GET", b"other"], 11).unwrap(), Value::Null));
}

#[test]
fn set_with_px_on_the_clock() {
    let mut stg = Storage::new();
    let now = stg.now();
    reply(&mut stg, &[b"SET", b"key", b"v", b"PX", b"50"], now).unwrap();
    let now = stg.now();
    assert!(matches!(reply(&mut stg, &[b"GET", b"key"], now).unwrap(), Value::BulkString(s) if s == b"v"));
    while stg.now() < now + 60 {}
    let now = stg.now();
    assert!(matches!(reply(&mut stg, &[b"GET", b"key"], now).unwrap(), Value::Null));
}

#[test]
fn set_with_other_option_never_expires() {
    let mut stg = Storage::new();
    reply(&mut stg, &[b"SET", b"k", b"v", b"EX", b"1"], 0).unwrap();
    assert!(matches!(reply(&mut stg, &[b"GET", b"k"], 1_000_000).unwrap(), Value::BulkString(_)));
}

#[test]
fn set_errors() {
    let mut stg = Storage::new();
    assert!(matches!(reply(&mut stg, &[b"SET", b"k"], 0), Err(CommandError::MissingArgument)));
    assert!(matches!(reply(&mut stg, &[b"SET", b"k", b"v", b"px", b"soon"], 0), Err(CommandError::InvalidExpiry)));
    let bad = Value::Array(vec![bulk(b"SET"), Value::SimpleString(b"k".to_vec()), bulk(b"v")]);
    assert!(matches!(respond(&mut stg, bad, 0), Err(CommandError::ExpectedBulkString)));
    assert!(stg.get_at(b"k", 0).is_none());
}

#[test]
fn get_errors() {
    let mut stg = Storage::new();
    assert!(matches!(reply(&mut stg, &[b"GET"], 0), Err(CommandError::MissingArgument)));
}

#[test]
fn unknown_command_is_named() {
    let mut stg = Storage::new();
    match reply(&mut stg, &[b"ping"], 0) {
        Err(CommandError::UnknownCommand(name)) => assert_eq!(name, b"ping".to_vec()),
        other => panic!("unexpected {:?}", other),
    }
}

#[test]
fn extract_command_shapes() {
    let (name, args) = extract_command(request(&[b"ECHO", b"a", b"b"])).unwrap();
    assert_eq!(name, b"ECHO".to_vec());
    assert_eq!(args.len(), 2);
    assert!(matches!(extract_command(Value::Null), Err(CommandError::InvalidFormat)));
    assert!(matches!(extract_command(Value::Array(vec![])), Err(CommandError::EmptyCommand)));
    assert!(matches!(
        extract_command(Value::Array(vec![Value::SimpleString(b"PING".to_vec())])),
        Err(CommandError::ExpectedBulkString)
    ));
}

#[test]
fn unpack_bulk_str_cases() {
    assert_eq!(unpack_bulk_str(bulk(b"x")).unwrap(), b"x".to_vec());
    assert!(matches!(unpack_bulk_str(Value::Null), Err(CommandError::ExpectedBulkString)));
}

#[test]
fn execute_by_name() {
    let mut stg = Storage::new();
    let r = execute(&mut stg, &b"SET".to_vec(), vec![bulk(b"a"), bulk(b"1")], 0).unwrap();
    assert!(matches!(r, Value::SimpleString(s) if s == b"OK"));
    assert_eq!(stg.get_at(b"a", 0).unwrap().value, b"1".to_vec());
}

fn send_bytes(a: Action) -> Vec<u8> {
    match a {
        Action::Send(b) => b,
        other => panic!("expected a reply, got {:?}", other),
    }
}

#[test]
fn connection_pipelined_requests() {
    let mut stg = Storage::new();
    let mut conn = Connection::new();
    conn.receive(b"*1\r\n$4\r\nPING\r\n*2\r\n$4\r\nECHO\r\n$5\r\nhello\r\n");
    assert_eq!(send_bytes(conn.step(&mut stg, 0)), b"+PONG\r\n".to_vec());
    assert_eq!(send_bytes(conn.step(&mut stg, 0)), b"$5\r\nhello\r\n".to_vec());
    assert!(matches!(conn.step(&mut stg, 0), Action::Read));
}

#[test]
fn connection_short_reads() {
    let mut stg = Storage::new();
    let mut conn = Connection::new();
    let wire: &[u8] = b"*3\r\n$3\r\nSET\r\n$1\r\nk\r\n$1\r\nv\r\n";
    conn.receive(&wire[..10]);
    assert!(matches!(conn.step(&mut stg, 0), Action::Read));
    conn.receive(&wire[10..]);
    assert_eq!(send_bytes(conn.step(&mut stg, 0)), b"+OK\r\n".to_vec());
    assert!(matches!(conn.next_request(), Ok(None)));
}

#[test]
fn connection_closes_on_bad_input() {
    let mut stg = Storage::new();
    let mut conn = Connection::new();
    conn.receive(b"?\r\n");
    assert!(matches!(conn.step(&mut stg, 0), Action::Close));
    let mut conn = Connection::new();
    conn.receive(b"*1\r\n$4\r\nQUIT\r\n");
    assert!(matches!(conn.step(&mut stg, 0), Action::Close));
}

#[test]
fn many_connections_disjoint_keys() {
    let mut stg = Storage::new();
    let mut conns: Vec<Connection> = (0..8).map(|_| Connection::new()).collect();
    for (i, c) in conns.iter_mut().enumerate() {
        let key = format!("key{}", i);
        let val = format!("value{}", i);
        let wire = format!("*3\r\n$3\r\nSET\r\n${}\r\n{}\r\n${}\r\n{}\r\n", key.len(), key, val.len(), val);
        c.receive(wire.as_bytes());
    }
    for c in conns.iter_mut() {
        assert_eq!(send_bytes(c.step(&mut stg, 0)), b"+OK\r\n".to_vec());
    }
    for (i, c) in conns.iter_mut().enumerate() {
        let key = format!("key{}", i);
        let wire = format!("*2\r\n$3\r\nGET\r\n${}\r\n{}\r\n", key.len(), key);
        c.receive(wire.as_bytes());
        let val = format!("value{}", i);
        let expected = format!("${}\r\n{}\r\n", val.len(), val);
        assert_eq!(send_bytes(c.step(&mut stg, 1)), expected.into_bytes());
    }
}
