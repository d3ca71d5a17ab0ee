use synchrotron::message::{clone_message, encode_all, encode_message, Message};

fn bulk(s: &str) -> Message {
    Message::Bulk(s.as_bytes().to_vec())
}

fn cmd(args: &[&str]) -> Message {
    Message::Array(args.iter().map(|a| bulk(a)).collect())
}

fn encode(m: &Message) -> Vec<u8> {
    let mut out = Vec::new();
    encode_message(m, &mut out);
    out
}

#[test]
fn encode_simple_string() {
    assert_eq!(encode(&Message::Simple(b"OK".to_vec())), b"+OK\r\n");
}

#[test]
fn encode_error_string() {
    assert_eq!(
        encode(&Message::Error(b"ERR backend unavailable".to_vec())),
        b"-ERR backend unavailable\r\n"
    );
}

#[test]
fn encode_integers() {
    assert_eq!(encode(&Message::Integer(0)), b":0\r\n");
    assert_eq!(encode(&Message::Integer(1234)), b":1234\r\n");
    assert_eq!(encode(&Message::Integer(-7)), b":-7\r\n");
    assert_eq!(
        encode(&Message::Integer(i64::MIN)),
        b":-9223372036854775808\r\n"
    );
}

#[test]
fn encode_bulk_and_null() {
    assert_eq!(encode(&bulk("1")), b"$1\r\n1\r\n");
    assert_eq!(encode(&bulk("")), b"$0\r\n\r\n");
    assert_eq!(encode(&Message::Null), b"$-1\r\n");
    assert_eq!(encode(&Message::NullArray), b"*-1\r\n");
}

#[test]
fn encode_command_array() {
    assert_eq!(
        encode(&cmd(&["GET", "a"])),
        b"*2\r\n$3\r\nGET\r\n$1\r\na\r\n"
    );
}

#[test]
fn encode_nested_array() {
    let m = Message::Array(vec![Message::Integer(1), Message::Array(vec![bulk("x")])]);
    assert_eq!(encode(&m), b"*2\r\n:1\r\n*1\r\n$1\r\nx\r\n");
}

#[test]
fn encode_inline_command() {
    let m = Message::Inline(vec![b"PING".to_vec()]);
    assert_eq!(encode(&m), b"PING\r\n");
    let m2 = Message::Inline(vec![b"SET".to_vec(), b"a".to_vec(), b"1".to_vec()]);
    assert_eq!(encode(&m2), b"SET a 1\r\n");
}

#[test]
fn encode_all_preserves_order() {
    let msgs = vec![Message::Simple(b"OK".to_vec()), bulk("1"), Message::Null];
    assert_eq!(encode_all(&msgs), b"+OK\r\n$1\r\n1\r\n$-1\r\n");
}

#[test]
fn clone_keeps_wire_bytes() {
    let m = Message::Array(vec![
        bulk("MGET"),
        bulk("k1"),
        Message::Integer(-5),
        Message::Inline(vec![b"a".to_vec(), b"b".to_vec()]),
    ]);
    let c = clone_message(&m);
    assert_eq!(encode(&c), encode(&m));
    assert_eq!(c, m);
}

use synchrotron::resp::{parse_message, ParseOutcome};

fn parse_all(bytes: &[u8]) -> Vec<Message> {
    let mut out = Vec::new();
    let mut pos = 0;
    loop {
        match parse_message(bytes, pos) {
            ParseOutcome::Complete(m, end) => {
                out.push(m);
                pos = end;
            }
            ParseOutcome::Incomplete => break,
            ParseOutcome::Malformed => panic!("malformed at {}", pos),
        }
    }
    assert_eq!(pos, bytes.len());
    out
}

#[test]
fn parse_round_trips_every_kind() {
    let msgs = vec![
        Message::Simple(b"OK".to_vec()),
        Message::Error(b"ERR nope".to_vec()),
        Message::Integer(0),
        Message::Integer(12345),
        Message::Integer(-42),
        bulk("hello"),
        bulk(""),
        Message::Null,
        Message::NullArray,
        cmd(&["SET", "a", "1"]),
        Message::Array(vec![Message::Integer(1), Message::Array(vec![bulk("x")])]),
        Message::Array(vec![]),
    ];
    let bytes = encode_all(&msgs);
    assert_eq!(parse_all(&bytes), msgs);
}

#[test]
fn parse_pipelined_commands() {
    let bytes = b"*2\r\n$3\r\nGET\r\n$1\r\na\r\n*3\r\n$3\r\nSET\r\n$1\r\nb\r\n$1\r\n2\r\n";
    let msgs = parse_all(bytes);
    assert_eq!(msgs, vec![cmd(&["GET", "a"]), cmd(&["SET", "b", "2"])]);
}

#[test]
fn parse_inline_ping() {
    match parse_message(b"PING\r\n", 0) {
        ParseOutcome::Complete(m, end) => {
            assert_eq!(m, Message::Inline(vec![b"PING".to_vec()]));
            assert_eq!(end, 6);
        }
        _ => panic!("expected a complete inline command"),
    }
}

#[test]
fn parse_waits_for_more_bytes() {
    assert!(matches!(parse_message(b"$5\r\nab", 0), ParseOutcome::Incomplete));
    assert!(matches!(parse_message(b"*2\r\n$1\r\na\r\n", 0), ParseOutcome::Incomplete));
    assert!(matches!(parse_message(b"+OK", 0), ParseOutcome::Incomplete));
    assert!(matches!(parse_message(b"", 0), ParseOutcome::Incomplete));
}

#[test]
fn parse_rejects_garbage() {
    assert!(matches!(parse_message(b":12x\r\n", 0), ParseOutcome::Malformed));
    assert!(matches!(parse_message(b"$2\r\nabc\r\n", 0), ParseOutcome::Malformed));
    assert!(matches!(parse_message(b":-0\r\n", 0), ParseOutcome::Malformed));
    assert!(matches!(parse_message(b"\r\n", 0), ParseOutcome::Malformed));
}

#[test]
fn parse_inline_with_arguments() {
    match parse_message(b"SET a 1\r\n", 0) {
        ParseOutcome::Complete(m, end) => {
            assert_eq!(
                m,
                Message::Inline(vec![b"SET".to_vec(), b"a".to_vec(), b"1".to_vec()])
            );
            assert_eq!(end, 9);
        }
        _ => panic!("expected a complete inline command"),
    }
    // an inline command routes by its key like any other
    assert_eq!(
        synchrotron::schema::routing_key(&Message::Inline(vec![
            b"GET".to_vec(),
            b"a".to_vec()
        ])),
        Some(b"a".to_vec())
    );
}

#[test]
fn parse_inline_odd_spacing_keeps_the_bytes() {
    // a line that does not split into single-space words is kept whole;
    // either way the consumed bytes re-encode exactly
    match parse_message(b"a  b\r\n", 0) {
        ParseOutcome::Complete(m, end) => {
            assert_eq!(end, 6);
            let mut out = Vec::new();
            encode_message(&m, &mut out);
            assert_eq!(out, b"a  b\r\n");
        }
        _ => panic!("expected a complete inline command"),
    }
}

#[test]
fn parse_finds_every_buffered_message() {
    // completeness in action: whatever the encoder wrote is found again,
    // message by message, wherever it sits in the stream
    let msgs = vec![
        Message::Array(vec![bulk("GET"), bulk("k")]),
        Message::Integer(-1),
        Message::Inline(vec![b"PING".to_vec()]),
    ];
    let bytes = encode_all(&msgs);
    let mut pos = 0;
    for expect in &msgs {
        match parse_message(&bytes, pos) {
            ParseOutcome::Complete(m, end) => {
                assert_eq!(&m, expect);
                pos = end;
            }
            _ => panic!("message not found at {}", pos),
        }
    }
    assert_eq!(pos, bytes.len());
}

#[test]
fn parse_malformed_is_final() {
    // a malformed head stays malformed no matter what bytes follow
    let mut bytes = b":12x".to_vec();
    assert!(matches!(parse_message(&bytes, 0), ParseOutcome::Malformed));
    bytes.extend_from_slice(b"\r\nmore stuff\r\n");
    assert!(matches!(parse_message(&bytes, 0), ParseOutcome::Malformed));
}
