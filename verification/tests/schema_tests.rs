use synchrotron::backend::{acquire_connection, ConnChoice};
use synchrotron::message::Message;
use synchrotron::schema::{command_schema, is_inline, is_write, request_args, routing_key, KeySchema};

fn bulk(s: &str) -> Message {
    Message::Bulk(s.as_bytes().to_vec())
}

fn cmd(args: &[&str]) -> Message {
    Message::Array(args.iter().map(|a| bulk(a)).collect())
}

#[test]
fn schema_table_classifies_commands() {
    assert_eq!(command_schema(b"GET"), KeySchema::SingleKey);
    assert_eq!(command_schema(b"set"), KeySchema::SingleKey);
    assert_eq!(command_schema(b"MGET"), KeySchema::MultiKey);
    assert_eq!(command_schema(b"del"), KeySchema::MultiKey);
    assert_eq!(command_schema(b"UNLINK"), KeySchema::MultiKey);
    assert_eq!(command_schema(b"MSET"), KeySchema::KeyValuePairs);
    assert_eq!(command_schema(b"PING"), KeySchema::NoKey);
    assert_eq!(command_schema(b"OBJECT"), KeySchema::NoKey);
}

#[test]
fn write_commands_are_recognized() {
    assert!(is_write(&cmd(&["SET", "a", "1"])));
    assert!(is_write(&cmd(&["set", "a", "1"])));
    assert!(is_write(&cmd(&["DEL", "a"])));
    assert!(is_write(&cmd(&["LPUSH", "l", "x"])));
    assert!(!is_write(&cmd(&["GET", "a"])));
    assert!(!is_write(&cmd(&["MGET", "a", "b"])));
    assert!(!is_write(&cmd(&["PING"])));
    assert!(!is_write(&Message::Simple(b"OK".to_vec())));
}

#[test]
fn routing_key_is_the_first_key() {
    assert_eq!(routing_key(&cmd(&["GET", "a"])), Some(b"a".to_vec()));
    assert_eq!(routing_key(&cmd(&["MGET", "k1", "k2"])), Some(b"k1".to_vec()));
    assert_eq!(routing_key(&cmd(&["PING"])), None);
    assert_eq!(routing_key(&cmd(&["GET"])), None);
    assert_eq!(routing_key(&Message::Integer(3)), None);
}

#[test]
fn inline_commands_carry_their_words() {
    let m = Message::Inline(vec![b"GET".to_vec(), b"a".to_vec()]);
    assert!(is_inline(&m));
    assert!(!is_inline(&cmd(&["GET", "a"])));
    assert_eq!(routing_key(&m), Some(b"a".to_vec()));
    assert_eq!(
        request_args(&m),
        Some(vec![b"GET".to_vec(), b"a".to_vec()])
    );
}

#[test]
fn request_args_requires_all_bulks() {
    assert_eq!(
        request_args(&cmd(&["GET", "a"])),
        Some(vec![b"GET".to_vec(), b"a".to_vec()])
    );
    let mixed = Message::Array(vec![bulk("GET"), Message::Integer(1)]);
    assert_eq!(request_args(&mixed), None);
    assert_eq!(request_args(&Message::Null), None);
}

#[test]
fn connection_acquisition_follows_the_policy() {
    // first idle connection wins
    assert_eq!(acquire_connection(&vec![true, false, false], 4), ConnChoice::Use(1));
    // nothing idle, under the cap: open a new one
    assert_eq!(acquire_connection(&vec![true, true], 4), ConnChoice::OpenNew);
    // nothing idle, at the cap: wait
    assert_eq!(acquire_connection(&vec![true, true], 2), ConnChoice::Wait);
    // empty pool under a positive cap opens its first connection
    assert_eq!(acquire_connection(&vec![], 1), ConnChoice::OpenNew);
}
