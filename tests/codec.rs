use tinyredis::resp::{start_to_cflf, CommandError, RESPMessage};

fn bulk(s: &str) -> RESPMessage {
    RESPMessage::BulkString(s.to_string())
}

#[test]
fn serialize_each_variant() {
    assert_eq!(RESPMessage::SimpleString("OK".to_string()).serialize(), b"+OK\r\n".to_vec());
    assert_eq!(RESPMessage::Error("Error".to_string()).serialize(), b"-Error\r\n".to_vec());
    assert_eq!(RESPMessage::Integer(1234).serialize(), b":1234\r\n".to_vec());
    assert_eq!(RESPMessage::Integer(0).serialize(), b":0\r\n".to_vec());
    assert_eq!(bulk("hello").serialize(), b"$5\r\nhello\r\n".to_vec());
    assert_eq!(bulk("").serialize(), b"$0\r\n\r\n".to_vec());
    assert_eq!(RESPMessage::Null.serialize(), b"$-1\r\n".to_vec());
    assert_eq!(RESPMessage::Array(vec![]).serialize(), b"*0\r\n".to_vec());
}

#[test]
fn serialize_ping_and_set_requests() {
    let ping = RESPMessage::Array(vec![bulk("PING")]);
    assert_eq!(ping.serialize(), b"*1\r\n$4\r\nPING\r\n".to_vec());
    let set = RESPMessage::Array(vec![bulk("SET"), bulk("key"), bulk("value"), bulk("PX"), bulk("1000")]);
    assert_eq!(
        set.serialize(),
        b"*5\r\n$3\r\nSET\r\n$3\r\nkey\r\n$5\r\nvalue\r\n$2\r\nPX\r\n$4\r\n1000\r\n".to_vec()
    );
}

#[test]
fn bulk_length_counts_bytes() {
    // "é" takes two bytes in UTF-8
    assert_eq!(bulk("é").serialize(), vec![b'$', b'2', b'\r', b'\n', 0xC3, 0xA9, b'\r', b'\n']);
    let (m, n) = RESPMessage::deserialize(&bulk("héllo").serialize());
    assert_eq!(m, bulk("héllo"));
    assert_eq!(n, 12);
}

#[test]
fn round_trip_of_messages() {
    let messages = vec![
        RESPMessage::SimpleString("PONG".to_string()),
        RESPMessage::SimpleString(String::new()),
        RESPMessage::Error("Invalid key".to_string()),
        RESPMessage::Integer(u64::MAX),
        RESPMessage::Integer(7),
        bulk("with\r\ninside"),
        bulk(""),
        RESPMessage::Null,
        RESPMessage::Array(vec![]),
        RESPMessage::Array(vec![
            bulk("SET"),
            RESPMessage::Array(vec![RESPMessage::Integer(10), RESPMessage::Null]),
            RESPMessage::SimpleString("x".to_string()),
        ]),
    ];
    for m in messages {
        let bytes = m.serialize();
        let (back, used) = RESPMessage::deserialize(&bytes);
        assert_eq!(back, m);
        assert_eq!(used, bytes.len());
    }
}

#[test]
fn deserialize_examples() {
    assert_eq!(
        RESPMessage::deserialize(b"+PONG\r\n"),
        (RESPMessage::SimpleString("PONG".to_string()), 7)
    );
    assert_eq!(RESPMessage::deserialize(b"$-1\r\n"), (RESPMessage::Null, 5));
    assert_eq!(RESPMessage::deserialize(b"$0\r\n\r\n"), (bulk(""), 6));
    assert_eq!(RESPMessage::deserialize(b":42\r\n"), (RESPMessage::Integer(42), 5));
    assert_eq!(
        RESPMessage::deserialize(b"*1\r\n$4\r\nPING\r\n"),
        (RESPMessage::Array(vec![bulk("PING")]), 14)
    );
}

#[test]
fn deserialize_pipelined_messages() {
    let bytes = b"+OK\r\n:5\r\n";
    let (first, used) = RESPMessage::deserialize(bytes);
    assert_eq!(first, RESPMessage::SimpleString("OK".to_string()));
    assert_eq!(used, 5);
    let (second, used2) = RESPMessage::deserialize(&bytes[used..]);
    assert_eq!(second, RESPMessage::Integer(5));
    assert_eq!(used2, 4);
}

#[test]
fn deserialize_unknown_type() {
    let (m, used) = RESPMessage::deserialize(b"!oops\r\n");
    assert_eq!(m, RESPMessage::Error("Invalid RESP message type".to_string()));
    assert_eq!(used, 0);
    let (m, used) = RESPMessage::deserialize(b"");
    assert_eq!(m, RESPMessage::Error("Invalid RESP message type".to_string()));
    assert_eq!(used, 0);
}

#[test]
fn deserialize_malformed() {
    let cases: Vec<&[u8]> = vec![
        b"+PONG",
        b"+PONG\r",
        b"+PONG\rx",
        b"$5\r\nhel",
        b"$5\r\nhello\n\n",
        b"$05\r\nhello\r\n",
        b":007\r\n",
        b":18446744073709551616\r\n",
        b"*2\r\n$1\r\na\r\n",
        b"$2\r\n\xff\xfe\r\n",
    ];
    for bytes in cases {
        let (m, used) = RESPMessage::deserialize(bytes);
        assert_eq!(m, RESPMessage::Error("Invalid RESP message".to_string()));
        assert_eq!(used, 0);
    }
}

#[test]
fn start_to_cflf_finds_carriage_return() {
    assert_eq!(start_to_cflf(b"PONG\r\n"), 4);
    assert_eq!(start_to_cflf(b"\r"), 0);
    assert_eq!(start_to_cflf(b"none"), 4);
    assert_eq!(start_to_cflf(b""), 0);
}

#[test]
fn pack_string_of_strings_only() {
    assert_eq!(RESPMessage::SimpleString("a".to_string()).pack_string(), Some("a"));
    assert_eq!(bulk("b").pack_string(), Some("b"));
    assert_eq!(RESPMessage::Integer(1).pack_string(), None);
    assert_eq!(RESPMessage::Null.pack_string(), None);
    assert_eq!(RESPMessage::Error("e".to_string()).pack_string(), None);
}

#[test]
fn to_command_splits_name_and_arguments() {
    let m = RESPMessage::Array(vec![bulk("SET"), bulk("k"), RESPMessage::Integer(3)]);
    let (name, args) = m.to_command().unwrap();
    assert_eq!(name, "SET".to_string());
    assert_eq!(args, vec![bulk("k"), RESPMessage::Integer(3)]);
}

#[test]
fn to_command_errors() {
    assert_eq!(bulk("PING").to_command(), Err(CommandError::NotAnArray));
    assert_eq!(RESPMessage::Array(vec![]).to_command(), Err(CommandError::NotACommand));
    assert_eq!(
        RESPMessage::Array(vec![RESPMessage::SimpleString("PING".to_string())]).to_command(),
        Err(CommandError::NotACommand)
    );
}

#[test]
fn duplicate_copies_nested_messages() {
    let m = RESPMessage::Array(vec![bulk("a"), RESPMessage::Array(vec![RESPMessage::Null])]);
    assert_eq!(m.duplicate(), m);
}
