use tinyredis::cache::Cache;
use tinyredis::resp::RESPMessage;
use tinyredis::server::{
    decimal_string, dispatch, handle_request, is_named, join_words, parse_number, parse_port,
    respond, startup_pairs,
};

fn request(words: &[&str]) -> Vec<u8> {
    RESPMessage::Array(words.iter().map(|w| RESPMessage::BulkString(w.to_string())).collect())
        .serialize()
}

fn answer(cache: &mut Cache, words: &[&str]) -> (Vec<u8>, bool) {
    handle_request(cache, &request(words), 0, 100)
}

#[test]
fn get_server_id_gives_identity() {
    let mut cache = Cache::new(3);
    assert_eq!(answer(&mut cache, &["GETSERVERID"]), (b"+100\r\n".to_vec(), false));
}

#[test]
fn set_leader_asks_for_promotion() {
    let mut cache = Cache::new(3);
    assert_eq!(answer(&mut cache, &["setleader"]), (b"+OK\r\n".to_vec(), true));
}

#[test]
fn sync_joins_keys_then_values() {
    let mut cache = Cache::new(3);
    answer(&mut cache, &["SET", "k1", "v1"]);
    let (reply, _) = answer(&mut cache, &["SYNC"]);
    assert_eq!(reply, b"$5\r\nk1 v1\r\n".to_vec());
    let mut empty = Cache::new(3);
    assert_eq!(answer(&mut empty, &["SYNC"]).0, b"$0\r\n\r\n".to_vec());
}

#[test]
fn argument_errors() {
    let mut cache = Cache::new(3);
    assert_eq!(answer(&mut cache, &["GET"]).0, b"-Invalid key\r\n".to_vec());
    assert_eq!(answer(&mut cache, &["SET", "k"]).0, b"-Invalid key or value\r\n".to_vec());
    assert_eq!(answer(&mut cache, &["DEL"]).0, b"-Invalid Request\r\n".to_vec());
    assert_eq!(answer(&mut cache, &["ECHO"]).0, b"-Invalid argument\r\n".to_vec());
    assert_eq!(answer(&mut cache, &["FLUSHALL"]).0, b"-Error\r\n".to_vec());
    assert_eq!(cache.len(), 0);
}

#[test]
fn non_string_key_is_refused() {
    let mut cache = Cache::new(3);
    let msg = RESPMessage::Array(vec![
        RESPMessage::BulkString("GET".to_string()),
        RESPMessage::Integer(3),
    ]);
    let (reply, promote) = respond(&mut cache, &msg, 0, 1);
    assert_eq!(reply, RESPMessage::Error("Invalid key".to_string()));
    assert!(!promote);
}

#[test]
fn message_errors() {
    let mut cache = Cache::new(3);
    assert_eq!(
        handle_request(&mut cache, b"+PING\r\n", 0, 1).0,
        b"-Message is not an array\r\n".to_vec()
    );
    assert_eq!(
        handle_request(&mut cache, b"*1\r\n:1\r\n", 0, 1).0,
        b"-First element of array must be a bulk string\r\n".to_vec()
    );
    assert_eq!(
        handle_request(&mut cache, b"hello", 0, 1).0,
        b"-Invalid RESP message type\r\n".to_vec()
    );
    assert_eq!(
        handle_request(&mut cache, b"*1\r\n$4\r\nPI", 0, 1).0,
        b"-Invalid RESP message\r\n".to_vec()
    );
}

#[test]
fn set_with_unreadable_px_never_expires() {
    let mut cache = Cache::new(3);
    answer(&mut cache, &["SET", "k", "v", "PX", "soon"]);
    let (reply, _) = handle_request(&mut cache, &request(&["GET", "k"]), u64::MAX, 1);
    assert_eq!(reply, b"$1\r\nv\r\n".to_vec());
}

#[test]
fn px_with_plus_sign_sets_ttl() {
    let mut cache = Cache::new(3);
    handle_request(&mut cache, &request(&["SET", "k", "v", "PX", "+1000"]), 0, 1);
    let (reply, _) = handle_request(&mut cache, &request(&["GET", "k"]), 2000, 1);
    assert_eq!(reply, b"$-1\r\n".to_vec());
}

#[test]
fn dispatch_echo_returns_argument() {
    let mut cache = Cache::new(3);
    let args = vec![RESPMessage::Integer(9)];
    assert_eq!(dispatch(&mut cache, "Echo", &args, 0, 1), (RESPMessage::Integer(9), false));
}

#[test]
fn names_ignore_case() {
    assert!(is_named("PiNg", "ping"));
    assert!(!is_named("pin", "ping"));
    assert!(!is_named("pong", "ping"));
}

#[test]
fn numbers_and_text() {
    assert_eq!(parse_number("1000"), Some(1000));
    assert_eq!(parse_number("18446744073709551615"), Some(u64::MAX));
    assert_eq!(parse_number("18446744073709551616"), None);
    assert_eq!(parse_number(""), None);
    assert_eq!(parse_number("+1"), Some(1));
    assert_eq!(parse_number("+"), None);
    assert_eq!(parse_number("++1"), None);
    assert_eq!(parse_number("-1"), None);
    assert_eq!(decimal_string(0), "0".to_string());
    assert_eq!(decimal_string(4096), "4096".to_string());
    assert_eq!(parse_port("6379"), Some(6379));
    assert_eq!(parse_port("70000"), None);
    assert_eq!(
        join_words(&vec!["a".to_string(), "b".to_string(), "c".to_string()]),
        "a b c".to_string()
    );
    assert_eq!(join_words(&vec![]), String::new());
}

#[test]
fn startup_pairs_after_port() {
    let args: Vec<String> = ["prog", "6379", "key_1", "Apple", "key_2", "Orange", "key_3"]
        .iter()
        .map(|s| s.to_string())
        .collect();
    let (keys, values) = startup_pairs(&args);
    assert_eq!(keys, vec!["key_1".to_string(), "key_2".to_string(), "key_3".to_string()]);
    assert_eq!(values, vec!["Apple".to_string(), "Orange".to_string()]);
    let (keys, values) = startup_pairs(&vec!["prog".to_string(), "6380".to_string()]);
    assert!(keys.is_empty() && values.is_empty());
}
