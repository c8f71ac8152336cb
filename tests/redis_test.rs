use tinyredis::cache::Cache;
use tinyredis::resp::RESPMessage;
use tinyredis::server::handle_request;

const SERVER_ID: u32 = 4242;

fn request(words: &[&str]) -> Vec<u8> {
    let parts: Vec<RESPMessage> = words
        .iter()
        .map(|w| RESPMessage::BulkString(w.to_string()))
        .collect();
    RESPMessage::Array(parts).serialize()
}

fn send(cache: &mut Cache, words: &[&str], now: u64) -> Vec<u8> {
    let (reply, promote) = handle_request(cache, &request(words), now, SERVER_ID);
    assert!(!promote);
    reply
}

#[test]
fn it_can_connect_to_redis() {
    let mut cache = Cache::new(3);
    let reply = send(&mut cache, &["PING"], 0);
    assert!(!reply.is_empty());
}

#[test]
fn it_can_handle_multiple_connections() {
    let mut cache = Cache::new(3);
    let first = send(&mut cache, &["PING"], 0);
    let second = send(&mut cache, &["PING"], 0);
    assert!(!first.is_empty());
    assert!(!second.is_empty());
}

#[test]
fn it_can_receive_pings() {
    let mut cache = Cache::new(3);
    let reply = send(&mut cache, &["PING"], 0);
    assert_eq!(reply, b"+PONG\r\n".to_vec());
}

#[test]
fn it_can_handle_pings_from_multiple_connections() {
    let mut cache = Cache::new(3);
    let ping = send(&mut cache, &["PING"], 0);
    let ping2 = send(&mut cache, &["ping"], 0);
    assert_eq!(ping, b"+PONG\r\n".to_vec());
    assert_eq!(ping2, b"+PONG\r\n".to_vec());
}

#[test]
fn it_can_handle_echo() {
    let mut cache = Cache::new(3);
    let echo = send(&mut cache, &["ECHO", "hello"], 0);
    assert_eq!(echo, b"$5\r\nhello\r\n".to_vec());
}

#[test]
fn it_can_get_and_set() {
    let mut cache = Cache::new(3);
    let missing = send(&mut cache, &["GET", "unregistered-key"], 0);
    assert_eq!(missing, b"$-1\r\n".to_vec());

    assert_eq!(send(&mut cache, &["SET", "one", "hello"], 1), b"+OK\r\n".to_vec());
    assert_eq!(send(&mut cache, &["SET", "two", "world"], 2), b"+OK\r\n".to_vec());

    let value = send(&mut cache, &["GET", "one"], 3);
    assert_eq!(value, b"$5\r\nhello\r\n".to_vec());

    let value = send(&mut cache, &["GET", "two"], 4);
    assert_eq!(value, b"$5\r\nworld\r\n".to_vec());
}

fn it_can_handle_lru(cache: &mut Cache) {
    assert_eq!(send(cache, &["SET", "over1", "value1"], 10), b"+OK\r\n".to_vec());
    assert_eq!(send(cache, &["SET", "over2", "value2"], 11), b"+OK\r\n".to_vec());
    assert_eq!(send(cache, &["SET", "over3", "value3"], 12), b"+OK\r\n".to_vec());
    assert_eq!(send(cache, &["SET", "over4", "value4"], 13), b"+OK\r\n".to_vec());

    // over4 is the freshest entry, over1 the stalest: it was pushed out
    let value = send(cache, &["GET", "over4"], 14);
    assert_eq!(value, b"$6\r\nvalue4\r\n".to_vec());

    let evicted = send(cache, &["GET", "over1"], 15);
    assert_eq!(evicted, b"$-1\r\n".to_vec());
}

#[test]
fn it_can_get_and_set_with_lru() {
    let mut cache = Cache::new(3);
    let missing = send(&mut cache, &["GET", "key"], 0);
    assert_eq!(missing, b"$-1\r\n".to_vec());

    assert_eq!(send(&mut cache, &["SET", "key", "value"], 1), b"+OK\r\n".to_vec());

    let value = send(&mut cache, &["GET", "key"], 2);
    assert_eq!(value, b"$5\r\nvalue\r\n".to_vec());

    let value = send(&mut cache, &["GET", "key"], 3);
    assert_eq!(value, b"$5\r\nvalue\r\n".to_vec());

    it_can_handle_lru(&mut cache);
}

#[test]
fn it_can_set_with_ttl() {
    let mut cache = Cache::new(3);
    let start: u64 = 1_000_000;
    let ok = send(&mut cache, &["SET", "key-ttl", "value", "PX", "1000"], start);
    assert_eq!(ok, b"+OK\r\n".to_vec());

    let value = send(&mut cache, &["GET", "key-ttl"], start);
    assert_eq!(value, b"$5\r\nvalue\r\n".to_vec());

    let expired = send(&mut cache, &["GET", "key-ttl"], start + 2000);
    assert_eq!(expired, b"$-1\r\n".to_vec());
}

#[test]
fn it_can_handle_del() {
    let mut cache = Cache::new(3);
    assert_eq!(send(&mut cache, &["SET", "del2", "del2"], 0), b"+OK\r\n".to_vec());

    let value = send(&mut cache, &["GET", "del2"], 1);
    assert_eq!(value, b"$4\r\ndel2\r\n".to_vec());

    let del = send(&mut cache, &["DEL", "del2 del3"], 2);
    assert_eq!(del, b"$1\r\n1\r\n".to_vec());
}

#[test]
fn it_can_set_on_start() {
    let mut cache = Cache::new(3);
    assert_eq!(send(&mut cache, &["SET", "key1", "apple", "PX", "1000"], 0), b"+OK\r\n".to_vec());
    assert_eq!(send(&mut cache, &["SET", "key2", "orange", "PX", "1000"], 0), b"+OK\r\n".to_vec());
    assert_eq!(send(&mut cache, &["SET", "key3", "bannana", "PX", "1000"], 0), b"+OK\r\n".to_vec());
}
