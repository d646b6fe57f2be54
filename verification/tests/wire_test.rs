//! Requests and replies over the wire format: a frame is built as a client
//! would, read with `parse_request`, run, and the reply framed with `frame`.
use redisops::handler::{try_dispatch, AuthConfig};
use redisops::proto::{frame, parse_request};
use redisops::store::Store;

struct Server {
    store: Store,
    auth: AuthConfig,
    now: u64,
}

fn make_frame(args: &[&str]) -> Vec<u8> {
    let mut payload = Vec::new();
    payload.extend_from_slice(&(args.len() as u32).to_le_bytes());
    for arg in args {
        payload.extend_from_slice(&(arg.len() as u32).to_le_bytes());
        payload.extend_from_slice(arg.as_bytes());
    }
    let mut frame = Vec::new();
    frame.extend_from_slice(&(payload.len() as u32).to_le_bytes());
    frame.extend_from_slice(&payload);
    frame
}

impl Server {
    fn new() -> Self {
        Server { store: Store::new(), auth: AuthConfig::default(), now: 1_000 }
    }

    /// Handles one request frame and returns the reply payload, as a client
    /// reads it off the connection.
    fn send_recv(&mut self, args: &[&str]) -> Vec<u8> {
        let req = make_frame(args);
        let len = u32::from_le_bytes(req[0..4].try_into().unwrap()) as usize;
        let parsed = parse_request(&req[4..4 + len]).expect("well-formed request");
        let floats: Vec<Option<u64>> =
            parsed.iter().map(|a| a.parse::<f64>().ok().map(f64::to_bits)).collect();
        let resp = try_dispatch(&mut self.store, &parsed, &self.auth, &floats, self.now)
            .expect("no overflow");
        let framed = frame(&resp);
        let payload_len = u32::from_le_bytes(framed[0..4].try_into().unwrap()) as usize;
        assert_eq!(payload_len, framed.len() - 4);
        framed[4..].to_vec()
    }

    fn must_send_recv(&mut self, expected_tag: u8, args: &[&str]) -> Vec<u8> {
        let raw = self.send_recv(args);
        assert!(!raw.is_empty(), "expected non-empty response");
        assert_eq!(raw[0], expected_tag, "tag mismatch: got {} want {}", raw[0], expected_tag);
        raw
    }
}

fn decode_str(raw: &[u8]) -> String {
    let len = u32::from_le_bytes(raw[1..5].try_into().unwrap()) as usize;
    String::from_utf8(raw[5..5 + len].to_vec()).unwrap()
}

fn decode_int(raw: &[u8]) -> i64 {
    i64::from_le_bytes(raw[1..9].try_into().unwrap())
}

fn decode_dbl(raw: &[u8]) -> f64 {
    f64::from_le_bytes(raw[1..9].try_into().unwrap())
}

#[test]
fn integration_test_test_set_get() {
    let mut c = Server::new();
    c.must_send_recv(0, &["set", "hello", "world"]);
    let raw = c.must_send_recv(2, &["get", "hello"]);
    assert_eq!(decode_str(&raw), "world");
}

#[test]
fn test_get_missing() {
    let mut c = Server::new();
    c.must_send_recv(0, &["get", "nosuchkey"]);
}

#[test]
fn integration_test_test_del() {
    let mut c = Server::new();
    c.must_send_recv(0, &["set", "k", "v"]);
    let raw = c.must_send_recv(3, &["del", "k"]);
    assert_eq!(decode_int(&raw), 1);
    let raw = c.must_send_recv(3, &["del", "k"]);
    assert_eq!(decode_int(&raw), 0);
}

#[test]
fn integration_test_test_keys() {
    let mut c = Server::new();
    c.must_send_recv(0, &["set", "a", "1"]);
    c.must_send_recv(0, &["set", "b", "2"]);
    let raw = c.must_send_recv(5, &["keys"]);
    let count = u32::from_le_bytes(raw[1..5].try_into().unwrap());
    assert_eq!(count, 2);
}

#[test]
fn test_pexpire() {
    let mut c = Server::new();
    c.must_send_recv(0, &["set", "k", "v"]);
    let raw = c.must_send_recv(3, &["pexpire", "k", "500"]);
    assert_eq!(decode_int(&raw), 1);
}

#[test]
fn test_pttl() {
    let mut c = Server::new();
    let raw = c.must_send_recv(3, &["pttl", "no"]);
    assert_eq!(decode_int(&raw), -2);

    c.must_send_recv(0, &["set", "k", "v"]);
    let raw = c.must_send_recv(3, &["pttl", "k"]);
    assert_eq!(decode_int(&raw), -1);

    c.must_send_recv(3, &["pexpire", "k", "1000"]);
    c.now += 1;
    let raw = c.must_send_recv(3, &["pttl", "k"]);
    let ttl = decode_int(&raw);
    assert!(ttl > 0 && ttl <= 1000, "ttl {} should be in (0, 1000]", ttl);
}

#[test]
fn test_expiry() {
    let mut c = Server::new();
    c.must_send_recv(0, &["set", "k", "v"]);
    c.must_send_recv(3, &["pexpire", "k", "80"]);
    c.now += 250;
    c.must_send_recv(0, &["get", "k"]);
}

#[test]
fn test_zadd() {
    let mut c = Server::new();
    let raw = c.must_send_recv(3, &["zadd", "z", "1.5", "alice"]);
    assert_eq!(decode_int(&raw), 1);
    let raw = c.must_send_recv(3, &["zadd", "z", "1.5", "alice"]);
    assert_eq!(decode_int(&raw), 0);
}

#[test]
fn test_zscore() {
    let mut c = Server::new();
    c.must_send_recv(3, &["zadd", "z", "3.25", "pi"]);
    let raw = c.must_send_recv(4, &["zscore", "z", "pi"]);
    let got = decode_dbl(&raw);
    assert!((got - 3.25).abs() < 1e-9, "zscore got {} want 3.25", got);
}

#[test]
fn test_zscore_missing() {
    let mut c = Server::new();
    c.must_send_recv(0, &["zscore", "z", "nobody"]);
}

#[test]
fn test_zrem() {
    let mut c = Server::new();
    c.must_send_recv(3, &["zadd", "z", "1.0", "a"]);
    let raw = c.must_send_recv(3, &["zrem", "z", "a"]);
    assert_eq!(decode_int(&raw), 1);
    let raw = c.must_send_recv(3, &["zrem", "z", "a"]);
    assert_eq!(decode_int(&raw), 0);
}

#[test]
fn test_zquery() {
    let mut c = Server::new();
    for (i, name) in ["a", "b", "c", "d", "e"].iter().enumerate() {
        c.must_send_recv(3, &["zadd", "z", &format!("{}", i + 1), name]);
    }
    let raw = c.must_send_recv(5, &["zquery", "z", "2", "", "0", "10"]);
    let count = u32::from_le_bytes(raw[1..5].try_into().unwrap());
    assert_eq!(count, 8);
}

#[test]
fn integration_test_test_unknown_command() {
    let mut c = Server::new();
    c.must_send_recv(1, &["nosuchcmd"]);
}

#[test]
fn test_wrong_arity() {
    let mut c = Server::new();
    c.must_send_recv(1, &["get"]);
}

#[test]
fn test_type_error() {
    let mut c = Server::new();
    c.must_send_recv(0, &["set", "k", "v"]);
    c.must_send_recv(1, &["zadd", "k", "1.0", "m"]);
}

#[test]
fn test_bad_score() {
    let mut c = Server::new();
    c.must_send_recv(1, &["zadd", "z", "notanumber", "m"]);
}

#[test]
fn test_bad_expiry() {
    let mut c = Server::new();
    c.must_send_recv(0, &["set", "k", "v"]);
    c.must_send_recv(1, &["pexpire", "k", "notanint"]);
}

#[test]
fn test_multiple_clients() {
    let mut c = Server::new();
    for i in 0..10 {
        let key = format!("key{}", i);
        c.must_send_recv(0, &["set", &key, "val"]);
        let raw = c.must_send_recv(2, &["get", &key]);
        assert_eq!(decode_str(&raw), "val");
    }
}

#[test]
fn integration_test_test_list_ops() {
    let mut c = Server::new();
    c.must_send_recv(3, &["lpush", "q", "a"]);
    c.must_send_recv(3, &["lpush", "q", "b"]);

    let raw = c.must_send_recv(3, &["llen", "q"]);
    assert_eq!(decode_int(&raw), 2);

    let raw = c.must_send_recv(2, &["lpop", "q"]);
    assert_eq!(decode_str(&raw), "b");

    c.must_send_recv(3, &["lpush", "q", "c"]);
    let raw = c.must_send_recv(5, &["lrange", "q", "0", "-1"]);
    assert_eq!(raw[0], 5);
}

#[test]
fn test_job_queue() {
    let mut c = Server::new();
    c.must_send_recv(2, &["job submit", "j1", "test", "local", "echo hi"]);
    let raw = c.must_send_recv(5, &["job next"]);
    assert_eq!(raw[0], 5);

    c.must_send_recv(2, &["job result", "j1", "0", "100"]);
    let raw = c.must_send_recv(2, &["job status", "j1"]);
    assert_eq!(decode_str(&raw), "passed");
}

#[test]
fn tcp_integration_test_test_set_get() {
    let mut c = Server::new();
    let resp = c.send_recv(&["set", "k", "v"]);
    assert_eq!(resp[0], 0, "SET should return NIL");
    let resp = c.send_recv(&["get", "k"]);
    assert_eq!(resp[0], 2, "GET should return STR");
    let slen = u32::from_le_bytes(resp[1..5].try_into().unwrap()) as usize;
    let val = String::from_utf8(resp[5..5 + slen].to_vec()).unwrap();
    assert_eq!(val, "v");
}

#[test]
fn tcp_integration_test_test_del() {
    let mut c = Server::new();
    c.send_recv(&["set", "x", "1"]);
    let resp = c.send_recv(&["del", "x"]);
    assert_eq!(resp[0], 3, "DEL should return INT");
    let resp = c.send_recv(&["get", "x"]);
    assert_eq!(resp[0], 0, "GET of deleted key should return NIL");
}

#[test]
fn test_zset() {
    let mut c = Server::new();
    let resp = c.send_recv(&["zadd", "z", "1.5", "a"]);
    assert_eq!(resp[0], 3, "ZADD should return INT");
    let resp = c.send_recv(&["zscore", "z", "a"]);
    assert_eq!(resp[0], 4, "ZSCORE should return DBL");
    let score = f64::from_le_bytes(resp[1..9].try_into().unwrap());
    assert!((score - 1.5).abs() < 1e-10);
    let resp = c.send_recv(&["zquery", "z", "0", "", "0", "10"]);
    assert_eq!(resp[0], 5, "ZQUERY should return ARR");
}

#[test]
fn tcp_integration_test_test_keys() {
    let mut c = Server::new();
    c.send_recv(&["set", "a", "1"]);
    c.send_recv(&["set", "b", "2"]);
    let resp = c.send_recv(&["keys"]);
    assert_eq!(resp[0], 5, "KEYS should return ARR");
}

#[test]
fn tcp_integration_test_test_unknown_command() {
    let mut c = Server::new();
    let resp = c.send_recv(&["bogus"]);
    assert_eq!(resp[0], 1, "unknown command should return ERR");
    let slen = u32::from_le_bytes(resp[5..9].try_into().unwrap()) as usize;
    let msg = String::from_utf8(resp[9..9 + slen].to_vec()).unwrap();
    assert!(msg.contains("unknown"), "error should mention 'unknown'");
}

#[test]
fn tcp_integration_test_test_list_ops() {
    let mut c = Server::new();
    c.send_recv(&["lpush", "q", "a"]);
    c.send_recv(&["lpush", "q", "b"]);
    let resp = c.send_recv(&["llen", "q"]);
    assert_eq!(resp[0], 3);
    let resp = c.send_recv(&["lpop", "q"]);
    assert_eq!(resp[0], 2);
}

// Further checks.

#[test]
fn parse_request_refuses_malformed_payloads() {
    // Too short for a count.
    assert!(parse_request(&[1, 0, 0]).is_none());
    // One argument announced, none present.
    assert!(parse_request(&[1, 0, 0, 0]).is_none());
    // Argument longer than the payload.
    assert!(parse_request(&[1, 0, 0, 0, 5, 0, 0, 0, b'a']).is_none());
    // Trailing bytes.
    assert!(parse_request(&[0, 0, 0, 0, 7]).is_none());
    // Invalid UTF-8.
    assert!(parse_request(&[1, 0, 0, 0, 1, 0, 0, 0, 0xff]).is_none());
    // Zero arguments.
    assert_eq!(parse_request(&[0, 0, 0, 0]), Some(vec![]));
    // Non-ASCII text.
    let req = make_frame(&["set", "clé", "värde"]);
    assert_eq!(
        parse_request(&req[4..]),
        Some(vec!["set".to_string(), "clé".to_string(), "värde".to_string()])
    );
}

#[test]
fn frame_prefixes_the_length() {
    assert_eq!(frame(&vec![9, 8, 7]), vec![3, 0, 0, 0, 9, 8, 7]);
    assert_eq!(frame(&vec![]), vec![0, 0, 0, 0]);
}

#[test]
fn request_written_then_read_gives_the_arguments_back() {
    let args = ["job submit", "j|1", "", "ünï", "x y"];
    let req = make_frame(&args);
    let parsed = parse_request(&req[4..]).unwrap();
    assert_eq!(parsed, args.iter().map(|a| a.to_string()).collect::<Vec<_>>());
}

#[test]
fn overflowing_commands_are_refused_without_change() {
    let mut c = Server::new();
    c.must_send_recv(3, &["zadd", "z", "1", "a"]);
    c.must_send_recv(3, &["lpush", "q", "a"]);
    for args in [
        vec!["zquery", "z", "0", "", "-9223372036854775808", "1"],
        vec!["lrange", "q", "0", "9223372036854775807"],
        vec!["lrem", "q", "-9223372036854775808", "a"],
    ] {
        let args: Vec<String> = args.iter().map(|a| a.to_string()).collect();
        let floats: Vec<Option<u64>> =
            args.iter().map(|a| a.parse::<f64>().ok().map(f64::to_bits)).collect();
        assert!(try_dispatch(&mut c.store, &args, &c.auth, &floats, c.now).is_none());
    }
    assert_eq!(decode_int(&c.must_send_recv(3, &["llen", "q"])), 1);
    // The same values on keys of another kind, or with a zero limit, are fine.
    c.must_send_recv(5, &["zquery", "z", "0", "", "-9223372036854775808", "0"]);
    c.must_send_recv(5, &["lrange", "nolist", "0", "9223372036854775807"]);
    c.must_send_recv(3, &["lrem", "nolist", "-9223372036854775808", "a"]);
}
