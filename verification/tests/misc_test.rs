use redisops::handler::{err_arg, err_arg_msg, err_type, err_unknown, AuthConfig};
use redisops::proto::{self, Response};
use redisops::server::Config;
use redisops::stats::Stats;
use redisops::text::{chars_of, parse_i64, push_int_text, str_eq, to_lowercase};

#[test]
fn parse_i64_follows_std() {
    for s in ["0", "42", "-7", "+13", "-0", "007", "9223372036854775807", "-9223372036854775808",
        "9223372036854775808", "-9223372036854775809", "", "-", "+", " 1", "1 ", "1.5", "abc",
        "99999999999999999999999", "--1", "+-1"] {
        assert_eq!(parse_i64(s), s.parse::<i64>().ok(), "input {:?}", s);
    }
}

#[test]
fn int_text_follows_format() {
    for n in [0i64, 5, -5, 10, 1500, -15, i64::MAX, i64::MIN] {
        let mut v = Vec::new();
        push_int_text(&mut v, n);
        let s: String = v.into_iter().collect();
        assert_eq!(s, format!("{}", n));
    }
}

#[test]
fn text_helpers() {
    assert_eq!(chars_of("héllo"), vec!['h', 'é', 'l', 'l', 'o']);
    assert!(str_eq("abc", "abc"));
    assert!(!str_eq("abc", "abd"));
    assert!(!str_eq("abc", "ab"));
    assert_eq!(to_lowercase("JOB Submit"), "job submit");
}

#[test]
fn stats_counters() {
    let mut s = Stats::new(7);
    assert_eq!(s.started_at, 7);
    s.inc_conn();
    s.inc_conn();
    s.dec_conn();
    s.bump();
    assert_eq!(s.total_connections, 2);
    assert_eq!(s.active_connections, 1);
    assert_eq!(s.total_commands, 1);
    s.total_commands = u64::MAX;
    s.bump();
    assert_eq!(s.total_commands, 0);
    s.active_connections = i64::MIN;
    s.dec_conn();
    assert_eq!(s.active_connections, i64::MAX);
    s.inc_conn();
    assert_eq!(s.active_connections, i64::MIN);
}

#[test]
fn open_then_close_leaves_active_count() {
    let mut s = Stats::new(0);
    s.active_connections = 41;
    s.inc_conn();
    s.dec_conn();
    assert_eq!(s.active_connections, 41);
}

#[test]
fn config_defaults_and_limit() {
    let c = Config::default();
    assert_eq!(c.addr, "127.0.0.1:1234");
    assert_eq!(c.max_connections, 1000);
    assert_eq!(c.read_timeout_ms, 30_000);
    assert_eq!(c.connection_limit(), 1000);
    let c = Config { max_connections: 0, ..Config::default() };
    assert_eq!(c.connection_limit(), 1000);
    let c = Config { max_connections: 3, ..Config::default() };
    assert_eq!(c.connection_limit(), 3);
}

#[test]
fn auth_config_has_no_password() {
    assert!(AuthConfig::new().password.is_none());
    assert!(AuthConfig::default().password.is_none());
}

#[test]
fn error_helpers_use_their_codes() {
    let e = err_arg();
    assert_eq!(e[0], proto::SER_ERR);
    assert_eq!(u32::from_le_bytes(e[1..5].try_into().unwrap()), proto::ERR_ARG);
    assert_eq!(u32::from_le_bytes(err_arg_msg("m")[1..5].try_into().unwrap()), proto::ERR_ARG);
    assert_eq!(u32::from_le_bytes(err_type("m")[1..5].try_into().unwrap()), proto::ERR_TYPE);
    let u = err_unknown("oops");
    assert_eq!(u32::from_le_bytes(u[1..5].try_into().unwrap()), proto::ERR_UNKNOWN);
    assert_eq!(&u[5..9], &4u32.to_le_bytes());
    assert_eq!(&u[9..], b"oops");
}

#[test]
fn response_encoding() {
    assert_eq!(Response::Nil.encode(), vec![0]);
    assert_eq!(Response::Int(-2).encode(), {
        let mut v = vec![3];
        v.extend_from_slice(&(-2i64).to_le_bytes());
        v
    });
    assert_eq!(Response::Dbl(1.5f64.to_bits()).encode(), {
        let mut v = vec![4];
        v.extend_from_slice(&1.5f64.to_le_bytes());
        v
    });
    assert_eq!(Response::Str("hé".to_string()).encode(), vec![2, 3, 0, 0, 0, b'h', 0xc3, 0xa9]);
    assert_eq!(
        Response::Error { code: 1, msg: "x".to_string() }.encode(),
        vec![1, 1, 0, 0, 0, 1, 0, 0, 0, b'x']
    );
    let nested = Response::Arr(vec![Response::Nil, Response::Arr(vec![Response::Int(1)])]);
    let mut expected = vec![5, 2, 0, 0, 0, 0, 5, 1, 0, 0, 0, 3];
    expected.extend_from_slice(&1i64.to_le_bytes());
    assert_eq!(nested.encode(), expected);
}

#[test]
fn many_bumps_lose_no_increment() {
    let mut s = Stats::new(0);
    s.inc_conn();
    s.total_commands = 40;
    for _ in 0..1000 {
        s.bump();
    }
    assert_eq!(s.total_commands, 1040);
    assert_eq!(s.total_connections, 1);
    assert_eq!(s.active_connections, 1);
    s.total_commands = u64::MAX - 1;
    for _ in 0..3 {
        s.bump();
    }
    assert_eq!(s.total_commands, 1);
}
