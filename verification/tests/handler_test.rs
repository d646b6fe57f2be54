use redisops::handler::{dispatch, AuthConfig};
use redisops::proto;
use redisops::store::Store;

struct Session {
    store: Store,
    auth: AuthConfig,
    now: u64,
}

impl Session {
    fn new() -> Self {
        Session { store: Store::new(), auth: AuthConfig::default(), now: 0 }
    }

    fn run(&mut self, args: &[&str]) -> Vec<u8> {
        let args: Vec<String> = args.iter().map(|a| a.to_string()).collect();
        let floats: Vec<Option<u64>> =
            args.iter().map(|a| a.parse::<f64>().ok().map(f64::to_bits)).collect();
        dispatch(&mut self.store, &args, &self.auth, &floats, self.now)
    }
}

fn decode_str(resp: &[u8]) -> String {
    let len = u32::from_le_bytes(resp[1..5].try_into().unwrap()) as usize;
    String::from_utf8(resp[5..5 + len].to_vec()).unwrap()
}

fn decode_int(resp: &[u8]) -> i64 {
    i64::from_le_bytes(resp[1..9].try_into().unwrap())
}

#[test]
fn test_handler_set_get() {
    let mut s = Session::new();
    let resp = s.run(&["set", "k", "v"]);
    assert_eq!(resp[0], proto::SER_NIL);

    let resp = s.run(&["get", "k"]);
    assert_eq!(resp[0], proto::SER_STR);
    let len = u32::from_le_bytes(resp[1..5].try_into().unwrap()) as usize;
    let val = String::from_utf8(resp[5..5 + len].to_vec()).unwrap();
    assert_eq!(val, "v");
}

#[test]
fn test_handler_del() {
    let mut s = Session::new();
    s.run(&["set", "k", "v"]);
    let resp = s.run(&["del", "k"]);
    assert_eq!(resp[0], proto::SER_INT);
    let n = i64::from_le_bytes(resp[1..9].try_into().unwrap());
    assert_eq!(n, 1);

    let resp = s.run(&["del", "k"]);
    let n = i64::from_le_bytes(resp[1..9].try_into().unwrap());
    assert_eq!(n, 0);
}

#[test]
fn test_handler_zadd_zscore() {
    let mut s = Session::new();
    let resp = s.run(&["zadd", "z", "3.25", "pi"]);
    assert_eq!(resp[0], proto::SER_INT);
    let n = i64::from_le_bytes(resp[1..9].try_into().unwrap());
    assert_eq!(n, 1);

    let resp = s.run(&["zscore", "z", "pi"]);
    assert_eq!(resp[0], proto::SER_DBL);
    let val = f64::from_le_bytes(resp[1..9].try_into().unwrap());
    assert!((val - 3.25).abs() < 1e-9);
}

#[test]
fn test_handler_unknown() {
    let mut s = Session::new();
    let resp = s.run(&["nosuch"]);
    assert_eq!(resp[0], proto::SER_ERR);
}

#[test]
fn test_handler_arity() {
    let mut s = Session::new();
    let resp = s.run(&["get"]);
    assert_eq!(resp[0], proto::SER_ERR);
}

#[test]
fn test_job_submit_and_status() {
    let mut s = Session::new();
    let resp = s.run(&["job submit", "job-001", "smoke-test", "local", "make test"]);
    assert_eq!(resp[0], proto::SER_STR);
    let len = u32::from_le_bytes(resp[1..5].try_into().unwrap()) as usize;
    let id = String::from_utf8(resp[5..5 + len].to_vec()).unwrap();
    assert_eq!(id, "job-001");

    let resp = s.run(&["job status", "job-001"]);
    assert_eq!(resp[0], proto::SER_STR);
    let len = u32::from_le_bytes(resp[1..5].try_into().unwrap()) as usize;
    let status = String::from_utf8(resp[5..5 + len].to_vec()).unwrap();
    assert_eq!(status, "queued");
}

#[test]
fn test_job_next() {
    let mut s = Session::new();
    s.run(&["job submit", "j1", "test-a", "local", "run-a"]);
    s.run(&["job submit", "j2", "test-b", "local", "run-b"]);

    let resp = s.run(&["job next"]);
    assert_eq!(resp[0], proto::SER_ARR);
    let resp2 = s.run(&["job next"]);
    assert_eq!(resp2[0], proto::SER_ARR);
}

#[test]
fn test_job_result() {
    let mut s = Session::new();
    s.run(&["job submit", "j1", "test", "local", "make"]);
    let resp = s.run(&["job result", "j1", "0", "1500"]);
    assert_eq!(resp[0], proto::SER_STR);
    let len = u32::from_le_bytes(resp[1..5].try_into().unwrap()) as usize;
    let status = String::from_utf8(resp[5..5 + len].to_vec()).unwrap();
    assert_eq!(status, "passed");
}

#[test]
fn devops_test_test_list_ops() {
    let mut s = Session::new();
    s.run(&["lpush", "q", "a"]);
    s.run(&["lpush", "q", "b"]);

    let resp = s.run(&["llen", "q"]);
    let n = i64::from_le_bytes(resp[1..9].try_into().unwrap());
    assert_eq!(n, 2);

    let resp = s.run(&["lpop", "q"]);
    assert_eq!(resp[0], proto::SER_STR);
    let len = u32::from_le_bytes(resp[1..5].try_into().unwrap()) as usize;
    let val = String::from_utf8(resp[5..5 + len].to_vec()).unwrap();
    assert_eq!(val, "b");

    s.run(&["lpush", "q", "c"]);
    let resp = s.run(&["lrange", "q", "0", "-1"]);
    assert_eq!(resp[0], proto::SER_ARR);
}

#[test]
fn test_job_list() {
    let mut s = Session::new();
    s.run(&["job submit", "j1", "t1", "local", "run"]);
    s.run(&["job submit", "j2", "t2", "local", "run"]);
    let resp = s.run(&["job list"]);
    assert_eq!(resp[0], proto::SER_ARR);
}

// Further checks.

#[test]
fn job_next_takes_the_oldest_job_and_marks_it_running() {
    let mut s = Session::new();
    s.run(&["job submit", "j1", "test-a", "local", "run-a", "x", "y"]);
    s.run(&["job submit", "j2", "test-b", "local", "run-b"]);
    let resp = s.run(&["job next"]);
    let mut expected = vec![proto::SER_ARR];
    expected.extend_from_slice(&5u32.to_le_bytes());
    for part in ["j1", "test-a", "local", "run-a", "x,y"] {
        expected.push(proto::SER_STR);
        expected.extend_from_slice(&(part.len() as u32).to_le_bytes());
        expected.extend_from_slice(part.as_bytes());
    }
    assert_eq!(resp, expected);
    assert_eq!(decode_str(&s.run(&["job status", "j1"])), "running");
    assert_eq!(decode_str(&s.run(&["job status", "j2"])), "queued");
    let resp = s.run(&["job next"]);
    assert_eq!(resp[0], proto::SER_ARR);
    assert_eq!(s.run(&["job next"]), vec![proto::SER_NIL]);
}

#[test]
fn job_result_records_status_result_and_entry() {
    let mut s = Session::new();
    let resp = s.run(&["job result", "j9", "2", "-15"]);
    assert_eq!(decode_str(&resp), "failed");
    assert_eq!(decode_str(&s.run(&["get", "devops:job:j9:result"])), "exit_code=2,duration_ms=-15");
    assert_eq!(decode_str(&s.run(&["lpop", "devops:results"])), "j9|failed|-15");
    let resp = s.run(&["job result", "j9", "zero", "1"]);
    assert_eq!(resp[0], proto::SER_ERR);
}

#[test]
fn job_list_reports_ids_with_status_and_filters() {
    let mut s = Session::new();
    s.run(&["job submit", "j1", "t1", "local", "run"]);
    s.run(&["job submit", "j2", "t2", "local", "run"]);
    s.run(&["job result", "j2", "0", "5"]);
    let resp = s.run(&["job list", "passed"]);
    let mut expected = vec![proto::SER_ARR];
    expected.extend_from_slice(&1u32.to_le_bytes());
    expected.push(proto::SER_STR);
    expected.extend_from_slice(&9u32.to_le_bytes());
    expected.extend_from_slice(b"j2:passed");
    assert_eq!(resp, expected);
    let resp = s.run(&["job list"]);
    assert_eq!(u32::from_le_bytes(resp[1..5].try_into().unwrap()), 2);
}

#[test]
fn job_log_appends_lines() {
    let mut s = Session::new();
    assert_eq!(decode_int(&s.run(&["job log", "j1", "hello", "world"])), 1);
    assert_eq!(decode_int(&s.run(&["llen", "devops:job:j1:log"])), 1);
    assert_eq!(decode_str(&s.run(&["lindex", "devops:job:j1:log", "0"])), "hello world");
    assert_eq!(s.run(&["job log", "j1"])[0], proto::SER_ERR);
}

#[test]
fn commands_are_case_insensitive() {
    let mut s = Session::new();
    assert_eq!(s.run(&["SET", "k", "v"]), vec![proto::SER_NIL]);
    assert_eq!(decode_str(&s.run(&["GeT", "k"])), "v");
}

#[test]
fn empty_request_is_an_unknown_command_error() {
    let mut s = Session::new();
    let resp = s.run(&[]);
    assert_eq!(resp[0], proto::SER_ERR);
    assert_eq!(u32::from_le_bytes(resp[1..5].try_into().unwrap()), proto::ERR_UNKNOWN);
}

#[test]
fn auth_checks_the_password() {
    let mut s = Session::new();
    assert_eq!(decode_str(&s.run(&["auth", "anything"])), "OK");
    s.auth.password = Some("secret".to_string());
    assert_eq!(decode_str(&s.run(&["auth", "secret"])), "OK");
    let resp = s.run(&["auth", "wrong"]);
    assert_eq!(resp[0], proto::SER_ERR);
    assert_eq!(u32::from_le_bytes(resp[1..5].try_into().unwrap()), proto::ERR_TYPE);
    assert_eq!(s.run(&["auth"])[0], proto::SER_ERR);
}

#[test]
fn error_replies_carry_code_and_message() {
    let mut s = Session::new();
    let resp = s.run(&["get"]);
    let mut expected = vec![proto::SER_ERR];
    expected.extend_from_slice(&proto::ERR_ARG.to_le_bytes());
    let msg = "wrong number of arguments";
    expected.extend_from_slice(&(msg.len() as u32).to_le_bytes());
    expected.extend_from_slice(msg.as_bytes());
    assert_eq!(resp, expected);
}

#[test]
fn command_names_match_in_any_ascii_case() {
    let mut s = Session::new();
    assert_eq!(s.run(&["SET", "k", "v"])[0], proto::SER_NIL);
    assert_eq!(decode_str(&s.run(&["get", "k"])), "v");
    assert_eq!(decode_str(&s.run(&["GeT", "k"])), "v");
    assert_eq!(s.run(&["Set", "k", "w"])[0], proto::SER_NIL);
    assert_eq!(decode_str(&s.run(&["GET", "k"])), "w");
    assert_eq!(decode_int(&s.run(&["PTTL", "k"])), -1);
}
