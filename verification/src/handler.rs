//! The command interpreter: one request's arguments in, the store updated and
//! one serialized reply out.
//!
//! The first argument names the command, in any case. Besides the key-value,
//! sorted-set and list commands there is a small job queue kept in ordinary
//! keys: `job submit` queues a job on the list `devops:queue` and records it
//! under `devops:job:<id>` with status `queued`; `job next` takes the oldest
//! queued job and marks it `running`; `job result` records `passed` or
//! `failed`; `job log` appends a log line; `job status` and `job list` read
//! the records back.
use crate::proto::{
    dbl_bytes, dbl_reply, error_bytes, error_reply, int_bytes, int_reply, nil_bytes, nil_reply,
    pair_array_bytes, pair_array_reply, str_array_bytes, str_array_reply, str_bytes, str_reply,
    ERR_ARG, ERR_TYPE, ERR_UNKNOWN,
};
use crate::store::{
    erase, expire_result, find, get_str_result, holds_list, holds_zset, lindex_result, live_keys,
    llen_result, lpop_result, lpush_result, lrange_result, lrem_result, put, rpop_result, ttl_result,
    z_add_result, z_query_result, z_rem_result, z_score_result, EntryView, Store, StoreView,
    ValueView,
};
use crate::text::{
    ascii_lower, chars_of, has_prefix, has_suffix, int_text, is_ascii_chars, join_from, join_spec,
    lowercase_of, parse_i64,
    push_int_text, push_str, spec_parse_i64, str_eq, string_from_chars, to_lowercase,
};
use vstd::prelude::*;

verus! {

/// Authentication settings: the password that `auth` checks, if any.
pub struct AuthConfig {
    pub password: Option<String>,
}

impl AuthConfig {
    /// No password.
    pub fn new() -> (c: Self)
        ensures
            c.password is None,
    {
        AuthConfig { password: None }
    }
}

impl Default for AuthConfig {
    fn default() -> (c: Self)
        ensures
            c.password is None,
    {
        Self::new()
    }
}

// ---------------------------------------------------------------------------
// Replies
// ---------------------------------------------------------------------------

pub open spec fn err_arg_bytes() -> Seq<u8> {
    error_bytes(ERR_ARG, "wrong number of arguments"@)
}

/// The reply to a request with the wrong number of arguments.
pub fn err_arg() -> (b: Vec<u8>)
    ensures
        b@ == err_arg_bytes(),
{
    error_reply(ERR_ARG, "wrong number of arguments")
}

/// An argument error with message `msg`.
pub fn err_arg_msg(msg: &str) -> (b: Vec<u8>)
    ensures
        b@ == error_bytes(ERR_ARG, msg@),
{
    error_reply(ERR_ARG, msg)
}

/// A type error with message `msg`.
pub fn err_type(msg: &str) -> (b: Vec<u8>)
    ensures
        b@ == error_bytes(ERR_TYPE, msg@),
{
    error_reply(ERR_TYPE, msg)
}

/// An unknown-command error with message `msg`.
pub fn err_unknown(msg: &str) -> (b: Vec<u8>)
    ensures
        b@ == error_bytes(ERR_UNKNOWN, msg@),
{
    error_reply(ERR_UNKNOWN, msg)
}

pub open spec fn bool_bytes(b: bool) -> Seq<u8> {
    int_bytes(if b {
        1i64
    } else {
        0i64
    })
}

pub open spec fn opt_str_bytes(v: Option<Seq<char>>) -> Seq<u8> {
    match v {
        Some(s) => str_bytes(s),
        None => nil_bytes(),
    }
}

pub open spec fn views(v: Seq<String>) -> Seq<Seq<char>> {
    v.map_values(|x: String| x@)
}

// ---------------------------------------------------------------------------
// Job records
// ---------------------------------------------------------------------------

/// The key of a job record: `devops:job:<id><suffix>`.
pub open spec fn job_key(id: Seq<char>, suffix: Seq<char>) -> Seq<char> {
    "devops:job:"@ + id + suffix
}

/// The position of the first `c` in `s`, or -1.
pub open spec fn first_index(s: Seq<char>, c: char) -> int
    decreases s.len(),
{
    if s.len() == 0 {
        -1
    } else if s[0] == c {
        0
    } else if first_index(s.drop_first(), c) < 0 {
        -1
    } else {
        first_index(s.drop_first(), c) + 1
    }
}

/// `s` split at the first `n - 1` occurrences of `c`, as std's `str::splitn`.
pub open spec fn split_n(s: Seq<char>, n: nat, c: char) -> Seq<Seq<char>>
    decreases n,
{
    if n <= 1 || first_index(s, c) < 0 {
        seq![s]
    } else {
        seq![s.take(first_index(s, c))] + split_n(s.skip(first_index(s, c) + 1), (n - 1) as nat, c)
    }
}

pub open spec fn ends_with(s: Seq<char>, t: Seq<char>) -> bool {
    t.len() <= s.len() && s.skip(s.len() - t.len()) == t
}

/// The store after pushing `vals`, first to last, onto the front of the list `k`.
pub open spec fn lpush_all(s: StoreView, k: Seq<char>, vals: Seq<Seq<char>>) -> StoreView
    decreases vals.len(),
{
    if vals.len() == 0 {
        s
    } else {
        lpush_result(lpush_all(s, k, vals.drop_last()), k, vals.last())
    }
}

/// The `<id>:<status>` items that `job list` reports for `keys`, in order.
pub open spec fn job_list_items(s: StoreView, keys: Seq<Seq<char>>, filter: Option<Seq<char>>, now: u64) -> Seq<Seq<char>>
    decreases keys.len(),
{
    if keys.len() == 0 {
        Seq::empty()
    } else {
        let prev = job_list_items(s, keys.drop_last(), filter, now);
        let k = keys.last();
        let p = "devops:job:"@;
        if p.len() <= k.len() && k.take(p.len() as int) == p {
            let id = k.skip(p.len() as int);
            if ends_with(id, ":status"@) || ends_with(id, ":result"@) || ends_with(id, ":log"@) {
                prev
            } else {
                match get_str_result(s, job_key(id, ":status"@), now).0 {
                    Some(st) => match filter {
                        Some(f) => if f == st {
                            prev.push(id + ":"@ + st)
                        } else {
                            prev
                        },
                        None => prev.push(id + ":"@ + st),
                    },
                    None => prev,
                }
            }
        } else {
            prev
        }
    }
}

// ---------------------------------------------------------------------------
// What each command does
// ---------------------------------------------------------------------------

/// The outcome of a command: the store after it, and the serialized reply.
pub type Outcome = (StoreView, Seq<u8>);

pub open spec fn auth_spec(s: StoreView, a: Seq<Seq<char>>, pw: Option<Seq<char>>) -> Outcome {
    if a.len() != 2 {
        (s, err_arg_bytes())
    } else {
        match pw {
            Some(p) => if p == a[1] {
                (s, str_bytes("OK"@))
            } else {
                (s, error_bytes(ERR_TYPE, "invalid password"@))
            },
            None => (s, str_bytes("OK"@)),
        }
    }
}

pub open spec fn keys_spec(s: StoreView, a: Seq<Seq<char>>, now: u64) -> Outcome {
    if a.len() != 1 {
        (s, err_arg_bytes())
    } else {
        (s, str_array_bytes(live_keys(s, now)))
    }
}

pub open spec fn get_spec(s: StoreView, a: Seq<Seq<char>>, now: u64) -> Outcome {
    if a.len() != 2 {
        (s, err_arg_bytes())
    } else if get_str_result(s, a[1], now).1 {
        (s, error_bytes(ERR_TYPE, "expect string type"@))
    } else {
        (s, opt_str_bytes(get_str_result(s, a[1], now).0))
    }
}

pub open spec fn set_spec(s: StoreView, a: Seq<Seq<char>>) -> Outcome {
    if a.len() != 3 {
        (s, err_arg_bytes())
    } else {
        (put(s, a[1], EntryView { value: ValueView::Str(a[2]), exp_at: None }), nil_bytes())
    }
}

pub open spec fn del_spec(s: StoreView, a: Seq<Seq<char>>) -> Outcome {
    if a.len() != 2 {
        (s, err_arg_bytes())
    } else {
        (erase(s, a[1]), bool_bytes(find(s, a[1]) >= 0))
    }
}

pub open spec fn pexpire_spec(s: StoreView, a: Seq<Seq<char>>, now: u64) -> Outcome {
    if a.len() != 3 {
        (s, err_arg_bytes())
    } else {
        match spec_parse_i64(a[2]) {
            None => (s, error_bytes(ERR_ARG, "expect int64"@)),
            Some(ms) => (expire_result(s, a[1], ms, now), bool_bytes(find(s, a[1]) >= 0)),
        }
    }
}

pub open spec fn pttl_spec(s: StoreView, a: Seq<Seq<char>>, now: u64) -> Outcome {
    if a.len() != 2 {
        (s, err_arg_bytes())
    } else {
        (s, int_bytes(ttl_result(s, a[1], now)))
    }
}

pub open spec fn zadd_spec(s: StoreView, a: Seq<Seq<char>>, f: Seq<Option<u64>>) -> Outcome {
    if a.len() != 4 {
        (s, err_arg_bytes())
    } else {
        match f[2] {
            None => (s, error_bytes(ERR_ARG, "expect fp number"@)),
            Some(score) => {
                let (s2, r) = z_add_result(s, a[1], a[3], score);
                if r.1 {
                    (s2, error_bytes(ERR_TYPE, "expect zset"@))
                } else {
                    (s2, bool_bytes(r.0))
                }
            },
        }
    }
}

pub open spec fn zrem_spec(s: StoreView, a: Seq<Seq<char>>) -> Outcome {
    if a.len() != 3 {
        (s, err_arg_bytes())
    } else {
        let (s2, r) = z_rem_result(s, a[1], a[2]);
        if r.1 {
            (s2, error_bytes(ERR_TYPE, "expect zset"@))
        } else {
            (s2, bool_bytes(r.0))
        }
    }
}

pub open spec fn zscore_spec(s: StoreView, a: Seq<Seq<char>>) -> Outcome {
    if a.len() != 3 {
        (s, err_arg_bytes())
    } else {
        let r = z_score_result(s, a[1], a[2]);
        if r.1 {
            (s, error_bytes(ERR_TYPE, "expect zset"@))
        } else {
            match r.0 {
                Some(b) => (s, dbl_bytes(b)),
                None => (s, nil_bytes()),
            }
        }
    }
}

pub open spec fn zquery_spec(s: StoreView, a: Seq<Seq<char>>, f: Seq<Option<u64>>) -> Outcome {
    if a.len() != 6 {
        (s, err_arg_bytes())
    } else if f[2] is None {
        (s, error_bytes(ERR_ARG, "expect fp number"@))
    } else if spec_parse_i64(a[4]) is None || spec_parse_i64(a[5]) is None {
        (s, error_bytes(ERR_ARG, "expect int"@))
    } else {
        let r = z_query_result(s, a[1], f[2]->0, a[3], spec_parse_i64(a[4])->0, spec_parse_i64(a[5])->0);
        if r.1 {
            (s, error_bytes(ERR_TYPE, "expect zset"@))
        } else {
            (s, pair_array_bytes(r.0))
        }
    }
}

pub open spec fn lpush_spec(s: StoreView, a: Seq<Seq<char>>) -> Outcome {
    if a.len() != 3 {
        (s, err_arg_bytes())
    } else {
        (lpush_result(s, a[1], a[2]), int_bytes(1))
    }
}

pub open spec fn lpop_spec(s: StoreView, a: Seq<Seq<char>>) -> Outcome {
    if a.len() != 2 {
        (s, err_arg_bytes())
    } else {
        (lpop_result(s, a[1]).0, opt_str_bytes(lpop_result(s, a[1]).1))
    }
}

pub open spec fn rpop_spec(s: StoreView, a: Seq<Seq<char>>) -> Outcome {
    if a.len() != 2 {
        (s, err_arg_bytes())
    } else {
        (rpop_result(s, a[1]).0, opt_str_bytes(rpop_result(s, a[1]).1))
    }
}

pub open spec fn lrange_spec(s: StoreView, a: Seq<Seq<char>>) -> Outcome {
    if a.len() != 4 {
        (s, err_arg_bytes())
    } else if spec_parse_i64(a[2]) is None || spec_parse_i64(a[3]) is None {
        (s, error_bytes(ERR_ARG, "expect int"@))
    } else {
        (s, str_array_bytes(lrange_result(s, a[1], spec_parse_i64(a[2])->0, spec_parse_i64(a[3])->0)))
    }
}

pub open spec fn lindex_spec(s: StoreView, a: Seq<Seq<char>>) -> Outcome {
    if a.len() != 3 {
        (s, err_arg_bytes())
    } else {
        match spec_parse_i64(a[2]) {
            None => (s, error_bytes(ERR_ARG, "expect int"@)),
            Some(i) => (s, opt_str_bytes(lindex_result(s, a[1], i))),
        }
    }
}

pub open spec fn llen_spec(s: StoreView, a: Seq<Seq<char>>) -> Outcome {
    if a.len() != 2 {
        (s, err_arg_bytes())
    } else {
        (s, int_bytes(llen_result(s, a[1])))
    }
}

pub open spec fn lrem_spec(s: StoreView, a: Seq<Seq<char>>) -> Outcome {
    if a.len() != 4 {
        (s, err_arg_bytes())
    } else {
        match spec_parse_i64(a[2]) {
            None => (s, error_bytes(ERR_ARG, "expect int"@)),
            Some(count) => (lrem_result(s, a[1], count, a[3]).0, int_bytes(lrem_result(s, a[1], count, a[3]).1)),
        }
    }
}

/// The queue entry of a submitted job: `<id>|<name>|<target>|<command>|<args>`,
/// its extra arguments joined with commas.
pub open spec fn job_payload(a: Seq<Seq<char>>) -> Seq<char> {
    a[1] + "|"@ + a[2] + "|"@ + a[3] + "|"@ + a[4] + "|"@ + join_spec(a.skip(5), ","@)
}

pub open spec fn job_submit_spec(s: StoreView, a: Seq<Seq<char>>) -> Outcome {
    if a.len() < 5 {
        (s, error_bytes(ERR_ARG, "JOB SUBMIT <id> <name> <target> <command> [args...]"@))
    } else {
        let p = job_payload(a);
        let s1 = lpush_result(s, "devops:queue"@, p);
        let s2 = put(s1, job_key(a[1], ""@), EntryView { value: ValueView::Str(p), exp_at: None });
        let s3 = put(s2, job_key(a[1], ":status"@), EntryView { value: ValueView::Str("queued"@), exp_at: None });
        (s3, str_bytes(a[1]))
    }
}

pub open spec fn job_next_spec(s: StoreView) -> Outcome {
    let (s1, r) = rpop_result(s, "devops:queue"@);
    match r {
        None => (s1, nil_bytes()),
        Some(payload) => {
            let parts = split_n(payload, 5, '|');
            if parts.len() < 5 {
                (s1, error_bytes(ERR_UNKNOWN, "malformed job payload"@))
            } else {
                (
                    put(s1, job_key(parts[0], ":status"@), EntryView { value: ValueView::Str("running"@), exp_at: None }),
                    str_array_bytes(parts),
                )
            }
        },
    }
}

pub open spec fn job_status_spec(s: StoreView, a: Seq<Seq<char>>, now: u64) -> Outcome {
    if a.len() != 2 {
        (s, err_arg_bytes())
    } else {
        (s, opt_str_bytes(get_str_result(s, job_key(a[1], ":status"@), now).0))
    }
}

pub open spec fn job_status_word(exit_code: i64) -> Seq<char> {
    if exit_code == 0 {
        "passed"@
    } else {
        "failed"@
    }
}

pub open spec fn job_result_spec(s: StoreView, a: Seq<Seq<char>>) -> Outcome {
    if a.len() != 4 {
        (s, err_arg_bytes())
    } else if spec_parse_i64(a[2]) is None || spec_parse_i64(a[3]) is None {
        (s, error_bytes(ERR_ARG, "expect int"@))
    } else {
        let code = spec_parse_i64(a[2])->0;
        let dur = spec_parse_i64(a[3])->0;
        let status = job_status_word(code);
        let s1 = put(s, job_key(a[1], ":status"@), EntryView { value: ValueView::Str(status), exp_at: None });
        let result = "exit_code="@ + int_text(code as int) + ",duration_ms="@ + int_text(dur as int);
        let s2 = put(s1, job_key(a[1], ":result"@), EntryView { value: ValueView::Str(result), exp_at: None });
        let entry = a[1] + "|"@ + status + "|"@ + int_text(dur as int);
        (lpush_result(s2, "devops:results"@, entry), str_bytes(status))
    }
}

pub open spec fn job_log_spec(s: StoreView, a: Seq<Seq<char>>) -> Outcome {
    if a.len() < 3 {
        (s, err_arg_bytes())
    } else {
        let line = join_spec(a.skip(2), " "@);
        let key = job_key(a[1], ":log"@);
        let vals = lrange_result(s, key, 0i64, -1i64).push(line);
        (lpush_all(erase(s, key), key, vals), int_bytes(1))
    }
}

pub open spec fn job_list_spec(s: StoreView, a: Seq<Seq<char>>, now: u64) -> Outcome {
    let filter = if a.len() >= 2 {
        Some(a[1])
    } else {
        None
    };
    (s, str_array_bytes(job_list_items(s, live_keys(s, now), filter, now)))
}

/// What a command does, given its lowercased name `cmd`, its arguments `a`
/// (the name first), their readings as doubles `f`, the password `pw` and the
/// time `now`.
pub open spec fn command_spec(
    s: StoreView,
    cmd: Seq<char>,
    a: Seq<Seq<char>>,
    f: Seq<Option<u64>>,
    pw: Option<Seq<char>>,
    now: u64,
) -> Outcome {
    if cmd == "auth"@ {
        auth_spec(s, a, pw)
    } else if cmd == "keys"@ {
        keys_spec(s, a, now)
    } else if cmd == "get"@ {
        get_spec(s, a, now)
    } else if cmd == "set"@ {
        set_spec(s, a)
    } else if cmd == "del"@ {
        del_spec(s, a)
    } else if cmd == "pexpire"@ {
        pexpire_spec(s, a, now)
    } else if cmd == "pttl"@ {
        pttl_spec(s, a, now)
    } else if cmd == "zadd"@ {
        zadd_spec(s, a, f)
    } else if cmd == "zrem"@ {
        zrem_spec(s, a)
    } else if cmd == "zscore"@ {
        zscore_spec(s, a)
    } else if cmd == "zquery"@ {
        zquery_spec(s, a, f)
    } else if cmd == "lpush"@ || cmd == "rpush"@ {
        lpush_spec(s, a)
    } else if cmd == "lpop"@ {
        lpop_spec(s, a)
    } else if cmd == "rpop"@ {
        rpop_spec(s, a)
    } else if cmd == "lrange"@ {
        lrange_spec(s, a)
    } else if cmd == "lindex"@ {
        lindex_spec(s, a)
    } else if cmd == "llen"@ {
        llen_spec(s, a)
    } else if cmd == "lrem"@ {
        lrem_spec(s, a)
    } else if cmd == "job submit"@ {
        job_submit_spec(s, a)
    } else if cmd == "job next"@ {
        job_next_spec(s)
    } else if cmd == "job status"@ {
        job_status_spec(s, a, now)
    } else if cmd == "job result"@ {
        job_result_spec(s, a)
    } else if cmd == "job log"@ {
        job_log_spec(s, a)
    } else if cmd == "job list"@ {
        job_list_spec(s, a, now)
    } else {
        (s, error_bytes(ERR_UNKNOWN, "unknown command"@))
    }
}

/// The commands on which the interpreter would overflow an `i64`: a `zquery`
/// with offset `i64::MIN` and a positive limit, an `lrange` with stop
/// `i64::MAX`, an `lrem` with count `i64::MIN`, each on a key of the kind it
/// works on.
pub open spec fn overflows(s: StoreView, cmd: Seq<char>, a: Seq<Seq<char>>, f: Seq<Option<u64>>) -> bool {
    ||| (cmd == "zquery"@ && a.len() == 6 && f[2] is Some && spec_parse_i64(a[4]) == Some(i64::MIN)
        && spec_parse_i64(a[5]) is Some && spec_parse_i64(a[5])->0 > 0 && holds_zset(s, a[1]))
    ||| (cmd == "lrange"@ && a.len() == 4 && spec_parse_i64(a[2]) is Some && spec_parse_i64(a[3]) == Some(
        i64::MAX,
    ) && holds_list(s, a[1]))
    ||| (cmd == "lrem"@ && a.len() == 4 && spec_parse_i64(a[2]) == Some(i64::MIN) && holds_list(s, a[1]))
}

/// What a request does: an error for an empty one, else its command, named by
/// the lowercased first argument.
pub open spec fn dispatch_spec(
    s: StoreView,
    a: Seq<Seq<char>>,
    f: Seq<Option<u64>>,
    pw: Option<Seq<char>>,
    now: u64,
) -> Outcome {
    if a.len() == 0 {
        (s, error_bytes(ERR_UNKNOWN, "empty command"@))
    } else {
        command_spec(s, lowercase_of(a[0]), a, f, pw, now)
    }
}

// ---------------------------------------------------------------------------
// The interpreter
// ---------------------------------------------------------------------------

/// The password, as characters.
pub open spec fn password_view(auth: &AuthConfig) -> Option<Seq<char>> {
    match auth.password {
        Some(p) => Some(p@),
        None => None,
    }
}

/// An owned copy of `s`.
fn owned(s: &str) -> (r: String)
    ensures
        r@ == s@,
{
    s.to_owned()
}

/// `devops:job:<id><suffix>`.
fn job_key_of(id: &str, suffix: &str) -> (r: String)
    ensures
        r@ == job_key(id@, suffix@),
{
    let mut v: Vec<char> = Vec::new();
    push_str(&mut v, "devops:job:");
    push_str(&mut v, id);
    push_str(&mut v, suffix);
    string_from_chars(&v)
}

fn string_of_range(cs: &Vec<char>, from: usize, to: usize) -> (r: String)
    requires
        from <= to <= cs@.len(),
    ensures
        r@ == cs@.subrange(from as int, to as int),
{
    let mut v: Vec<char> = Vec::new();
    let mut i: usize = from;
    while i < to
        invariant
            from <= i <= to <= cs@.len(),
            v@ == cs@.subrange(from as int, i as int),
        decreases to - i,
    {
        v.push(cs[i]);
        assert(v@ =~= cs@.subrange(from as int, i + 1));
        i = i + 1;
    }
    string_from_chars(&v)
}

pub proof fn lemma_first_index(s: Seq<char>, c: char, i: int)
    requires
        0 <= i <= s.len(),
        forall|k: int| 0 <= k < i ==> s[k] != c,
        i == s.len() || s[i] == c,
    ensures
        first_index(s, c) == if i == s.len() {
            -1
        } else {
            i
        },
    decreases i,
{
    if i > 0 {
        let t = s.drop_first();
        assert forall|k: int| 0 <= k < i - 1 implies t[k] != c by {
            assert(t[k] == s[k + 1]);
        }
        if i < s.len() {
            assert(t[i - 1] == s[i]);
        }
        lemma_first_index(t, c, i - 1);
    }
}

/// `cs[from..]` split at its first `n - 1` occurrences of `c`.
fn split_from(cs: &Vec<char>, from: usize, n: usize, c: char) -> (r: Vec<String>)
    requires
        from <= cs@.len(),
        n >= 1,
    ensures
        views(r@) == split_n(cs@.skip(from as int), n as nat, c),
    decreases n,
{
    let ghost rest = cs@.skip(from as int);
    let mut j: usize = from;
    while j < cs.len() && cs[j] != c
        invariant
            from <= j <= cs@.len(),
            forall|k: int| from <= k < j ==> cs@[k] != c,
        decreases cs@.len() - j,
    {
        j = j + 1;
    }
    proof {
        assert forall|k: int| 0 <= k < j - from implies rest[k] != c by {
            assert(rest[k] == cs@[from + k]);
        }
        if j < cs@.len() {
            assert(rest[j - from] == cs@[j as int]);
        }
        lemma_first_index(rest, c, j - from);
    }
    if n <= 1 || j == cs.len() {
        let whole = string_of_range(cs, from, cs.len());
        let mut out: Vec<String> = Vec::new();
        out.push(whole);
        assert(views(out@) =~= seq![rest]);
        return out;
    }
    let head = string_of_range(cs, from, j);
    let tail = split_from(cs, j + 1, n - 1, c);
    let mut out: Vec<String> = Vec::new();
    out.push(head);
    let ghost first = out@;
    let mut t = tail;
    let ghost tv = t@;
    let mut rev: Vec<String> = Vec::new();
    while t.len() > 0
        invariant
            t@.len() + rev@.len() == tv.len(),
            forall|k: int| 0 <= k < t@.len() ==> #[trigger] t@[k] == tv[k],
            forall|k: int| 0 <= k < rev@.len() ==> #[trigger] rev@[k] == tv[tv.len() - 1 - k],
        decreases t@.len(),
    {
        let x = t.pop().unwrap();
        rev.push(x);
    }
    while rev.len() > 0
        invariant
            rev@.len() + out@.len() == tv.len() + 1,
            out@.len() >= 1,
            out@[0] == first[0],
            forall|k: int| 0 <= k < rev@.len() ==> #[trigger] rev@[k] == tv[tv.len() - 1 - k],
            forall|k: int| 1 <= k < out@.len() ==> #[trigger] out@[k] == tv[k - 1],
        decreases rev@.len(),
    {
        let x = rev.pop().unwrap();
        out.push(x);
    }
    proof {
        assert(cs@.skip(j + 1) =~= rest.skip(j - from + 1));
        assert(rest.take(j - from) =~= cs@.subrange(from as int, j as int));
        assert(views(out@) =~= seq![rest.take(j - from)] + views(tv));
    }
    out
}

fn cmd_auth(args: &Vec<String>, auth: &AuthConfig) -> (r: Vec<u8>)
    ensures
        r@ == auth_spec(Seq::empty(), views(args@), password_view(auth)).1,
{
    if args.len() != 2 {
        return err_arg();
    }
    match &auth.password {
        Some(pw) => {
            if *pw == args[1] {
                str_reply("OK")
            } else {
                err_type("invalid password")
            }
        },
        None => str_reply("OK"),
    }
}

fn cmd_keys(store: &Store, args: &Vec<String>, now: u64) -> (r: Vec<u8>)
    ensures
        r@ == keys_spec(store@, views(args@), now).1,
{
    if args.len() != 1 {
        return err_arg();
    }
    let keys = store.keys(now);
    str_array_reply(keys)
}

fn cmd_get(store: &Store, args: &Vec<String>, now: u64) -> (r: Vec<u8>)
    requires
        store.wf(),
    ensures
        r@ == get_spec(store@, views(args@), now).1,
{
    if args.len() != 2 {
        return err_arg();
    }
    let (val, wrong_type) = store.get_str(args[1].as_str(), now);
    if wrong_type {
        return err_type("expect string type");
    }
    match val {
        Some(v) => str_reply(v.as_str()),
        None => nil_reply(),
    }
}

fn cmd_set(store: &mut Store, args: &Vec<String>) -> (r: Vec<u8>)
    requires
        old(store).wf(),
    ensures
        final(store).wf(),
        (final(store)@, r@) == set_spec(old(store)@, views(args@)),
{
    if args.len() != 3 {
        return err_arg();
    }
    store.set_str(args[1].clone(), args[2].clone());
    nil_reply()
}

fn cmd_del(store: &mut Store, args: &Vec<String>) -> (r: Vec<u8>)
    requires
        old(store).wf(),
    ensures
        final(store).wf(),
        (final(store)@, r@) == del_spec(old(store)@, views(args@)),
{
    if args.len() != 2 {
        return err_arg();
    }
    let ok = store.del(args[1].as_str());
    int_reply(if ok {
        1
    } else {
        0
    })
}

fn cmd_pexpire(store: &mut Store, args: &Vec<String>, now: u64) -> (r: Vec<u8>)
    requires
        old(store).wf(),
    ensures
        final(store).wf(),
        (final(store)@, r@) == pexpire_spec(old(store)@, views(args@), now),
{
    if args.len() != 3 {
        return err_arg();
    }
    let ms = match parse_i64(args[2].as_str()) {
        Some(v) => v,
        None => return err_arg_msg("expect int64"),
    };
    let ok = store.expire(args[1].as_str(), ms, now);
    int_reply(if ok {
        1
    } else {
        0
    })
}

fn cmd_pttl(store: &Store, args: &Vec<String>, now: u64) -> (r: Vec<u8>)
    requires
        store.wf(),
    ensures
        r@ == pttl_spec(store@, views(args@), now).1,
{
    if args.len() != 2 {
        return err_arg();
    }
    let ttl = store.ttl_ms(args[1].as_str(), now);
    int_reply(ttl)
}

fn cmd_zadd(store: &mut Store, args: &Vec<String>, floats: &Vec<Option<u64>>) -> (r: Vec<u8>)
    requires
        old(store).wf(),
        floats@.len() == args@.len(),
    ensures
        final(store).wf(),
        (final(store)@, r@) == zadd_spec(old(store)@, views(args@), floats@),
{
    if args.len() != 4 {
        return err_arg();
    }
    let score = match floats[2] {
        Some(v) => v,
        None => return err_arg_msg("expect fp number"),
    };
    let (added, wrong_type) = store.z_add(args[1].clone(), args[3].clone(), score);
    if wrong_type {
        return err_type("expect zset");
    }
    int_reply(if added {
        1
    } else {
        0
    })
}

fn cmd_zrem(store: &mut Store, args: &Vec<String>) -> (r: Vec<u8>)
    requires
        old(store).wf(),
    ensures
        final(store).wf(),
        (final(store)@, r@) == zrem_spec(old(store)@, views(args@)),
{
    if args.len() != 3 {
        return err_arg();
    }
    let (removed, wrong_type) = store.z_rem(args[1].as_str(), args[2].as_str());
    if wrong_type {
        return err_type("expect zset");
    }
    int_reply(if removed {
        1
    } else {
        0
    })
}

fn cmd_zscore(store: &Store, args: &Vec<String>) -> (r: Vec<u8>)
    requires
        store.wf(),
    ensures
        r@ == zscore_spec(store@, views(args@)).1,
{
    if args.len() != 3 {
        return err_arg();
    }
    let (score, wrong_type) = store.z_score(args[1].as_str(), args[2].as_str());
    if wrong_type {
        return err_type("expect zset");
    }
    match score {
        Some(v) => dbl_reply(v),
        None => nil_reply(),
    }
}

fn cmd_zquery(store: &Store, args: &Vec<String>, floats: &Vec<Option<u64>>) -> (r: Vec<u8>)
    requires
        store.wf(),
        floats@.len() == args@.len(),
        !overflows(store@, "zquery"@, views(args@), floats@),
    ensures
        r@ == zquery_spec(store@, views(args@), floats@).1,
{
    if args.len() != 6 {
        return err_arg();
    }
    let score = match floats[2] {
        Some(v) => v,
        None => return err_arg_msg("expect fp number"),
    };
    let offset = match parse_i64(args[4].as_str()) {
        Some(v) => v,
        None => return err_arg_msg("expect int"),
    };
    let limit = match parse_i64(args[5].as_str()) {
        Some(v) => v,
        None => return err_arg_msg("expect int"),
    };
    assert(views(args@)[4] == args@[4]@);
    assert(views(args@)[5] == args@[5]@);
    assert(views(args@)[1] == args@[1]@);
    assert(views(args@)[3] == args@[3]@);
    zquery_reply(store, args[1].as_str(), score, args[3].as_str(), offset, limit)
}

fn zquery_reply(store: &Store, key: &str, score: u64, name: &str, offset: i64, limit: i64) -> (r: Vec<u8>)
    requires
        store.wf(),
        holds_zset(store@, key@) ==> limit <= 0 || offset > i64::MIN,
    ensures
        r@ == (if z_query_result(store@, key@, score, name@, offset, limit).1 {
            error_bytes(ERR_TYPE, "expect zset"@)
        } else {
            pair_array_bytes(z_query_result(store@, key@, score, name@, offset, limit).0)
        }),
{
    let (entries, wrong_type) = store.z_query(key, score, name, offset, limit);
    if wrong_type {
        return err_type("expect zset");
    }
    pair_array_reply(&entries)
}

fn cmd_lpush(store: &mut Store, args: &Vec<String>) -> (r: Vec<u8>)
    requires
        old(store).wf(),
    ensures
        final(store).wf(),
        (final(store)@, r@) == lpush_spec(old(store)@, views(args@)),
{
    if args.len() != 3 {
        return err_arg();
    }
    store.lpush(args[1].clone(), args[2].clone());
    int_reply(1)
}

fn cmd_lpop(store: &mut Store, args: &Vec<String>) -> (r: Vec<u8>)
    requires
        old(store).wf(),
    ensures
        final(store).wf(),
        (final(store)@, r@) == lpop_spec(old(store)@, views(args@)),
{
    if args.len() != 2 {
        return err_arg();
    }
    match store.lpop(args[1].as_str()) {
        Some(v) => str_reply(v.as_str()),
        None => nil_reply(),
    }
}

fn cmd_rpop(store: &mut Store, args: &Vec<String>) -> (r: Vec<u8>)
    requires
        old(store).wf(),
    ensures
        final(store).wf(),
        (final(store)@, r@) == rpop_spec(old(store)@, views(args@)),
{
    if args.len() != 2 {
        return err_arg();
    }
    match store.rpop(args[1].as_str()) {
        Some(v) => str_reply(v.as_str()),
        None => nil_reply(),
    }
}

fn cmd_lrange(store: &Store, args: &Vec<String>, floats: &Vec<Option<u64>>) -> (r: Vec<u8>)
    requires
        store.wf(),
        floats@.len() == args@.len(),
        !overflows(store@, "lrange"@, views(args@), floats@),
    ensures
        r@ == lrange_spec(store@, views(args@)).1,
{
    if args.len() != 4 {
        return err_arg();
    }
    let start = match parse_i64(args[2].as_str()) {
        Some(v) => v,
        None => return err_arg_msg("expect int"),
    };
    let stop = match parse_i64(args[3].as_str()) {
        Some(v) => v,
        None => return err_arg_msg("expect int"),
    };
    let vals = store.lrange(args[1].as_str(), start, stop);
    str_array_reply(vals)
}

fn cmd_lindex(store: &Store, args: &Vec<String>) -> (r: Vec<u8>)
    requires
        store.wf(),
    ensures
        r@ == lindex_spec(store@, views(args@)).1,
{
    if args.len() != 3 {
        return err_arg();
    }
    let idx = match parse_i64(args[2].as_str()) {
        Some(v) => v,
        None => return err_arg_msg("expect int"),
    };
    match store.lindex(args[1].as_str(), idx) {
        Some(v) => str_reply(v.as_str()),
        None => nil_reply(),
    }
}

fn cmd_llen(store: &Store, args: &Vec<String>) -> (r: Vec<u8>)
    requires
        store.wf(),
    ensures
        r@ == llen_spec(store@, views(args@)).1,
{
    if args.len() != 2 {
        return err_arg();
    }
    let len = store.llen(args[1].as_str());
    int_reply(len)
}

fn cmd_lrem(store: &mut Store, args: &Vec<String>, floats: &Vec<Option<u64>>) -> (r: Vec<u8>)
    requires
        old(store).wf(),
        floats@.len() == args@.len(),
        !overflows(old(store)@, "lrem"@, views(args@), floats@),
    ensures
        final(store).wf(),
        (final(store)@, r@) == lrem_spec(old(store)@, views(args@)),
{
    if args.len() != 4 {
        return err_arg();
    }
    let count = match parse_i64(args[2].as_str()) {
        Some(v) => v,
        None => return err_arg_msg("expect int"),
    };
    let removed = store.lrem(args[1].as_str(), count, args[3].as_str());
    int_reply(removed)
}

fn cmd_job_submit(store: &mut Store, args: &Vec<String>) -> (r: Vec<u8>)
    requires
        old(store).wf(),
    ensures
        final(store).wf(),
        (final(store)@, r@) == job_submit_spec(old(store)@, views(args@)),
{
    if args.len() < 5 {
        return err_arg_msg("JOB SUBMIT <id> <name> <target> <command> [args...]");
    }
    let mut p: Vec<char> = Vec::new();
    push_str(&mut p, args[1].as_str());
    push_str(&mut p, "|");
    push_str(&mut p, args[2].as_str());
    push_str(&mut p, "|");
    push_str(&mut p, args[3].as_str());
    push_str(&mut p, "|");
    push_str(&mut p, args[4].as_str());
    push_str(&mut p, "|");
    let mut rest = join_from(args, 5, ",");
    assert(args@.skip(5).map_values(|x: String| x@) =~= views(args@).skip(5));
    p.append(&mut rest);
    let payload = string_from_chars(&p);
    assert(payload@ == job_payload(views(args@)));
    store.lpush(owned("devops:queue"), payload.clone());
    store.set_str(job_key_of(args[1].as_str(), ""), payload);
    store.set_str(job_key_of(args[1].as_str(), ":status"), owned("queued"));
    str_reply(args[1].as_str())
}

fn cmd_job_next(store: &mut Store) -> (r: Vec<u8>)
    requires
        old(store).wf(),
    ensures
        final(store).wf(),
        (final(store)@, r@) == job_next_spec(old(store)@),
{
    match store.rpop("devops:queue") {
        None => nil_reply(),
        Some(payload) => {
            let cs = chars_of(payload.as_str());
            let parts = split_from(&cs, 0, 5, '|');
            assert(cs@.skip(0) =~= cs@);
            if parts.len() < 5 {
                return err_unknown("malformed job payload");
            }
            let key = job_key_of(parts[0].as_str(), ":status");
            store.set_str(key, owned("running"));
            str_array_reply(parts)
        },
    }
}

fn cmd_job_status(store: &Store, args: &Vec<String>, now: u64) -> (r: Vec<u8>)
    requires
        store.wf(),
    ensures
        r@ == job_status_spec(store@, views(args@), now).1,
{
    if args.len() != 2 {
        return err_arg();
    }
    let key = job_key_of(args[1].as_str(), ":status");
    match store.get_str(key.as_str(), now).0 {
        Some(status) => str_reply(status.as_str()),
        None => nil_reply(),
    }
}

fn cmd_job_result(store: &mut Store, args: &Vec<String>) -> (r: Vec<u8>)
    requires
        old(store).wf(),
    ensures
        final(store).wf(),
        (final(store)@, r@) == job_result_spec(old(store)@, views(args@)),
{
    if args.len() != 4 {
        return err_arg();
    }
    let exit_code = match parse_i64(args[2].as_str()) {
        Some(v) => v,
        None => return err_arg_msg("expect int"),
    };
    let duration_ms = match parse_i64(args[3].as_str()) {
        Some(v) => v,
        None => return err_arg_msg("expect int"),
    };
    let status: &str = if exit_code == 0 {
        "passed"
    } else {
        "failed"
    };
    store.set_str(job_key_of(args[1].as_str(), ":status"), owned(status));
    let mut rv: Vec<char> = Vec::new();
    push_str(&mut rv, "exit_code=");
    push_int_text(&mut rv, exit_code);
    push_str(&mut rv, ",duration_ms=");
    push_int_text(&mut rv, duration_ms);
    store.set_str(job_key_of(args[1].as_str(), ":result"), string_from_chars(&rv));
    let mut ev: Vec<char> = Vec::new();
    push_str(&mut ev, args[1].as_str());
    push_str(&mut ev, "|");
    push_str(&mut ev, status);
    push_str(&mut ev, "|");
    push_int_text(&mut ev, duration_ms);
    store.lpush(owned("devops:results"), string_from_chars(&ev));
    str_reply(status)
}

fn cmd_job_log(store: &mut Store, args: &Vec<String>) -> (r: Vec<u8>)
    requires
        old(store).wf(),
    ensures
        final(store).wf(),
        (final(store)@, r@) == job_log_spec(old(store)@, views(args@)),
{
    if args.len() < 3 {
        return err_arg();
    }
    let lc = join_from(args, 2, " ");
    assert(args@.skip(2).map_values(|x: String| x@) =~= views(args@).skip(2));
    let line = string_from_chars(&lc);
    let key = job_key_of(args[1].as_str(), ":log");
    let mut vals = store.lrange(key.as_str(), 0, -1);
    vals.push(line);
    let ghost vv = views(vals@);
    assert(vv =~= lrange_result(old(store)@, key@, 0i64, -1i64).push(line@));
    store.del(key.as_str());
    let ghost s1 = store@;
    let mut i: usize = 0;
    assert(vv.take(0) =~= Seq::<Seq<char>>::empty());
    while i < vals.len()
        invariant
            store.wf(),
            i <= vals@.len(),
            vv == views(vals@),
            store@ == lpush_all(s1, key@, vv.take(i as int)),
        decreases vals@.len() - i,
    {
        store.lpush(key.clone(), vals[i].clone());
        assert(vv.take(i + 1).drop_last() =~= vv.take(i as int));
        i = i + 1;
    }
    assert(vv.take(vals@.len() as int) =~= vv);
    int_reply(1)
}

fn cmd_job_list(store: &Store, args: &Vec<String>, now: u64) -> (r: Vec<u8>)
    requires
        store.wf(),
    ensures
        r@ == job_list_spec(store@, views(args@), now).1,
{
    let ghost filter = if args@.len() >= 2 {
        Some(args@[1]@)
    } else {
        None
    };
    let keys = store.keys(now);
    let ghost kv = views(keys@);
    assert(kv == live_keys(store@, now));
    let prefix = chars_of("devops:job:");
    let status_suffix = chars_of(":status");
    let result_suffix = chars_of(":result");
    let log_suffix = chars_of(":log");
    let mut jobs: Vec<String> = Vec::new();
    let mut i: usize = 0;
    assert(kv.take(0) =~= Seq::<Seq<char>>::empty());
    while i < keys.len()
        invariant
            store.wf(),
            i <= keys@.len(),
            kv == views(keys@),
            prefix@ == "devops:job:"@,
            status_suffix@ == ":status"@,
            result_suffix@ == ":result"@,
            log_suffix@ == ":log"@,
            filter == (if args@.len() >= 2 {
                Some(args@[1]@)
            } else {
                None::<Seq<char>>
            }),
            views(jobs@) == job_list_items(store@, kv.take(i as int), filter, now),
        decreases keys@.len() - i,
    {
        let ghost before = jobs@;
        assert(kv.take(i + 1).drop_last() =~= kv.take(i as int));
        assert(kv.take(i + 1).last() == keys@[i as int]@);
        let kc = chars_of(keys[i].as_str());
        if has_prefix(&kc, &prefix) {
            let id = string_of_range(&kc, prefix.len(), kc.len());
            assert(id@ =~= kc@.skip(prefix@.len() as int));
            let idc = chars_of(id.as_str());
            if !(has_suffix(&idc, &status_suffix) || has_suffix(&idc, &result_suffix) || has_suffix(
                &idc,
                &log_suffix,
            )) {
                let skey = job_key_of(id.as_str(), ":status");
                match store.get_str(skey.as_str(), now).0 {
                    Some(st) => {
                        let keep = if args.len() >= 2 {
                            str_eq(args[1].as_str(), st.as_str())
                        } else {
                            true
                        };
                        if keep {
                            let mut item: Vec<char> = Vec::new();
                            push_str(&mut item, id.as_str());
                            push_str(&mut item, ":");
                            push_str(&mut item, st.as_str());
                            jobs.push(string_from_chars(&item));
                            assert(views(jobs@) =~= views(before).push(id@ + ":"@ + st@));
                        }
                    },
                    None => {},
                }
            }
        }
        i = i + 1;
    }
    assert(kv.take(keys@.len() as int) =~= kv);
    str_array_reply(jobs)
}

/// Runs the command named `cmd` (already lowercased) with the request `args`.
/// `floats[i]` is `args[i]` read as a double (its bits), if it reads as one.
pub fn execute(
    store: &mut Store,
    cmd: &str,
    args: &Vec<String>,
    auth: &AuthConfig,
    floats: &Vec<Option<u64>>,
    now: u64,
) -> (r: Vec<u8>)
    requires
        old(store).wf(),
        floats@.len() == args@.len(),
        !overflows(old(store)@, cmd@, views(args@), floats@),
    ensures
        final(store).wf(),
        (final(store)@, r@) == command_spec(old(store)@, cmd@, views(args@), floats@, password_view(auth), now),
{
    if str_eq(cmd, "auth") {
        cmd_auth(args, auth)
    } else if str_eq(cmd, "keys") {
        cmd_keys(store, args, now)
    } else if str_eq(cmd, "get") {
        cmd_get(store, args, now)
    } else if str_eq(cmd, "set") {
        cmd_set(store, args)
    } else if str_eq(cmd, "del") {
        cmd_del(store, args)
    } else if str_eq(cmd, "pexpire") {
        cmd_pexpire(store, args, now)
    } else if str_eq(cmd, "pttl") {
        cmd_pttl(store, args, now)
    } else if str_eq(cmd, "zadd") {
        cmd_zadd(store, args, floats)
    } else if str_eq(cmd, "zrem") {
        cmd_zrem(store, args)
    } else if str_eq(cmd, "zscore") {
        cmd_zscore(store, args)
    } else if str_eq(cmd, "zquery") {
        cmd_zquery(store, args, floats)
    } else if str_eq(cmd, "lpush") || str_eq(cmd, "rpush") {
        cmd_lpush(store, args)
    } else if str_eq(cmd, "lpop") {
        cmd_lpop(store, args)
    } else if str_eq(cmd, "rpop") {
        cmd_rpop(store, args)
    } else if str_eq(cmd, "lrange") {
        cmd_lrange(store, args, floats)
    } else if str_eq(cmd, "lindex") {
        cmd_lindex(store, args)
    } else if str_eq(cmd, "llen") {
        cmd_llen(store, args)
    } else if str_eq(cmd, "lrem") {
        cmd_lrem(store, args, floats)
    } else if str_eq(cmd, "job submit") {
        cmd_job_submit(store, args)
    } else if str_eq(cmd, "job next") {
        cmd_job_next(store)
    } else if str_eq(cmd, "job status") {
        cmd_job_status(store, args, now)
    } else if str_eq(cmd, "job result") {
        cmd_job_result(store, args)
    } else if str_eq(cmd, "job log") {
        cmd_job_log(store, args)
    } else if str_eq(cmd, "job list") {
        cmd_job_list(store, args, now)
    } else {
        err_unknown("unknown command")
    }
}

/// Whether running the command named `cmd` on `args` would overflow an `i64`
/// (see `overflows`).
pub fn would_overflow(store: &Store, cmd: &str, args: &Vec<String>, floats: &Vec<Option<u64>>) -> (r: bool)
    requires
        store.wf(),
        floats@.len() == args@.len(),
    ensures
        r == overflows(store@, cmd@, views(args@), floats@),
{
    if str_eq(cmd, "zquery") && args.len() == 6 && floats[2].is_some() {
        assert(views(args@)[4] == args@[4]@ && views(args@)[5] == args@[5]@ && views(args@)[1] == args@[1]@);
        let offset = parse_i64(args[4].as_str());
        let limit = parse_i64(args[5].as_str());
        match (offset, limit) {
            (Some(o), Some(l)) => {
                if o == i64::MIN && l > 0 && store.is_zset(args[1].as_str()) {
                    return true;
                }
            },
            _ => {},
        }
    }
    if str_eq(cmd, "lrange") && args.len() == 4 {
        assert(views(args@)[2] == args@[2]@ && views(args@)[3] == args@[3]@ && views(args@)[1] == args@[1]@);
        let start = parse_i64(args[2].as_str());
        let stop = parse_i64(args[3].as_str());
        if start.is_some() && stop == Some(i64::MAX) && store.is_list(args[1].as_str()) {
            return true;
        }
    }
    if str_eq(cmd, "lrem") && args.len() == 4 {
        assert(views(args@)[2] == args@[2]@ && views(args@)[1] == args@[1]@);
        let count = parse_i64(args[2].as_str());
        if count == Some(i64::MIN) && store.is_list(args[1].as_str()) {
            return true;
        }
    }
    false
}

/// Runs one request as `dispatch` does, unless its command would overflow an
/// `i64` (see `overflows`): then it returns `None` and leaves the store alone.
pub fn try_dispatch(
    store: &mut Store,
    args: &Vec<String>,
    auth: &AuthConfig,
    floats: &Vec<Option<u64>>,
    now: u64,
) -> (r: Option<Vec<u8>>)
    requires
        old(store).wf(),
        floats@.len() == args@.len(),
    ensures
        final(store).wf(),
        match r {
            Some(resp) => (args@.len() == 0 || !overflows(old(store)@, lowercase_of(args@[0]@), views(args@), floats@))
                && (final(store)@, resp@) == dispatch_spec(old(store)@, views(args@), floats@, password_view(auth), now)
                && (args@.len() > 0 && is_ascii_chars(args@[0]@) ==> (final(store)@, resp@) == command_spec(
                old(store)@,
                ascii_lower(args@[0]@),
                views(args@),
                floats@,
                password_view(auth),
                now,
            )),
            None => args@.len() > 0 && overflows(old(store)@, lowercase_of(args@[0]@), views(args@), floats@)
                && final(store)@ == old(store)@,
        },
{
    if args.len() == 0 {
        return Some(err_unknown("empty command"));
    }
    let cmd = to_lowercase(args[0].as_str());
    if would_overflow(store, cmd.as_str(), args, floats) {
        return None;
    }
    Some(dispatch(store, args, auth, floats, now))
}

/// Runs one request: `args[0]` names the command, in any case.
/// `floats[i]` is `args[i]` read as a double (its bits), if it reads as one.
pub fn dispatch(
    store: &mut Store,
    args: &Vec<String>,
    auth: &AuthConfig,
    floats: &Vec<Option<u64>>,
    now: u64,
) -> (r: Vec<u8>)
    requires
        old(store).wf(),
        floats@.len() == args@.len(),
        args@.len() > 0 ==> !overflows(old(store)@, lowercase_of(args@[0]@), views(args@), floats@),
    ensures
        final(store).wf(),
        (final(store)@, r@) == dispatch_spec(old(store)@, views(args@), floats@, password_view(auth), now),
        args@.len() > 0 && is_ascii_chars(args@[0]@) ==> (final(store)@, r@) == command_spec(
            old(store)@,
            ascii_lower(args@[0]@),
            views(args@),
            floats@,
            password_view(auth),
            now,
        ),
{
    if args.len() == 0 {
        return err_unknown("empty command");
    }
    let cmd = to_lowercase(args[0].as_str());
    execute(store, cmd.as_str(), args, auth, floats, now)
}

} // verus!
