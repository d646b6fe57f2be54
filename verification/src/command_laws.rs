//! What the list, sorted-set, key and job-log commands answer, stated through
//! the command interpreter over the contents of the store.
use crate::handler::{
    auth_spec, bool_bytes, command_spec, job_result_spec, job_status_spec, job_status_word,
    job_submit_spec, job_payload, del_spec, ends_with, lrem_spec, zrem_spec, get_spec, job_key, job_list_items, job_list_spec, job_log_spec, keys_spec, lindex_spec, llen_spec, lpop_spec,
    lpush_spec, lrange_spec, pexpire_spec, pttl_spec, rpop_spec, zadd_spec, zquery_spec, zscore_spec,
};
use crate::laws::{
    back_to_front, law_del, law_lrem_reports_removed, law_expiry, law_keys_are_the_live_keys, law_lrange_whole, law_zscore_after_zadd,
    lemma_lookup_put,
    lemma_lpush_all_fresh, lemma_put_value_is_put,
};
use crate::proto::{dbl_bytes, error_bytes, int_bytes, nil_bytes, pair_array_bytes, str_array_bytes, str_bytes, ERR_TYPE};
use crate::store::{
    lpush_result, put, count_from, count_of, expired, get_str_result, without, lemma_find, live_keys, lookup, keys_distinct, EntryView, StoreView, ValueView,
};
use crate::text::{join_spec, spec_parse_i64};
use crate::zset::{is_nan, lemma_lower_bound_props, lower_bound, min, query_result, ranking, score_eq};
use vstd::prelude::*;

verus! {

/// The interpreter runs `rpop` by its own rule.
proof fn lemma_runs_rpop(s: StoreView, a: Seq<Seq<char>>, f: Seq<Option<u64>>, pw: Option<Seq<char>>, now: u64)
    ensures
        command_spec(s, "rpop"@, a, f, pw, now) == rpop_spec(s, a),
{
    reveal_strlit("rpop");
    reveal_strlit("auth");
    assert("rpop"@ != "auth"@) by { assert("rpop"@[0] != "auth"@[0]); }
    reveal_strlit("keys");
    assert("rpop"@ != "keys"@) by { assert("rpop"@[0] != "keys"@[0]); }
    reveal_strlit("get");
    assert("rpop"@ != "get"@) by { assert("rpop"@.len() != "get"@.len()); }
    reveal_strlit("set");
    assert("rpop"@ != "set"@) by { assert("rpop"@.len() != "set"@.len()); }
    reveal_strlit("del");
    assert("rpop"@ != "del"@) by { assert("rpop"@.len() != "del"@.len()); }
    reveal_strlit("pexpire");
    assert("rpop"@ != "pexpire"@) by { assert("rpop"@.len() != "pexpire"@.len()); }
    reveal_strlit("pttl");
    assert("rpop"@ != "pttl"@) by { assert("rpop"@[0] != "pttl"@[0]); }
    reveal_strlit("zadd");
    assert("rpop"@ != "zadd"@) by { assert("rpop"@[0] != "zadd"@[0]); }
    reveal_strlit("zrem");
    assert("rpop"@ != "zrem"@) by { assert("rpop"@[0] != "zrem"@[0]); }
    reveal_strlit("zscore");
    assert("rpop"@ != "zscore"@) by { assert("rpop"@.len() != "zscore"@.len()); }
    reveal_strlit("zquery");
    assert("rpop"@ != "zquery"@) by { assert("rpop"@.len() != "zquery"@.len()); }
    reveal_strlit("lpush");
    assert("rpop"@ != "lpush"@) by { assert("rpop"@.len() != "lpush"@.len()); }
    reveal_strlit("rpush");
    assert("rpop"@ != "rpush"@) by { assert("rpop"@.len() != "rpush"@.len()); }
    reveal_strlit("lpop");
    assert("rpop"@ != "lpop"@) by { assert("rpop"@[0] != "lpop"@[0]); }
}

/// The interpreter runs `lpush` by its own rule.
proof fn lemma_runs_lpush(s: StoreView, a: Seq<Seq<char>>, f: Seq<Option<u64>>, pw: Option<Seq<char>>, now: u64)
    ensures
        command_spec(s, "lpush"@, a, f, pw, now) == lpush_spec(s, a),
{
    reveal_strlit("lpush");
    reveal_strlit("auth");
    assert("lpush"@ != "auth"@) by { assert("lpush"@.len() != "auth"@.len()); }
    reveal_strlit("keys");
    assert("lpush"@ != "keys"@) by { assert("lpush"@.len() != "keys"@.len()); }
    reveal_strlit("get");
    assert("lpush"@ != "get"@) by { assert("lpush"@.len() != "get"@.len()); }
    reveal_strlit("set");
    assert("lpush"@ != "set"@) by { assert("lpush"@.len() != "set"@.len()); }
    reveal_strlit("del");
    assert("lpush"@ != "del"@) by { assert("lpush"@.len() != "del"@.len()); }
    reveal_strlit("pexpire");
    assert("lpush"@ != "pexpire"@) by { assert("lpush"@.len() != "pexpire"@.len()); }
    reveal_strlit("pttl");
    assert("lpush"@ != "pttl"@) by { assert("lpush"@.len() != "pttl"@.len()); }
    reveal_strlit("zadd");
    assert("lpush"@ != "zadd"@) by { assert("lpush"@.len() != "zadd"@.len()); }
    reveal_strlit("zrem");
    assert("lpush"@ != "zrem"@) by { assert("lpush"@.len() != "zrem"@.len()); }
    reveal_strlit("zscore");
    assert("lpush"@ != "zscore"@) by { assert("lpush"@.len() != "zscore"@.len()); }
    reveal_strlit("zquery");
    assert("lpush"@ != "zquery"@) by { assert("lpush"@.len() != "zquery"@.len()); }
}

/// The interpreter runs `zquery` by its own rule.
proof fn lemma_runs_zquery(s: StoreView, a: Seq<Seq<char>>, f: Seq<Option<u64>>, pw: Option<Seq<char>>, now: u64)
    ensures
        command_spec(s, "zquery"@, a, f, pw, now) == zquery_spec(s, a, f),
{
    reveal_strlit("zquery");
    reveal_strlit("auth");
    assert("zquery"@ != "auth"@) by { assert("zquery"@.len() != "auth"@.len()); }
    reveal_strlit("keys");
    assert("zquery"@ != "keys"@) by { assert("zquery"@.len() != "keys"@.len()); }
    reveal_strlit("get");
    assert("zquery"@ != "get"@) by { assert("zquery"@.len() != "get"@.len()); }
    reveal_strlit("set");
    assert("zquery"@ != "set"@) by { assert("zquery"@.len() != "set"@.len()); }
    reveal_strlit("del");
    assert("zquery"@ != "del"@) by { assert("zquery"@.len() != "del"@.len()); }
    reveal_strlit("pexpire");
    assert("zquery"@ != "pexpire"@) by { assert("zquery"@.len() != "pexpire"@.len()); }
    reveal_strlit("pttl");
    assert("zquery"@ != "pttl"@) by { assert("zquery"@.len() != "pttl"@.len()); }
    reveal_strlit("zadd");
    assert("zquery"@ != "zadd"@) by { assert("zquery"@.len() != "zadd"@.len()); }
    reveal_strlit("zrem");
    assert("zquery"@ != "zrem"@) by { assert("zquery"@.len() != "zrem"@.len()); }
    reveal_strlit("zscore");
    assert("zquery"@ != "zscore"@) by { assert("zquery"@[1] != "zscore"@[1]); }
}

/// The interpreter runs `lrange` by its own rule.
proof fn lemma_runs_lrange(s: StoreView, a: Seq<Seq<char>>, f: Seq<Option<u64>>, pw: Option<Seq<char>>, now: u64)
    ensures
        command_spec(s, "lrange"@, a, f, pw, now) == lrange_spec(s, a),
{
    reveal_strlit("lrange");
    reveal_strlit("auth");
    assert("lrange"@ != "auth"@) by { assert("lrange"@.len() != "auth"@.len()); }
    reveal_strlit("keys");
    assert("lrange"@ != "keys"@) by { assert("lrange"@.len() != "keys"@.len()); }
    reveal_strlit("get");
    assert("lrange"@ != "get"@) by { assert("lrange"@.len() != "get"@.len()); }
    reveal_strlit("set");
    assert("lrange"@ != "set"@) by { assert("lrange"@.len() != "set"@.len()); }
    reveal_strlit("del");
    assert("lrange"@ != "del"@) by { assert("lrange"@.len() != "del"@.len()); }
    reveal_strlit("pexpire");
    assert("lrange"@ != "pexpire"@) by { assert("lrange"@.len() != "pexpire"@.len()); }
    reveal_strlit("pttl");
    assert("lrange"@ != "pttl"@) by { assert("lrange"@.len() != "pttl"@.len()); }
    reveal_strlit("zadd");
    assert("lrange"@ != "zadd"@) by { assert("lrange"@.len() != "zadd"@.len()); }
    reveal_strlit("zrem");
    assert("lrange"@ != "zrem"@) by { assert("lrange"@.len() != "zrem"@.len()); }
    reveal_strlit("zscore");
    assert("lrange"@ != "zscore"@) by { assert("lrange"@[0] != "zscore"@[0]); }
    reveal_strlit("zquery");
    assert("lrange"@ != "zquery"@) by { assert("lrange"@[0] != "zquery"@[0]); }
    reveal_strlit("lpush");
    assert("lrange"@ != "lpush"@) by { assert("lrange"@.len() != "lpush"@.len()); }
    reveal_strlit("rpush");
    assert("lrange"@ != "rpush"@) by { assert("lrange"@.len() != "rpush"@.len()); }
    reveal_strlit("lpop");
    assert("lrange"@ != "lpop"@) by { assert("lrange"@.len() != "lpop"@.len()); }
    reveal_strlit("rpop");
    assert("lrange"@ != "rpop"@) by { assert("lrange"@.len() != "rpop"@.len()); }
}

/// The interpreter runs `lindex` by its own rule.
proof fn lemma_runs_lindex(s: StoreView, a: Seq<Seq<char>>, f: Seq<Option<u64>>, pw: Option<Seq<char>>, now: u64)
    ensures
        command_spec(s, "lindex"@, a, f, pw, now) == lindex_spec(s, a),
{
    reveal_strlit("lindex");
    reveal_strlit("auth");
    assert("lindex"@ != "auth"@) by { assert("lindex"@.len() != "auth"@.len()); }
    reveal_strlit("keys");
    assert("lindex"@ != "keys"@) by { assert("lindex"@.len() != "keys"@.len()); }
    reveal_strlit("get");
    assert("lindex"@ != "get"@) by { assert("lindex"@.len() != "get"@.len()); }
    reveal_strlit("set");
    assert("lindex"@ != "set"@) by { assert("lindex"@.len() != "set"@.len()); }
    reveal_strlit("del");
    assert("lindex"@ != "del"@) by { assert("lindex"@.len() != "del"@.len()); }
    reveal_strlit("pexpire");
    assert("lindex"@ != "pexpire"@) by { assert("lindex"@.len() != "pexpire"@.len()); }
    reveal_strlit("pttl");
    assert("lindex"@ != "pttl"@) by { assert("lindex"@.len() != "pttl"@.len()); }
    reveal_strlit("zadd");
    assert("lindex"@ != "zadd"@) by { assert("lindex"@.len() != "zadd"@.len()); }
    reveal_strlit("zrem");
    assert("lindex"@ != "zrem"@) by { assert("lindex"@.len() != "zrem"@.len()); }
    reveal_strlit("zscore");
    assert("lindex"@ != "zscore"@) by { assert("lindex"@[0] != "zscore"@[0]); }
    reveal_strlit("zquery");
    assert("lindex"@ != "zquery"@) by { assert("lindex"@[0] != "zquery"@[0]); }
    reveal_strlit("lpush");
    assert("lindex"@ != "lpush"@) by { assert("lindex"@.len() != "lpush"@.len()); }
    reveal_strlit("rpush");
    assert("lindex"@ != "rpush"@) by { assert("lindex"@.len() != "rpush"@.len()); }
    reveal_strlit("lpop");
    assert("lindex"@ != "lpop"@) by { assert("lindex"@.len() != "lpop"@.len()); }
    reveal_strlit("rpop");
    assert("lindex"@ != "rpop"@) by { assert("lindex"@.len() != "rpop"@.len()); }
    reveal_strlit("lrange");
    assert("lindex"@ != "lrange"@) by { assert("lindex"@[1] != "lrange"@[1]); }
}

/// The interpreter runs `keys` by its own rule.
proof fn lemma_runs_keys(s: StoreView, a: Seq<Seq<char>>, f: Seq<Option<u64>>, pw: Option<Seq<char>>, now: u64)
    ensures
        command_spec(s, "keys"@, a, f, pw, now) == keys_spec(s, a, now),
{
    reveal_strlit("keys");
    reveal_strlit("auth");
    assert("keys"@ != "auth"@) by { assert("keys"@[0] != "auth"@[0]); }
}

/// The interpreter runs `job log` by its own rule.
proof fn lemma_runs_job_log(s: StoreView, a: Seq<Seq<char>>, f: Seq<Option<u64>>, pw: Option<Seq<char>>, now: u64)
    ensures
        command_spec(s, "job log"@, a, f, pw, now) == job_log_spec(s, a),
{
    reveal_strlit("job log");
    reveal_strlit("auth");
    assert("job log"@ != "auth"@) by { assert("job log"@.len() != "auth"@.len()); }
    reveal_strlit("keys");
    assert("job log"@ != "keys"@) by { assert("job log"@.len() != "keys"@.len()); }
    reveal_strlit("get");
    assert("job log"@ != "get"@) by { assert("job log"@.len() != "get"@.len()); }
    reveal_strlit("set");
    assert("job log"@ != "set"@) by { assert("job log"@.len() != "set"@.len()); }
    reveal_strlit("del");
    assert("job log"@ != "del"@) by { assert("job log"@.len() != "del"@.len()); }
    reveal_strlit("pexpire");
    assert("job log"@ != "pexpire"@) by { assert("job log"@[0] != "pexpire"@[0]); }
    reveal_strlit("pttl");
    assert("job log"@ != "pttl"@) by { assert("job log"@.len() != "pttl"@.len()); }
    reveal_strlit("zadd");
    assert("job log"@ != "zadd"@) by { assert("job log"@.len() != "zadd"@.len()); }
    reveal_strlit("zrem");
    assert("job log"@ != "zrem"@) by { assert("job log"@.len() != "zrem"@.len()); }
    reveal_strlit("zscore");
    assert("job log"@ != "zscore"@) by { assert("job log"@.len() != "zscore"@.len()); }
    reveal_strlit("zquery");
    assert("job log"@ != "zquery"@) by { assert("job log"@.len() != "zquery"@.len()); }
    reveal_strlit("lpush");
    assert("job log"@ != "lpush"@) by { assert("job log"@.len() != "lpush"@.len()); }
    reveal_strlit("rpush");
    assert("job log"@ != "rpush"@) by { assert("job log"@.len() != "rpush"@.len()); }
    reveal_strlit("lpop");
    assert("job log"@ != "lpop"@) by { assert("job log"@.len() != "lpop"@.len()); }
    reveal_strlit("rpop");
    assert("job log"@ != "rpop"@) by { assert("job log"@.len() != "rpop"@.len()); }
    reveal_strlit("lrange");
    assert("job log"@ != "lrange"@) by { assert("job log"@.len() != "lrange"@.len()); }
    reveal_strlit("lindex");
    assert("job log"@ != "lindex"@) by { assert("job log"@.len() != "lindex"@.len()); }
    reveal_strlit("llen");
    assert("job log"@ != "llen"@) by { assert("job log"@.len() != "llen"@.len()); }
    reveal_strlit("lrem");
    assert("job log"@ != "lrem"@) by { assert("job log"@.len() != "lrem"@.len()); }
    reveal_strlit("job submit");
    assert("job log"@ != "job submit"@) by { assert("job log"@.len() != "job submit"@.len()); }
    reveal_strlit("job next");
    assert("job log"@ != "job next"@) by { assert("job log"@.len() != "job next"@.len()); }
    reveal_strlit("job status");
    assert("job log"@ != "job status"@) by { assert("job log"@.len() != "job status"@.len()); }
    reveal_strlit("job result");
    assert("job log"@ != "job result"@) by { assert("job log"@.len() != "job result"@.len()); }
}

/// The interpreter runs `lpop` by its own rule.
proof fn lemma_runs_lpop(s: StoreView, a: Seq<Seq<char>>, f: Seq<Option<u64>>, pw: Option<Seq<char>>, now: u64)
    ensures
        command_spec(s, "lpop"@, a, f, pw, now) == lpop_spec(s, a),
{
    reveal_strlit("lpop");
    reveal_strlit("auth");
    assert("lpop"@ != "auth"@) by { assert("lpop"@[0] != "auth"@[0]); }
    reveal_strlit("keys");
    assert("lpop"@ != "keys"@) by { assert("lpop"@[0] != "keys"@[0]); }
    reveal_strlit("get");
    assert("lpop"@ != "get"@) by { assert("lpop"@.len() != "get"@.len()); }
    reveal_strlit("set");
    assert("lpop"@ != "set"@) by { assert("lpop"@.len() != "set"@.len()); }
    reveal_strlit("del");
    assert("lpop"@ != "del"@) by { assert("lpop"@.len() != "del"@.len()); }
    reveal_strlit("pexpire");
    assert("lpop"@ != "pexpire"@) by { assert("lpop"@.len() != "pexpire"@.len()); }
    reveal_strlit("pttl");
    assert("lpop"@ != "pttl"@) by { assert("lpop"@[0] != "pttl"@[0]); }
    reveal_strlit("zadd");
    assert("lpop"@ != "zadd"@) by { assert("lpop"@[0] != "zadd"@[0]); }
    reveal_strlit("zrem");
    assert("lpop"@ != "zrem"@) by { assert("lpop"@[0] != "zrem"@[0]); }
    reveal_strlit("zscore");
    assert("lpop"@ != "zscore"@) by { assert("lpop"@.len() != "zscore"@.len()); }
    reveal_strlit("zquery");
    assert("lpop"@ != "zquery"@) by { assert("lpop"@.len() != "zquery"@.len()); }
    reveal_strlit("lpush");
    assert("lpop"@ != "lpush"@) by { assert("lpop"@.len() != "lpush"@.len()); }
    reveal_strlit("rpush");
    assert("lpop"@ != "rpush"@) by { assert("lpop"@.len() != "rpush"@.len()); }
}

/// The interpreter runs `llen` by its own rule.
proof fn lemma_runs_llen(s: StoreView, a: Seq<Seq<char>>, f: Seq<Option<u64>>, pw: Option<Seq<char>>, now: u64)
    ensures
        command_spec(s, "llen"@, a, f, pw, now) == llen_spec(s, a),
{
    reveal_strlit("llen");
    reveal_strlit("auth");
    assert("llen"@ != "auth"@) by { assert("llen"@[0] != "auth"@[0]); }
    reveal_strlit("keys");
    assert("llen"@ != "keys"@) by { assert("llen"@[0] != "keys"@[0]); }
    reveal_strlit("get");
    assert("llen"@ != "get"@) by { assert("llen"@.len() != "get"@.len()); }
    reveal_strlit("set");
    assert("llen"@ != "set"@) by { assert("llen"@.len() != "set"@.len()); }
    reveal_strlit("del");
    assert("llen"@ != "del"@) by { assert("llen"@.len() != "del"@.len()); }
    reveal_strlit("pexpire");
    assert("llen"@ != "pexpire"@) by { assert("llen"@.len() != "pexpire"@.len()); }
    reveal_strlit("pttl");
    assert("llen"@ != "pttl"@) by { assert("llen"@[0] != "pttl"@[0]); }
    reveal_strlit("zadd");
    assert("llen"@ != "zadd"@) by { assert("llen"@[0] != "zadd"@[0]); }
    reveal_strlit("zrem");
    assert("llen"@ != "zrem"@) by { assert("llen"@[0] != "zrem"@[0]); }
    reveal_strlit("zscore");
    assert("llen"@ != "zscore"@) by { assert("llen"@.len() != "zscore"@.len()); }
    reveal_strlit("zquery");
    assert("llen"@ != "zquery"@) by { assert("llen"@.len() != "zquery"@.len()); }
    reveal_strlit("lpush");
    assert("llen"@ != "lpush"@) by { assert("llen"@.len() != "lpush"@.len()); }
    reveal_strlit("rpush");
    assert("llen"@ != "rpush"@) by { assert("llen"@.len() != "rpush"@.len()); }
    reveal_strlit("lpop");
    assert("llen"@ != "lpop"@) by { assert("llen"@[1] != "lpop"@[1]); }
    reveal_strlit("rpop");
    assert("llen"@ != "rpop"@) by { assert("llen"@[0] != "rpop"@[0]); }
    reveal_strlit("lrange");
    assert("llen"@ != "lrange"@) by { assert("llen"@.len() != "lrange"@.len()); }
    reveal_strlit("lindex");
    assert("llen"@ != "lindex"@) by { assert("llen"@.len() != "lindex"@.len()); }
}

/// The interpreter runs `get` by its own rule.
proof fn lemma_runs_get(s: StoreView, a: Seq<Seq<char>>, f: Seq<Option<u64>>, pw: Option<Seq<char>>, now: u64)
    ensures
        command_spec(s, "get"@, a, f, pw, now) == get_spec(s, a, now),
{
    reveal_strlit("get");
    reveal_strlit("auth");
    assert("get"@ != "auth"@) by { assert("get"@.len() != "auth"@.len()); }
    reveal_strlit("keys");
    assert("get"@ != "keys"@) by { assert("get"@.len() != "keys"@.len()); }
}

/// The interpreter runs `pexpire` by its own rule.
proof fn lemma_runs_pexpire(s: StoreView, a: Seq<Seq<char>>, f: Seq<Option<u64>>, pw: Option<Seq<char>>, now: u64)
    ensures
        command_spec(s, "pexpire"@, a, f, pw, now) == pexpire_spec(s, a, now),
{
    reveal_strlit("pexpire");
    reveal_strlit("auth");
    assert("pexpire"@ != "auth"@) by { assert("pexpire"@.len() != "auth"@.len()); }
    reveal_strlit("keys");
    assert("pexpire"@ != "keys"@) by { assert("pexpire"@.len() != "keys"@.len()); }
    reveal_strlit("get");
    assert("pexpire"@ != "get"@) by { assert("pexpire"@.len() != "get"@.len()); }
    reveal_strlit("set");
    assert("pexpire"@ != "set"@) by { assert("pexpire"@.len() != "set"@.len()); }
    reveal_strlit("del");
    assert("pexpire"@ != "del"@) by { assert("pexpire"@.len() != "del"@.len()); }
}

/// The interpreter runs `pttl` by its own rule.
proof fn lemma_runs_pttl(s: StoreView, a: Seq<Seq<char>>, f: Seq<Option<u64>>, pw: Option<Seq<char>>, now: u64)
    ensures
        command_spec(s, "pttl"@, a, f, pw, now) == pttl_spec(s, a, now),
{
    reveal_strlit("pttl");
    reveal_strlit("auth");
    assert("pttl"@ != "auth"@) by { assert("pttl"@[0] != "auth"@[0]); }
    reveal_strlit("keys");
    assert("pttl"@ != "keys"@) by { assert("pttl"@[0] != "keys"@[0]); }
    reveal_strlit("get");
    assert("pttl"@ != "get"@) by { assert("pttl"@.len() != "get"@.len()); }
    reveal_strlit("set");
    assert("pttl"@ != "set"@) by { assert("pttl"@.len() != "set"@.len()); }
    reveal_strlit("del");
    assert("pttl"@ != "del"@) by { assert("pttl"@.len() != "del"@.len()); }
    reveal_strlit("pexpire");
    assert("pttl"@ != "pexpire"@) by { assert("pttl"@.len() != "pexpire"@.len()); }
}

/// The interpreter runs `zadd` by its own rule.
proof fn lemma_runs_zadd(s: StoreView, a: Seq<Seq<char>>, f: Seq<Option<u64>>, pw: Option<Seq<char>>, now: u64)
    ensures
        command_spec(s, "zadd"@, a, f, pw, now) == zadd_spec(s, a, f),
{
    reveal_strlit("zadd");
    reveal_strlit("auth");
    assert("zadd"@ != "auth"@) by { assert("zadd"@[0] != "auth"@[0]); }
    reveal_strlit("keys");
    assert("zadd"@ != "keys"@) by { assert("zadd"@[0] != "keys"@[0]); }
    reveal_strlit("get");
    assert("zadd"@ != "get"@) by { assert("zadd"@.len() != "get"@.len()); }
    reveal_strlit("set");
    assert("zadd"@ != "set"@) by { assert("zadd"@.len() != "set"@.len()); }
    reveal_strlit("del");
    assert("zadd"@ != "del"@) by { assert("zadd"@.len() != "del"@.len()); }
    reveal_strlit("pexpire");
    assert("zadd"@ != "pexpire"@) by { assert("zadd"@.len() != "pexpire"@.len()); }
    reveal_strlit("pttl");
    assert("zadd"@ != "pttl"@) by { assert("zadd"@[0] != "pttl"@[0]); }
}

/// The interpreter runs `zscore` by its own rule.
proof fn lemma_runs_zscore(s: StoreView, a: Seq<Seq<char>>, f: Seq<Option<u64>>, pw: Option<Seq<char>>, now: u64)
    ensures
        command_spec(s, "zscore"@, a, f, pw, now) == zscore_spec(s, a),
{
    reveal_strlit("zscore");
    reveal_strlit("auth");
    assert("zscore"@ != "auth"@) by { assert("zscore"@.len() != "auth"@.len()); }
    reveal_strlit("keys");
    assert("zscore"@ != "keys"@) by { assert("zscore"@.len() != "keys"@.len()); }
    reveal_strlit("get");
    assert("zscore"@ != "get"@) by { assert("zscore"@.len() != "get"@.len()); }
    reveal_strlit("set");
    assert("zscore"@ != "set"@) by { assert("zscore"@.len() != "set"@.len()); }
    reveal_strlit("del");
    assert("zscore"@ != "del"@) by { assert("zscore"@.len() != "del"@.len()); }
    reveal_strlit("pexpire");
    assert("zscore"@ != "pexpire"@) by { assert("zscore"@.len() != "pexpire"@.len()); }
    reveal_strlit("pttl");
    assert("zscore"@ != "pttl"@) by { assert("zscore"@.len() != "pttl"@.len()); }
    reveal_strlit("zadd");
    assert("zscore"@ != "zadd"@) by { assert("zscore"@.len() != "zadd"@.len()); }
    reveal_strlit("zrem");
    assert("zscore"@ != "zrem"@) by { assert("zscore"@.len() != "zrem"@.len()); }
}

/// The interpreter runs `job list` by its own rule.
proof fn lemma_runs_job_list(s: StoreView, a: Seq<Seq<char>>, f: Seq<Option<u64>>, pw: Option<Seq<char>>, now: u64)
    ensures
        command_spec(s, "job list"@, a, f, pw, now) == job_list_spec(s, a, now),
{
    reveal_strlit("job list");
    reveal_strlit("auth");
    assert("job list"@ != "auth"@) by { assert("job list"@.len() != "auth"@.len()); }
    reveal_strlit("keys");
    assert("job list"@ != "keys"@) by { assert("job list"@.len() != "keys"@.len()); }
    reveal_strlit("get");
    assert("job list"@ != "get"@) by { assert("job list"@.len() != "get"@.len()); }
    reveal_strlit("set");
    assert("job list"@ != "set"@) by { assert("job list"@.len() != "set"@.len()); }
    reveal_strlit("del");
    assert("job list"@ != "del"@) by { assert("job list"@.len() != "del"@.len()); }
    reveal_strlit("pexpire");
    assert("job list"@ != "pexpire"@) by { assert("job list"@.len() != "pexpire"@.len()); }
    reveal_strlit("pttl");
    assert("job list"@ != "pttl"@) by { assert("job list"@.len() != "pttl"@.len()); }
    reveal_strlit("zadd");
    assert("job list"@ != "zadd"@) by { assert("job list"@.len() != "zadd"@.len()); }
    reveal_strlit("zrem");
    assert("job list"@ != "zrem"@) by { assert("job list"@.len() != "zrem"@.len()); }
    reveal_strlit("zscore");
    assert("job list"@ != "zscore"@) by { assert("job list"@.len() != "zscore"@.len()); }
    reveal_strlit("zquery");
    assert("job list"@ != "zquery"@) by { assert("job list"@.len() != "zquery"@.len()); }
    reveal_strlit("lpush");
    assert("job list"@ != "lpush"@) by { assert("job list"@.len() != "lpush"@.len()); }
    reveal_strlit("rpush");
    assert("job list"@ != "rpush"@) by { assert("job list"@.len() != "rpush"@.len()); }
    reveal_strlit("lpop");
    assert("job list"@ != "lpop"@) by { assert("job list"@.len() != "lpop"@.len()); }
    reveal_strlit("rpop");
    assert("job list"@ != "rpop"@) by { assert("job list"@.len() != "rpop"@.len()); }
    reveal_strlit("lrange");
    assert("job list"@ != "lrange"@) by { assert("job list"@.len() != "lrange"@.len()); }
    reveal_strlit("lindex");
    assert("job list"@ != "lindex"@) by { assert("job list"@.len() != "lindex"@.len()); }
    reveal_strlit("llen");
    assert("job list"@ != "llen"@) by { assert("job list"@.len() != "llen"@.len()); }
    reveal_strlit("lrem");
    assert("job list"@ != "lrem"@) by { assert("job list"@.len() != "lrem"@.len()); }
    reveal_strlit("job submit");
    assert("job list"@ != "job submit"@) by { assert("job list"@.len() != "job submit"@.len()); }
    reveal_strlit("job next");
    assert("job list"@ != "job next"@) by { assert("job list"@[4] != "job next"@[4]); }
    reveal_strlit("job status");
    assert("job list"@ != "job status"@) by { assert("job list"@.len() != "job status"@.len()); }
    reveal_strlit("job result");
    assert("job list"@ != "job result"@) by { assert("job list"@.len() != "job result"@.len()); }
    reveal_strlit("job log");
    assert("job list"@ != "job log"@) by { assert("job list"@.len() != "job log"@.len()); }
}

/// The interpreter runs `del` by its own rule.
proof fn lemma_runs_del(s: StoreView, a: Seq<Seq<char>>, f: Seq<Option<u64>>, pw: Option<Seq<char>>, now: u64)
    ensures
        command_spec(s, "del"@, a, f, pw, now) == del_spec(s, a),
{
    reveal_strlit("del");
    reveal_strlit("auth");
    assert("del"@ != "auth"@) by { assert("del"@.len() != "auth"@.len()); }
    reveal_strlit("keys");
    assert("del"@ != "keys"@) by { assert("del"@.len() != "keys"@.len()); }
    reveal_strlit("get");
    assert("del"@ != "get"@) by { assert("del"@[0] != "get"@[0]); }
    reveal_strlit("set");
    assert("del"@ != "set"@) by { assert("del"@[0] != "set"@[0]); }
}

/// The interpreter runs `zrem` by its own rule.
proof fn lemma_runs_zrem(s: StoreView, a: Seq<Seq<char>>, f: Seq<Option<u64>>, pw: Option<Seq<char>>, now: u64)
    ensures
        command_spec(s, "zrem"@, a, f, pw, now) == zrem_spec(s, a),
{
    reveal_strlit("zrem");
    reveal_strlit("auth");
    assert("zrem"@ != "auth"@) by { assert("zrem"@[0] != "auth"@[0]); }
    reveal_strlit("keys");
    assert("zrem"@ != "keys"@) by { assert("zrem"@[0] != "keys"@[0]); }
    reveal_strlit("get");
    assert("zrem"@ != "get"@) by { assert("zrem"@.len() != "get"@.len()); }
    reveal_strlit("set");
    assert("zrem"@ != "set"@) by { assert("zrem"@.len() != "set"@.len()); }
    reveal_strlit("del");
    assert("zrem"@ != "del"@) by { assert("zrem"@.len() != "del"@.len()); }
    reveal_strlit("pexpire");
    assert("zrem"@ != "pexpire"@) by { assert("zrem"@.len() != "pexpire"@.len()); }
    reveal_strlit("pttl");
    assert("zrem"@ != "pttl"@) by { assert("zrem"@[0] != "pttl"@[0]); }
    reveal_strlit("zadd");
    assert("zrem"@ != "zadd"@) by { assert("zrem"@[1] != "zadd"@[1]); }
}

/// The interpreter runs `lrem` by its own rule.
proof fn lemma_runs_lrem(s: StoreView, a: Seq<Seq<char>>, f: Seq<Option<u64>>, pw: Option<Seq<char>>, now: u64)
    ensures
        command_spec(s, "lrem"@, a, f, pw, now) == lrem_spec(s, a),
{
    reveal_strlit("lrem");
    reveal_strlit("auth");
    assert("lrem"@ != "auth"@) by { assert("lrem"@[0] != "auth"@[0]); }
    reveal_strlit("keys");
    assert("lrem"@ != "keys"@) by { assert("lrem"@[0] != "keys"@[0]); }
    reveal_strlit("get");
    assert("lrem"@ != "get"@) by { assert("lrem"@.len() != "get"@.len()); }
    reveal_strlit("set");
    assert("lrem"@ != "set"@) by { assert("lrem"@.len() != "set"@.len()); }
    reveal_strlit("del");
    assert("lrem"@ != "del"@) by { assert("lrem"@.len() != "del"@.len()); }
    reveal_strlit("pexpire");
    assert("lrem"@ != "pexpire"@) by { assert("lrem"@.len() != "pexpire"@.len()); }
    reveal_strlit("pttl");
    assert("lrem"@ != "pttl"@) by { assert("lrem"@[0] != "pttl"@[0]); }
    reveal_strlit("zadd");
    assert("lrem"@ != "zadd"@) by { assert("lrem"@[0] != "zadd"@[0]); }
    reveal_strlit("zrem");
    assert("lrem"@ != "zrem"@) by { assert("lrem"@[0] != "zrem"@[0]); }
    reveal_strlit("zscore");
    assert("lrem"@ != "zscore"@) by { assert("lrem"@.len() != "zscore"@.len()); }
    reveal_strlit("zquery");
    assert("lrem"@ != "zquery"@) by { assert("lrem"@.len() != "zquery"@.len()); }
    reveal_strlit("lpush");
    assert("lrem"@ != "lpush"@) by { assert("lrem"@.len() != "lpush"@.len()); }
    reveal_strlit("rpush");
    assert("lrem"@ != "rpush"@) by { assert("lrem"@.len() != "rpush"@.len()); }
    reveal_strlit("lpop");
    assert("lrem"@ != "lpop"@) by { assert("lrem"@[1] != "lpop"@[1]); }
    reveal_strlit("rpop");
    assert("lrem"@ != "rpop"@) by { assert("lrem"@[0] != "rpop"@[0]); }
    reveal_strlit("lrange");
    assert("lrem"@ != "lrange"@) by { assert("lrem"@.len() != "lrange"@.len()); }
    reveal_strlit("lindex");
    assert("lrem"@ != "lindex"@) by { assert("lrem"@.len() != "lindex"@.len()); }
    reveal_strlit("llen");
    assert("lrem"@ != "llen"@) by { assert("lrem"@[1] != "llen"@[1]); }
}

/// The interpreter runs `auth` by its own rule.
proof fn lemma_runs_auth(s: StoreView, a: Seq<Seq<char>>, f: Seq<Option<u64>>, pw: Option<Seq<char>>, now: u64)
    ensures
        command_spec(s, "auth"@, a, f, pw, now) == auth_spec(s, a, pw),
{
    reveal_strlit("auth");
}

/// The interpreter runs `job submit` by its own rule.
proof fn lemma_runs_job_submit(s: StoreView, a: Seq<Seq<char>>, f: Seq<Option<u64>>, pw: Option<Seq<char>>, now: u64)
    ensures
        command_spec(s, "job submit"@, a, f, pw, now) == job_submit_spec(s, a),
{
    reveal_strlit("job submit");
    reveal_strlit("auth");
    assert("job submit"@ != "auth"@) by { assert("job submit"@.len() != "auth"@.len()); }
    reveal_strlit("keys");
    assert("job submit"@ != "keys"@) by { assert("job submit"@.len() != "keys"@.len()); }
    reveal_strlit("get");
    assert("job submit"@ != "get"@) by { assert("job submit"@.len() != "get"@.len()); }
    reveal_strlit("set");
    assert("job submit"@ != "set"@) by { assert("job submit"@.len() != "set"@.len()); }
    reveal_strlit("del");
    assert("job submit"@ != "del"@) by { assert("job submit"@.len() != "del"@.len()); }
    reveal_strlit("pexpire");
    assert("job submit"@ != "pexpire"@) by { assert("job submit"@.len() != "pexpire"@.len()); }
    reveal_strlit("pttl");
    assert("job submit"@ != "pttl"@) by { assert("job submit"@.len() != "pttl"@.len()); }
    reveal_strlit("zadd");
    assert("job submit"@ != "zadd"@) by { assert("job submit"@.len() != "zadd"@.len()); }
    reveal_strlit("zrem");
    assert("job submit"@ != "zrem"@) by { assert("job submit"@.len() != "zrem"@.len()); }
    reveal_strlit("zscore");
    assert("job submit"@ != "zscore"@) by { assert("job submit"@.len() != "zscore"@.len()); }
    reveal_strlit("zquery");
    assert("job submit"@ != "zquery"@) by { assert("job submit"@.len() != "zquery"@.len()); }
    reveal_strlit("lpush");
    assert("job submit"@ != "lpush"@) by { assert("job submit"@.len() != "lpush"@.len()); }
    reveal_strlit("rpush");
    assert("job submit"@ != "rpush"@) by { assert("job submit"@.len() != "rpush"@.len()); }
    reveal_strlit("lpop");
    assert("job submit"@ != "lpop"@) by { assert("job submit"@.len() != "lpop"@.len()); }
    reveal_strlit("rpop");
    assert("job submit"@ != "rpop"@) by { assert("job submit"@.len() != "rpop"@.len()); }
    reveal_strlit("lrange");
    assert("job submit"@ != "lrange"@) by { assert("job submit"@.len() != "lrange"@.len()); }
    reveal_strlit("lindex");
    assert("job submit"@ != "lindex"@) by { assert("job submit"@.len() != "lindex"@.len()); }
    reveal_strlit("llen");
    assert("job submit"@ != "llen"@) by { assert("job submit"@.len() != "llen"@.len()); }
    reveal_strlit("lrem");
    assert("job submit"@ != "lrem"@) by { assert("job submit"@.len() != "lrem"@.len()); }
}

/// The interpreter runs `job status` by its own rule.
proof fn lemma_runs_job_status(s: StoreView, a: Seq<Seq<char>>, f: Seq<Option<u64>>, pw: Option<Seq<char>>, now: u64)
    ensures
        command_spec(s, "job status"@, a, f, pw, now) == job_status_spec(s, a, now),
{
    reveal_strlit("job status");
    reveal_strlit("auth");
    assert("job status"@ != "auth"@) by { assert("job status"@.len() != "auth"@.len()); }
    reveal_strlit("keys");
    assert("job status"@ != "keys"@) by { assert("job status"@.len() != "keys"@.len()); }
    reveal_strlit("get");
    assert("job status"@ != "get"@) by { assert("job status"@.len() != "get"@.len()); }
    reveal_strlit("set");
    assert("job status"@ != "set"@) by { assert("job status"@.len() != "set"@.len()); }
    reveal_strlit("del");
    assert("job status"@ != "del"@) by { assert("job status"@.len() != "del"@.len()); }
    reveal_strlit("pexpire");
    assert("job status"@ != "pexpire"@) by { assert("job status"@.len() != "pexpire"@.len()); }
    reveal_strlit("pttl");
    assert("job status"@ != "pttl"@) by { assert("job status"@.len() != "pttl"@.len()); }
    reveal_strlit("zadd");
    assert("job status"@ != "zadd"@) by { assert("job status"@.len() != "zadd"@.len()); }
    reveal_strlit("zrem");
    assert("job status"@ != "zrem"@) by { assert("job status"@.len() != "zrem"@.len()); }
    reveal_strlit("zscore");
    assert("job status"@ != "zscore"@) by { assert("job status"@.len() != "zscore"@.len()); }
    reveal_strlit("zquery");
    assert("job status"@ != "zquery"@) by { assert("job status"@.len() != "zquery"@.len()); }
    reveal_strlit("lpush");
    assert("job status"@ != "lpush"@) by { assert("job status"@.len() != "lpush"@.len()); }
    reveal_strlit("rpush");
    assert("job status"@ != "rpush"@) by { assert("job status"@.len() != "rpush"@.len()); }
    reveal_strlit("lpop");
    assert("job status"@ != "lpop"@) by { assert("job status"@.len() != "lpop"@.len()); }
    reveal_strlit("rpop");
    assert("job status"@ != "rpop"@) by { assert("job status"@.len() != "rpop"@.len()); }
    reveal_strlit("lrange");
    assert("job status"@ != "lrange"@) by { assert("job status"@.len() != "lrange"@.len()); }
    reveal_strlit("lindex");
    assert("job status"@ != "lindex"@) by { assert("job status"@.len() != "lindex"@.len()); }
    reveal_strlit("llen");
    assert("job status"@ != "llen"@) by { assert("job status"@.len() != "llen"@.len()); }
    reveal_strlit("lrem");
    assert("job status"@ != "lrem"@) by { assert("job status"@.len() != "lrem"@.len()); }
    reveal_strlit("job submit");
    assert("job status"@ != "job submit"@) by { assert("job status"@[5] != "job submit"@[5]); }
    reveal_strlit("job next");
    assert("job status"@ != "job next"@) by { assert("job status"@.len() != "job next"@.len()); }
}

/// The interpreter runs `job result` by its own rule.
proof fn lemma_runs_job_result(s: StoreView, a: Seq<Seq<char>>, f: Seq<Option<u64>>, pw: Option<Seq<char>>, now: u64)
    ensures
        command_spec(s, "job result"@, a, f, pw, now) == job_result_spec(s, a),
{
    reveal_strlit("job result");
    reveal_strlit("auth");
    assert("job result"@ != "auth"@) by { assert("job result"@.len() != "auth"@.len()); }
    reveal_strlit("keys");
    assert("job result"@ != "keys"@) by { assert("job result"@.len() != "keys"@.len()); }
    reveal_strlit("get");
    assert("job result"@ != "get"@) by { assert("job result"@.len() != "get"@.len()); }
    reveal_strlit("set");
    assert("job result"@ != "set"@) by { assert("job result"@.len() != "set"@.len()); }
    reveal_strlit("del");
    assert("job result"@ != "del"@) by { assert("job result"@.len() != "del"@.len()); }
    reveal_strlit("pexpire");
    assert("job result"@ != "pexpire"@) by { assert("job result"@.len() != "pexpire"@.len()); }
    reveal_strlit("pttl");
    assert("job result"@ != "pttl"@) by { assert("job result"@.len() != "pttl"@.len()); }
    reveal_strlit("zadd");
    assert("job result"@ != "zadd"@) by { assert("job result"@.len() != "zadd"@.len()); }
    reveal_strlit("zrem");
    assert("job result"@ != "zrem"@) by { assert("job result"@.len() != "zrem"@.len()); }
    reveal_strlit("zscore");
    assert("job result"@ != "zscore"@) by { assert("job result"@.len() != "zscore"@.len()); }
    reveal_strlit("zquery");
    assert("job result"@ != "zquery"@) by { assert("job result"@.len() != "zquery"@.len()); }
    reveal_strlit("lpush");
    assert("job result"@ != "lpush"@) by { assert("job result"@.len() != "lpush"@.len()); }
    reveal_strlit("rpush");
    assert("job result"@ != "rpush"@) by { assert("job result"@.len() != "rpush"@.len()); }
    reveal_strlit("lpop");
    assert("job result"@ != "lpop"@) by { assert("job result"@.len() != "lpop"@.len()); }
    reveal_strlit("rpop");
    assert("job result"@ != "rpop"@) by { assert("job result"@.len() != "rpop"@.len()); }
    reveal_strlit("lrange");
    assert("job result"@ != "lrange"@) by { assert("job result"@.len() != "lrange"@.len()); }
    reveal_strlit("lindex");
    assert("job result"@ != "lindex"@) by { assert("job result"@.len() != "lindex"@.len()); }
    reveal_strlit("llen");
    assert("job result"@ != "llen"@) by { assert("job result"@.len() != "llen"@.len()); }
    reveal_strlit("lrem");
    assert("job result"@ != "lrem"@) by { assert("job result"@.len() != "lrem"@.len()); }
    reveal_strlit("job submit");
    assert("job result"@ != "job submit"@) by { assert("job result"@[4] != "job submit"@[4]); }
    reveal_strlit("job next");
    assert("job result"@ != "job next"@) by { assert("job result"@.len() != "job next"@.len()); }
    reveal_strlit("job status");
    assert("job result"@ != "job status"@) by { assert("job result"@[4] != "job status"@[4]); }
}

// ---------------------------------------------------------------------------
// Lists as queues
// ---------------------------------------------------------------------------

/// `rpop` takes the last element of a list: it answers with that element and
/// leaves the list without it, under the same deadline.
pub proof fn law_rpop_takes_the_back(
    s: StoreView,
    a: Seq<Seq<char>>,
    f: Seq<Option<u64>>,
    pw: Option<Seq<char>>,
    now: u64,
    l: Seq<Seq<char>>,
)
    requires
        keys_distinct(s),
        a.len() == 2,
        lookup(s, a[1]) is Some,
        lookup(s, a[1])->0.value == ValueView::List(l),
        l.len() > 0,
    ensures
        command_spec(s, "rpop"@, a, f, pw, now).1 == str_bytes(l[l.len() - 1]),
        lookup(command_spec(s, "rpop"@, a, f, pw, now).0, a[1]) == Some(
            EntryView { value: ValueView::List(l.subrange(0, l.len() - 1)), exp_at: lookup(s, a[1])->0.exp_at },
        ),
{
    lemma_runs_rpop(s, a, f, pw, now);
    let k = a[1];
    lemma_find(s, k);
    let e0 = lookup(s, k)->0;
    let v1 = ValueView::List(l.drop_last());
    lemma_put_value_is_put(s, k, v1);
    lemma_lookup_put(s, k, EntryView { value: v1, exp_at: e0.exp_at }, k);
    assert(l.drop_last() == l.subrange(0, l.len() - 1));
}

/// Two pushes onto a missing key, then `rpop`: the answer is the value pushed
/// first.
pub proof fn law_rpop_answers_the_oldest_push(
    s: StoreView,
    k: Seq<char>,
    x: Seq<char>,
    y: Seq<char>,
    f: Seq<Option<u64>>,
    pw: Option<Seq<char>>,
    now: u64,
)
    requires
        keys_distinct(s),
        lookup(s, k) is None,
    ensures
        ({
            let s1 = command_spec(s, "lpush"@, seq!["lpush"@, k, x], f, pw, now).0;
            let s2 = command_spec(s1, "lpush"@, seq!["lpush"@, k, y], f, pw, now).0;
            command_spec(s2, "rpop"@, seq!["rpop"@, k], f, pw, now).1 == str_bytes(x)
        }),
{
    let a1 = seq!["lpush"@, k, x];
    let a2 = seq!["lpush"@, k, y];
    let a3 = seq!["rpop"@, k];
    lemma_runs_lpush(s, a1, f, pw, now);
    let s1 = command_spec(s, "lpush"@, a1, f, pw, now).0;
    lemma_lookup_put(s, k, EntryView { value: ValueView::List(seq![x]), exp_at: None }, k);
    lemma_runs_lpush(s1, a2, f, pw, now);
    let s2 = command_spec(s1, "lpush"@, a2, f, pw, now).0;
    lemma_find(s1, k);
    lemma_put_value_is_put(s1, k, ValueView::List(seq![y] + seq![x]));
    lemma_lookup_put(s1, k, EntryView { value: ValueView::List(seq![y] + seq![x]), exp_at: None }, k);
    law_rpop_takes_the_back(s2, a3, f, pw, now, seq![y] + seq![x]);
    assert((seq![y] + seq![x])[1] == x);
}


/// `lpop` takes the first element of a list: it answers with that element and
/// leaves the list without it, under the same deadline.
pub proof fn law_lpop_takes_the_front(
    s: StoreView,
    a: Seq<Seq<char>>,
    f: Seq<Option<u64>>,
    pw: Option<Seq<char>>,
    now: u64,
    l: Seq<Seq<char>>,
)
    requires
        keys_distinct(s),
        a.len() == 2,
        lookup(s, a[1]) is Some,
        lookup(s, a[1])->0.value == ValueView::List(l),
        l.len() > 0,
    ensures
        command_spec(s, "lpop"@, a, f, pw, now).1 == str_bytes(l[0]),
        lookup(command_spec(s, "lpop"@, a, f, pw, now).0, a[1]) == Some(
            EntryView { value: ValueView::List(l.subrange(1, l.len() as int)), exp_at: lookup(s, a[1])->0.exp_at },
        ),
{
    lemma_runs_lpop(s, a, f, pw, now);
    let k = a[1];
    lemma_find(s, k);
    let e0 = lookup(s, k)->0;
    let v1 = ValueView::List(l.drop_first());
    lemma_put_value_is_put(s, k, v1);
    lemma_lookup_put(s, k, EntryView { value: v1, exp_at: e0.exp_at }, k);
    assert(l.drop_first() == l.subrange(1, l.len() as int));
}

/// `lpush` puts its value in front of the list (a new list of one, without
/// deadline, on a missing key), answers 1, and leaves every other key alone.
pub proof fn law_lpush_puts_in_front(
    s: StoreView,
    a: Seq<Seq<char>>,
    f: Seq<Option<u64>>,
    pw: Option<Seq<char>>,
    now: u64,
    k2: Seq<char>,
)
    requires
        keys_distinct(s),
        a.len() == 3,
        lookup(s, a[1]) is None || lookup(s, a[1])->0.value is List,
    ensures
        command_spec(s, "lpush"@, a, f, pw, now).1 == int_bytes(1),
        lookup(s, a[1]) is None ==> lookup(command_spec(s, "lpush"@, a, f, pw, now).0, a[1]) == Some(
            EntryView { value: ValueView::List(seq![a[2]]), exp_at: None },
        ),
        lookup(s, a[1]) is Some ==> lookup(command_spec(s, "lpush"@, a, f, pw, now).0, a[1]) == Some(
            EntryView {
                value: ValueView::List(seq![a[2]] + lookup(s, a[1])->0.value->List_0),
                exp_at: lookup(s, a[1])->0.exp_at,
            },
        ),
        k2 != a[1] ==> lookup(command_spec(s, "lpush"@, a, f, pw, now).0, k2) == lookup(s, k2),
{
    lemma_runs_lpush(s, a, f, pw, now);
    let k = a[1];
    lemma_find(s, k);
    if lookup(s, k) is None {
        let e = EntryView { value: ValueView::List(seq![a[2]]), exp_at: None };
        lemma_lookup_put(s, k, e, k);
        lemma_lookup_put(s, k, e, k2);
    } else {
        let e0 = lookup(s, k)->0;
        let v1 = ValueView::List(seq![a[2]] + e0.value->List_0);
        lemma_put_value_is_put(s, k, v1);
        lemma_lookup_put(s, k, EntryView { value: v1, exp_at: e0.exp_at }, k);
        lemma_lookup_put(s, k, EntryView { value: v1, exp_at: e0.exp_at }, k2);
    }
}

/// `llen` answers with the number of elements of a list, 0 for a missing key.
pub proof fn law_llen_counts(
    s: StoreView,
    a: Seq<Seq<char>>,
    f: Seq<Option<u64>>,
    pw: Option<Seq<char>>,
    now: u64,
    l: Seq<Seq<char>>,
)
    requires
        a.len() == 2,
        (lookup(s, a[1]) is None && l.len() == 0) || (lookup(s, a[1]) is Some && lookup(s, a[1])->0.value
            == ValueView::List(l)),
        l.len() <= i64::MAX,
    ensures
        command_spec(s, "llen"@, a, f, pw, now) == (s, int_bytes(l.len() as i64)),
{
    lemma_runs_llen(s, a, f, pw, now);
}

// ---------------------------------------------------------------------------
// Strings and deadlines
// ---------------------------------------------------------------------------

/// `get` answers with the string under a key until its deadline, nil from the
/// deadline on or for a missing key, and a type error for a live key that holds
/// no string; it changes nothing.
pub proof fn law_get_reads_live_strings(
    s: StoreView,
    a: Seq<Seq<char>>,
    f: Seq<Option<u64>>,
    pw: Option<Seq<char>>,
    now: u64,
)
    requires
        a.len() == 2,
    ensures
        command_spec(s, "get"@, a, f, pw, now).0 == s,
        lookup(s, a[1]) is None ==> command_spec(s, "get"@, a, f, pw, now).1 == nil_bytes(),
        lookup(s, a[1]) is Some && expired(lookup(s, a[1])->0, now) ==> command_spec(s, "get"@, a, f, pw, now).1
            == nil_bytes(),
        lookup(s, a[1]) is Some && !expired(lookup(s, a[1])->0, now) ==> command_spec(s, "get"@, a, f, pw, now).1
            == match lookup(s, a[1])->0.value {
            ValueView::Str(v) => str_bytes(v),
            _ => error_bytes(ERR_TYPE, "expect string type"@),
        },
{
    lemma_runs_get(s, a, f, pw, now);
}

/// `pexpire k ms` at `now` on a present key answers 1, and then `pttl k` at
/// any later time `t` answers with the milliseconds left, `now + ms - t`, or 0
/// once the deadline has come; the value is kept until then.
pub proof fn law_pttl_after_pexpire(
    s: StoreView,
    a: Seq<Seq<char>>,
    b: Seq<Seq<char>>,
    f: Seq<Option<u64>>,
    pw: Option<Seq<char>>,
    now: u64,
    t: u64,
    ms: i64,
)
    requires
        keys_distinct(s),
        a.len() == 3,
        b.len() == 2,
        b[1] == a[1],
        spec_parse_i64(a[2]) == Some(ms),
        ms >= 0,
        lookup(s, a[1]) is Some,
        t >= now,
    ensures
        command_spec(s, "pexpire"@, a, f, pw, now).1 == int_bytes(1),
        command_spec(command_spec(s, "pexpire"@, a, f, pw, now).0, "pttl"@, b, f, pw, t).1 == int_bytes(
            if now + ms > t {
                (now + ms - t) as i64
            } else {
                0i64
            },
        ),
{
    lemma_runs_pexpire(s, a, f, pw, now);
    let k = a[1];
    lemma_find(s, k);
    let s1 = command_spec(s, "pexpire"@, a, f, pw, now).0;
    lemma_runs_pttl(s1, b, f, pw, t);
    law_expiry(s, k, ms, now, t);
    let e = EntryView { value: s[crate::store::find(s, k)].1.value, exp_at: Some((now as int + (ms as u64) as int) as u128) };
    assert(s1 == crate::store::put(s, k, e));
    lemma_lookup_put(s, k, e, k);
}

// ---------------------------------------------------------------------------
// Sorted-set scores
// ---------------------------------------------------------------------------

/// `zadd k score name` with a score that is no NaN, then `zscore k name`:
/// the answer is the score just set (for a member already there with an equal
/// score, the score it kept, which compares equal).
pub proof fn law_zscore_after_zadd_reply(
    s: StoreView,
    a: Seq<Seq<char>>,
    b: Seq<Seq<char>>,
    f: Seq<Option<u64>>,
    pw: Option<Seq<char>>,
    now: u64,
    sc: u64,
)
    requires
        keys_distinct(s),
        a.len() == 4,
        b.len() == 3,
        b[1] == a[1],
        b[2] == a[3],
        f[2] == Some(sc),
        !is_nan(sc),
        lookup(s, a[1]) is None || lookup(s, a[1])->0.value is ZSet,
    ensures
        exists|kept: u64|
            score_eq(kept, sc) && command_spec(command_spec(s, "zadd"@, a, f, pw, now).0, "zscore"@, b, f, pw, now).1
                == dbl_bytes(kept),
        (lookup(s, a[1]) is None || !lookup(s, a[1])->0.value->ZSet_0.contains_key(a[3])) ==> command_spec(
            command_spec(s, "zadd"@, a, f, pw, now).0,
            "zscore"@,
            b,
            f,
            pw,
            now,
        ).1 == dbl_bytes(sc),
{
    lemma_runs_zadd(s, a, f, pw, now);
    let s1 = command_spec(s, "zadd"@, a, f, pw, now).0;
    lemma_runs_zscore(s1, b, f, pw, now);
    lemma_find(s, a[1]);
    law_zscore_after_zadd(s, a[1], a[3], sc);
    let r = crate::store::z_score_result(s1, a[1], a[3]);
    assert(score_eq(r.0->0, sc));
    if lookup(s, a[1]) is None || !lookup(s, a[1])->0.value->ZSet_0.contains_key(a[3]) {
        match lookup(s, a[1]) {
            None => {
                let e = EntryView { value: ValueView::ZSet(crate::store::zadd_map(Map::empty(), a[3], sc)), exp_at: None };
                lemma_lookup_put(s, a[1], e, a[1]);
            },
            Some(e0) => {
                let m = e0.value->ZSet_0;
                let v1 = ValueView::ZSet(crate::store::zadd_map(m, a[3], sc));
                lemma_put_value_is_put(s, a[1], v1);
                lemma_lookup_put(s, a[1], EntryView { value: v1, exp_at: e0.exp_at }, a[1]);
            },
        }
    }
}

// ---------------------------------------------------------------------------
// Reading lists
// ---------------------------------------------------------------------------

/// `lrange` reads the elements between two positions, both included, a
/// negative position counting from the end: from a position `start` at or
/// past 0 it lists the elements from `start` on (up to `stop`, or to the end
/// for a `stop` of -1), and it changes nothing.
pub proof fn law_lrange_reads_from_start(
    s: StoreView,
    a: Seq<Seq<char>>,
    f: Seq<Option<u64>>,
    pw: Option<Seq<char>>,
    now: u64,
    l: Seq<Seq<char>>,
    start: i64,
    stop: i64,
)
    requires
        a.len() == 4,
        lookup(s, a[1]) is Some,
        lookup(s, a[1])->0.value == ValueView::List(l),
        spec_parse_i64(a[2]) == Some(start),
        spec_parse_i64(a[3]) == Some(stop),
    ensures
        command_spec(s, "lrange"@, a, f, pw, now).0 == s,
        0 <= start <= l.len() && stop == -1 ==> command_spec(s, "lrange"@, a, f, pw, now).1
            == str_array_bytes(l.subrange(start as int, l.len() as int)),
        0 <= start <= stop < l.len() ==> command_spec(s, "lrange"@, a, f, pw, now).1 == str_array_bytes(
            l.subrange(start as int, stop + 1),
        ),
        start >= l.len() && start >= 0 ==> command_spec(s, "lrange"@, a, f, pw, now).1 == str_array_bytes(
            Seq::empty(),
        ),
        -l.len() <= start < 0 && stop == -1 ==> command_spec(s, "lrange"@, a, f, pw, now).1
            == str_array_bytes(l.subrange(l.len() + start, l.len() as int)),
{
    lemma_runs_lrange(s, a, f, pw, now);
    if 0 <= start <= l.len() && stop == -1 && start == l.len() {
        assert(l.subrange(start as int, l.len() as int) =~= Seq::<Seq<char>>::empty());
    }
    if start >= l.len() && start >= 0 {
        assert(Seq::<Seq<char>>::empty() =~= Seq::empty());
    }
}

/// `lindex` answers with the element at a position, a negative one counting
/// from the end, and with nil past either end.
pub proof fn law_lindex_reads_one(
    s: StoreView,
    a: Seq<Seq<char>>,
    f: Seq<Option<u64>>,
    pw: Option<Seq<char>>,
    now: u64,
    l: Seq<Seq<char>>,
    i: i64,
)
    requires
        a.len() == 3,
        lookup(s, a[1]) is Some,
        lookup(s, a[1])->0.value == ValueView::List(l),
        spec_parse_i64(a[2]) == Some(i),
    ensures
        command_spec(s, "lindex"@, a, f, pw, now).0 == s,
        0 <= i < l.len() ==> command_spec(s, "lindex"@, a, f, pw, now).1 == str_bytes(l[i as int]),
        -l.len() <= i < 0 ==> command_spec(s, "lindex"@, a, f, pw, now).1 == str_bytes(l[l.len() + i]),
        (i >= l.len() || i < -l.len()) ==> command_spec(s, "lindex"@, a, f, pw, now).1 == nil_bytes(),
{
    lemma_runs_lindex(s, a, f, pw, now);
}

// ---------------------------------------------------------------------------
// Sorted-set queries
// ---------------------------------------------------------------------------

/// `zquery k score name offset limit`, with an offset at or past 0 and a
/// positive limit: the answer lists, in ranking order, the pairs that start
/// `offset` places after the first pair at or after (score, name), at most
/// `limit` of them; the store is unchanged.
pub proof fn law_zquery_window(
    s: StoreView,
    a: Seq<Seq<char>>,
    f: Seq<Option<u64>>,
    pw: Option<Seq<char>>,
    now: u64,
    m: Map<Seq<char>, u64>,
    offset: i64,
    limit: i64,
)
    requires
        a.len() == 6,
        lookup(s, a[1]) is Some,
        lookup(s, a[1])->0.value == ValueView::ZSet(m),
        f[2] is Some,
        spec_parse_i64(a[4]) == Some(offset),
        spec_parse_i64(a[5]) == Some(limit),
        offset >= 0,
        limit > 0,
    ensures
        command_spec(s, "zquery"@, a, f, pw, now).0 == s,
        ({
            let r = ranking(m);
            let lb = lower_bound(r, (f[2]->0, a[3]));
            let st = min(lb + offset, r.len() as int);
            command_spec(s, "zquery"@, a, f, pw, now).1 == pair_array_bytes(
                r.subrange(st, min(r.len() as int, st + limit)),
            )
        }),
{
    lemma_runs_zquery(s, a, f, pw, now);
    reveal(query_result);
}

/// How offsets relate: with offset `o` and limit `n`, `zquery` answers with
/// the pairs that offset 0 and limit `o + n` answers with, less the first `o`.
pub proof fn law_zquery_offset_skips(
    s: StoreView,
    a: Seq<Seq<char>>,
    a0: Seq<Seq<char>>,
    f: Seq<Option<u64>>,
    pw: Option<Seq<char>>,
    now: u64,
    m: Map<Seq<char>, u64>,
    o: i64,
    n: i64,
)
    requires
        a.len() == 6,
        a0.len() == 6,
        a0[1] == a[1],
        a0[3] == a[3],
        lookup(s, a[1]) is Some,
        lookup(s, a[1])->0.value == ValueView::ZSet(m),
        f[2] is Some,
        spec_parse_i64(a[4]) == Some(o),
        spec_parse_i64(a[5]) == Some(n),
        spec_parse_i64(a0[4]) == Some(0i64),
        spec_parse_i64(a0[5]) == Some((o + n) as i64),
        o >= 0,
        n > 0,
        o + n <= i64::MAX,
    ensures
        exists|p: Seq<(u64, Seq<char>)>|
            command_spec(s, "zquery"@, a0, f, pw, now).1 == pair_array_bytes(p) && command_spec(
                s,
                "zquery"@,
                a,
                f,
                pw,
                now,
            ).1 == pair_array_bytes(p.skip(min(o as int, p.len() as int))),
{
    law_zquery_window(s, a, f, pw, now, m, o, n);
    law_zquery_window(s, a0, f, pw, now, m, 0, (o + n) as i64);
    let r = ranking(m);
    let lb = lower_bound(r, (f[2]->0, a[3]));
    lemma_lower_bound_props(r, (f[2]->0, a[3]));
    let p = r.subrange(min(lb, r.len() as int), min(r.len() as int, min(lb, r.len() as int) + o + n));
    let st = min(lb + o, r.len() as int);
    assert(p.skip(min(o as int, p.len() as int)) =~= r.subrange(st, min(r.len() as int, st + n)));
}

// ---------------------------------------------------------------------------
// Live keys
// ---------------------------------------------------------------------------

/// `keys` at time `now` lists each key whose deadline is absent or later than
/// `now`, once, and no other: a key whose deadline has passed is not listed,
/// though the sweep may not have removed it yet.
pub proof fn law_keys_lists_the_live_keys(
    s: StoreView,
    a: Seq<Seq<char>>,
    f: Seq<Option<u64>>,
    pw: Option<Seq<char>>,
    now: u64,
)
    requires
        keys_distinct(s),
        a.len() == 1,
    ensures
        command_spec(s, "keys"@, a, f, pw, now).0 == s,
        exists|ks: Seq<Seq<char>>|
            command_spec(s, "keys"@, a, f, pw, now).1 == str_array_bytes(ks) && ks.no_duplicates() && (
            forall|k: Seq<char>|
                #[trigger] ks.contains(k) <==> (lookup(s, k) is Some && !expired(lookup(s, k)->0, now))),
{
    lemma_runs_keys(s, a, f, pw, now);
    law_keys_are_the_live_keys(s, now);
    assert(command_spec(s, "keys"@, a, f, pw, now).1 == str_array_bytes(live_keys(s, now)));
}

// ---------------------------------------------------------------------------
// Job logs
// ---------------------------------------------------------------------------

/// `job log id words...` adds one line, the words joined by spaces, to the
/// job's log list and keeps every line logged before: the list grows by one,
/// and as a multiset it is the old lines plus the new one.
pub proof fn law_job_log_keeps_lines(
    s: StoreView,
    a: Seq<Seq<char>>,
    f: Seq<Option<u64>>,
    pw: Option<Seq<char>>,
    now: u64,
    l: Seq<Seq<char>>,
)
    requires
        keys_distinct(s),
        a.len() >= 3,
        (lookup(s, job_key(a[1], ":log"@)) is None && l.len() == 0) || (lookup(s, job_key(a[1], ":log"@)) is Some
            && lookup(s, job_key(a[1], ":log"@))->0.value == ValueView::List(l)),
    ensures
        command_spec(s, "job log"@, a, f, pw, now).1 == int_bytes(1),
        keys_distinct(command_spec(s, "job log"@, a, f, pw, now).0),
        ({
            let t = command_spec(s, "job log"@, a, f, pw, now).0;
            let key = job_key(a[1], ":log"@);
            &&& lookup(t, key) is Some
            &&& lookup(t, key)->0.value is List
            &&& lookup(t, key)->0.value->List_0.len() == l.len() + 1
            &&& lookup(t, key)->0.value->List_0.to_multiset() == l.to_multiset().insert(
                join_spec(a.skip(2), " "@),
            )
        }),
{
    broadcast use vstd::seq_lib::to_multiset_build;

    lemma_runs_job_log(s, a, f, pw, now);
    let key = job_key(a[1], ":log"@);
    let line = join_spec(a.skip(2), " "@);
    law_lrange_whole(l);
    let vals = crate::store::lrange_result(s, key, 0i64, -1i64).push(line);
    assert(vals == l.push(line));
    law_del(s, key, key);
    let s1 = crate::store::erase(s, key);
    lemma_lpush_all_fresh(s1, key, vals);
    assert(back_to_front(vals) =~= vals.reverse());
    vals.lemma_reverse_to_multiset();
}

/// Whether `x` is one of the items of `job list`: `<id>:<status>` for a job
/// `id` whose record key is live at `now`, whose name is not that of one of a
/// job's side keys, and whose status key holds the string `status` at `now`
/// (and, with a filter, equal to it).
pub open spec fn listed_job(s: StoreView, now: u64, filter: Option<Seq<char>>, x: Seq<char>) -> bool {
    exists|id: Seq<char>|
        {
            &&& lookup(s, #[trigger] job_key(id, ""@)) is Some
            &&& !expired(lookup(s, job_key(id, ""@))->0, now)
            &&& !ends_with(id, ":status"@)
            &&& !ends_with(id, ":result"@)
            &&& !ends_with(id, ":log"@)
            &&& get_str_result(s, job_key(id, ":status"@), now).0 is Some
            &&& (filter is None || filter == get_str_result(s, job_key(id, ":status"@), now).0)
            &&& x == id + ":"@ + get_str_result(s, job_key(id, ":status"@), now).0->0
        }
}

/// The item that `job list` gives for the key `k`, if any.
spec fn job_item(s: StoreView, k: Seq<char>, filter: Option<Seq<char>>, now: u64) -> Option<Seq<char>> {
    let p = "devops:job:"@;
    if p.len() <= k.len() && k.take(p.len() as int) == p {
        let id = k.skip(p.len() as int);
        if ends_with(id, ":status"@) || ends_with(id, ":result"@) || ends_with(id, ":log"@) {
            None
        } else {
            match get_str_result(s, job_key(id, ":status"@), now).0 {
                Some(st) => if filter is None || filter == Some(st) {
                    Some(id + ":"@ + st)
                } else {
                    None
                },
                None => None,
            }
        }
    } else {
        None
    }
}

/// The items for a run of keys are those of its keys, in order.
proof fn lemma_job_list_items(s: StoreView, keys: Seq<Seq<char>>, filter: Option<Seq<char>>, now: u64)
    ensures
        forall|x: Seq<char>|
            #[trigger] job_list_items(s, keys, filter, now).contains(x) <==> exists|i: int|
                0 <= i < keys.len() && job_item(s, #[trigger] keys[i], filter, now) == Some(x),
    decreases keys.len(),
{
    if keys.len() > 0 {
        let ks = keys.drop_last();
        lemma_job_list_items(s, ks, filter, now);
        let prev = job_list_items(s, ks, filter, now);
        let cur = job_list_items(s, keys, filter, now);
        let y = job_item(s, keys.last(), filter, now);
        assert(cur == (match y {
            Some(v) => prev.push(v),
            None => prev,
        }));
        assert forall|x: Seq<char>| #[trigger] cur.contains(x) <==> exists|i: int|
            0 <= i < keys.len() && job_item(s, #[trigger] keys[i], filter, now) == Some(x) by {
            if cur.contains(x) {
                if prev.contains(x) {
                    let i = choose|i: int| 0 <= i < ks.len() && job_item(s, #[trigger] ks[i], filter, now) == Some(x);
                    assert(keys[i] == ks[i]);
                } else {
                    let j = choose|j: int| 0 <= j < cur.len() && cur[j] == x;
                    assert(y == Some(x));
                    assert(keys[keys.len() - 1] == keys.last());
                }
            }
            if exists|i: int| 0 <= i < keys.len() && job_item(s, #[trigger] keys[i], filter, now) == Some(x) {
                let i = choose|i: int| 0 <= i < keys.len() && job_item(s, #[trigger] keys[i], filter, now) == Some(x);
                if i < keys.len() - 1 {
                    assert(ks[i] == keys[i]);
                    assert(prev.contains(x));
                    if y is Some {
                        assert(prev.push(y->0)[prev.index_of(x)] == x);
                    }
                } else {
                    assert(cur[cur.len() - 1] == x);
                }
            }
        }
    }
}

/// `job list` (with an optional status filter) lists exactly the jobs whose
/// record is live and whose status is set, each as `<id>:<status>`, and
/// changes nothing.
pub proof fn law_job_list_lists_jobs(
    s: StoreView,
    a: Seq<Seq<char>>,
    f: Seq<Option<u64>>,
    pw: Option<Seq<char>>,
    now: u64,
)
    requires
        keys_distinct(s),
    ensures
        command_spec(s, "job list"@, a, f, pw, now).0 == s,
        exists|items: Seq<Seq<char>>|
            command_spec(s, "job list"@, a, f, pw, now).1 == str_array_bytes(items) && forall|x: Seq<char>|
                #[trigger] items.contains(x) <==> listed_job(
                    s,
                    now,
                    if a.len() >= 2 {
                        Some(a[1])
                    } else {
                        None
                    },
                    x,
                ),
{
    lemma_runs_job_list(s, a, f, pw, now);
    let filter = if a.len() >= 2 {
        Some(a[1])
    } else {
        None
    };
    let keys = live_keys(s, now);
    law_keys_are_the_live_keys(s, now);
    lemma_job_list_items(s, keys, filter, now);
    let items = job_list_items(s, keys, filter, now);
    let p = "devops:job:"@;
    reveal_strlit("devops:job:");
    reveal_strlit("");
    assert(""@.len() == 0);
    assert forall|x: Seq<char>| #[trigger] items.contains(x) <==> listed_job(s, now, filter, x) by {
        if items.contains(x) {
            let i = choose|i: int| 0 <= i < keys.len() && job_item(s, #[trigger] keys[i], filter, now) == Some(x);
            let k = keys[i];
            assert(keys.contains(k));
            let id = k.skip(p.len() as int);
            assert(id + ""@ =~= id);
            assert(job_key(id, ""@) =~= k);
        }
        if listed_job(s, now, filter, x) {
            let id = choose|id: Seq<char>|
                {
                    &&& lookup(s, #[trigger] job_key(id, ""@)) is Some
                    &&& !expired(lookup(s, job_key(id, ""@))->0, now)
                    &&& !ends_with(id, ":status"@)
                    &&& !ends_with(id, ":result"@)
                    &&& !ends_with(id, ":log"@)
                    &&& get_str_result(s, job_key(id, ":status"@), now).0 is Some
                    &&& (filter is None || filter == get_str_result(s, job_key(id, ":status"@), now).0)
                    &&& x == id + ":"@ + get_str_result(s, job_key(id, ":status"@), now).0->0
                };
            let k = job_key(id, ""@);
            assert(id + ""@ =~= id);
            assert(k =~= p + id);
            assert(keys.contains(k));
            let i = choose|i: int| 0 <= i < keys.len() && keys[i] == k;
            assert(k.take(p.len() as int) =~= p);
            assert(k.skip(p.len() as int) =~= id);
            assert(job_item(s, keys[i], filter, now) == Some(x));
        }
    }
}

/// `del k` answers 1 if `k` was there and 0 if not, after which `k` is gone
/// and every other key holds what it held.
pub proof fn law_del_reply(
    s: StoreView,
    a: Seq<Seq<char>>,
    f: Seq<Option<u64>>,
    pw: Option<Seq<char>>,
    now: u64,
    k2: Seq<char>,
)
    requires
        keys_distinct(s),
        a.len() == 2,
    ensures
        command_spec(s, "del"@, a, f, pw, now).1 == bool_bytes(lookup(s, a[1]) is Some),
        lookup(command_spec(s, "del"@, a, f, pw, now).0, a[1]) is None,
        k2 != a[1] ==> lookup(command_spec(s, "del"@, a, f, pw, now).0, k2) == lookup(s, k2),
{
    lemma_runs_del(s, a, f, pw, now);
    lemma_find(s, a[1]);
    law_del(s, a[1], k2);
}

/// `zrem k name` on a sorted set answers whether `name` was a member, and
/// leaves the set without it, under the same deadline.
pub proof fn law_zrem_reply(
    s: StoreView,
    a: Seq<Seq<char>>,
    f: Seq<Option<u64>>,
    pw: Option<Seq<char>>,
    now: u64,
    m: Map<Seq<char>, u64>,
)
    requires
        keys_distinct(s),
        a.len() == 3,
        lookup(s, a[1]) is Some,
        lookup(s, a[1])->0.value == ValueView::ZSet(m),
    ensures
        command_spec(s, "zrem"@, a, f, pw, now).1 == bool_bytes(m.contains_key(a[2])),
        lookup(command_spec(s, "zrem"@, a, f, pw, now).0, a[1]) == Some(
            EntryView { value: ValueView::ZSet(m.remove(a[2])), exp_at: lookup(s, a[1])->0.exp_at },
        ),
{
    lemma_runs_zrem(s, a, f, pw, now);
    let k = a[1];
    lemma_find(s, k);
    let v1 = ValueView::ZSet(m.remove(a[2]));
    lemma_put_value_is_put(s, k, v1);
    lemma_lookup_put(s, k, EntryView { value: v1, exp_at: lookup(s, k)->0.exp_at }, k);
}

/// Taking out every occurrence leaves none.
proof fn lemma_without_has_none(l: Seq<Seq<char>>, v: Seq<char>)
    ensures
        !without(l, v).contains(v),
    decreases l.len(),
{
    if l.len() > 0 {
        lemma_without_has_none(l.drop_last(), v);
        let w = without(l.drop_last(), v);
        if l.last() != v {
            assert forall|i: int| 0 <= i < w.push(l.last()).len() implies w.push(l.last())[i] != v by {
                if i < w.len() {
                    assert(w.push(l.last())[i] == w[i]);
                }
            }
        }
    }
}

proof fn lemma_counts_nonneg(l: Seq<Seq<char>>, v: Seq<char>, i: int)
    ensures
        count_of(l, v) >= 0,
        count_from(l, v, i) >= 0,
    decreases l.len(), l.len() - i,
{
    if l.len() > 0 {
        lemma_counts_nonneg(l.drop_last(), v, i);
    }
    if i < l.len() {
        lemma_counts_nonneg(l, v, i + 1);
    }
}

/// `lrem k count v` on a list answers how many elements it removed, and the
/// list shrinks by exactly that many; with a count of 0 it removes every
/// occurrence of `v`, and answers how many there were.
pub proof fn law_lrem_reply(
    s: StoreView,
    a: Seq<Seq<char>>,
    f: Seq<Option<u64>>,
    pw: Option<Seq<char>>,
    now: u64,
    l: Seq<Seq<char>>,
    count: i64,
) -> (r: (i64, Seq<Seq<char>>))
    requires
        keys_distinct(s),
        a.len() == 4,
        lookup(s, a[1]) is Some,
        lookup(s, a[1])->0.value == ValueView::List(l),
        spec_parse_i64(a[2]) == Some(count),
        count > i64::MIN,
        l.len() <= i64::MAX,
    ensures
        command_spec(s, "lrem"@, a, f, pw, now).1 == int_bytes(r.0),
        lookup(command_spec(s, "lrem"@, a, f, pw, now).0, a[1]) == Some(
            EntryView { value: ValueView::List(r.1), exp_at: lookup(s, a[1])->0.exp_at },
        ),
        r.1.len() + r.0 == l.len(),
        count == 0 ==> !r.1.contains(a[3]) && r.0 == count_of(l, a[3]),
{
    lemma_runs_lrem(s, a, f, pw, now);
    let k = a[1];
    lemma_find(s, k);
    let rl = crate::store::lrem_list(l, count, a[3]);
    law_lrem_reports_removed(l, count, a[3]);
    let v1 = ValueView::List(rl.0);
    lemma_put_value_is_put(s, k, v1);
    lemma_lookup_put(s, k, EntryView { value: v1, exp_at: lookup(s, k)->0.exp_at }, k);
    lemma_without_has_none(l, a[3]);
    lemma_counts_nonneg(l, a[3], 0);
    assert(0 <= rl.1 <= l.len());
    let n = rl.1 as i64;
    assert(command_spec(s, "lrem"@, a, f, pw, now).1 == int_bytes(n));
    assert(lookup(command_spec(s, "lrem"@, a, f, pw, now).0, a[1]) == Some(
        EntryView { value: ValueView::List(rl.0), exp_at: lookup(s, a[1])->0.exp_at },
    ));
    (n, rl.0)
}

/// With a password set, `auth` answers OK exactly to that password and an
/// error to any other; with none set, it answers OK. It changes nothing.
pub proof fn law_auth_checks_the_password(
    s: StoreView,
    a: Seq<Seq<char>>,
    f: Seq<Option<u64>>,
    pw: Option<Seq<char>>,
    now: u64,
)
    requires
        a.len() == 2,
    ensures
        command_spec(s, "auth"@, a, f, pw, now).0 == s,
        (pw is None || pw == Some(a[1])) ==> command_spec(s, "auth"@, a, f, pw, now).1 == str_bytes("OK"@),
        (pw is Some && pw != Some(a[1])) ==> command_spec(s, "auth"@, a, f, pw, now).1 == error_bytes(
            ERR_TYPE,
            "invalid password"@,
        ),
{
    lemma_runs_auth(s, a, f, pw, now);
}

/// `lpush` onto one key leaves every other key as it was.
proof fn lemma_lpush_other_key(s: StoreView, k: Seq<char>, v: Seq<char>, k2: Seq<char>)
    requires
        keys_distinct(s),
        k2 != k,
    ensures
        keys_distinct(lpush_result(s, k, v)),
        lookup(lpush_result(s, k, v), k2) == lookup(s, k2),
{
    lemma_find(s, k);
    match lookup(s, k) {
        None => {
            lemma_lookup_put(s, k, EntryView { value: ValueView::List(seq![v]), exp_at: None }, k2);
        },
        Some(e0) => {
            match e0.value {
                ValueView::List(l) => {
                    lemma_put_value_is_put(s, k, ValueView::List(seq![v] + l));
                    lemma_lookup_put(s, k, EntryView { value: ValueView::List(seq![v] + l), exp_at: e0.exp_at }, k2);
                },
                _ => {},
            }
        },
    }
}

/// A submitted job is queued: `job submit` answers with the job's id, and
/// `job status` of that id then answers "queued".
pub proof fn law_job_status_after_submit(
    s: StoreView,
    a: Seq<Seq<char>>,
    b: Seq<Seq<char>>,
    f: Seq<Option<u64>>,
    pw: Option<Seq<char>>,
    now: u64,
    t: u64,
)
    requires
        keys_distinct(s),
        a.len() >= 5,
        b.len() == 2,
        b[1] == a[1],
    ensures
        command_spec(s, "job submit"@, a, f, pw, now).1 == str_bytes(a[1]),
        command_spec(command_spec(s, "job submit"@, a, f, pw, now).0, "job status"@, b, f, pw, t).1 == str_bytes(
            "queued"@,
        ),
{
    lemma_runs_job_submit(s, a, f, pw, now);
    let s3 = command_spec(s, "job submit"@, a, f, pw, now).0;
    lemma_runs_job_status(s3, b, f, pw, t);
    let q = "devops:queue"@;
    let p = job_payload(a);
    let s1 = lpush_result(s, q, p);
    let j1 = job_key(a[1], ""@);
    let j2 = job_key(a[1], ":status"@);
    reveal_strlit("devops:queue");
    reveal_strlit("devops:job:");
    assert(j2[7] == 'j' && q[7] == 'q');
    lemma_lpush_other_key(s, q, p, j2);
    let e1 = EntryView { value: ValueView::Str(p), exp_at: None };
    let e2 = EntryView { value: ValueView::Str("queued"@), exp_at: None };
    let s2 = put(s1, j1, e1);
    lemma_lookup_put(s1, j1, e1, j2);
    lemma_lookup_put(s2, j2, e2, j2);
}

/// A reported result sets the job's status: after `job result id code ms`,
/// `job status id` answers "passed" for exit code 0 and "failed" otherwise,
/// and so does the reply to `job result` itself.
pub proof fn law_job_status_after_result(
    s: StoreView,
    a: Seq<Seq<char>>,
    b: Seq<Seq<char>>,
    f: Seq<Option<u64>>,
    pw: Option<Seq<char>>,
    now: u64,
    t: u64,
    code: i64,
    ms: i64,
)
    requires
        keys_distinct(s),
        a.len() == 4,
        spec_parse_i64(a[2]) == Some(code),
        spec_parse_i64(a[3]) == Some(ms),
        b.len() == 2,
        b[1] == a[1],
    ensures
        command_spec(s, "job result"@, a, f, pw, now).1 == str_bytes(
            if code == 0 {
                "passed"@
            } else {
                "failed"@
            },
        ),
        command_spec(command_spec(s, "job result"@, a, f, pw, now).0, "job status"@, b, f, pw, t).1 == str_bytes(
            if code == 0 {
                "passed"@
            } else {
                "failed"@
            },
        ),
{
    lemma_runs_job_result(s, a, f, pw, now);
    let s3 = command_spec(s, "job result"@, a, f, pw, now).0;
    lemma_runs_job_status(s3, b, f, pw, t);
    let status = job_status_word(code);
    let j2 = job_key(a[1], ":status"@);
    let j3 = job_key(a[1], ":result"@);
    let rk = "devops:results"@;
    reveal_strlit("devops:results");
    reveal_strlit("devops:job:");
    reveal_strlit(":status");
    reveal_strlit(":result");
    let n: int = 11 + a[1].len() as int;
    assert(j2[n + 1] == ":status"@[1] && j3[n + 1] == ":result"@[1]);
    assert(j2[n + 1] != j3[n + 1]);
    assert(j2 != j3);
    assert(j2[7] == 'j' && rk[7] == 'r');
    let e2 = EntryView { value: ValueView::Str(status), exp_at: None };
    let s1 = put(s, j2, e2);
    lemma_lookup_put(s, j2, e2, j2);
    let s2e = EntryView {
        value: ValueView::Str(
            "exit_code="@ + crate::text::int_text(code as int) + ",duration_ms="@ + crate::text::int_text(ms as int),
        ),
        exp_at: None,
    };
    let s2 = put(s1, j3, s2e);
    lemma_lookup_put(s1, j3, s2e, j2);
    let entry = a[1] + "|"@ + status + "|"@ + crate::text::int_text(ms as int);
    lemma_lpush_other_key(s2, rk, entry, j2);
}

/// `pexpire` on a missing key answers 0 and changes nothing; `pttl` answers
/// -2 for a missing key and -1 for a key without deadline.
pub proof fn law_pexpire_pttl_edges(
    s: StoreView,
    a: Seq<Seq<char>>,
    b: Seq<Seq<char>>,
    f: Seq<Option<u64>>,
    pw: Option<Seq<char>>,
    now: u64,
)
    requires
        a.len() == 3,
        spec_parse_i64(a[2]) is Some,
        b.len() == 2,
    ensures
        lookup(s, a[1]) is None ==> command_spec(s, "pexpire"@, a, f, pw, now) == (s, int_bytes(0i64)),
        lookup(s, b[1]) is None ==> command_spec(s, "pttl"@, b, f, pw, now) == (s, int_bytes(-2i64)),
        lookup(s, b[1]) is Some && lookup(s, b[1])->0.exp_at is None ==> command_spec(s, "pttl"@, b, f, pw, now)
            == (s, int_bytes(-1i64)),
{
    lemma_runs_pexpire(s, a, f, pw, now);
    lemma_runs_pttl(s, b, f, pw, now);
    lemma_find(s, a[1]);
}

/// `zquery` with a negative offset starts up to `-offset` places (and at most
/// `limit` places) before the first pair at or after (score, name); with a
/// limit of 0 or less it answers with no pair.
pub proof fn law_zquery_backwards_and_empty(
    s: StoreView,
    a: Seq<Seq<char>>,
    f: Seq<Option<u64>>,
    pw: Option<Seq<char>>,
    now: u64,
    m: Map<Seq<char>, u64>,
    offset: i64,
    limit: i64,
)
    requires
        a.len() == 6,
        lookup(s, a[1]) is Some,
        lookup(s, a[1])->0.value == ValueView::ZSet(m),
        f[2] is Some,
        spec_parse_i64(a[4]) == Some(offset),
        spec_parse_i64(a[5]) == Some(limit),
    ensures
        limit <= 0 ==> command_spec(s, "zquery"@, a, f, pw, now) == (s, pair_array_bytes(Seq::empty())),
        limit > 0 && offset < 0 && offset > i64::MIN ==> ({
            let r = ranking(m);
            let lb = lower_bound(r, (f[2]->0, a[3]));
            let back = min(-offset, limit as int);
            let st = if lb >= back {
                lb - back
            } else {
                0
            };
            command_spec(s, "zquery"@, a, f, pw, now) == (s, pair_array_bytes(
                r.subrange(st, min(r.len() as int, st + limit)),
            ))
        }),
{
    lemma_runs_zquery(s, a, f, pw, now);
    reveal(query_result);
}

} // verus!
