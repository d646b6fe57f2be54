use redisops::shard::shard_of;
use redisops::store::Store;

fn bits(x: f64) -> u64 {
    x.to_bits()
}

#[test]
fn get_after_set_reads_back_the_string() {
    let mut s = Store::new();
    s.set_str("k".to_string(), "v".to_string());
    assert_eq!(s.get_str("k", 0), (Some("v".to_string()), false));
    s.set_str("k".to_string(), "w".to_string());
    assert_eq!(s.get_str("k", 5), (Some("w".to_string()), false));
    assert_eq!(s.len(), 1);
}

#[test]
fn set_leaves_other_keys_alone() {
    let mut s = Store::new();
    s.set_str("a".to_string(), "1".to_string());
    s.set_str("b".to_string(), "2".to_string());
    assert_eq!(s.get_str("a", 0), (Some("1".to_string()), false));
    assert_eq!(s.keys(0), vec!["a".to_string(), "b".to_string()]);
}

#[test]
fn get_on_other_kinds_reports_wrong_type() {
    let mut s = Store::new();
    s.lpush("l".to_string(), "x".to_string());
    assert_eq!(s.get_str("l", 0), (None, true));
    assert_eq!(s.get_str("missing", 0), (None, false));
}

#[test]
fn del_removes_only_that_key() {
    let mut s = Store::new();
    s.set_str("a".to_string(), "1".to_string());
    s.set_str("b".to_string(), "2".to_string());
    assert!(s.del("a"));
    assert!(!s.del("a"));
    assert_eq!(s.get_str("a", 0), (None, false));
    assert_eq!(s.get_str("b", 0), (Some("2".to_string()), false));
    assert!(!s.is_empty());
    assert!(s.del("b"));
    assert!(s.is_empty());
}

#[test]
fn expiry_and_ttl() {
    let mut s = Store::new();
    assert_eq!(s.ttl_ms("k", 100), -2);
    s.set_str("k".to_string(), "v".to_string());
    assert_eq!(s.ttl_ms("k", 100), -1);
    assert!(s.expire("k", 50, 100));
    assert!(!s.expire("missing", 50, 100));
    assert_eq!(s.ttl_ms("k", 100), 50);
    assert_eq!(s.ttl_ms("k", 120), 30);
    assert_eq!(s.get_str("k", 149), (Some("v".to_string()), false));
    assert_eq!(s.get_str("k", 150), (None, false));
    assert_eq!(s.ttl_ms("k", 200), 0);
    assert!(s.keys(149).contains(&"k".to_string()));
    assert!(s.keys(150).is_empty());
    // Expired but not swept: still counted and still deletable.
    assert_eq!(s.len(), 1);
    assert!(s.del("k"));
}

#[test]
fn negative_expiry_lies_far_ahead() {
    let mut s = Store::new();
    s.set_str("k".to_string(), "v".to_string());
    assert!(s.expire("k", -1, 10));
    assert_eq!(s.get_str("k", u64::MAX), (Some("v".to_string()), false));
    assert_eq!(s.ttl_ms("k", 10), -1);
}

#[test]
fn purge_sweeps_expired_entries_of_one_shard() {
    let mut s = Store::new();
    s.set_str("a".to_string(), "1".to_string());
    s.set_str("b".to_string(), "2".to_string());
    s.expire("a", 10, 0);
    s.expire("b", 10, 0);
    let sa = shard_of("a");
    let sb = shard_of("b");
    assert_ne!(sa, sb);
    s.purge_shard(sa, 5);
    assert_eq!(s.len(), 2);
    s.purge_shard(sa, 10);
    assert_eq!(s.len(), 1);
    assert_eq!(s.ttl_ms("a", 10), -2);
    assert_eq!(s.ttl_ms("b", 10), 0);
    s.purge_shard(sb, 10);
    assert!(s.is_empty());
}

#[test]
fn shard_of_is_fnv1a_mod_32() {
    fn fnv(key: &str) -> usize {
        let mut h = 0xcbf2_9ce4_8422_2325u64;
        for b in key.as_bytes() {
            h ^= u64::from(*b);
            h = h.wrapping_mul(0x100_0000_01b3);
        }
        (h % 32) as usize
    }
    for key in ["", "a", "b", "hello", "devops:queue", "ünïcode"] {
        assert_eq!(shard_of(key), fnv(key));
        assert!(shard_of(key) < 32);
    }
    assert_eq!(shard_of(""), (0xcbf2_9ce4_8422_2325u64 % 32) as usize);
}

#[test]
fn zset_commands_on_the_store() {
    let mut s = Store::new();
    assert_eq!(s.z_add("z".to_string(), "a".to_string(), bits(1.0)), (true, false));
    assert_eq!(s.z_add("z".to_string(), "a".to_string(), bits(1.0)), (false, false));
    assert_eq!(s.z_add("z".to_string(), "a".to_string(), bits(2.0)), (true, false));
    assert_eq!(s.z_score("z", "a"), (Some(bits(2.0)), false));
    assert_eq!(s.z_score("z", "b"), (None, false));
    assert_eq!(s.z_score("none", "b"), (None, false));
    assert_eq!(s.z_rem("z", "a"), (true, false));
    assert_eq!(s.z_rem("z", "a"), (false, false));
    assert_eq!(s.z_rem("none", "a"), (false, false));
    s.set_str("s".to_string(), "v".to_string());
    assert_eq!(s.z_add("s".to_string(), "a".to_string(), bits(1.0)), (false, true));
    assert_eq!(s.z_rem("s", "a"), (false, true));
    assert_eq!(s.z_score("s", "a"), (None, true));
    assert!(s.z_query("s", bits(0.0), "", 0, 10).1);
    assert!(s.is_zset("z"));
    assert!(!s.is_zset("s"));
}

#[test]
fn zadd_of_nan_on_missing_key_makes_an_empty_set() {
    let mut s = Store::new();
    assert_eq!(s.z_add("z".to_string(), "a".to_string(), f64::NAN.to_bits()), (true, false));
    assert!(s.is_zset("z"));
    assert_eq!(s.z_score("z", "a"), (None, false));
}

#[test]
fn list_commands() {
    let mut s = Store::new();
    s.lpush("q".to_string(), "a".to_string());
    s.lpush("q".to_string(), "b".to_string());
    s.lpush("q".to_string(), "c".to_string());
    assert_eq!(s.llen("q"), 3);
    assert_eq!(s.lrange("q", 0, -1), vec!["c", "b", "a"]);
    assert_eq!(s.lrange("q", -2, -1), vec!["b", "a"]);
    assert_eq!(s.lrange("q", 1, 100), vec!["b", "a"]);
    assert_eq!(s.lrange("q", -100, 0), vec!["c"]);
    assert!(s.lrange("q", 2, 1).is_empty());
    assert!(s.lrange("q", 5, 10).is_empty());
    assert_eq!(s.lindex("q", 0), Some("c".to_string()));
    assert_eq!(s.lindex("q", -1), Some("a".to_string()));
    assert_eq!(s.lindex("q", 3), None);
    assert_eq!(s.lindex("q", -4), None);
    assert_eq!(s.rpop("q"), Some("a".to_string()));
    assert_eq!(s.lpop("q"), Some("c".to_string()));
    assert_eq!(s.lpop("q"), Some("b".to_string()));
    assert_eq!(s.lpop("q"), None);
    assert_eq!(s.rpop("q"), None);
    // The emptied list stays.
    assert_eq!(s.llen("q"), 0);
    assert!(s.is_list("q"));
    assert_eq!(s.llen("missing"), 0);
    s.set_str("s".to_string(), "v".to_string());
    assert_eq!(s.llen("s"), -1);
    s.lpush("s".to_string(), "x".to_string());
    assert_eq!(s.get_str("s", 0), (Some("v".to_string()), false));
    assert_eq!(s.lpop("s"), None);
    assert!(s.lrange("s", 0, -1).is_empty());
}

#[test]
fn lpop_after_lpush_gives_the_value_back() {
    let mut s = Store::new();
    s.lpush("q".to_string(), "old".to_string());
    s.lpush("q".to_string(), "new".to_string());
    assert_eq!(s.lpop("q"), Some("new".to_string()));
    assert_eq!(s.lrange("q", 0, -1), vec!["old"]);
}

#[test]
fn queue_is_first_in_first_out() {
    let mut s = Store::new();
    for v in ["1", "2", "3"] {
        s.lpush("q".to_string(), v.to_string());
    }
    assert_eq!(s.rpop("q"), Some("1".to_string()));
    s.lpush("q".to_string(), "4".to_string());
    assert_eq!(s.rpop("q"), Some("2".to_string()));
    assert_eq!(s.rpop("q"), Some("3".to_string()));
    assert_eq!(s.rpop("q"), Some("4".to_string()));
}

#[test]
fn lrem_counts() {
    let mut s = Store::new();
    for v in ["a", "x", "a", "y", "a"] {
        s.lpush("l".to_string(), v.to_string());
    }
    // List is a, y, a, x, a.
    assert_eq!(s.lrem("l", 1, "a"), 1);
    assert_eq!(s.lrange("l", 0, -1), vec!["y", "a", "x", "a"]);
    assert_eq!(s.lrem("l", -1, "a"), 1);
    assert_eq!(s.lrange("l", 0, -1), vec!["y", "a", "x"]);
    assert_eq!(s.lrem("l", 5, "x"), 1);
    assert_eq!(s.lrem("l", 0, "a"), 1);
    assert_eq!(s.lrange("l", 0, -1), vec!["y"]);
    assert_eq!(s.lrem("l", 0, "zzz"), 0);
    assert_eq!(s.lrem("missing", 1, "a"), 0);
    s.set_str("s".to_string(), "v".to_string());
    assert_eq!(s.lrem("s", 1, "v"), 0);
}

#[test]
fn lrem_negative_count_removes_from_the_back() {
    let mut s = Store::new();
    for v in ["a", "b", "a", "b", "a"] {
        s.lpush("l".to_string(), v.to_string());
    }
    assert_eq!(s.lrem("l", -2, "a"), 2);
    assert_eq!(s.lrange("l", 0, -1), vec!["a", "b", "b"]);
    assert_eq!(s.lrem("l", 0, "b"), 2);
    assert_eq!(s.lrange("l", 0, -1), vec!["a"]);
}

#[test]
fn default_store_is_empty() {
    let s = Store::default();
    assert!(s.is_empty());
    assert!(s.keys(0).is_empty());
}

#[test]
fn queue_pops_every_push_in_order_then_nothing() {
    let mut s = Store::new();
    let xs = ["x1", "x2", "x3", "x4", "x5"];
    for x in xs.iter() {
        s.lpush("q".to_string(), x.to_string());
    }
    for x in xs.iter() {
        assert_eq!(s.rpop("q"), Some(x.to_string()));
    }
    assert_eq!(s.rpop("q"), None);
}

#[test]
fn rpop_on_missing_or_other_kind_changes_nothing() {
    let mut s = Store::new();
    assert_eq!(s.rpop("nope"), None);
    assert_eq!(s.len(), 0);
    s.set_str("k".to_string(), "v".to_string());
    assert_eq!(s.rpop("k"), None);
    assert_eq!(s.get_str("k", 0), (Some("v".to_string()), false));
}

#[test]
fn set_str_replaces_any_kind_and_clears_the_deadline() {
    let mut s = Store::new();
    s.lpush("k".to_string(), "x".to_string());
    s.expire("k", 100, 0);
    s.set_str("other".to_string(), "o".to_string());
    s.set_str("k".to_string(), "v".to_string());
    assert_eq!(s.get_str("k", 1000), (Some("v".to_string()), false));
    assert_eq!(s.ttl_ms("k", 1000), -1);
    assert_eq!(s.get_str("other", 1000), (Some("o".to_string()), false));
}

#[test]
fn thirty_two_sweeps_remove_every_expired_key() {
    let mut s = Store::new();
    let mut keys = Vec::new();
    for i in 0..100 {
        let k = format!("key{}", i);
        s.set_str(k.clone(), "v".to_string());
        if i % 2 == 0 {
            s.expire(&k, 10, 0);
        }
        keys.push(k);
    }
    s.set_str("forever".to_string(), "v".to_string());
    let mut cursor: usize = 7;
    for _ in 0..32 {
        s.purge_shard(cursor % 32, 20);
        cursor += 1;
    }
    assert_eq!(s.len(), 51);
    for (i, k) in keys.iter().enumerate() {
        let expect = if i % 2 == 0 { None } else { Some("v".to_string()) };
        assert_eq!(s.get_str(k, 0).0, expect);
    }
    assert_eq!(s.get_str("forever", 0).0, Some("v".to_string()));
}
