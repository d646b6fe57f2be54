//! The keyspace: string keys holding strings, sorted sets or lists, each with an
//! optional expiry deadline in milliseconds.
//!
//! Time is a parameter: operations that look at expiry take the current time
//! `now` in milliseconds on a monotonic clock. Expired entries stay in the
//! keyspace until `purge_shard` sweeps their shard; meanwhile `get_str` and
//! `keys` skip them, and the other operations still see them.
//!
//! Entries are kept in the order their keys were first inserted; a hash index
//! from key to position finds a key without a scan.
use crate::shard::{spec_shard_of, shard_of, SHARDS};
use crate::zset;
use crate::zset::{is_nan, query_result, score_eq, ZSet};
use std::collections::VecDeque;
use vstd::hash_map::StringHashMap;
use vstd::prelude::*;

verus! {

broadcast use vstd::hash_map::group_hash_map_axioms;

// ---------------------------------------------------------------------------
// The model
// ---------------------------------------------------------------------------

/// What a key holds.
pub enum ValueView {
    Str(Seq<char>),
    ZSet(Map<Seq<char>, u64>),
    List(Seq<Seq<char>>),
}

/// A key's value and its expiry deadline, if any.
pub struct EntryView {
    pub value: ValueView,
    pub exp_at: Option<u128>,
}

/// The keyspace as its entries, in the order they were first inserted.
pub type StoreView = Seq<(Seq<char>, EntryView)>;

/// The position of `k` in `s`, or -1.
pub open spec fn find(s: StoreView, k: Seq<char>) -> int
    decreases s.len(),
{
    if s.len() == 0 {
        -1
    } else if s.last().0 == k {
        s.len() - 1
    } else {
        find(s.drop_last(), k)
    }
}

pub open spec fn lookup(s: StoreView, k: Seq<char>) -> Option<EntryView> {
    if find(s, k) >= 0 {
        Some(s[find(s, k)].1)
    } else {
        None
    }
}

pub open spec fn keys_distinct(s: StoreView) -> bool {
    forall|i: int, j: int| 0 <= i < j < s.len() ==> (#[trigger] s[i]).0 != (#[trigger] s[j]).0
}

/// `s` with `k` bound to `e`: in place if `k` is there, else at the end.
pub open spec fn put(s: StoreView, k: Seq<char>, e: EntryView) -> StoreView {
    if find(s, k) >= 0 {
        s.update(find(s, k), (k, e))
    } else {
        s.push((k, e))
    }
}

/// `s` with the value of `k`, which is there, replaced and its deadline kept.
pub open spec fn put_value(s: StoreView, k: Seq<char>, v: ValueView) -> StoreView {
    s.update(find(s, k), (k, EntryView { value: v, exp_at: s[find(s, k)].1.exp_at }))
}

/// `s` without `k`.
pub open spec fn erase(s: StoreView, k: Seq<char>) -> StoreView {
    if find(s, k) >= 0 {
        s.remove(find(s, k))
    } else {
        s
    }
}

/// Whether an entry's deadline has passed at `now`.
pub open spec fn expired(e: EntryView, now: u64) -> bool {
    match e.exp_at {
        Some(t) => now >= t,
        None => false,
    }
}

/// The keys of the entries that have not expired at `now`, in order.
pub open spec fn live_keys(s: StoreView, now: u64) -> Seq<Seq<char>>
    decreases s.len(),
{
    if s.len() == 0 {
        Seq::empty()
    } else if expired(s.last().1, now) {
        live_keys(s.drop_last(), now)
    } else {
        live_keys(s.drop_last(), now).push(s.last().0)
    }
}

/// `s` without the entries of shard `shard` that have expired at `now`.
pub open spec fn purged(s: StoreView, shard: int, now: u64) -> StoreView
    decreases s.len(),
{
    if s.len() == 0 {
        s
    } else if spec_shard_of(s.last().0) == shard && expired(s.last().1, now) {
        purged(s.drop_last(), shard, now)
    } else {
        purged(s.drop_last(), shard, now).push(s.last())
    }
}

/// The deadline `ms` milliseconds after `now`; `ms` is taken as an unsigned
/// 64-bit count, so a negative `ms` lies far in the future.
pub open spec fn deadline(now: u64, ms: i64) -> u128 {
    (now as int + (ms as u64) as int) as u128
}

/// What `get_str` returns: the string under `k` if it has not expired, and
/// whether `k` holds something other than a string.
pub open spec fn get_str_result(s: StoreView, k: Seq<char>, now: u64) -> (Option<Seq<char>>, bool) {
    match lookup(s, k) {
        Some(e) => if expired(e, now) {
            (None, false)
        } else {
            match e.value {
                ValueView::Str(v) => (Some(v), false),
                _ => (None, true),
            }
        },
        None => (None, false),
    }
}

/// What `ttl_ms` returns: -2 for a missing key, -1 for one without deadline,
/// else the milliseconds left (0 once passed), cast to `i64`.
pub open spec fn ttl_result(s: StoreView, k: Seq<char>, now: u64) -> i64 {
    match lookup(s, k) {
        Some(e) => match e.exp_at {
            Some(t) => (if t > now {
                t - now
            } else {
                0
            }) as i64,
            None => -1i64,
        },
        None => -2i64,
    }
}

/// The store after `expire`: the deadline of `k`, if present, set.
pub open spec fn expire_result(s: StoreView, k: Seq<char>, ms: i64, now: u64) -> StoreView {
    if find(s, k) >= 0 {
        s.update(find(s, k), (k, EntryView { value: s[find(s, k)].1.value, exp_at: Some(deadline(now, ms)) }))
    } else {
        s
    }
}

/// Whether setting `name` to `score` changes a score map (see `ZSet::add`).
pub open spec fn zadd_changed(m: Map<Seq<char>, u64>, name: Seq<char>, score: u64) -> bool {
    !is_nan(score) && !(m.contains_key(name) && score_eq(m[name], score))
}

/// A score map after setting `name` to `score`.
pub open spec fn zadd_map(m: Map<Seq<char>, u64>, name: Seq<char>, score: u64) -> Map<Seq<char>, u64> {
    if zadd_changed(m, name, score) {
        m.insert(name, score)
    } else {
        m
    }
}

/// The store after `z_add`, and what it returns: whether the set changed (or a
/// new set was made), and whether `k` holds something other than a sorted set.
pub open spec fn z_add_result(s: StoreView, k: Seq<char>, name: Seq<char>, score: u64) -> (StoreView, (bool, bool)) {
    match lookup(s, k) {
        None => (
            put(s, k, EntryView { value: ValueView::ZSet(zadd_map(Map::empty(), name, score)), exp_at: None }),
            (true, false),
        ),
        Some(e) => match e.value {
            ValueView::ZSet(m) => (put_value(s, k, ValueView::ZSet(zadd_map(m, name, score))), (zadd_changed(m, name, score), false)),
            _ => (s, (false, true)),
        },
    }
}

/// The store after `z_rem`, and what it returns: whether `name` was removed, and
/// whether `k` holds something other than a sorted set.
pub open spec fn z_rem_result(s: StoreView, k: Seq<char>, name: Seq<char>) -> (StoreView, (bool, bool)) {
    match lookup(s, k) {
        None => (s, (false, false)),
        Some(e) => match e.value {
            ValueView::ZSet(m) => (put_value(s, k, ValueView::ZSet(m.remove(name))), (m.contains_key(name), false)),
            _ => (s, (false, true)),
        },
    }
}

/// What `z_score` returns.
pub open spec fn z_score_result(s: StoreView, k: Seq<char>, name: Seq<char>) -> (Option<u64>, bool) {
    match lookup(s, k) {
        None => (None, false),
        Some(e) => match e.value {
            ValueView::ZSet(m) => (if m.contains_key(name) { Some(m[name]) } else { None }, false),
            _ => (None, true),
        },
    }
}

/// What `z_query` returns.
pub open spec fn z_query_result(
    s: StoreView,
    k: Seq<char>,
    min_score: u64,
    min_name: Seq<char>,
    offset: i64,
    limit: i64,
) -> (Seq<(u64, Seq<char>)>, bool) {
    match lookup(s, k) {
        None => (Seq::empty(), false),
        Some(e) => match e.value {
            ValueView::ZSet(m) => (query_result(m, min_score, min_name, offset as int, limit as int), false),
            _ => (Seq::empty(), true),
        },
    }
}

/// Whether `k` holds a sorted set.
pub open spec fn holds_zset(s: StoreView, k: Seq<char>) -> bool {
    match lookup(s, k) {
        Some(e) => e.value is ZSet,
        None => false,
    }
}

/// Whether `k` holds a list.
pub open spec fn holds_list(s: StoreView, k: Seq<char>) -> bool {
    match lookup(s, k) {
        Some(e) => e.value is List,
        None => false,
    }
}

/// The store after `lpush`: `v` put at the front of the list under `k`, or a
/// new list; a key of another kind is left alone.
pub open spec fn lpush_result(s: StoreView, k: Seq<char>, v: Seq<char>) -> StoreView {
    match lookup(s, k) {
        None => put(s, k, EntryView { value: ValueView::List(seq![v]), exp_at: None }),
        Some(e) => match e.value {
            ValueView::List(l) => put_value(s, k, ValueView::List(seq![v] + l)),
            _ => s,
        },
    }
}

/// The store after `rpop`, and the element taken from the back of the list.
pub open spec fn rpop_result(s: StoreView, k: Seq<char>) -> (StoreView, Option<Seq<char>>) {
    match lookup(s, k) {
        Some(e) => match e.value {
            ValueView::List(l) => if l.len() > 0 {
                (put_value(s, k, ValueView::List(l.drop_last())), Some(l.last()))
            } else {
                (s, None)
            },
            _ => (s, None),
        },
        None => (s, None),
    }
}

/// The store after `lpop`, and the element taken from the front of the list.
pub open spec fn lpop_result(s: StoreView, k: Seq<char>) -> (StoreView, Option<Seq<char>>) {
    match lookup(s, k) {
        Some(e) => match e.value {
            ValueView::List(l) => if l.len() > 0 {
                (put_value(s, k, ValueView::List(l.drop_first())), Some(l[0]))
            } else {
                (s, None)
            },
            _ => (s, None),
        },
        None => (s, None),
    }
}

/// The elements `start..=stop` of a list; negative positions count from the end.
pub open spec fn lrange_seq(l: Seq<Seq<char>>, start: i64, stop: i64) -> Seq<Seq<char>> {
    let len = l.len() as int;
    let st = if start < 0 {
        zset::max(len + start, 0)
    } else {
        start as int
    };
    let en = if stop < 0 {
        zset::max(len + stop + 1, 0)
    } else {
        zset::min(stop + 1, len)
    };
    if st >= en {
        Seq::empty()
    } else {
        l.subrange(st, en)
    }
}

/// What `lrange` returns.
pub open spec fn lrange_result(s: StoreView, k: Seq<char>, start: i64, stop: i64) -> Seq<Seq<char>> {
    match lookup(s, k) {
        Some(e) => match e.value {
            ValueView::List(l) => lrange_seq(l, start, stop),
            _ => Seq::empty(),
        },
        None => Seq::empty(),
    }
}

/// What `lindex` returns.
pub open spec fn lindex_result(s: StoreView, k: Seq<char>, idx: i64) -> Option<Seq<char>> {
    match lookup(s, k) {
        Some(e) => match e.value {
            ValueView::List(l) => {
                let i = if idx < 0 {
                    l.len() + idx
                } else {
                    idx as int
                };
                if 0 <= i < l.len() {
                    Some(l[i])
                } else {
                    None
                }
            },
            _ => None,
        },
        None => None,
    }
}

/// What `llen` returns: 0 for a missing key, -1 for a key that is no list.
pub open spec fn llen_result(s: StoreView, k: Seq<char>) -> i64 {
    match lookup(s, k) {
        Some(e) => match e.value {
            ValueView::List(l) => l.len() as i64,
            _ => -1i64,
        },
        None => 0i64,
    }
}

/// How many times `v` occurs in `l`.
pub open spec fn count_of(l: Seq<Seq<char>>, v: Seq<char>) -> int
    decreases l.len(),
{
    if l.len() == 0 {
        0
    } else {
        count_of(l.drop_last(), v) + if l.last() == v {
            1int
        } else {
            0int
        }
    }
}

/// `l` without any occurrence of `v`.
pub open spec fn without(l: Seq<Seq<char>>, v: Seq<char>) -> Seq<Seq<char>>
    decreases l.len(),
{
    if l.len() == 0 {
        l
    } else if l.last() == v {
        without(l.drop_last(), v)
    } else {
        without(l.drop_last(), v).push(l.last())
    }
}

/// `l` without the first `n` occurrences of `v`.
pub open spec fn kept_front(l: Seq<Seq<char>>, v: Seq<char>, n: int) -> Seq<Seq<char>>
    decreases l.len(),
{
    if l.len() == 0 {
        l
    } else if l.last() == v && count_of(l.drop_last(), v) < n {
        kept_front(l.drop_last(), v, n)
    } else {
        kept_front(l.drop_last(), v, n).push(l.last())
    }
}

/// How many times `v` occurs in `l[i..]`.
pub open spec fn count_from(l: Seq<Seq<char>>, v: Seq<char>, i: int) -> int
    decreases l.len() - i,
{
    if i >= l.len() {
        0
    } else {
        count_from(l, v, i + 1) + if l[i] == v {
            1int
        } else {
            0int
        }
    }
}

/// `l[i..]` without the last `n` occurrences of `v`.
pub open spec fn kept_back(l: Seq<Seq<char>>, v: Seq<char>, n: int, i: int) -> Seq<Seq<char>>
    decreases l.len() - i,
{
    if i >= l.len() {
        Seq::empty()
    } else if l[i] == v && count_from(l, v, i + 1) < n {
        kept_back(l, v, n, i + 1)
    } else {
        seq![l[i]] + kept_back(l, v, n, i + 1)
    }
}

/// The list after `lrem` and how many elements it removed: every occurrence of
/// `v` for `count == 0`, the first `count` for a positive count, the last
/// `-count` for a negative one.
pub open spec fn lrem_list(l: Seq<Seq<char>>, count: i64, v: Seq<char>) -> (Seq<Seq<char>>, int) {
    if count == 0 {
        (without(l, v), count_of(l, v))
    } else if count > 0 {
        (kept_front(l, v, count as int), zset::min(count_of(l, v), count as int))
    } else {
        (kept_back(l, v, -count, 0), zset::min(count_from(l, v, 0), -count))
    }
}

/// The store after `lrem`, and how many elements were removed.
pub open spec fn lrem_result(s: StoreView, k: Seq<char>, count: i64, v: Seq<char>) -> (StoreView, i64) {
    match lookup(s, k) {
        Some(e) => match e.value {
            ValueView::List(l) => (
                put_value(s, k, ValueView::List(lrem_list(l, count, v).0)),
                lrem_list(l, count, v).1 as i64,
            ),
            _ => (s, 0i64),
        },
        None => (s, 0i64),
    }
}

// ---------------------------------------------------------------------------
// Lemmas on the model
// ---------------------------------------------------------------------------

pub proof fn lemma_find(s: StoreView, k: Seq<char>)
    ensures
        -1 <= find(s, k) < s.len(),
        find(s, k) >= 0 ==> s[find(s, k)].0 == k,
        find(s, k) == -1 ==> forall|i: int| 0 <= i < s.len() ==> (#[trigger] s[i]).0 != k,
    decreases s.len(),
{
    if s.len() > 0 {
        lemma_find(s.drop_last(), k);
        if s.last().0 != k {
            assert forall|i: int| 0 <= i < s.len() - 1 implies s.drop_last()[i] == s[i] by {}
        }
    }
}

pub proof fn lemma_find_at(s: StoreView, k: Seq<char>, i: int)
    requires
        keys_distinct(s),
        0 <= i < s.len(),
        s[i].0 == k,
    ensures
        find(s, k) == i,
    decreases s.len(),
{
    if i < s.len() - 1 {
        assert(s[i].0 != s[s.len() - 1].0);
        let t = s.drop_last();
        assert(t[i] == s[i]);
        lemma_find_at(t, k, i);
    }
}

/// Two keyspaces with the same keys in the same places find each key at the
/// same place.
proof fn lemma_find_same_keys(s: StoreView, t: StoreView, k: Seq<char>)
    requires
        s.len() == t.len(),
        forall|j: int| 0 <= j < s.len() ==> (#[trigger] s[j]).0 == t[j].0,
    ensures
        find(s, k) == find(t, k),
    decreases s.len(),
{
    if s.len() > 0 {
        let s1 = s.drop_last();
        let t1 = t.drop_last();
        assert forall|j: int| 0 <= j < s1.len() implies (#[trigger] s1[j]).0 == t1[j].0 by {
            assert(s1[j] == s[j] && t1[j] == t[j]);
        }
        lemma_find_same_keys(s1, t1, k);
    }
}

/// `m` gives the position of each key of `s`, and holds no other key.
spec fn indexes(m: Map<Seq<char>, usize>, s: StoreView) -> bool {
    forall|k: Seq<char>|
        #![trigger m.contains_key(k)]
        #![trigger find(s, k)]
        (m.contains_key(k) <==> find(s, k) >= 0) && (m.contains_key(k) ==> m[k] as int == find(s, k))
}

proof fn lemma_distinct_update(s: StoreView, i: int, e: EntryView)
    requires
        keys_distinct(s),
        0 <= i < s.len(),
    ensures
        keys_distinct(s.update(i, (s[i].0, e))),
        forall|k: Seq<char>| #[trigger] find(s.update(i, (s[i].0, e)), k) == find(s, k),
        forall|m: Map<Seq<char>, usize>| indexes(m, s) ==> #[trigger] indexes(m, s.update(i, (s[i].0, e))),
{
    let t = s.update(i, (s[i].0, e));
    assert forall|a: int, b: int| 0 <= a < b < t.len() implies (#[trigger] t[a]).0 != (#[trigger] t[b]).0 by {
        assert(t[a].0 == s[a].0);
        assert(t[b].0 == s[b].0);
    }
    assert forall|k: Seq<char>| #[trigger] find(t, k) == find(s, k) by {
        assert forall|j: int| 0 <= j < t.len() implies (#[trigger] t[j]).0 == s[j].0 by {}
        lemma_find_same_keys(t, s, k);
    }
    assert forall|m: Map<Seq<char>, usize>| indexes(m, s) implies #[trigger] indexes(m, t) by {
        assert forall|k: Seq<char>|
            #![trigger m.contains_key(k)]
            #![trigger find(t, k)]
            (m.contains_key(k) <==> find(t, k) >= 0) && (m.contains_key(k) ==> m[k] as int == find(t, k)) by {
            assert(find(t, k) == find(s, k));
            assert(m.contains_key(k) <==> find(s, k) >= 0);
        }
    }
}

proof fn lemma_distinct_push(s: StoreView, k: Seq<char>, e: EntryView, n: usize)
    requires
        keys_distinct(s),
        find(s, k) == -1,
        n == s.len(),
    ensures
        keys_distinct(s.push((k, e))),
        forall|m: Map<Seq<char>, usize>|
            indexes(m, s) ==> #[trigger] indexes(m.insert(k, n), s.push((k, e))),
{
    lemma_find(s, k);
    let t = s.push((k, e));
    assert(t.drop_last() =~= s);
    assert forall|m: Map<Seq<char>, usize>| indexes(m, s) implies #[trigger] indexes(m.insert(k, n), t) by {
        let m1 = m.insert(k, n);
        assert forall|k2: Seq<char>|
            #![trigger m1.contains_key(k2)]
            #![trigger find(t, k2)]
            (m1.contains_key(k2) <==> find(t, k2) >= 0) && (m1.contains_key(k2) ==> m1[k2] as int == find(t, k2)) by {
            if k2 != k {
                assert(find(t, k2) == find(s, k2));
                assert(m.contains_key(k2) <==> find(s, k2) >= 0);
            }
        }
    }
    assert forall|a: int, b: int| 0 <= a < b < t.len() implies (#[trigger] t[a]).0 != (#[trigger] t[b]).0 by {
        assert(t[a] == s[a]);
        if b < s.len() {
            assert(t[b] == s[b]);
        }
    }
}

proof fn lemma_distinct_remove(s: StoreView, i: int)
    requires
        keys_distinct(s),
        0 <= i < s.len(),
    ensures
        keys_distinct(s.remove(i)),
{
    let t = s.remove(i);
    assert forall|a: int, b: int| 0 <= a < b < t.len() implies (#[trigger] t[a]).0 != (#[trigger] t[b]).0 by {
        let a0 = if a < i { a } else { a + 1 };
        let b0 = if b < i { b } else { b + 1 };
        assert(t[a] == s[a0]);
        assert(t[b] == s[b0]);
    }
}

pub proof fn lemma_purged_distinct(s: StoreView, shard: int, now: u64)
    requires
        keys_distinct(s),
    ensures
        keys_distinct(purged(s, shard, now)),
        forall|i: int| 0 <= i < purged(s, shard, now).len() ==> s.contains(#[trigger] purged(s, shard, now)[i]),
    decreases s.len(),
{
    if s.len() > 0 {
        let t = s.drop_last();
        assert(keys_distinct(t)) by {
            assert forall|a: int, b: int| 0 <= a < b < t.len() implies (#[trigger] t[a]).0 != (#[trigger] t[b]).0 by {
                assert(t[a] == s[a] && t[b] == s[b]);
            }
        }
        lemma_purged_distinct(t, shard, now);
        let p = purged(t, shard, now);
        let q = purged(s, shard, now);
        assert forall|i: int| 0 <= i < p.len() implies s.contains(#[trigger] p[i]) by {
            let j = choose|j: int| 0 <= j < t.len() && t[j] == p[i];
            assert(s[j] == p[i]);
        }
        if !(spec_shard_of(s.last().0) == shard && expired(s.last().1, now)) {
            assert forall|i: int| 0 <= i < q.len() implies s.contains(#[trigger] q[i]) by {
                if i < p.len() {
                    assert(q[i] == p[i]);
                } else {
                    assert(q[i] == s[s.len() - 1]);
                }
            }
            assert forall|a: int, b: int| 0 <= a < b < q.len() implies (#[trigger] q[a]).0 != (#[trigger] q[b]).0 by {
                assert(q[a] == p[a]);
                if b < p.len() {
                    assert(q[b] == p[b]);
                } else {
                    let j = choose|j: int| 0 <= j < t.len() && t[j] == p[a];
                    assert(s[j] == t[j]);
                    assert(s[j].0 != s[s.len() - 1].0);
                }
            }
        }
    }
}


/// The list `l` after `lrem` with `count` and `val`, and how many were removed.
fn remove_occurrences(l: &VecDeque<String>, count: i64, val: &str) -> (r: (VecDeque<String>, i64))
    requires
        count > i64::MIN,
    ensures
        list_view(r.0@) == lrem_list(list_view(l@), count, val@).0,
        r.1 == lrem_list(list_view(l@), count, val@).1 as i64,
{
    let ghost lv = list_view(l@);
    let ghost v = val@;
    let n = l.len();
    let mut out: VecDeque<String> = VecDeque::new();
    let mut removed: u64 = 0;
    if count >= 0 {
        let mut j: usize = 0;
        while j < n
            invariant
                j <= n == l@.len(),
                lv == list_view(l@),
                v == val@,
                count >= 0,
                removed <= j,
                count == 0 ==> list_view(out@) == without(lv.take(j as int), v),
                count == 0 ==> removed == count_of(lv.take(j as int), v),
                count > 0 ==> list_view(out@) == kept_front(lv.take(j as int), v, count as int),
                count > 0 ==> removed == zset::min(count_of(lv.take(j as int), v), count as int),
            decreases n - j,
        {
            let ghost before = out@;
            let ghost p = lv.take(j as int);
            assert(lv.take(j + 1).drop_last() == p);
            assert(lv.take(j + 1).last() == lv[j as int]);
            let eq = crate::text::str_eq(l[j].as_str(), val);
            assert(eq == (lv[j as int] == v));
            if eq && (count == 0 || (removed as i64) < count) {
                removed = removed + 1;
            } else {
                out.push_back(l[j].clone());
                assert(list_view(out@) =~= list_view(before).push(lv[j as int]));
            }
            j = j + 1;
        }
        assert(lv.take(n as int) == lv);
    } else {
        let k: i64 = -count;
        let mut j: usize = n;
        while j > 0
            invariant
                j <= n == l@.len(),
                lv == list_view(l@),
                v == val@,
                count < 0,
                k == -count,
                removed <= n - j,
                list_view(out@) == kept_back(lv, v, k as int, j as int),
                removed == zset::min(count_from(lv, v, j as int), k as int),
            decreases j,
        {
            j = j - 1;
            let ghost before = out@;
            let eq = crate::text::str_eq(l[j].as_str(), val);
            assert(eq == (lv[j as int] == v));
            if eq && (removed as i64) < k {
                removed = removed + 1;
            } else {
                out.push_front(l[j].clone());
                assert(list_view(out@) =~= seq![lv[j as int]] + list_view(before));
            }
        }
    }
    (out, removed as i64)
}

// ---------------------------------------------------------------------------
// The store
// ---------------------------------------------------------------------------

/// What a key holds.
pub enum Value {
    Str(String),
    ZSet(ZSet),
    List(VecDeque<String>),
}

pub open spec fn list_view(l: Seq<String>) -> Seq<Seq<char>> {
    l.map_values(|x: String| x@)
}

impl View for Value {
    type V = ValueView;

    open spec fn view(&self) -> ValueView {
        match self {
            Value::Str(s) => ValueView::Str(s@),
            Value::ZSet(z) => ValueView::ZSet(z@),
            Value::List(l) => ValueView::List(list_view(l@)),
        }
    }
}

struct Entry {
    typ: Value,
    exp_at: Option<u128>,
}

impl Entry {
    spec fn view(&self) -> EntryView {
        EntryView { value: self.typ@, exp_at: self.exp_at }
    }

    /// Whether the deadline has passed at `now`.
    fn expired(&self, now: u64) -> (r: bool)
        ensures
            r == expired(self.view(), now),
    {
        match self.exp_at {
            Some(t) => now as u128 >= t,
            None => false,
        }
    }
}

struct Slot {
    key: String,
    entry: Entry,
}

impl Slot {
    spec fn view(&self) -> (Seq<char>, EntryView) {
        (self.key@, self.entry.view())
    }
}

/// The keyspace: its entries in insertion order, and the position of each key.
pub struct Store {
    slots: Vec<Slot>,
    index: StringHashMap<usize>,
}

impl View for Store {
    type V = StoreView;

    closed spec fn view(&self) -> StoreView {
        self.slots@.map_values(|s: Slot| s.view())
    }
}

impl Default for Store {
    fn default() -> (s: Self)
        ensures
            s.wf(),
            s@ == Seq::<(Seq<char>, EntryView)>::empty(),
    {
        Self::new()
    }
}

impl Store {
    /// Keys are distinct, and every sorted set is well formed.
    pub closed spec fn wf(&self) -> bool {
        &&& keys_distinct(self@)
        &&& indexes(self.index@, self@)
        &&& forall|i: int|
            0 <= i < self.slots@.len() ==> match (#[trigger] self.slots@[i]).entry.typ {
                Value::ZSet(z) => z.wf(),
                _ => true,
            }
    }

    /// In a well-formed store no key occurs twice.
    pub proof fn lemma_wf(&self)
        requires
            self.wf(),
        ensures
            keys_distinct(self@),
    {
    }

    /// An empty store.
    pub fn new() -> (s: Self)
        ensures
            s.wf(),
            s@ == Seq::<(Seq<char>, EntryView)>::empty(),
    {
        let s = Store { slots: Vec::new(), index: StringHashMap::new() };
        assert(s@ =~= Seq::<(Seq<char>, EntryView)>::empty());
        s
    }

    /// The number of entries, expired ones included.
    pub fn len(&self) -> (n: usize)
        ensures
            n == self@.len(),
    {
        self.slots.len()
    }

    /// Whether the store has no entry, expired ones included.
    pub fn is_empty(&self) -> (b: bool)
        ensures
            b == (self@.len() == 0),
    {
        self.len() == 0
    }

    /// The position of `key`.
    fn find_slot(&self, key: &str) -> (r: Option<usize>)
        requires
            self.wf(),
        ensures
            match r {
                Some(i) => find(self@, key@) == i && i < self@.len() && self@[i as int].0 == key@,
                None => find(self@, key@) == -1,
            },
    {
        proof {
            lemma_find(self@, key@);
        }
        match self.index.get(key) {
            Some(i) => Some(*i),
            None => None,
        }
    }

    /// The string under `key`, unless it has expired; and whether `key` holds
    /// something other than a string.
    pub fn get_str(&self, key: &str, now: u64) -> (r: (Option<String>, bool))
        requires
            self.wf(),
        ensures
            (match r.0 {
                Some(v) => Some(v@),
                None => None::<Seq<char>>,
            }, r.1) == get_str_result(self@, key@, now),
    {
        match self.find_slot(key) {
            Some(i) => {
                let e = &self.slots[i].entry;
                assert(self@[i as int].1 == e.view());
                if e.expired(now) {
                    (None, false)
                } else {
                    match &e.typ {
                        Value::Str(s) => (Some(s.clone()), false),
                        _ => (None, true),
                    }
                }
            },
            None => (None, false),
        }
    }

    /// Binds `key` to the string `val`, with no deadline.
    pub fn set_str(&mut self, key: String, val: String)
        requires
            old(self).wf(),
        ensures
            final(self).wf(),
            final(self)@ == put(old(self)@, key@, EntryView { value: ValueView::Str(val@), exp_at: None }),
    {
        let ghost e = EntryView { value: ValueView::Str(val@), exp_at: None };
        let slot = Slot { key, entry: Entry { typ: Value::Str(val), exp_at: None } };
        assert(slot.view() == (slot.key@, e));
        self.place(slot);
    }

    /// Puts `slot` in place of the entry with its key, or at the end.
    fn place(&mut self, slot: Slot)
        requires
            old(self).wf(),
            match slot.entry.typ {
                Value::ZSet(z) => z.wf(),
                _ => true,
            },
        ensures
            final(self).wf(),
            final(self)@ == put(old(self)@, slot.key@, slot.entry.view()),
    {
        let ghost k = slot.key@;
        let ghost e = slot.entry.view();
        match self.find_slot(slot.key.as_str()) {
            Some(i) => {
                proof {
                    lemma_find(self@, k);
                    lemma_distinct_update(self@, i as int, e);
                }
                self.slots.set(i, slot);
                assert(self@ =~= old(self)@.update(i as int, (k, e)));
            },
            None => {
                let n = self.slots.len();
                proof {
                    lemma_distinct_push(self@, k, e, n);
                }
                let key = slot.key.clone();
                self.slots.push(slot);
                self.index.insert(key, n);
                assert(self@ =~= old(self)@.push((k, e)));
            },
        }
    }

    /// Removes `key`. Returns whether it was there.
    pub fn del(&mut self, key: &str) -> (r: bool)
        requires
            old(self).wf(),
        ensures
            final(self).wf(),
            r == (find(old(self)@, key@) >= 0),
            final(self)@ == erase(old(self)@, key@),
    {
        match self.find_slot(key) {
            Some(i) => {
                proof {
                    lemma_distinct_remove(self@, i as int);
                }
                self.slots.remove(i);
                assert(self@ =~= old(self)@.remove(i as int));
                self.rebuild_index();
                true
            },
            None => false,
        }
    }

    /// The keys that have not expired at `now`, in insertion order.
    pub fn keys(&self, now: u64) -> (out: Vec<String>)
        ensures
            list_view(out@) == live_keys(self@, now),
    {
        let mut out: Vec<String> = Vec::new();
        let mut i: usize = 0;
        while i < self.slots.len()
            invariant
                i <= self.slots@.len(),
                list_view(out@) == live_keys(self@.take(i as int), now),
            decreases self.slots@.len() - i,
        {
            let ghost before = out@;
            assert(self@.take(i + 1).drop_last() == self@.take(i as int));
            assert(self@.take(i + 1).last() == self@[i as int]);
            let slot = &self.slots[i];
            assert(self@[i as int] == slot.view());
            if !slot.entry.expired(now) {
                out.push(slot.key.clone());
                assert(list_view(out@) =~= list_view(before).push(slot.key@));
            }
            i = i + 1;
        }
        assert(self@.take(self@.len() as int) == self@);
        out
    }

    /// Sets the deadline of `key` to `ms` milliseconds after `now`. Returns
    /// whether `key` was there.
    pub fn expire(&mut self, key: &str, ms: i64, now: u64) -> (r: bool)
        requires
            old(self).wf(),
        ensures
            final(self).wf(),
            r == (find(old(self)@, key@) >= 0),
            final(self)@ == expire_result(old(self)@, key@, ms, now),
    {
        match self.find_slot(key) {
            Some(i) => {
                let t: u128 = now as u128 + (ms as u64) as u128;
                let ghost e = EntryView { value: self@[i as int].1.value, exp_at: Some(t) };
                proof {
                    lemma_find(self@, key@);
                    lemma_distinct_update(self@, i as int, e);
                }
                self.slots[i].entry.exp_at = Some(t);
                assert(self@ =~= old(self)@.update(i as int, (key@, e)));
                true
            },
            None => false,
        }
    }

    /// The milliseconds left before `key` expires: -2 if it is missing, -1 if
    /// it has no deadline, 0 once the deadline has passed.
    pub fn ttl_ms(&self, key: &str, now: u64) -> (r: i64)
        requires
            self.wf(),
        ensures
            r == ttl_result(self@, key@, now),
    {
        match self.find_slot(key) {
            Some(i) => {
                assert(self@[i as int].1 == self.slots@[i as int].entry.view());
                match self.slots[i].entry.exp_at {
                    Some(t) => {
                        let n = now as u128;
                        let left: u128 = if t > n {
                            t - n
                        } else {
                            0
                        };
                        left as i64
                    },
                    None => -1,
                }
            },
            None => -2,
        }
    }


    /// Sets `name` to `score` in the sorted set under `key`, making the set if
    /// `key` is missing.
    pub fn z_add(&mut self, key: String, name: String, score: u64) -> (r: (bool, bool))
        requires
            old(self).wf(),
        ensures
            final(self).wf(),
            (final(self)@, r) == z_add_result(old(self)@, key@, name@, score),
    {
        match self.find_slot(key.as_str()) {
            None => {
                let mut z = ZSet::new();
                z.add(name, score);
                let slot = Slot { key, entry: Entry { typ: Value::ZSet(z), exp_at: None } };
                self.place(slot);
                (true, false)
            },
            Some(i) => {
                let ghost e0 = self@[i as int].1;
                proof {
                    lemma_find(self@, key@);
                }
                assert(self.slots@[i as int].view().1 == e0);
                let is_zset = match &self.slots[i].entry.typ {
                    Value::ZSet(_) => true,
                    _ => false,
                };
                if !is_zset {
                    return (false, true);
                }
                let mut slot = self.slots.remove(i);
                let ghost mid = self.slots@;
                let changed = match &mut slot.entry.typ {
                    Value::ZSet(z) => z.add(name, score),
                    _ => false,
                };
                let ghost e1 = slot.entry.view();
                self.slots.insert(i, slot);
                proof {
                    lemma_distinct_update(old(self)@, i as int, e1);
                    assert(self@ =~= old(self)@.update(i as int, (key@, e1)));
                    assert forall|j: int| 0 <= j < self.slots@.len() implies match (#[trigger] self.slots@[j]).entry.typ {
                        Value::ZSet(z) => z.wf(),
                        _ => true,
                    } by {
                        if j != i {
                            assert(self.slots@[j] == old(self).slots@[j]);
                        }
                    }
                }
                (changed, false)
            },
        }
    }


    /// Takes the value at position `i` out, leaving an empty string there.
    fn take_value(&mut self, i: usize) -> (v: Value)
        requires
            old(self).wf(),
            i < old(self)@.len(),
        ensures
            final(self).wf(),
            v@ == old(self)@[i as int].1.value,
            match v {
                Value::ZSet(z) => z.wf(),
                _ => true,
            },
            final(self)@ == old(self)@.update(
                i as int,
                (old(self)@[i as int].0, EntryView { value: ValueView::Str(Seq::empty()), exp_at: old(self)@[i as int].1.exp_at }),
            ),
    {
        let ghost e1 = EntryView { value: ValueView::Str(Seq::empty()), exp_at: self@[i as int].1.exp_at };
        let mut slot = self.slots.remove(i);
        assert(old(self).slots@[i as int] == slot);
        let mut v = Value::Str(String::new());
        std::mem::swap(&mut v, &mut slot.entry.typ);
        assert(slot.entry.view() == e1);
        self.slots.insert(i, slot);
        proof {
            lemma_distinct_update(old(self)@, i as int, e1);
            assert(self@ =~= old(self)@.update(i as int, (old(self)@[i as int].0, e1)));
            assert forall|j: int| 0 <= j < self.slots@.len() implies match (#[trigger] self.slots@[j]).entry.typ {
                Value::ZSet(z) => z.wf(),
                _ => true,
            } by {
                if j != i {
                    assert(self.slots@[j] == old(self).slots@[j]);
                }
            }
        }
        v
    }

    /// Puts `v` as the value at position `i`, keeping its key and deadline.
    fn restore_value(&mut self, i: usize, v: Value)
        requires
            old(self).wf(),
            i < old(self)@.len(),
            match v {
                Value::ZSet(z) => z.wf(),
                _ => true,
            },
        ensures
            final(self).wf(),
            final(self)@ == old(self)@.update(
                i as int,
                (old(self)@[i as int].0, EntryView { value: v@, exp_at: old(self)@[i as int].1.exp_at }),
            ),
    {
        let ghost e1 = EntryView { value: v@, exp_at: self@[i as int].1.exp_at };
        let mut slot = self.slots.remove(i);
        assert(old(self).slots@[i as int] == slot);
        slot.entry.typ = v;
        assert(slot.entry.view() == e1);
        self.slots.insert(i, slot);
        proof {
            lemma_distinct_update(old(self)@, i as int, e1);
            assert(self@ =~= old(self)@.update(i as int, (old(self)@[i as int].0, e1)));
            assert forall|j: int| 0 <= j < self.slots@.len() implies match (#[trigger] self.slots@[j]).entry.typ {
                Value::ZSet(z) => z.wf(),
                _ => true,
            } by {
                if j != i {
                    assert(self.slots@[j] == old(self).slots@[j]);
                }
            }
        }
    }

    /// Removes `name` from the sorted set under `key`.
    pub fn z_rem(&mut self, key: &str, name: &str) -> (r: (bool, bool))
        requires
            old(self).wf(),
        ensures
            final(self).wf(),
            (final(self)@, r) == z_rem_result(old(self)@, key@, name@),
    {
        match self.find_slot(key) {
            None => (false, false),
            Some(i) => {
                let v = self.take_value(i);
                match v {
                    Value::ZSet(mut z) => {
                        let removed = z.remove(name);
                        self.restore_value(i, Value::ZSet(z));
                        assert(self@ =~= put_value(old(self)@, key@, self@[i as int].1.value));
                        (removed, false)
                    },
                    other => {
                        self.restore_value(i, other);
                        assert(self@ =~= old(self)@);
                        (false, true)
                    },
                }
            },
        }
    }

    /// The score of `name` in the sorted set under `key`.
    pub fn z_score(&self, key: &str, name: &str) -> (r: (Option<u64>, bool))
        requires
            self.wf(),
        ensures
            r == z_score_result(self@, key@, name@),
    {
        match self.find_slot(key) {
            None => (None, false),
            Some(i) => {
                assert(self@[i as int].1 == self.slots@[i as int].entry.view());
                match &self.slots[i].entry.typ {
                    Value::ZSet(z) => (z.score(name), false),
                    _ => (None, true),
                }
            },
        }
    }

    /// A window of the ranking of the sorted set under `key` (see `ZSet::query`).
    pub fn z_query(&self, key: &str, min_score: u64, min_name: &str, offset: i64, limit: i64) -> (r: (
        Vec<zset::Entry>,
        bool,
    ))
        requires
            self.wf(),
            holds_zset(self@, key@) ==> limit <= 0 || offset > i64::MIN,
        ensures
            (zset::entries_view(r.0@), r.1) == z_query_result(self@, key@, min_score, min_name@, offset, limit),
    {
        match self.find_slot(key) {
            None => {
                let v: Vec<zset::Entry> = Vec::new();
                assert(zset::entries_view(v@) =~= Seq::<(u64, Seq<char>)>::empty());
                (v, false)
            },
            Some(i) => {
                assert(self@[i as int].1 == self.slots@[i as int].entry.view());
                assert(match self.slots@[i as int].entry.typ {
                    Value::ZSet(z) => z.wf(),
                    _ => true,
                });
                match &self.slots[i].entry.typ {
                    Value::ZSet(z) => (z.query(min_score, min_name, offset, limit), false),
                    _ => {
                        let v: Vec<zset::Entry> = Vec::new();
                        assert(zset::entries_view(v@) =~= Seq::<(u64, Seq<char>)>::empty());
                        (v, true)
                    },
                }
            },
        }
    }

    /// Puts `val` at the front of the list under `key`, making the list if `key`
    /// is missing; a key that holds something else is left alone.
    pub fn lpush(&mut self, key: String, val: String)
        requires
            old(self).wf(),
        ensures
            final(self).wf(),
            final(self)@ == lpush_result(old(self)@, key@, val@),
    {
        match self.find_slot(key.as_str()) {
            None => {
                let mut l: VecDeque<String> = VecDeque::new();
                l.push_back(val);
                let slot = Slot { key, entry: Entry { typ: Value::List(l), exp_at: None } };
                assert(list_view(l@) =~= seq![val@]);
                self.place(slot);
            },
            Some(i) => {
                let v = self.take_value(i);
                match v {
                    Value::List(mut l) => {
                        let ghost l0 = l@;
                        l.push_front(val);
                        assert(list_view(l@) =~= seq![val@] + list_view(l0));
                        self.restore_value(i, Value::List(l));
                        assert(self@ =~= put_value(old(self)@, key@, self@[i as int].1.value));
                    },
                    other => {
                        self.restore_value(i, other);
                        assert(self@ =~= old(self)@);
                    },
                }
            },
        }
    }

    /// Takes the element at the back of the list under `key`.
    pub fn rpop(&mut self, key: &str) -> (r: Option<String>)
        requires
            old(self).wf(),
        ensures
            final(self).wf(),
            (final(self)@, match r {
                Some(v) => Some(v@),
                None => None::<Seq<char>>,
            }) == rpop_result(old(self)@, key@),
    {
        match self.find_slot(key) {
            None => None,
            Some(i) => {
                let v = self.take_value(i);
                match v {
                    Value::List(mut l) => {
                        let ghost l0 = l@;
                        let r = l.pop_back();
                        proof {
                            if l0.len() > 0 {
                                assert(list_view(l@) =~= list_view(l0).drop_last());
                            } else {
                                assert(list_view(l@) =~= list_view(l0));
                            }
                        }
                        self.restore_value(i, Value::List(l));
                        assert(self@ =~= put_value(old(self)@, key@, self@[i as int].1.value));
                        proof {
                            if l0.len() == 0 {
                                assert(self@ =~= old(self)@);
                            }
                        }
                        r
                    },
                    other => {
                        self.restore_value(i, other);
                        assert(self@ =~= old(self)@);
                        None
                    },
                }
            },
        }
    }

    /// Takes the element at the front of the list under `key`.
    pub fn lpop(&mut self, key: &str) -> (r: Option<String>)
        requires
            old(self).wf(),
        ensures
            final(self).wf(),
            (final(self)@, match r {
                Some(v) => Some(v@),
                None => None::<Seq<char>>,
            }) == lpop_result(old(self)@, key@),
    {
        match self.find_slot(key) {
            None => None,
            Some(i) => {
                let v = self.take_value(i);
                match v {
                    Value::List(mut l) => {
                        let ghost l0 = l@;
                        let r = l.pop_front();
                        proof {
                            if l0.len() > 0 {
                                assert(list_view(l@) =~= list_view(l0).drop_first());
                            } else {
                                assert(list_view(l@) =~= list_view(l0));
                            }
                        }
                        self.restore_value(i, Value::List(l));
                        assert(self@ =~= put_value(old(self)@, key@, self@[i as int].1.value));
                        proof {
                            if l0.len() == 0 {
                                assert(self@ =~= old(self)@);
                            }
                        }
                        r
                    },
                    other => {
                        self.restore_value(i, other);
                        assert(self@ =~= old(self)@);
                        None
                    },
                }
            },
        }
    }


    /// The elements `start..=stop` of the list under `key`; negative positions
    /// count from the end.
    pub fn lrange(&self, key: &str, start: i64, stop: i64) -> (r: Vec<String>)
        requires
            self.wf(),
            holds_list(self@, key@) ==> stop < i64::MAX,
        ensures
            list_view(r@) == lrange_result(self@, key@, start, stop),
    {
        let mut out: Vec<String> = Vec::new();
        match self.find_slot(key) {
            None => {
                assert(list_view(out@) =~= Seq::<Seq<char>>::empty());
                out
            },
            Some(i) => {
                assert(self@[i as int].1 == self.slots@[i as int].entry.view());
                match &self.slots[i].entry.typ {
                    Value::List(l) => {
                        let ghost lv = list_view(l@);
                        let len = l.len() as i128;
                        let st: i128 = if start < 0 {
                            if len + (start as i128) > 0 {
                                len + (start as i128)
                            } else {
                                0
                            }
                        } else {
                            start as i128
                        };
                        let en: i128 = if stop < 0 {
                            if len + (stop as i128) + 1 > 0 {
                                len + (stop as i128) + 1
                            } else {
                                0
                            }
                        } else if (stop as i128) + 1 < len {
                            (stop as i128) + 1
                        } else {
                            len
                        };
                        if st >= en {
                            assert(list_view(out@) =~= Seq::<Seq<char>>::empty());
                            return out;
                        }
                        let a = st as usize;
                        let b = en as usize;
                        let mut j: usize = a;
                        while j < b
                            invariant
                                a <= j <= b <= l@.len(),
                                lv == list_view(l@),
                                list_view(out@) == lv.subrange(a as int, j as int),
                            decreases b - j,
                        {
                            let ghost before = out@;
                            out.push(l[j].clone());
                            assert(list_view(out@) =~= list_view(before).push(lv[j as int]));
                            assert(list_view(out@) =~= lv.subrange(a as int, j + 1));
                            j = j + 1;
                        }
                        out
                    },
                    _ => {
                        assert(list_view(out@) =~= Seq::<Seq<char>>::empty());
                        out
                    },
                }
            },
        }
    }

    /// The element at `idx` of the list under `key`; a negative `idx` counts
    /// from the end.
    pub fn lindex(&self, key: &str, idx: i64) -> (r: Option<String>)
        requires
            self.wf(),
        ensures
            match r {
                Some(v) => Some(v@),
                None => None::<Seq<char>>,
            } == lindex_result(self@, key@, idx),
    {
        match self.find_slot(key) {
            None => None,
            Some(i) => {
                assert(self@[i as int].1 == self.slots@[i as int].entry.view());
                match &self.slots[i].entry.typ {
                    Value::List(l) => {
                        let len = l.len() as i128;
                        let j: i128 = if idx < 0 {
                            len + (idx as i128)
                        } else {
                            idx as i128
                        };
                        if j >= 0 && j < len {
                            Some(l[j as usize].clone())
                        } else {
                            None
                        }
                    },
                    _ => None,
                }
            },
        }
    }

    /// The length of the list under `key`: 0 if it is missing, -1 if it holds
    /// something else.
    pub fn llen(&self, key: &str) -> (r: i64)
        requires
            self.wf(),
        ensures
            r == llen_result(self@, key@),
    {
        match self.find_slot(key) {
            None => 0,
            Some(i) => {
                assert(self@[i as int].1 == self.slots@[i as int].entry.view());
                match &self.slots[i].entry.typ {
                    Value::List(l) => l.len() as i64,
                    _ => -1,
                }
            },
        }
    }

    /// Removes occurrences of `val` from the list under `key`: all of them for
    /// `count == 0`, the first `count` for a positive count, the last `-count`
    /// for a negative one. Returns how many were removed.
    pub fn lrem(&mut self, key: &str, count: i64, val: &str) -> (r: i64)
        requires
            old(self).wf(),
            holds_list(old(self)@, key@) ==> count > i64::MIN,
        ensures
            final(self).wf(),
            (final(self)@, r) == lrem_result(old(self)@, key@, count, val@),
    {
        match self.find_slot(key) {
            None => 0,
            Some(i) => {
                let v = self.take_value(i);
                match v {
                    Value::List(l) => {
                        let (kept, removed) = remove_occurrences(&l, count, val);
                        self.restore_value(i, Value::List(kept));
                        assert(self@ =~= put_value(old(self)@, key@, self@[i as int].1.value));
                        removed
                    },
                    other => {
                        self.restore_value(i, other);
                        assert(self@ =~= old(self)@);
                        0
                    },
                }
            },
        }
    }


    /// Whether `key` holds a sorted set.
    pub fn is_zset(&self, key: &str) -> (r: bool)
        requires
            self.wf(),
        ensures
            r == holds_zset(self@, key@),
    {
        match self.find_slot(key) {
            None => false,
            Some(i) => {
                assert(self@[i as int].1 == self.slots@[i as int].entry.view());
                match &self.slots[i].entry.typ {
                    Value::ZSet(_) => true,
                    _ => false,
                }
            },
        }
    }

    /// Whether `key` holds a list.
    pub fn is_list(&self, key: &str) -> (r: bool)
        requires
            self.wf(),
        ensures
            r == holds_list(self@, key@),
    {
        match self.find_slot(key) {
            None => false,
            Some(i) => {
                assert(self@[i as int].1 == self.slots@[i as int].entry.view());
                match &self.slots[i].entry.typ {
                    Value::List(_) => true,
                    _ => false,
                }
            },
        }
    }

    /// Drops the entries of shard `shard` that have expired at `now`.
    pub fn purge_shard(&mut self, shard: usize, now: u64)
        requires
            old(self).wf(),
        ensures
            final(self).wf(),
            final(self)@ == purged(old(self)@, shard as int, now),
    {
        let ghost s0 = self@;
        let mut rest: Vec<Slot> = Vec::new();
        std::mem::swap(&mut rest, &mut self.slots);
        let ghost old_slots = rest@;
        assert(old_slots.map_values(|s: Slot| s.view()) == s0);
        let mut kept: Vec<Slot> = Vec::new();
        for slot in it: rest.into_iter()
            invariant
                it.seq() == old_slots,
                s0 == old_slots.map_values(|s: Slot| s.view()),
                forall|i: int|
                    0 <= i < old_slots.len() ==> match (#[trigger] old_slots[i]).entry.typ {
                        Value::ZSet(z) => z.wf(),
                        _ => true,
                    },
                kept@.map_values(|s: Slot| s.view()) == purged(s0.take(it.index()), shard as int, now),
                forall|i: int|
                    0 <= i < kept@.len() ==> match (#[trigger] kept@[i]).entry.typ {
                        Value::ZSet(z) => z.wf(),
                        _ => true,
                    },
        {
            let ghost idx = it.index();
            let ghost before = kept@;
            assert(s0.take(idx + 1).drop_last() == s0.take(idx));
            assert(s0.take(idx + 1).last() == slot.view());
            let sh = shard_of(slot.key.as_str());
            if !(sh == shard && slot.entry.expired(now)) {
                kept.push(slot);
                assert(kept@.map_values(|s: Slot| s.view()) =~= before.map_values(|s: Slot| s.view()).push(
                    old_slots[idx].view(),
                ));
            }
        }
        assert(s0.take(s0.len() as int) == s0);
        self.slots = kept;
        proof {
            lemma_purged_distinct(s0, shard as int, now);
        }
        self.rebuild_index();
    }

    /// Recomputes the position of every key.
    fn rebuild_index(&mut self)
        ensures
            final(self).slots == old(self).slots,
            indexes(final(self).index@, final(self)@),
    {
        let mut m: StringHashMap<usize> = StringHashMap::new();
        let ghost sv = self@;
        let mut j: usize = 0;
        while j < self.slots.len()
            invariant
                j <= self.slots@.len(),
                sv == self@,
                indexes(m@, sv.take(j as int)),
            decreases self.slots@.len() - j,
        {
            let ghost t0 = sv.take(j as int);
            let ghost t1 = sv.take(j + 1);
            assert(t1.drop_last() =~= t0);
            assert(t1.last() == self.slots@[j as int].view());
            let key = self.slots[j].key.clone();
            let ghost m0 = m@;
            m.insert(key, j);
            assert forall|k: Seq<char>|
                #![trigger m@.contains_key(k)]
                #![trigger find(t1, k)]
                (m@.contains_key(k) <==> find(t1, k) >= 0) && (m@.contains_key(k) ==> m@[k] as int == find(t1, k)) by {
                if k != key@ {
                    assert(find(t1, k) == find(t0, k));
                    assert(m0.contains_key(k) <==> find(t0, k) >= 0);
                }
            }
            j = j + 1;
        }
        assert(sv.take(sv.len() as int) =~= sv);
        self.index = m;
    }
}

} // verus!
