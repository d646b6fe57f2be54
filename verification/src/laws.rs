//! Properties of the store and the protocol that hold across operations.
use crate::handler::{command_spec, lpush_all, job_key, job_next_spec, job_payload, job_submit_spec, lemma_first_index, split_n};
use crate::proto::{SER_ERR, str_array_bytes, str_bytes, le32, parse_args, parse_payload, read_le32, text_bytes, args_bytes};
use crate::stats::{dec_i64, inc_i64, inc_u64};
use crate::store::{
    count_from, count_of, kept_back, kept_front, lrange_seq, lrem_list, without,
    erase, expire_result, expired, find, get_str_result, holds_list, keys_distinct,
    lemma_find, lemma_find_at, live_keys, lookup, lpop_result, lpush_result, llen_result, purged,
    put, put_value, rpop_result, ttl_result, z_add_result, z_rem_result, z_score_result, EntryView,
    StoreView, ValueView, Store,
};
use crate::shard::{spec_shard_of, SHARDS};
use crate::zset::{
    is_nan, score_eq, strictly_sorted, query_result, ranking, is_ranking, lower_bound, window_start,
    entry_lt, NEG_INFINITY_BITS, ZSet,
};
use crate::text::{ascii_lower, is_ascii_chars, join_spec, lemma_ascii_lower_idempotent};
use vstd::prelude::*;
use vstd::utf8::{decode_utf8, encode_utf8, valid_utf8};

verus! {

// ---------------------------------------------------------------------------
// Helpers
// ---------------------------------------------------------------------------

/// After `put`, `k` holds `e` and every other key what it held; keys stay distinct.
pub proof fn lemma_lookup_put(s: StoreView, k: Seq<char>, e: EntryView, k2: Seq<char>)
    requires
        keys_distinct(s),
    ensures
        keys_distinct(put(s, k, e)),
        lookup(put(s, k, e), k2) == if k2 == k {
            Some(e)
        } else {
            lookup(s, k2)
        },
{
    let t = put(s, k, e);
    lemma_find(s, k);
    lemma_find(s, k2);
    if find(s, k) >= 0 {
        let i = find(s, k);
        assert forall|a: int, b: int| 0 <= a < b < t.len() implies (#[trigger] t[a]).0 != (#[trigger] t[b]).0 by {
            assert(t[a].0 == s[a].0 && t[b].0 == s[b].0);
        }
        lemma_find_at(t, k, i);
        if k2 != k {
            if find(s, k2) >= 0 {
                let j = find(s, k2);
                assert(j != i);
                assert(t[j] == s[j]);
                lemma_find_at(t, k2, j);
            } else {
                lemma_find(t, k2);
                if find(t, k2) >= 0 {
                    assert(t[find(t, k2)].0 == k2);
                    assert(find(t, k2) != i);
                    assert(t[find(t, k2)] == s[find(t, k2)]);
                }
            }
        }
    } else {
        assert forall|a: int, b: int| 0 <= a < b < t.len() implies (#[trigger] t[a]).0 != (#[trigger] t[b]).0 by {
            assert(t[a] == s[a]);
            if b < s.len() {
                assert(t[b] == s[b]);
            }
        }
        lemma_find_at(t, k, s.len() as int);
        if k2 != k {
            if find(s, k2) >= 0 {
                let j = find(s, k2);
                assert(t[j] == s[j]);
                lemma_find_at(t, k2, j);
            } else {
                lemma_find(t, k2);
                if find(t, k2) >= 0 {
                    assert(t[find(t, k2)].0 == k2);
                    assert(find(t, k2) < s.len());
                    assert(t[find(t, k2)] == s[find(t, k2)]);
                }
            }
        }
    }
}

/// `put_value` on a present key is a `put` that keeps the deadline.
pub proof fn lemma_put_value_is_put(s: StoreView, k: Seq<char>, v: ValueView)
    requires
        find(s, k) >= 0,
    ensures
        put_value(s, k, v) == put(s, k, EntryView { value: v, exp_at: lookup(s, k)->0.exp_at }),
{
}

// ---------------------------------------------------------------------------
// Strings and keys
// ---------------------------------------------------------------------------

/// A string written under a key is read back unchanged, at any time, until the
/// key is written again; the key then has no deadline, and every other key
/// holds what it held.
pub proof fn law_get_after_set(s: StoreView, k: Seq<char>, v: Seq<char>, now: u64)
    requires
        keys_distinct(s),
    ensures
        get_str_result(put(s, k, EntryView { value: ValueView::Str(v), exp_at: None }), k, now) == (
            Some(v),
            false,
        ),
        ttl_result(put(s, k, EntryView { value: ValueView::Str(v), exp_at: None }), k, now) == -1,
        forall|k2: Seq<char>|
            k2 != k ==> #[trigger] lookup(put(s, k, EntryView { value: ValueView::Str(v), exp_at: None }), k2)
                == lookup(s, k2),
{
    let e = EntryView { value: ValueView::Str(v), exp_at: None };
    lemma_lookup_put(s, k, e, k);
    assert forall|k2: Seq<char>| k2 != k implies #[trigger] lookup(put(s, k, e), k2) == lookup(s, k2) by {
        lemma_lookup_put(s, k, e, k2);
    }
}

/// The same on a store: whatever `k` held (a string, a sorted set or a list,
/// with or without a deadline), after `set_str(k, v)` it reads back `v` with no
/// deadline, and every other key is as it was.
pub proof fn law_set_str_on_store(st: &Store, k: Seq<char>, v: Seq<char>, now: u64)
    requires
        st.wf(),
    ensures
        get_str_result(put(st@, k, EntryView { value: ValueView::Str(v), exp_at: None }), k, now) == (
            Some(v),
            false,
        ),
        ttl_result(put(st@, k, EntryView { value: ValueView::Str(v), exp_at: None }), k, now) == -1,
        forall|k2: Seq<char>|
            k2 != k ==> #[trigger] lookup(put(st@, k, EntryView { value: ValueView::Str(v), exp_at: None }), k2)
                == lookup(st@, k2),
{
    st.lemma_wf();
    law_get_after_set(st@, k, v, now);
}

/// Writing one key leaves every other key as it was.
pub proof fn law_set_keeps_other_keys(s: StoreView, k: Seq<char>, e: EntryView, k2: Seq<char>)
    requires
        keys_distinct(s),
        k2 != k,
    ensures
        lookup(put(s, k, e), k2) == lookup(s, k2),
{
    lemma_lookup_put(s, k, e, k2);
}

/// Deleting a key removes it and nothing else.
pub proof fn law_del(s: StoreView, k: Seq<char>, k2: Seq<char>)
    requires
        keys_distinct(s),
    ensures
        keys_distinct(erase(s, k)),
        lookup(erase(s, k), k) is None,
        k2 != k ==> lookup(erase(s, k), k2) == lookup(s, k2),
{
    let t = erase(s, k);
    lemma_find(s, k);
    lemma_find(s, k2);
    if find(s, k) >= 0 {
        let i = find(s, k);
        assert forall|a: int, b: int| 0 <= a < b < t.len() implies (#[trigger] t[a]).0 != (#[trigger] t[b]).0 by {
            let a0 = if a < i { a } else { a + 1 };
            let b0 = if b < i { b } else { b + 1 };
            assert(t[a] == s[a0] && t[b] == s[b0]);
        }
        lemma_find(t, k);
        if find(t, k) >= 0 {
            let j = find(t, k);
            let j0 = if j < i { j } else { j + 1 };
            assert(t[j] == s[j0]);
        }
        if k2 != k {
            lemma_find(t, k2);
            if find(s, k2) >= 0 {
                let j = find(s, k2);
                assert(j != i);
                let j1 = if j < i { j } else { j - 1 };
                assert(t[j1] == s[j]);
                lemma_find_at(t, k2, j1);
            } else if find(t, k2) >= 0 {
                let j = find(t, k2);
                let j0 = if j < i { j } else { j + 1 };
                assert(t[j] == s[j0]);
            }
        }
    }
}

/// `keys` lists exactly the keys that have not expired, each once.
pub proof fn law_keys_are_the_live_keys(s: StoreView, now: u64)
    requires
        keys_distinct(s),
    ensures
        live_keys(s, now).no_duplicates(),
        forall|k: Seq<char>|
            #[trigger] live_keys(s, now).contains(k) <==> (lookup(s, k) is Some && !expired(lookup(s, k)->0, now)),
    decreases s.len(),
{
    if s.len() > 0 {
        let t = s.drop_last();
        assert forall|a: int, b: int| 0 <= a < b < t.len() implies (#[trigger] t[a]).0 != (#[trigger] t[b]).0 by {
            assert(t[a] == s[a] && t[b] == s[b]);
        }
        law_keys_are_the_live_keys(t, now);
        let p = live_keys(t, now);
        let last = s.last();
        assert forall|k: Seq<char>| #[trigger] live_keys(s, now).contains(k) <==> (lookup(s, k) is Some && !expired(lookup(s, k)->0, now)) by {
            lemma_find(t, k);
            if k == last.0 {
                lemma_find_at(s, k, s.len() - 1);
                if find(t, k) >= 0 {
                    assert(t[find(t, k)] == s[find(t, k)]);
                    assert(s[find(t, k)].0 != s[s.len() - 1].0);
                }
                assert(!p.contains(k));
                if !expired(last.1, now) {
                    assert(p.push(last.0)[p.len() as int] == k);
                }
            } else {
                assert(find(s, k) == find(t, k));
                if find(t, k) >= 0 {
                    assert(s[find(s, k)] == t[find(t, k)]);
                }
                if !expired(last.1, now) {
                    if p.push(last.0).contains(k) {
                        let j = choose|j: int| 0 <= j < p.push(last.0).len() && p.push(last.0)[j] == k;
                        assert(j < p.len());
                        assert(p[j] == k);
                    }
                    if p.contains(k) {
                        let j = choose|j: int| 0 <= j < p.len() && p[j] == k;
                        assert(p.push(last.0)[j] == k);
                    }
                }
            }
        }
        if !expired(last.1, now) {
            let q = p.push(last.0);
            assert(!p.contains(last.0)) by {
                if p.contains(last.0) {
                    lemma_find(t, last.0);
                    assert(t[find(t, last.0)].0 == last.0);
                    assert(s[find(t, last.0)].0 != s[s.len() - 1].0);
                }
            }
            assert forall|a: int, b: int| 0 <= a < q.len() && 0 <= b < q.len() && a != b implies q[a] != q[b] by {
                if a < p.len() && b < p.len() {
                    assert(q[a] == p[a] && q[b] == p[b]);
                } else if a < p.len() {
                    assert(q[a] == p[a]);
                    assert(p.contains(p[a]));
                } else {
                    assert(q[b] == p[b]);
                    assert(p.contains(p[b]));
                }
            }
        }
    }
}

// ---------------------------------------------------------------------------
// Expiry
// ---------------------------------------------------------------------------

/// After `pexpire` with `ms >= 0` at time `now`, `pttl` at `now` reports `ms`;
/// before the deadline the key reads as before, and from the deadline on it
/// reads as missing.
pub proof fn law_expiry(s: StoreView, k: Seq<char>, ms: i64, now: u64, t: u64)
    requires
        keys_distinct(s),
        find(s, k) >= 0,
        ms >= 0,
    ensures
        ttl_result(expire_result(s, k, ms, now), k, now) == ms,
        t >= now + ms ==> get_str_result(expire_result(s, k, ms, now), k, t) == (None::<Seq<char>>, false),
        t < now + ms ==> get_str_result(expire_result(s, k, ms, now), k, t) == match lookup(s, k)->0.value {
            ValueView::Str(v) => (Some(v), false),
            _ => (None, true),
        },
{
    let e = EntryView { value: s[find(s, k)].1.value, exp_at: Some((now as int + (ms as u64) as int) as u128) };
    lemma_find(s, k);
    assert(expire_result(s, k, ms, now) == put(s, k, e));
    lemma_lookup_put(s, k, e, k);
}

// ---------------------------------------------------------------------------
// Sorted sets
// ---------------------------------------------------------------------------

/// Adding a member with the score it already has changes nothing and reports so.
pub proof fn law_zadd_twice(s: StoreView, k: Seq<char>, n: Seq<char>, sc: u64)
    requires
        keys_distinct(s),
        !is_nan(sc),
        !z_add_result(s, k, n, sc).1.1,
    ensures
        z_add_result(z_add_result(s, k, n, sc).0, k, n, sc) == (z_add_result(s, k, n, sc).0, (false, false)),
{
    let s1 = z_add_result(s, k, n, sc).0;
    lemma_find(s, k);
    match lookup(s, k) {
        None => {
            let e = EntryView { value: ValueView::ZSet(Map::empty().insert(n, sc)), exp_at: None };
            lemma_lookup_put(s, k, e, k);
        },
        Some(e0) => {
            let m = e0.value->ZSet_0;
            let m1 = if !(m.contains_key(n) && score_eq(m[n], sc)) { m.insert(n, sc) } else { m };
            let e1 = EntryView { value: ValueView::ZSet(m1), exp_at: e0.exp_at };
            lemma_put_value_is_put(s, k, ValueView::ZSet(m1));
            lemma_lookup_put(s, k, e1, k);
            lemma_find(s1, k);
            assert(s1.update(find(s1, k), (k, e1)) =~= s1);
        },
    }
}

/// After adding a member, its score reads back (as a double equal to the one added).
pub proof fn law_zscore_after_zadd(s: StoreView, k: Seq<char>, n: Seq<char>, sc: u64)
    requires
        keys_distinct(s),
        !is_nan(sc),
        !z_add_result(s, k, n, sc).1.1,
    ensures
        z_score_result(z_add_result(s, k, n, sc).0, k, n).1 == false,
        z_score_result(z_add_result(s, k, n, sc).0, k, n).0 is Some,
        score_eq(z_score_result(z_add_result(s, k, n, sc).0, k, n).0->0, sc),
{
    lemma_find(s, k);
    match lookup(s, k) {
        None => {
            let e = EntryView { value: ValueView::ZSet(Map::empty().insert(n, sc)), exp_at: None };
            lemma_lookup_put(s, k, e, k);
        },
        Some(e0) => {
            let m = e0.value->ZSet_0;
            let m1 = if !(m.contains_key(n) && score_eq(m[n], sc)) { m.insert(n, sc) } else { m };
            let e1 = EntryView { value: ValueView::ZSet(m1), exp_at: e0.exp_at };
            lemma_put_value_is_put(s, k, ValueView::ZSet(m1));
            lemma_lookup_put(s, k, e1, k);
        },
    }
}

/// After adding a member, removing it reports a removal, and removing it again
/// reports none.
pub proof fn law_zrem_after_zadd(s: StoreView, k: Seq<char>, n: Seq<char>, sc: u64)
    requires
        keys_distinct(s),
        !is_nan(sc),
        !z_add_result(s, k, n, sc).1.1,
    ensures
        z_rem_result(z_add_result(s, k, n, sc).0, k, n).1 == (true, false),
        z_rem_result(z_rem_result(z_add_result(s, k, n, sc).0, k, n).0, k, n).1 == (false, false),
{
    let s1 = z_add_result(s, k, n, sc).0;
    lemma_find(s, k);
    let m1 = match lookup(s, k) {
        None => {
            let e = EntryView { value: ValueView::ZSet(Map::empty().insert(n, sc)), exp_at: None };
            lemma_lookup_put(s, k, e, k);
            Map::empty().insert(n, sc)
        },
        Some(e0) => {
            let m = e0.value->ZSet_0;
            let m1 = if !(m.contains_key(n) && score_eq(m[n], sc)) { m.insert(n, sc) } else { m };
            let e1 = EntryView { value: ValueView::ZSet(m1), exp_at: e0.exp_at };
            lemma_put_value_is_put(s, k, ValueView::ZSet(m1));
            lemma_lookup_put(s, k, e1, k);
            m1
        },
    };
    assert(lookup(s1, k) is Some && lookup(s1, k)->0.value == ValueView::ZSet(m1));
    assert(m1.contains_key(n));
    let e2 = EntryView { value: ValueView::ZSet(m1.remove(n)), exp_at: lookup(s1, k)->0.exp_at };
    assert(keys_distinct(s1));
    lemma_find(s1, k);
    lemma_put_value_is_put(s1, k, ValueView::ZSet(m1.remove(n)));
    lemma_lookup_put(s1, k, e2, k);
}

/// A query returns pairs of the ranking in increasing order, at most `limit` of them.
pub proof fn law_query_sorted(m: Map<Seq<char>, u64>, min_score: u64, min_name: Seq<char>, offset: int, limit: int)
    requires
        is_ranking(ranking(m), m),
    ensures
        strictly_sorted(query_result(m, min_score, min_name, offset, limit)),
        query_result(m, min_score, min_name, offset, limit).len() <= if limit < 0 {
            0
        } else {
            limit
        },
{
    reveal(query_result);
    let r = ranking(m);
    if limit > 0 {
        crate::zset::lemma_lower_bound_props(r, (min_score, min_name));
        let a = window_start(r.len() as int, lower_bound(r, (min_score, min_name)), offset, limit);
        let q = query_result(m, min_score, min_name, offset, limit);
        assert forall|i: int, j: int| 0 <= i < j < q.len() implies crate::zset::entry_lt(#[trigger] q[i], #[trigger] q[j]) by {
            assert(q[i] == r[a + i] && q[j] == r[a + j]);
        }
    }
}

/// A query from negative infinity and the empty name, at offset 0, with a
/// limit of at least the set's size, lists every member once with its score,
/// in order: the whole ranking, as long as the set.
pub proof fn law_full_query(z: &ZSet, limit: int)
    requires
        z.wf(),
        limit >= z@.len(),
    ensures
        query_result(z@, NEG_INFINITY_BITS, Seq::empty(), 0, limit) == ranking(z@),
        is_ranking(query_result(z@, NEG_INFINITY_BITS, Seq::empty(), 0, limit), z@),
        query_result(z@, NEG_INFINITY_BITS, Seq::empty(), 0, limit).len() == z@.len(),
{
    reveal(query_result);
    z.lemma_wf();
    let m = z@;
    let r = ranking(m);
    let key = (NEG_INFINITY_BITS, Seq::<char>::empty());
    if r.len() > 0 {
        assert(m.contains_key(r[0].1));
        assert(!is_nan(r[0].0));
        assert(!entry_lt(r[0], key)) by {
            reveal_with_fuel(crate::zset::bytes_lt, 2);
            assert(encode_utf8(Seq::<char>::empty()).len() == 0);
        }
    }
    assert(lower_bound(r, key) == 0);
    if limit > 0 {
        assert(r.subrange(0, r.len() as int) =~= r);
    } else {
        assert(r.len() == 0);
        assert(r =~= Seq::empty());
    }
}

/// Removing a member just added to a set that did not hold it gives back the
/// set as it was.
pub proof fn law_zset_remove_undoes_add(m: Map<Seq<char>, u64>, n: Seq<char>, sc: u64)
    requires
        !m.contains_key(n),
    ensures
        m.insert(n, sc).remove(n) == m,
{
    assert(m.insert(n, sc).remove(n) =~= m);
}

// ---------------------------------------------------------------------------
// Lists
// ---------------------------------------------------------------------------

/// Pushing onto the front of a list and popping from the front gives the value
/// back and leaves the store as it was.
pub proof fn law_lpop_after_lpush(s: StoreView, k: Seq<char>, v: Seq<char>)
    requires
        keys_distinct(s),
        holds_list(s, k),
    ensures
        lpop_result(lpush_result(s, k, v), k) == (s, Some(v)),
{
    lemma_find(s, k);
    let e0 = lookup(s, k)->0;
    let l = e0.value->List_0;
    let e1 = EntryView { value: ValueView::List(seq![v] + l), exp_at: e0.exp_at };
    lemma_put_value_is_put(s, k, ValueView::List(seq![v] + l));
    lemma_lookup_put(s, k, e1, k);
    let s1 = lpush_result(s, k, v);
    lemma_find(s1, k);
    assert((seq![v] + l).drop_first() =~= l);
    assert(find(s1, k) == find(s, k)) by {
        lemma_find_at(s1, k, find(s, k));
    }
    assert(s1.update(find(s1, k), (k, EntryView { value: ValueView::List(l), exp_at: e0.exp_at })) =~= s);
}

/// A list used as a queue is first in, first out: pushing at the front and
/// popping at the back returns the oldest element (the pushed one, if the list
/// was empty).
pub proof fn law_queue_fifo(s: StoreView, k: Seq<char>, v: Seq<char>)
    requires
        keys_distinct(s),
        holds_list(s, k),
    ensures
        rpop_result(lpush_result(s, k, v), k).1 == Some(
            if lookup(s, k)->0.value->List_0.len() > 0 {
                lookup(s, k)->0.value->List_0.last()
            } else {
                v
            },
        ),
{
    lemma_find(s, k);
    let e0 = lookup(s, k)->0;
    let l = e0.value->List_0;
    let e1 = EntryView { value: ValueView::List(seq![v] + l), exp_at: e0.exp_at };
    lemma_put_value_is_put(s, k, ValueView::List(seq![v] + l));
    lemma_lookup_put(s, k, e1, k);
}

/// What `n` successive `rpop`s of `k` return, from `s` on.
pub open spec fn rpops(s: StoreView, k: Seq<char>, n: nat) -> Seq<Option<Seq<char>>>
    decreases n,
{
    if n == 0 {
        Seq::empty()
    } else {
        seq![rpop_result(s, k).1] + rpops(rpop_result(s, k).0, k, (n - 1) as nat)
    }
}

/// A list's elements from the back to the front.
pub open spec fn back_to_front(l: Seq<Seq<char>>) -> Seq<Seq<char>> {
    Seq::new(l.len(), |i: int| l[l.len() - 1 - i])
}

/// Pushing `xs` onto a missing key, one at a time at the front, makes a list
/// of them in reverse order, without deadline.
pub proof fn lemma_lpush_all_fresh(s: StoreView, k: Seq<char>, xs: Seq<Seq<char>>)
    requires
        keys_distinct(s),
        lookup(s, k) is None,
        xs.len() > 0,
    ensures
        keys_distinct(lpush_all(s, k, xs)),
        lookup(lpush_all(s, k, xs), k) == Some(
            EntryView { value: ValueView::List(back_to_front(xs)), exp_at: None },
        ),
    decreases xs.len(),
{
    let x = xs.last();
    let ys = xs.drop_last();
    let t = lpush_all(s, k, ys);
    if ys.len() == 0 {
        assert(t == s);
        lemma_lookup_put(s, k, EntryView { value: ValueView::List(seq![x]), exp_at: None }, k);
        assert(seq![x] =~= back_to_front(xs));
    } else {
        lemma_lpush_all_fresh(s, k, ys);
        let l = back_to_front(ys);
        lemma_find(t, k);
        lemma_put_value_is_put(t, k, ValueView::List(seq![x] + l));
        lemma_lookup_put(t, k, EntryView { value: ValueView::List(seq![x] + l), exp_at: None }, k);
        assert(seq![x] + l =~= back_to_front(xs));
    }
}

/// Popping a list under `k` from the back, once more than it has elements,
/// gives its elements from the back to the front, then nothing.
proof fn lemma_rpops_list(t: StoreView, k: Seq<char>, e: EntryView)
    requires
        keys_distinct(t),
        lookup(t, k) == Some(e),
        e.value is List,
    ensures
        rpops(t, k, (e.value->List_0.len() + 1) as nat) == back_to_front(e.value->List_0).map_values(
            |x: Seq<char>| Some(x),
        ).push(None),
    decreases e.value->List_0.len(),
{
    let l = e.value->List_0;
    let n = (l.len() + 1) as nat;
    if l.len() == 0 {
        assert(rpops(rpop_result(t, k).0, k, 0) =~= Seq::empty());
        assert(rpops(t, k, n) =~= seq![None::<Seq<char>>]);
        assert(back_to_front(l).map_values(|x: Seq<char>| Some(x)).push(None) =~= seq![None::<Seq<char>>]);
    } else {
        lemma_find(t, k);
        let l1 = l.drop_last();
        let e1 = EntryView { value: ValueView::List(l1), exp_at: e.exp_at };
        lemma_put_value_is_put(t, k, ValueView::List(l1));
        lemma_lookup_put(t, k, e1, k);
        let t1 = rpop_result(t, k).0;
        assert(t1 == put(t, k, e1));
        lemma_rpops_list(t1, k, e1);
        assert(rpops(t, k, n) == seq![Some(l.last())] + rpops(t1, k, (l1.len() + 1) as nat));
        assert(back_to_front(l) =~= seq![l.last()] + back_to_front(l1));
        assert(back_to_front(l).map_values(|x: Seq<char>| Some(x)).push(None) =~= seq![
            Some(l.last()),
        ] + back_to_front(l1).map_values(|x: Seq<char>| Some(x)).push(None));
    }
}

/// First in, first out over any number of pushes: after pushing `xs` one at a
/// time onto a missing key, successive pops from the back return them in push
/// order, and one more pop returns nothing.
pub proof fn law_queue_fifo_all(s: StoreView, k: Seq<char>, xs: Seq<Seq<char>>)
    requires
        keys_distinct(s),
        lookup(s, k) is None,
    ensures
        rpops(lpush_all(s, k, xs), k, (xs.len() + 1) as nat) == xs.map_values(|x: Seq<char>| Some(x)).push(
            None,
        ),
{
    if xs.len() == 0 {
        assert(lpush_all(s, k, xs) == s);
        assert(rpops(rpop_result(s, k).0, k, 0) =~= Seq::empty());
        assert(rpops(s, k, 1) =~= seq![None::<Seq<char>>]);
        assert(xs.map_values(|x: Seq<char>| Some(x)).push(None) =~= seq![None::<Seq<char>>]);
    } else {
        lemma_lpush_all_fresh(s, k, xs);
        let e = EntryView { value: ValueView::List(back_to_front(xs)), exp_at: None };
        lemma_rpops_list(lpush_all(s, k, xs), k, e);
        assert(back_to_front(back_to_front(xs)) =~= xs);
    }
}

/// A pop from the back of a key that holds no list returns nothing and
/// changes nothing.
pub proof fn law_rpop_without_list(s: StoreView, k: Seq<char>)
    requires
        !holds_list(s, k),
    ensures
        rpop_result(s, k) == (s, None::<Seq<char>>),
{
}

/// Each push adds one to a list's length; on a missing key it makes a list of one.
pub proof fn law_llen_after_lpush(s: StoreView, k: Seq<char>, v: Seq<char>)
    requires
        keys_distinct(s),
        lookup(s, k) is None || holds_list(s, k),
        lookup(s, k) is Some ==> lookup(s, k)->0.value->List_0.len() < i64::MAX,
    ensures
        llen_result(lpush_result(s, k, v), k) == llen_result(s, k) + 1,
{
    lemma_find(s, k);
    match lookup(s, k) {
        None => {
            lemma_lookup_put(s, k, EntryView { value: ValueView::List(seq![v]), exp_at: None }, k);
        },
        Some(e0) => {
            let l = e0.value->List_0;
            let e1 = EntryView { value: ValueView::List(seq![v] + l), exp_at: e0.exp_at };
            lemma_put_value_is_put(s, k, ValueView::List(seq![v] + l));
            lemma_lookup_put(s, k, e1, k);
        },
    }
}

proof fn lemma_without_len(l: Seq<Seq<char>>, v: Seq<char>)
    ensures
        without(l, v).len() + count_of(l, v) == l.len(),
    decreases l.len(),
{
    if l.len() > 0 {
        lemma_without_len(l.drop_last(), v);
    }
}

proof fn lemma_kept_front_len(l: Seq<Seq<char>>, v: Seq<char>, n: int)
    requires
        n > 0,
    ensures
        kept_front(l, v, n).len() + crate::zset::min(count_of(l, v), n) == l.len(),
    decreases l.len(),
{
    if l.len() > 0 {
        lemma_kept_front_len(l.drop_last(), v, n);
    }
}

proof fn lemma_kept_back_len(l: Seq<Seq<char>>, v: Seq<char>, n: int, i: int)
    requires
        n > 0,
        0 <= i <= l.len(),
    ensures
        kept_back(l, v, n, i).len() + crate::zset::min(count_from(l, v, i), n) == l.len() - i,
    decreases l.len() - i,
{
    if i < l.len() {
        lemma_kept_back_len(l, v, n, i + 1);
    }
}

/// `lrem` reports exactly how many elements it took out of the list.
pub proof fn law_lrem_reports_removed(l: Seq<Seq<char>>, count: i64, v: Seq<char>)
    requires
        count > i64::MIN,
    ensures
        lrem_list(l, count, v).0.len() + lrem_list(l, count, v).1 == l.len(),
{
    if count == 0 {
        lemma_without_len(l, v);
    } else if count > 0 {
        lemma_kept_front_len(l, v, count as int);
    } else {
        lemma_kept_back_len(l, v, -count, 0);
    }
}

/// `lrange` from 0 to -1 gives the whole list.
pub proof fn law_lrange_whole(l: Seq<Seq<char>>)
    ensures
        lrange_seq(l, 0i64, -1i64) == l,
{
    if l.len() > 0 {
        assert(l.subrange(0, l.len() as int) =~= l);
    }
}

// ---------------------------------------------------------------------------
// Sweeping expired entries
// ---------------------------------------------------------------------------

/// A sweep of one shard keeps every entry of the other shards and every entry
/// that has not expired.
pub proof fn law_purge_keeps_live_entries(s: StoreView, shard: int, now: u64, k: Seq<char>)
    requires
        keys_distinct(s),
        lookup(s, k) is Some,
        spec_shard_of(k) != shard || !expired(lookup(s, k)->0, now),
    ensures
        lookup(purged(s, shard, now), k) == lookup(s, k),
{
    lemma_find(s, k);
    let i = find(s, k);
    crate::store::lemma_purged_distinct(s, shard, now);
    lemma_purged_keeps(s, shard, now, i);
    let p = purged(s, shard, now);
    let j = choose|j: int| 0 <= j < p.len() && p[j] == s[i];
    lemma_find_at(p, k, j);
}

/// No entry left by a purge is one that the purge was to take out.
proof fn lemma_purged_clean(s: StoreView, shard: int, now: u64)
    ensures
        forall|j: int|
            0 <= j < purged(s, shard, now).len() ==> !(spec_shard_of((#[trigger] purged(s, shard, now)[j]).0)
                == shard && expired(purged(s, shard, now)[j].1, now)),
    decreases s.len(),
{
    if s.len() > 0 {
        let t = s.drop_last();
        lemma_purged_clean(t, shard, now);
        let q = purged(t, shard, now);
        let p = purged(s, shard, now);
        if !(spec_shard_of(s.last().0) == shard && expired(s.last().1, now)) {
            assert forall|j: int| 0 <= j < p.len() implies !(spec_shard_of((#[trigger] p[j]).0) == shard
                && expired(p[j].1, now)) by {
                if j < q.len() {
                    assert(p[j] == q[j]);
                }
            }
        }
    }
}

/// A purge takes out the entry of `k` if it lies in the shard and has
/// expired, leaves it otherwise, and brings back no missing key.
proof fn lemma_purged_lookup(s: StoreView, shard: int, now: u64, k: Seq<char>)
    requires
        keys_distinct(s),
    ensures
        keys_distinct(purged(s, shard, now)),
        lookup(purged(s, shard, now), k) == match lookup(s, k) {
            Some(e) => if spec_shard_of(k) == shard && expired(e, now) {
                None
            } else {
                Some(e)
            },
            None => None,
        },
{
    let p = purged(s, shard, now);
    crate::store::lemma_purged_distinct(s, shard, now);
    lemma_purged_clean(s, shard, now);
    lemma_find(s, k);
    lemma_find(p, k);
    if find(p, k) >= 0 {
        let j = find(p, k);
        assert(s.contains(p[j]));
        let i = choose|i: int| 0 <= i < s.len() && s[i] == p[j];
        lemma_find_at(s, k, i);
    }
    match lookup(s, k) {
        Some(e) => {
            if !(spec_shard_of(k) == shard && expired(e, now)) {
                law_purge_keeps_live_entries(s, shard, now, k);
            }
        },
        None => {},
    }
}

/// The store after a run of sweeps: the `i`-th at time `times[i]`, over shard
/// `(cursor + i) % SHARDS`, as the background sweeper walks the shards.
pub open spec fn sweeps(s: StoreView, cursor: int, times: Seq<u64>) -> StoreView
    decreases times.len(),
{
    if times.len() == 0 {
        s
    } else {
        purged(sweeps(s, cursor, times.drop_last()), (cursor + times.len() - 1) % (SHARDS as int), times.last())
    }
}

/// Over any run of sweeps, an entry that has expired at the first sweep is
/// gone once its shard has come round, and stays gone; one that has not
/// expired at any sweep is kept; no key comes back.
proof fn lemma_sweeps(s: StoreView, cursor: int, times: Seq<u64>, k: Seq<char>)
    requires
        keys_distinct(s),
        cursor >= 0,
    ensures
        keys_distinct(sweeps(s, cursor, times)),
        lookup(s, k) is None ==> lookup(sweeps(s, cursor, times), k) is None,
        lookup(s, k) is Some && (forall|i: int| 0 <= i < times.len() ==> !expired(lookup(s, k)->0, #[trigger] times[i]))
            ==> lookup(sweeps(s, cursor, times), k) == lookup(s, k),
        lookup(s, k) is Some ==> (lookup(sweeps(s, cursor, times), k) is None || lookup(sweeps(s, cursor, times), k)
            == lookup(s, k)),
        forall|i: int|
            0 <= i < times.len() && lookup(s, k) is Some && (cursor + i) % (SHARDS as int) == spec_shard_of(k)
                && expired(lookup(s, k)->0, #[trigger] times[i]) ==> lookup(sweeps(s, cursor, times), k) is None,
    decreases times.len(),
{
    if times.len() > 0 {
        let ts = times.drop_last();
        lemma_sweeps(s, cursor, ts, k);
        let t = sweeps(s, cursor, ts);
        let n = times.len() - 1;
        lemma_purged_lookup(t, (cursor + n) % (SHARDS as int), times.last(), k);
        assert forall|i: int|
            0 <= i < times.len() && lookup(s, k) is Some && (cursor + i) % (SHARDS as int) == spec_shard_of(k)
                && expired(lookup(s, k)->0, #[trigger] times[i]) implies lookup(sweeps(s, cursor, times), k) is None by {
            if i < n {
                assert(ts[i] == times[i]);
            }
        }
        if lookup(s, k) is Some && (forall|i: int| 0 <= i < times.len() ==> !expired(lookup(s, k)->0, #[trigger] times[i])) {
            assert(!expired(lookup(s, k)->0, times[n]));
            assert forall|i: int| 0 <= i < ts.len() implies !expired(lookup(s, k)->0, #[trigger] ts[i]) by {
                assert(ts[i] == times[i]);
            }
        }
    }
}

/// The background sweep covers every shard: over any `SHARDS` successive
/// sweeps, each at a time at or after `t0`, every entry that has expired at
/// `t0` is removed, whatever shard it lies in, and no missing key comes back.
pub proof fn law_sweeps_cover(s: StoreView, cursor: int, times: Seq<u64>, t0: u64, k: Seq<char>)
    requires
        keys_distinct(s),
        cursor >= 0,
        times.len() >= SHARDS,
        forall|i: int| 0 <= i < times.len() ==> #[trigger] times[i] >= t0,
        lookup(s, k) is None || expired(lookup(s, k)->0, t0),
    ensures
        lookup(sweeps(s, cursor, times), k) is None,
{
    lemma_sweeps(s, cursor, times, k);
    if lookup(s, k) is Some {
        let sh = spec_shard_of(k);
        assert(0 <= sh < SHARDS as int);
        let c = cursor % (SHARDS as int);
        let i = if sh >= c {
            sh - c
        } else {
            sh - c + SHARDS as int
        };
        assert(0 <= i < SHARDS as int);
        assert((cursor + i) % (SHARDS as int) == sh) by (nonlinear_arith)
            requires
                c == cursor % 32,
                cursor >= 0,
                0 <= sh < 32,
                i == (if sh >= c {
                    sh - c
                } else {
                    sh - c + 32
                }),
        ;
        assert(times[i] >= t0);
        assert(expired(lookup(s, k)->0, times[i]));
    }
}

/// The sweep never removes what has not expired: an entry that has not
/// expired at the time of any sweep is still there, unchanged, after them.
pub proof fn law_sweeps_keep_live(s: StoreView, cursor: int, times: Seq<u64>, k: Seq<char>)
    requires
        keys_distinct(s),
        cursor >= 0,
        lookup(s, k) is Some,
        forall|i: int| 0 <= i < times.len() ==> !expired(lookup(s, k)->0, #[trigger] times[i]),
    ensures
        lookup(sweeps(s, cursor, times), k) == lookup(s, k),
{
    lemma_sweeps(s, cursor, times, k);
}

proof fn lemma_purged_keeps(s: StoreView, shard: int, now: u64, i: int)
    requires
        0 <= i < s.len(),
        !(spec_shard_of(s[i].0) == shard && expired(s[i].1, now)),
    ensures
        purged(s, shard, now).contains(s[i]),
    decreases s.len(),
{
    let t = s.drop_last();
    if i < s.len() - 1 {
        assert(t[i] == s[i]);
        lemma_purged_keeps(t, shard, now, i);
        let p = purged(t, shard, now);
        let j = choose|j: int| 0 <= j < p.len() && p[j] == s[i];
        if !(spec_shard_of(s.last().0) == shard && expired(s.last().1, now)) {
            assert(purged(s, shard, now)[j] == s[i]);
        }
    } else {
        let p = purged(t, shard, now);
        assert(purged(s, shard, now)[p.len() as int] == s[i]);
    }
}


// ---------------------------------------------------------------------------
// The wire format
// ---------------------------------------------------------------------------

proof fn lemma_le32_roundtrip(x: u32)
    ensures
        read_le32(le32(x), 0) == x,
{
    let b = le32(x);
    let b0 = (x % 0x100) as u8;
    let b1 = ((x / 0x100) % 0x100) as u8;
    let b2 = ((x / 0x1_0000) % 0x100) as u8;
    let b3 = ((x / 0x100_0000) % 0x100) as u8;
    assert(b[0] == b0 && b[1] == b1 && b[2] == b2 && b[3] == b3);
    assert(((x % 0x100) as u8) as u32 + 0x100 * ((((x / 0x100) % 0x100) as u8) as u32) + 0x1_0000 * ((((x
        / 0x1_0000) % 0x100) as u8) as u32) + 0x100_0000 * ((((x / 0x100_0000) % 0x100) as u8) as u32)
        == x) by (bit_vector);
}

proof fn lemma_args_bytes_front(args: Seq<Seq<char>>)
    requires
        args.len() > 0,
    ensures
        args_bytes(args) == text_bytes(args[0]) + args_bytes(args.drop_first()),
    decreases args.len(),
{
    if args.len() == 1 {
        assert(args.drop_first() =~= Seq::<Seq<char>>::empty());
        assert(args.drop_last() =~= Seq::<Seq<char>>::empty());
        assert(args_bytes(args.drop_last()) == Seq::<u8>::empty());
        assert(args.last() == args[0]);
        assert(args_bytes(args) =~= text_bytes(args[0]));
    } else {
        lemma_args_bytes_front(args.drop_last());
        assert(args.drop_last().drop_first() =~= args.drop_first().drop_last());
        assert(args.drop_first().last() == args.last());
        assert(args.drop_last()[0] == args[0]);
        assert(args_bytes(args) =~= text_bytes(args[0]) + args_bytes(args.drop_first()));
    }
}

/// Each argument fits a `u32` length prefix.
pub open spec fn args_fit(args: Seq<Seq<char>>) -> bool {
    forall|i: int| 0 <= i < args.len() ==> #[trigger] encode_utf8(args[i]).len() < 0x1_0000_0000
}

proof fn lemma_parse_args_of_bytes(p: Seq<u8>, args: Seq<Seq<char>>)
    requires
        args_fit(args),
    ensures
        parse_args(p + args_bytes(args), p.len() as int, args.len()) == Some(
            args.map_values(|a: Seq<char>| encode_utf8(a)),
        ),
    decreases args.len(),
{
    let b = p + args_bytes(args);
    if args.len() == 0 {
        assert(b =~= p);
        assert(args.map_values(|a: Seq<char>| encode_utf8(a)) =~= Seq::<Seq<u8>>::empty());
    } else {
        lemma_args_bytes_front(args);
        let a0 = args[0];
        let rest = args.drop_first();
        let e0 = encode_utf8(a0);
        let l0 = e0.len() as u32;
        assert(e0.len() < 0x1_0000_0000);
        let p2 = p + text_bytes(a0);
        assert(b =~= p2 + args_bytes(rest));
        let pos = p.len() as int;
        assert(b.subrange(pos, pos + 4) =~= le32(l0));
        lemma_le32_roundtrip(l0);
        assert(read_le32(b, pos) == read_le32(le32(l0), 0));
        assert(b.subrange(pos + 4, pos + 4 + e0.len()) =~= e0);
        assert forall|i: int| 0 <= i < rest.len() implies #[trigger] encode_utf8(rest[i]).len() < 0x1_0000_0000 by {
            assert(rest[i] == args[i + 1]);
        }
        lemma_parse_args_of_bytes(p2, rest);
        assert(p2.len() == pos + 4 + e0.len());
        assert(args.map_values(|a: Seq<char>| encode_utf8(a)) =~= seq![e0] + rest.map_values(
            |a: Seq<char>| encode_utf8(a),
        ));
    }
}

/// Reading a request payload gives back the arguments it was written from:
/// their count as a `u32`, then each as a `u32` byte length and its UTF-8 bytes.
pub proof fn law_request_roundtrip(args: Seq<Seq<char>>)
    requires
        args.len() < 0x1_0000_0000,
        args_fit(args),
    ensures
        parse_payload(le32(args.len() as u32) + args_bytes(args)) == Some(args),
{
    let p = le32(args.len() as u32);
    let b = p + args_bytes(args);
    lemma_parse_args_of_bytes(p, args);
    assert(b.subrange(0, 4) =~= p);
    lemma_le32_roundtrip(args.len() as u32);
    assert(read_le32(b, 0) == read_le32(p, 0));
    let raw = args.map_values(|a: Seq<char>| encode_utf8(a));
    assert forall|i: int| 0 <= i < raw.len() implies valid_utf8(#[trigger] raw[i]) by {
        vstd::utf8::encode_utf8_valid_utf8(args[i]);
    }
    assert forall|i: int| 0 <= i < raw.len() implies #[trigger] decode_utf8(raw[i]) == args[i] by {
        vstd::utf8::encode_utf8_decode_utf8(args[i]);
    }
    assert(raw.map_values(|x: Seq<u8>| decode_utf8(x)) =~= args);
}

/// A command reads its own name only through `cmd`: two requests that agree
/// after the name run the same command the same way.
proof fn lemma_command_ignores_name_arg(
    s: StoreView,
    cmd: Seq<char>,
    a: Seq<Seq<char>>,
    a2: Seq<Seq<char>>,
    f: Seq<Option<u64>>,
    pw: Option<Seq<char>>,
    now: u64,
)
    requires
        a.len() > 0,
        a2.len() == a.len(),
        forall|i: int| 1 <= i < a.len() ==> a2[i] == a[i],
    ensures
        command_spec(s, cmd, a, f, pw, now) == command_spec(s, cmd, a2, f, pw, now),
{
    if a.len() >= 2 {
        assert forall|j: int| 0 <= j < a.len() - 2 implies #[trigger] a.skip(2)[j] == a2.skip(2)[j] by {
            assert(a2[j + 2] == a[j + 2]);
        }
        assert(a.skip(2) =~= a2.skip(2));
    }
    if a.len() >= 5 {
        assert forall|j: int| 0 <= j < a.len() - 5 implies #[trigger] a.skip(5)[j] == a2.skip(5)[j] by {
            assert(a2[j + 5] == a[j + 5]);
        }
        assert(a.skip(5) =~= a2.skip(5));
    }
    if a.len() >= 2 {
        assert(a[1] == a2[1]);
    }
    if a.len() >= 3 {
        assert(a[2] == a2[2]);
    }
    if a.len() >= 4 {
        assert(a[3] == a2[3]);
    }
    if a.len() >= 5 {
        assert(a[4] == a2[4]);
    }
    if a.len() >= 6 {
        assert(a[5] == a2[5]);
    }
    if a.len() >= 5 {
        assert(job_payload(a) == job_payload(a2));
    }
}

/// Command names are matched without regard to ASCII case: two requests whose
/// ASCII names lowercase alike ("SET", "Set", "set") and whose other arguments
/// agree do the same to the same store and get the same answer. Lowercasing a
/// name first ("SET" to "set") is one such pair.
pub proof fn law_command_name_case(
    s: StoreView,
    a: Seq<Seq<char>>,
    a2: Seq<Seq<char>>,
    f: Seq<Option<u64>>,
    pw: Option<Seq<char>>,
    now: u64,
)
    requires
        a.len() > 0,
        a2.len() == a.len(),
        is_ascii_chars(a[0]),
        is_ascii_chars(a2[0]),
        ascii_lower(a2[0]) == ascii_lower(a[0]),
        forall|i: int| 1 <= i < a.len() ==> a2[i] == a[i],
    ensures
        command_spec(s, ascii_lower(a[0]), a, f, pw, now) == command_spec(s, ascii_lower(a2[0]), a2, f, pw, now),
        command_spec(s, ascii_lower(a[0]), a, f, pw, now) == command_spec(
            s,
            ascii_lower(ascii_lower(a[0])),
            a.update(0, ascii_lower(a[0])),
            f,
            pw,
            now,
        ),
{
    lemma_command_ignores_name_arg(s, ascii_lower(a[0]), a, a2, f, pw, now);
    lemma_ascii_lower_idempotent(a[0]);
    lemma_command_ignores_name_arg(s, ascii_lower(a[0]), a, a.update(0, ascii_lower(a[0])), f, pw, now);
}

/// Through the command interpreter: after `set k v`, `get k` answers with the
/// string `v`.
pub proof fn law_set_then_get(
    s: StoreView,
    set_args: Seq<Seq<char>>,
    get_args: Seq<Seq<char>>,
    f1: Seq<Option<u64>>,
    f2: Seq<Option<u64>>,
    pw: Option<Seq<char>>,
    t1: u64,
    t2: u64,
)
    requires
        keys_distinct(s),
        set_args.len() == 3,
        get_args.len() == 2,
        get_args[1] == set_args[1],
    ensures
        command_spec(command_spec(s, "set"@, set_args, f1, pw, t1).0, "get"@, get_args, f2, pw, t2).1
            == str_bytes(set_args[2]),
{
    reveal_strlit("auth");
    reveal_strlit("keys");
    reveal_strlit("get");
    reveal_strlit("set");
    assert("set"@.len() == 3 && "get"@.len() == 3 && "auth"@.len() == 4 && "keys"@.len() == 4);
    assert("set"@ != "auth"@ && "set"@ != "keys"@);
    assert("set"@[0] == 's' && "get"@[0] == 'g');
    assert("set"@ != "get"@);
    assert("get"@ != "auth"@ && "get"@ != "keys"@);
    let s1 = command_spec(s, "set"@, set_args, f1, pw, t1).0;
    assert(s1 == put(s, set_args[1], EntryView { value: ValueView::Str(set_args[2]), exp_at: None }));
    law_get_after_set(s, set_args[1], set_args[2], t2);
}

// ---------------------------------------------------------------------------
// The job queue
// ---------------------------------------------------------------------------

proof fn lemma_split_step(x: Seq<char>, r: Seq<char>, n: nat)
    requires
        n >= 2,
        !x.contains('|'),
    ensures
        split_n(x + "|"@ + r, n, '|') == seq![x] + split_n(r, (n - 1) as nat, '|'),
{
    reveal_strlit("|");
    let w = x + "|"@ + r;
    assert forall|k: int| 0 <= k < x.len() implies w[k] != '|' by {
        assert(w[k] == x[k]);
        if x[k] == '|' {
            assert(x.contains('|'));
        }
    }
    assert(w[x.len() as int] == '|');
    lemma_first_index(w, '|', x.len() as int);
    assert(w.take(x.len() as int) =~= x);
    assert(w.skip(x.len() as int + 1) =~= r);
}

/// With an empty or missing queue, `job next` right after `job submit` hands out
/// the submitted job: its id, name, target and command, and its extra arguments
/// joined with commas, provided the first four hold no `|`.
pub proof fn law_job_submit_then_next(s: StoreView, a: Seq<Seq<char>>)
    requires
        keys_distinct(s),
        a.len() >= 5,
        forall|i: int| 1 <= i < 5 ==> !(#[trigger] a[i]).contains('|'),
        lookup(s, "devops:queue"@) is None || (holds_list(s, "devops:queue"@) && lookup(
            s,
            "devops:queue"@,
        )->0.value->List_0.len() == 0),
    ensures
        job_next_spec(job_submit_spec(s, a).0).1 == str_array_bytes(
            seq![a[1], a[2], a[3], a[4], join_spec(a.skip(5), ","@)],
        ),
{
    reveal_strlit("devops:queue");
    reveal_strlit("devops:job:");
    let q = "devops:queue"@;
    let p = job_payload(a);
    // The queue ends up holding the payload alone.
    let s1 = lpush_result(s, q, p);
    lemma_find(s, q);
    let eq = match lookup(s, q) {
        None => EntryView { value: ValueView::List(seq![p]), exp_at: None },
        Some(e0) => EntryView { value: ValueView::List(seq![p] + e0.value->List_0), exp_at: e0.exp_at },
    };
    match lookup(s, q) {
        None => {},
        Some(e0) => {
            lemma_put_value_is_put(s, q, ValueView::List(seq![p] + e0.value->List_0));
        },
    }
    assert(s1 == put(s, q, eq));
    lemma_lookup_put(s, q, eq, q);
    let j1 = job_key(a[1], ""@);
    let j2 = job_key(a[1], ":status"@);
    assert(j1[7] == 'j' && j2[7] == 'j' && q[7] == 'q');
    let e1 = EntryView { value: ValueView::Str(p), exp_at: None };
    let e2 = EntryView { value: ValueView::Str("queued"@), exp_at: None };
    let s2 = put(s1, j1, e1);
    let s3 = put(s2, j2, e2);
    lemma_lookup_put(s1, j1, e1, q);
    lemma_lookup_put(s2, j2, e2, q);
    assert(job_submit_spec(s, a).0 == s3);
    assert(lookup(s3, q) == Some(eq));
    match lookup(s, q) {
        None => {},
        Some(e0) => {
            assert(seq![p] + e0.value->List_0 =~= seq![p]);
        },
    }
    assert(rpop_result(s3, q).1 == Some(p));
    // The payload splits back into its fields.
    let tail = join_spec(a.skip(5), ","@);
    let r4 = a[4] + "|"@ + tail;
    let r3 = a[3] + "|"@ + r4;
    let r2 = a[2] + "|"@ + r3;
    assert(p =~= a[1] + "|"@ + r2);
    lemma_split_step(a[1], r2, 5);
    lemma_split_step(a[2], r3, 4);
    lemma_split_step(a[3], r4, 3);
    lemma_split_step(a[4], tail, 2);
    assert(split_n(p, 5, '|') =~= seq![a[1], a[2], a[3], a[4], tail]);
}

// ---------------------------------------------------------------------------
// Refused requests
// ---------------------------------------------------------------------------

/// A request that is answered with an error leaves the store as it was: bad
/// arity, unparsable numbers, keys of the wrong kind and unknown commands change
/// nothing. The one exception is `job next` on a malformed queue entry, which
/// has already taken the entry off the queue when it finds it malformed.
pub proof fn law_error_reply_changes_nothing(
    s: StoreView,
    cmd: Seq<char>,
    a: Seq<Seq<char>>,
    f: Seq<Option<u64>>,
    pw: Option<Seq<char>>,
    now: u64,
)
    requires
        cmd != "job next"@,
        command_spec(s, cmd, a, f, pw, now).1.len() > 0,
        command_spec(s, cmd, a, f, pw, now).1[0] == SER_ERR,
    ensures
        command_spec(s, cmd, a, f, pw, now).0 == s,
{
    reveal_strlit("job next");
}

// ---------------------------------------------------------------------------
// Counters
// ---------------------------------------------------------------------------

/// Opening and then closing a connection leaves the count of open connections
/// as it was.
pub proof fn law_conn_open_close(x: i64)
    ensures
        dec_i64(inc_i64(x)) == x,
{
}

/// A counter after `n` increments (each as `bump` makes one).
pub open spec fn bumps(x: u64, n: nat) -> u64
    decreases n,
{
    if n == 0 {
        x
    } else {
        inc_u64(bumps(x, (n - 1) as nat))
    }
}

/// No increment is lost: `n` increments of a counter at `x` leave it at
/// `x + n` modulo 2^64, so at `x + n` where that fits.
pub proof fn law_bumps(x: u64, n: nat)
    ensures
        bumps(x, n) == (x + n) % 0x1_0000_0000_0000_0000,
        x + n <= u64::MAX ==> bumps(x, n) == x + n,
    decreases n,
{
    if n > 0 {
        law_bumps(x, (n - 1) as nat);
        let y = bumps(x, (n - 1) as nat);
        let m: int = 0x1_0000_0000_0000_0000;
        assert(y == (x + n - 1) % m);
        assert(inc_u64(y) == (y + 1) % m);
        vstd::arithmetic::div_mod::lemma_add_mod_noop(x + n - 1, 1, m);
        assert((1int) % m == 1);
    }
}

} // verus!
