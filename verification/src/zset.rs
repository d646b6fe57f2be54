//! Sorted set: members with scores, ranked by (score, member).
//!
//! A score is an IEEE-754 double, carried here by its bit pattern. Scores are
//! ordered by the IEEE total order (std's `f64::total_cmp`), members by the
//! bytes of their UTF-8 text (std's `Ord` for `str`). NaN scores are refused.
use vstd::hash_map::StringHashMap;
use vstd::prelude::*;
use vstd::utf8::encode_utf8;

verus! {

broadcast use vstd::hash_map::group_hash_map_axioms;

/// The sign bit of a double.
pub const SIGN_BIT: u64 = 0x8000_0000_0000_0000;

/// A double with all exponent bits set and a zero fraction: infinity.
pub const INFINITY_BITS: u64 = 0x7ff0_0000_0000_0000;

/// The bits of negative infinity, the least score that is not NaN.
pub const NEG_INFINITY_BITS: u64 = 0xfff0_0000_0000_0000;

// ---------------------------------------------------------------------------
// Scores
// ---------------------------------------------------------------------------

/// The bits of a double with the sign bit cleared.
pub open spec fn magnitude(b: u64) -> u64 {
    if b >= SIGN_BIT {
        (b - SIGN_BIT) as u64
    } else {
        b
    }
}

/// Whether the double with bits `b` is a NaN.
pub open spec fn is_nan(b: u64) -> bool {
    magnitude(b) > INFINITY_BITS
}

/// Whether two doubles compare equal with `==`: neither is NaN, and they have
/// the same bits or are both zeros.
pub open spec fn score_eq(a: u64, b: u64) -> bool {
    !is_nan(a) && !is_nan(b) && (a == b || (magnitude(a) == 0 && magnitude(b) == 0))
}

/// The position of a double in the IEEE total order, as std's `f64::total_cmp`
/// computes it: non-negative doubles by their bits, negative ones reversed and
/// below them.
pub open spec fn total_key(b: u64) -> int {
    if b < SIGN_BIT {
        b as int
    } else {
        0x7fff_ffff_ffff_ffff - b as int
    }
}

/// Lexicographic order on byte strings (a proper prefix comes first).
pub open spec fn bytes_lt(a: Seq<u8>, b: Seq<u8>) -> bool
    decreases a.len(),
{
    if b.len() == 0 {
        false
    } else if a.len() == 0 {
        true
    } else if a[0] != b[0] {
        a[0] < b[0]
    } else {
        bytes_lt(a.drop_first(), b.drop_first())
    }
}

/// Order on member names: the order of their UTF-8 bytes.
pub open spec fn name_lt(a: Seq<char>, b: Seq<char>) -> bool {
    bytes_lt(encode_utf8(a), encode_utf8(b))
}

/// Order on (score, member) pairs: by score in the total order, then by member.
pub open spec fn entry_lt(x: (u64, Seq<char>), y: (u64, Seq<char>)) -> bool {
    total_key(x.0) < total_key(y.0) || (total_key(x.0) == total_key(y.0) && name_lt(x.1, y.1))
}

pub open spec fn strictly_sorted(s: Seq<(u64, Seq<char>)>) -> bool {
    forall|i: int, j: int| 0 <= i < j < s.len() ==> entry_lt(#[trigger] s[i], #[trigger] s[j])
}

/// `s` lists exactly the (score, member) pairs of `m`.
pub open spec fn lists_scores(s: Seq<(u64, Seq<char>)>, m: Map<Seq<char>, u64>) -> bool {
    &&& forall|i: int|
        0 <= i < s.len() ==> m.contains_key(#[trigger] s[i].1) && m[s[i].1] == s[i].0
    &&& forall|k: Seq<char>|
        #[trigger] m.contains_key(k) ==> exists|i: int| 0 <= i < s.len() && s[i].1 == k
}

/// `s` is the ranking of `m`: its pairs in increasing order.
pub open spec fn is_ranking(s: Seq<(u64, Seq<char>)>, m: Map<Seq<char>, u64>) -> bool {
    strictly_sorted(s) && lists_scores(s, m)
}

/// The ranking of a score map.
pub open spec fn ranking(m: Map<Seq<char>, u64>) -> Seq<(u64, Seq<char>)> {
    choose|s: Seq<(u64, Seq<char>)>| is_ranking(s, m)
}

/// The number of leading pairs of `r` that come before `key`; for a sorted
/// `r`, the position of the first pair at or after `key`.
pub open spec fn lower_bound(r: Seq<(u64, Seq<char>)>, key: (u64, Seq<char>)) -> int
    decreases r.len(),
{
    if r.len() == 0 {
        0
    } else if entry_lt(r[0], key) {
        1 + lower_bound(r.drop_first(), key)
    } else {
        0
    }
}

pub open spec fn min(a: int, b: int) -> int {
    if a <= b {
        a
    } else {
        b
    }
}

pub open spec fn max(a: int, b: int) -> int {
    if a >= b {
        a
    } else {
        b
    }
}

/// Where the window of a query starts in a ranking of `n` pairs, `lb` of which
/// come before the start key: `offset` places after the start key, or, for a
/// negative `offset`, up to `-offset` (and at most `limit`) places before it.
pub open spec fn window_start(n: int, lb: int, offset: int, limit: int) -> int {
    if offset >= 0 {
        min(lb + offset, n)
    } else {
        max(0, lb - min(-offset, limit))
    }
}

/// What a query returns: up to `limit` consecutive pairs of the ranking,
/// starting at the window start.
#[verifier::opaque]
pub open spec fn query_result(
    m: Map<Seq<char>, u64>,
    min_score: u64,
    min_name: Seq<char>,
    offset: int,
    limit: int,
) -> Seq<(u64, Seq<char>)> {
    let r = ranking(m);
    if limit <= 0 {
        Seq::empty()
    } else {
        let a = window_start(r.len() as int, lower_bound(r, (min_score, min_name)), offset, limit);
        r.subrange(a, min(r.len() as int, a + limit))
    }
}

// ---------------------------------------------------------------------------
// Order lemmas
// ---------------------------------------------------------------------------

proof fn lemma_bytes_lt_irrefl(a: Seq<u8>)
    ensures
        !bytes_lt(a, a),
    decreases a.len(),
{
    if a.len() > 0 {
        lemma_bytes_lt_irrefl(a.drop_first());
    }
}

proof fn lemma_bytes_lt_trans(a: Seq<u8>, b: Seq<u8>, c: Seq<u8>)
    requires
        bytes_lt(a, b),
        bytes_lt(b, c),
    ensures
        bytes_lt(a, c),
    decreases a.len(),
{
    if a.len() > 0 && a[0] == b[0] && b[0] == c[0] {
        lemma_bytes_lt_trans(a.drop_first(), b.drop_first(), c.drop_first());
    }
}

proof fn lemma_bytes_lt_total(a: Seq<u8>, b: Seq<u8>)
    requires
        a != b,
    ensures
        bytes_lt(a, b) || bytes_lt(b, a),
    decreases a.len(),
{
    if a.len() > 0 && b.len() > 0 && a[0] == b[0] {
        if a.drop_first() == b.drop_first() {
            assert(a =~= seq![a[0]] + a.drop_first());
            assert(b =~= seq![b[0]] + b.drop_first());
        }
        lemma_bytes_lt_total(a.drop_first(), b.drop_first());
    } else if a.len() == 0 && b.len() == 0 {
        assert(a =~= b);
    }
}

proof fn lemma_entry_lt_irrefl(x: (u64, Seq<char>))
    ensures
        !entry_lt(x, x),
{
    lemma_bytes_lt_irrefl(encode_utf8(x.1));
}

proof fn lemma_entry_lt_trans(x: (u64, Seq<char>), y: (u64, Seq<char>), z: (u64, Seq<char>))
    requires
        entry_lt(x, y),
        entry_lt(y, z),
    ensures
        entry_lt(x, z),
{
    if total_key(x.0) == total_key(y.0) && total_key(y.0) == total_key(z.0) {
        lemma_bytes_lt_trans(encode_utf8(x.1), encode_utf8(y.1), encode_utf8(z.1));
    }
}

proof fn lemma_entry_lt_asym(x: (u64, Seq<char>), y: (u64, Seq<char>))
    requires
        entry_lt(x, y),
    ensures
        !entry_lt(y, x),
{
    if entry_lt(y, x) {
        lemma_entry_lt_trans(x, y, x);
        lemma_entry_lt_irrefl(x);
    }
}

proof fn lemma_entry_lt_total(x: (u64, Seq<char>), y: (u64, Seq<char>))
    requires
        x != y,
    ensures
        entry_lt(x, y) || entry_lt(y, x),
{
    if total_key(x.0) == total_key(y.0) {
        assert(x.0 == y.0);
        assert(x.1 != y.1);
        vstd::utf8::encode_utf8_decode_utf8(x.1);
        vstd::utf8::encode_utf8_decode_utf8(y.1);
        lemma_bytes_lt_total(encode_utf8(x.1), encode_utf8(y.1));
    }
}

/// Within a ranking, two pairs with the same member are the same pair.
proof fn lemma_ranking_names_unique(s: Seq<(u64, Seq<char>)>, m: Map<Seq<char>, u64>, i: int, j: int)
    requires
        is_ranking(s, m),
        0 <= i < s.len(),
        0 <= j < s.len(),
        s[i].1 == s[j].1,
    ensures
        i == j,
{
    assert(m[s[i].1] == s[i].0);
    assert(m[s[j].1] == s[j].0);
    assert(s[i] == s[j]);
    if i < j {
        assert(entry_lt(s[i], s[j]));
        lemma_entry_lt_irrefl(s[i]);
    } else if j < i {
        assert(entry_lt(s[j], s[i]));
        lemma_entry_lt_irrefl(s[i]);
    }
}

/// A score map with a ranking has finitely many members, as many as the
/// ranking has pairs.
proof fn lemma_ranking_len(s: Seq<(u64, Seq<char>)>, m: Map<Seq<char>, u64>)
    requires
        is_ranking(s, m),
    ensures
        m.dom().finite(),
        m.len() == s.len(),
{
    broadcast use vstd::seq_lib::seq_to_set_is_finite;

    let names = s.map_values(|p: (u64, Seq<char>)| p.1);
    assert forall|i: int, j: int| 0 <= i < names.len() && 0 <= j < names.len() && i != j implies
        names[i] != names[j] by {
        if names[i] == names[j] {
            lemma_ranking_names_unique(s, m, i, j);
        }
    }
    assert(names.no_duplicates());
    names.unique_seq_to_set();
    assert forall|k: Seq<char>| m.dom().contains(k) <==> #[trigger] names.to_set().contains(k) by {
        if m.dom().contains(k) {
            let i = choose|i: int| 0 <= i < s.len() && s[i].1 == k;
            assert(names[i] == k);
        }
        if names.contains(k) {
            let i = choose|i: int| 0 <= i < names.len() && names[i] == k;
            assert(s[i].1 == k);
        }
    }
    assert(m.dom() =~= names.to_set());
}

/// A score map has at most one ranking.
pub proof fn lemma_ranking_unique(s1: Seq<(u64, Seq<char>)>, s2: Seq<(u64, Seq<char>)>, m: Map<Seq<char>, u64>)
    requires
        is_ranking(s1, m),
        is_ranking(s2, m),
    ensures
        s1 == s2,
    decreases s1.len(),
{
    if s1.len() == 0 {
        if s2.len() > 0 {
            assert(m.contains_key(s2[0].1));
        }
        assert(s1 =~= s2);
    } else {
        if s2.len() == 0 {
            assert(m.contains_key(s1[0].1));
        }
        // s1[0] and s2[0] are both the least pair.
        assert(m.contains_key(s2[0].1));
        let i = choose|i: int| 0 <= i < s1.len() && s1[i].1 == s2[0].1;
        assert(m.contains_key(s1[0].1));
        let j = choose|j: int| 0 <= j < s2.len() && s2[j].1 == s1[0].1;
        assert(s1[i] == s2[0]);
        assert(s2[j] == s1[0]);
        if i > 0 {
            assert(entry_lt(s1[0], s1[i]));
            if j > 0 {
                assert(entry_lt(s2[0], s2[j]));
                lemma_entry_lt_asym(s1[0], s1[i]);
            } else {
                lemma_entry_lt_irrefl(s1[0]);
            }
        }
        assert(s1[0] == s2[0]);
        let n = s1[0].1;
        let m2 = m.remove(n);
        let t1 = s1.drop_first();
        let t2 = s2.drop_first();
        assert forall|k: int| 0 <= k < t1.len() implies m2.contains_key(#[trigger] t1[k].1)
            && m2[t1[k].1] == t1[k].0 by {
            if t1[k].1 == n {
                lemma_ranking_names_unique(s1, m, k + 1, 0);
            }
        }
        assert forall|k: int| 0 <= k < t2.len() implies m2.contains_key(#[trigger] t2[k].1)
            && m2[t2[k].1] == t2[k].0 by {
            if t2[k].1 == n {
                lemma_ranking_names_unique(s2, m, k + 1, 0);
            }
        }
        assert forall|key: Seq<char>| #[trigger] m2.contains_key(key) implies exists|k: int|
            0 <= k < t1.len() && t1[k].1 == key by {
            let k = choose|k: int| 0 <= k < s1.len() && s1[k].1 == key;
            assert(k != 0);
            assert(t1[k - 1].1 == key);
        }
        assert forall|key: Seq<char>| #[trigger] m2.contains_key(key) implies exists|k: int|
            0 <= k < t2.len() && t2[k].1 == key by {
            let k = choose|k: int| 0 <= k < s2.len() && s2[k].1 == key;
            assert(k != 0);
            assert(t2[k - 1].1 == key);
        }
        assert forall|a: int, b: int| 0 <= a < b < t1.len() implies entry_lt(
            #[trigger] t1[a],
            #[trigger] t1[b],
        ) by {
            assert(entry_lt(s1[a + 1], s1[b + 1]));
        }
        assert forall|a: int, b: int| 0 <= a < b < t2.len() implies entry_lt(
            #[trigger] t2[a],
            #[trigger] t2[b],
        ) by {
            assert(entry_lt(s2[a + 1], s2[b + 1]));
        }
        lemma_ranking_unique(t1, t2, m2);
        assert(s1 =~= s2) by {
            assert forall|k: int| 0 <= k < s1.len() implies s1[k] == s2[k] by {
                if k > 0 {
                    assert(s1[k] == t1[k - 1]);
                    assert(s2[k] == t2[k - 1]);
                }
            }
        }
    }
}

/// A ranking, once one exists, is the ranking.
proof fn lemma_is_ranking_is_ranking_of(s: Seq<(u64, Seq<char>)>, m: Map<Seq<char>, u64>)
    requires
        is_ranking(s, m),
    ensures
        ranking(m) == s,
{
    let r = ranking(m);
    assert(is_ranking(r, m));
    lemma_ranking_unique(r, s, m);
}

proof fn lemma_lower_bound_at(r: Seq<(u64, Seq<char>)>, key: (u64, Seq<char>), k: int)
    requires
        0 <= k <= r.len(),
        forall|i: int| 0 <= i < k ==> entry_lt(#[trigger] r[i], key),
        k == r.len() || !entry_lt(r[k], key),
    ensures
        lower_bound(r, key) == k,
    decreases k,
{
    if k > 0 {
        let t = r.drop_first();
        assert(entry_lt(r[0], key));
        assert forall|i: int| 0 <= i < k - 1 implies entry_lt(#[trigger] t[i], key) by {
            assert(t[i] == r[i + 1]);
        }
        lemma_lower_bound_at(t, key, k - 1);
    }
}

// ---------------------------------------------------------------------------
// The sorted set
// ---------------------------------------------------------------------------

/// One member with its score (the bits of a double).
pub struct Entry {
    pub name: String,
    pub score: u64,
}

impl View for Entry {
    type V = (u64, Seq<char>);

    open spec fn view(&self) -> (u64, Seq<char>) {
        (self.score, self.name@)
    }
}

/// The views of a sequence of entries.
pub open spec fn entries_view(s: Seq<Entry>) -> Seq<(u64, Seq<char>)> {
    s.map_values(|e: Entry| e@)
}

/// A sorted set: a score per member, plus the members ranked by (score, member).
pub struct ZSet {
    scores: StringHashMap<u64>,
    ranked: Vec<Entry>,
}

impl View for ZSet {
    type V = Map<Seq<char>, u64>;

    closed spec fn view(&self) -> Map<Seq<char>, u64> {
        self.scores@
    }
}

/// Whether `bits` is a NaN.
pub fn score_is_nan(bits: u64) -> (r: bool)
    ensures
        r == is_nan(bits),
{
    let m = if bits >= SIGN_BIT {
        bits - SIGN_BIT
    } else {
        bits
    };
    m > INFINITY_BITS
}

/// Whether two scores compare equal as doubles.
pub fn scores_equal(a: u64, b: u64) -> (r: bool)
    ensures
        r == score_eq(a, b),
{
    if score_is_nan(a) || score_is_nan(b) {
        return false;
    }
    let ma = if a >= SIGN_BIT {
        a - SIGN_BIT
    } else {
        a
    };
    let mb = if b >= SIGN_BIT {
        b - SIGN_BIT
    } else {
        b
    };
    a == b || (ma == 0 && mb == 0)
}

fn total_key_of(b: u64) -> (k: i64)
    ensures
        k == total_key(b),
{
    if b < SIGN_BIT {
        b as i64
    } else {
        (0x7fff_ffff_ffff_ffffi128 - b as i128) as i64
    }
}

/// Whether the bytes of `a` come before those of `b`.
fn bytes_less(a: &[u8], b: &[u8]) -> (r: bool)
    ensures
        r == bytes_lt(a@, b@),
{
    let mut i: usize = 0;
    assert(a@.skip(0) == a@);
    assert(b@.skip(0) == b@);
    while i < a.len() && i < b.len()
        invariant
            i <= a@.len(),
            i <= b@.len(),
            bytes_lt(a@, b@) == bytes_lt(a@.skip(i as int), b@.skip(i as int)),
        decreases a@.len() - i,
    {
        assert(a@.skip(i as int)[0] == a@[i as int]);
        assert(b@.skip(i as int)[0] == b@[i as int]);
        if a[i] != b[i] {
            return a[i] < b[i];
        }
        assert(a@.skip(i as int).drop_first() == a@.skip(i + 1));
        assert(b@.skip(i as int).drop_first() == b@.skip(i + 1));
        i = i + 1;
    }
    a.len() < b.len()
}

/// Whether the pair (`sa`, `na`) comes before (`sb`, `nb`).
fn entry_less(sa: u64, na: &str, sb: u64, nb: &str) -> (r: bool)
    ensures
        r == entry_lt((sa, na@), (sb, nb@)),
{
    let ka = total_key_of(sa);
    let kb = total_key_of(sb);
    if ka != kb {
        ka < kb
    } else {
        bytes_less(na.as_bytes(), nb.as_bytes())
    }
}

pub proof fn lemma_lower_bound_props(r: Seq<(u64, Seq<char>)>, key: (u64, Seq<char>))
    ensures
        0 <= lower_bound(r, key) <= r.len(),
        forall|i: int| 0 <= i < lower_bound(r, key) ==> entry_lt(#[trigger] r[i], key),
        lower_bound(r, key) < r.len() ==> !entry_lt(r[lower_bound(r, key)], key),
    decreases r.len(),
{
    if r.len() > 0 && entry_lt(r[0], key) {
        let t = r.drop_first();
        lemma_lower_bound_props(t, key);
        assert forall|i: int| 0 <= i < lower_bound(r, key) implies entry_lt(#[trigger] r[i], key) by {
            if i > 0 {
                assert(r[i] == t[i - 1]);
            }
        }
        if lower_bound(r, key) < r.len() {
            assert(r[lower_bound(r, key)] == t[lower_bound(t, key)]);
        }
    }
}

/// Taking one pair out of a ranking leaves the ranking of the map without its member.
proof fn lemma_ranking_remove(s: Seq<(u64, Seq<char>)>, m: Map<Seq<char>, u64>, j: int)
    requires
        is_ranking(s, m),
        0 <= j < s.len(),
    ensures
        is_ranking(s.remove(j), m.remove(s[j].1)),
{
    let n = s[j].1;
    let t = s.remove(j);
    let m2 = m.remove(n);
    assert forall|a: int, b: int| 0 <= a < b < t.len() implies entry_lt(#[trigger] t[a], #[trigger] t[b]) by {
        let a0 = if a < j { a } else { a + 1 };
        let b0 = if b < j { b } else { b + 1 };
        assert(t[a] == s[a0]);
        assert(t[b] == s[b0]);
        assert(entry_lt(s[a0], s[b0]));
    }
    assert forall|i: int| 0 <= i < t.len() implies m2.contains_key(#[trigger] t[i].1) && m2[t[i].1] == t[i].0 by {
        let i0 = if i < j { i } else { i + 1 };
        assert(t[i] == s[i0]);
        if s[i0].1 == n {
            lemma_ranking_names_unique(s, m, i0, j);
        }
    }
    assert forall|k: Seq<char>| #[trigger] m2.contains_key(k) implies exists|i: int| 0 <= i < t.len() && t[i].1 == k by {
        let i0 = choose|i: int| 0 <= i < s.len() && s[i].1 == k;
        assert(i0 != j);
        if i0 < j {
            assert(t[i0].1 == k);
        } else {
            assert(t[i0 - 1].1 == k);
        }
    }
}

/// Putting a new member's pair at its lower bound in a ranking gives the ranking
/// of the map with that member added.
proof fn lemma_ranking_insert(s: Seq<(u64, Seq<char>)>, m: Map<Seq<char>, u64>, x: (u64, Seq<char>))
    requires
        is_ranking(s, m),
        !m.contains_key(x.1),
    ensures
        is_ranking(s.insert(lower_bound(s, x), x), m.insert(x.1, x.0)),
{
    let p = lower_bound(s, x);
    lemma_lower_bound_props(s, x);
    let t = s.insert(p, x);
    let m2 = m.insert(x.1, x.0);
    if p < s.len() {
        assert(s[p] != x) by {
            assert(m.contains_key(s[p].1));
        }
        lemma_entry_lt_total(s[p], x);
    }
    assert forall|a: int, b: int| 0 <= a < b < t.len() implies entry_lt(#[trigger] t[a], #[trigger] t[b]) by {
        if b < p {
            assert(t[a] == s[a] && t[b] == s[b]);
        } else if b == p {
            assert(t[a] == s[a] && t[b] == x);
        } else if a > p {
            assert(t[a] == s[a - 1] && t[b] == s[b - 1]);
        } else if a == p {
            assert(t[a] == x && t[b] == s[b - 1]);
            if b - 1 > p {
                assert(entry_lt(s[p], s[b - 1]));
                lemma_entry_lt_trans(x, s[p], s[b - 1]);
            }
        } else {
            assert(t[a] == s[a] && t[b] == s[b - 1]);
            assert(entry_lt(s[a], s[b - 1]));
        }
    }
    assert forall|i: int| 0 <= i < t.len() implies m2.contains_key(#[trigger] t[i].1) && m2[t[i].1] == t[i].0 by {
        if i < p {
            assert(t[i] == s[i]);
        } else if i > p {
            assert(t[i] == s[i - 1]);
        }
    }
    assert forall|k: Seq<char>| #[trigger] m2.contains_key(k) implies exists|i: int| 0 <= i < t.len() && t[i].1 == k by {
        if k == x.1 {
            assert(t[p].1 == k);
        } else {
            let i0 = choose|i: int| 0 <= i < s.len() && s[i].1 == k;
            if i0 < p {
                assert(t[i0].1 == k);
            } else {
                assert(t[i0 + 1].1 == k);
            }
        }
    }
}

/// The position of the first entry of a sorted list at or after (`bits`, `name`).
fn lower_bound_index(v: &Vec<Entry>, bits: u64, name: &str) -> (i: usize)
    requires
        strictly_sorted(entries_view(v@)),
    ensures
        i == lower_bound(entries_view(v@), (bits, name@)),
        i <= v@.len(),
{
    let ghost r = entries_view(v@);
    let ghost key = (bits, name@);
    let mut lo: usize = 0;
    let mut hi: usize = v.len();
    while lo < hi
        invariant
            lo <= hi <= v@.len(),
            r == entries_view(v@),
            key == (bits, name@),
            r.len() == v@.len(),
            strictly_sorted(r),
            forall|i: int| 0 <= i < lo ==> entry_lt(#[trigger] r[i], key),
            forall|i: int| hi <= i < r.len() ==> !entry_lt(#[trigger] r[i], key),
        decreases hi - lo,
    {
        let mid = lo + (hi - lo) / 2;
        let e = &v[mid];
        let en = e.name.as_str();
        assert(r[mid as int] == e@);
        assert(en@ == e.name@);
        let less = entry_less(e.score, en, bits, name);
        if less {
            assert(entry_lt(r[mid as int], key));
            proof {
                assert forall|i: int| 0 <= i < mid + 1 implies entry_lt(#[trigger] r[i], key) by {
                    if i < mid {
                        assert(entry_lt(r[i], r[mid as int]));
                        lemma_entry_lt_trans(r[i], r[mid as int], key);
                    }
                }
            }
            lo = mid + 1;
        } else {
            proof {
                assert forall|i: int| mid <= i < r.len() implies !entry_lt(#[trigger] r[i], key) by {
                    if mid < i && entry_lt(r[i], key) {
                        assert(entry_lt(r[mid as int], r[i]));
                        lemma_entry_lt_trans(r[mid as int], r[i], key);
                    }
                }
            }
            hi = mid;
        }
    }
    proof {
        lemma_lower_bound_at(r, key, lo as int);
    }
    lo
}

impl Default for ZSet {
    fn default() -> (z: Self)
        ensures
            z.wf(),
            z@ == Map::<Seq<char>, u64>::empty(),
    {
        Self::new()
    }
}

impl ZSet {
    /// The members ranked by (score, member), as pairs.
    closed spec fn ranked_view(&self) -> Seq<(u64, Seq<char>)> {
        entries_view(self.ranked@)
    }

    /// The ranked list is the ranking of the score map, and no score is NaN.
    pub closed spec fn wf(&self) -> bool {
        &&& is_ranking(self.ranked_view(), self.scores@)
        &&& forall|k: Seq<char>| #[trigger] self.scores@.contains_key(k) ==> !is_nan(self.scores@[k])
    }

    /// A well-formed set has a ranking, and none of its scores is NaN.
    pub proof fn lemma_wf(&self)
        requires
            self.wf(),
        ensures
            is_ranking(ranking(self@), self@),
            forall|k: Seq<char>| #[trigger] self@.contains_key(k) ==> !is_nan(self@[k]),
            self@.dom().finite(),
            ranking(self@).len() == self@.len(),
    {
        lemma_is_ranking_is_ranking_of(self.ranked_view(), self.scores@);
        lemma_ranking_len(self.ranked_view(), self.scores@);
        lemma_ranking_unique(ranking(self@), self.ranked_view(), self@);
    }

    /// An empty set.
    pub fn new() -> (z: Self)
        ensures
            z.wf(),
            z@ == Map::<Seq<char>, u64>::empty(),
    {
        let z = ZSet { scores: StringHashMap::new(), ranked: Vec::new() };
        assert(z.ranked_view() =~= Seq::<(u64, Seq<char>)>::empty());
        z
    }

    /// The number of members.
    pub fn len(&self) -> (n: usize)
        ensures
            n == self@.len(),
    {
        self.scores.len()
    }

    /// Whether the set has no member.
    pub fn is_empty(&self) -> (b: bool)
        ensures
            b == (self@.len() == 0),
    {
        self.scores.len() == 0
    }

    /// The score of `name`, if it is a member.
    pub fn score(&self, name: &str) -> (r: Option<u64>)
        ensures
            r == (if self@.contains_key(name@) {
                Some(self@[name@])
            } else {
                None
            }),
    {
        match self.scores.get(name) {
            Some(s) => Some(*s),
            None => None,
        }
    }

    /// Takes `name`, which holds `score`, out of the ranked list.
    fn unrank(&mut self, name: &str, score: u64)
        requires
            is_ranking(old(self).ranked_view(), old(self).scores@),
            old(self).scores@.contains_key(name@),
            old(self).scores@[name@] == score,
        ensures
            is_ranking(final(self).ranked_view(), old(self).scores@.remove(name@)),
            final(self).scores@ == old(self).scores@,
    {
        let ghost r0 = self.ranked_view();
        let ghost m0 = self.scores@;
        let i = lower_bound_index(&self.ranked, score, name);
        proof {
            let j = choose|j: int| 0 <= j < r0.len() && r0[j].1 == name@;
            assert(r0[j] == (score, name@));
            assert forall|k: int| 0 <= k < j implies entry_lt(#[trigger] r0[k], (score, name@)) by {
                assert(entry_lt(r0[k], r0[j]));
            }
            lemma_entry_lt_irrefl(r0[j]);
            lemma_lower_bound_at(r0, (score, name@), j);
            lemma_ranking_remove(r0, m0, j);
        }
        self.ranked.remove(i);
        assert(self.ranked_view() =~= r0.remove(i as int));
    }

    /// Sets the score of `name`. Returns whether the set changed: `false` for a
    /// NaN score, and for a member whose score already equals `score`.
    pub fn add(&mut self, name: String, score: u64) -> (changed: bool)
        requires
            old(self).wf(),
        ensures
            final(self).wf(),
            changed == (!is_nan(score) && !(old(self)@.contains_key(name@) && score_eq(
                old(self)@[name@],
                score,
            ))),
            changed ==> final(self)@ == old(self)@.insert(name@, score),
            !changed ==> final(self)@ == old(self)@,
            final(self)@.len() == old(self)@.len() + (if changed && !old(self)@.contains_key(name@) {
                1int
            } else {
                0int
            }),
    {
        proof {
            broadcast use vstd::set::group_set_axioms;

            lemma_ranking_len(self.ranked_view(), self.scores@);
        }
        if score_is_nan(score) {
            return false;
        }
        let ghost m0 = self.scores@;
        match self.scores.get(name.as_str()) {
            Some(old_score) => {
                let old_score = *old_score;
                if scores_equal(old_score, score) {
                    return false;
                }
                self.unrank(name.as_str(), old_score);
            },
            None => {
                assert(m0.remove(name@) =~= m0);
            },
        }
        let ghost r1 = self.ranked_view();
        assert(is_ranking(r1, m0.remove(name@)));
        let pos = lower_bound_index(&self.ranked, score, name.as_str());
        self.scores.insert(name.clone(), score);
        proof {
            lemma_ranking_insert(r1, m0.remove(name@), (score, name@));
            assert(m0.remove(name@).insert(name@, score) =~= m0.insert(name@, score));
        }
        self.ranked.insert(pos, Entry { name, score });
        assert(self.ranked_view() =~= r1.insert(pos as int, (score, name@)));
        true
    }

    /// Removes `name`. Returns whether it was a member.
    pub fn remove(&mut self, name: &str) -> (removed: bool)
        requires
            old(self).wf(),
        ensures
            final(self).wf(),
            removed == old(self)@.contains_key(name@),
            final(self)@ == old(self)@.remove(name@),
            final(self)@.len() + (if removed {
                1int
            } else {
                0int
            }) == old(self)@.len(),
    {
        proof {
            broadcast use vstd::set::group_set_axioms;

            lemma_ranking_len(self.ranked_view(), self.scores@);
        }
        match self.scores.get(name) {
            Some(s) => {
                let s = *s;
                self.unrank(name, s);
                self.scores.remove(name);
                true
            },
            None => {
                assert(self.scores@.remove(name@) =~= self.scores@);
                false
            },
        }
    }

    /// Up to `limit` entries of the ranking, starting `offset` places after the
    /// first entry at or after (`min_score`, `min_name`); a negative `offset`
    /// starts up to `-offset` places before it.
    pub fn query(&self, min_score: u64, min_name: &str, offset: i64, limit: i64) -> (out: Vec<Entry>)
        requires
            self.wf(),
            limit <= 0 || offset > i64::MIN,
        ensures
            entries_view(out@) == query_result(self@, min_score, min_name@, offset as int, limit as int),
    {
        proof {
            lemma_is_ranking_is_ranking_of(self.ranked_view(), self.scores@);
            reveal(query_result);
        }
        let ghost r = self.ranked_view();
        let mut out: Vec<Entry> = Vec::new();
        if limit <= 0 {
            assert(entries_view(out@) =~= Seq::<(u64, Seq<char>)>::empty());
            return out;
        }
        let n = self.ranked.len();
        let lb = lower_bound_index(&self.ranked, min_score, min_name);
        proof {
            lemma_lower_bound_props(r, (min_score, min_name@));
        }
        let start: usize = if offset >= 0 {
            if (offset as u64) >= ((n - lb) as u64) {
                n
            } else {
                lb + offset as usize
            }
        } else {
            let back: u64 = if ((-offset) as u64) < (limit as u64) {
                (-offset) as u64
            } else {
                limit as u64
            };
            if back >= lb as u64 {
                0
            } else {
                lb - back as usize
            }
        };
        let end: usize = if (limit as u64) >= ((n - start) as u64) {
            n
        } else {
            start + limit as usize
        };
        assert(start == window_start(n as int, lb as int, offset as int, limit as int));
        assert(end == min(n as int, start + limit));
        let mut i: usize = start;
        while i < end
            invariant
                start <= i <= end <= n,
                n == self.ranked@.len(),
                r == self.ranked_view(),
                entries_view(out@) == r.subrange(start as int, i as int),
            decreases end - i,
        {
            let e = &self.ranked[i];
            let ghost before = out@;
            let item = Entry { name: e.name.clone(), score: e.score };
            assert(item@ == r[i as int]);
            out.push(item);
            assert(out@ == before.push(item));
            assert(entries_view(out@) =~= entries_view(before).push(item@));
            assert(entries_view(out@) =~= r.subrange(start as int, i + 1));
            i = i + 1;
        }
        out
    }
}

} // verus!
