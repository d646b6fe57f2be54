//! Text helpers over character sequences: splitting a string into its
//! characters and back, decimal integers in both directions, prefixes and
//! suffixes, joining and splitting on a separator.
use vstd::prelude::*;

verus! {

/// The characters of a string, in order.
pub fn chars_of(s: &str) -> (v: Vec<char>)
    ensures
        v@ == s@,
{
    let mut v: Vec<char> = Vec::new();
    for c in it: s.chars()
        invariant
            v@ == it.seq().take(it.index()),
            it.seq() == s@,
    {
        v.push(c);
    }
    v
}

/// Builds a `String` from characters through std's `FromIterator<&char>`
/// for `String`, which appends the characters in order.
#[verifier::external_body]
pub fn string_from_chars(v: &Vec<char>) -> (s: String)
    ensures
        s@ == v@,
{
    v.iter().collect()
}

/// Whether every character is ASCII.
pub open spec fn is_ascii_chars(s: Seq<char>) -> bool {
    forall|i: int| 0 <= i < s.len() ==> (#[trigger] s[i] as u32) < 128
}

/// An ASCII uppercase letter mapped to its lowercase letter; any other
/// character unchanged.
pub open spec fn ascii_lower_char(c: char) -> char {
    if 'A' <= c && c <= 'Z' {
        ((c as u32) + 32) as char
    } else {
        c
    }
}

/// Each character mapped by `ascii_lower_char`.
pub open spec fn ascii_lower(s: Seq<char>) -> Seq<char> {
    s.map_values(|c: char| ascii_lower_char(c))
}

/// What std's `str::to_lowercase` returns for a string: its Unicode lowercase
/// mapping, a function of the characters alone.
pub uninterp spec fn lowercase_of(s: Seq<char>) -> Seq<char>;

/// Calls std's `str::to_lowercase`. Its result depends on the characters of
/// the argument alone. Of an ASCII string it is the ASCII lowercasing ('A' to
/// 'Z' become 'a' to 'z', the rest stays), as std documents beside
/// `to_ascii_lowercase`; where other characters go is Unicode's table and is
/// not stated here.
#[verifier::external_body]
pub fn to_lowercase(s: &str) -> (r: String)
    ensures
        r@ == lowercase_of(s@),
        is_ascii_chars(s@) ==> r@ == ascii_lower(s@),
{
    s.to_lowercase()
}

/// ASCII lowercasing keeps a string ASCII, and lowercasing it again changes
/// nothing.
pub proof fn lemma_ascii_lower_idempotent(s: Seq<char>)
    requires
        is_ascii_chars(s),
    ensures
        is_ascii_chars(ascii_lower(s)),
        ascii_lower(ascii_lower(s)) == ascii_lower(s),
{
    let t = ascii_lower(s);
    assert forall|i: int| 0 <= i < t.len() implies (#[trigger] t[i] as u32) < 128
        && ascii_lower_char(t[i]) == t[i] by {
        let c = s[i];
        assert((c as u32) < 128);
        if 'A' <= c && c <= 'Z' {
            assert(t[i] as u32 == c as u32 + 32);
        }
    }
    assert(ascii_lower(t) =~= t);
}

// ---------------------------------------------------------------------------
// Decimal digits
// ---------------------------------------------------------------------------

pub open spec fn is_digit(c: char) -> bool {
    '0' <= c && c <= '9'
}

pub open spec fn digit_value(c: char) -> int {
    c as int - '0' as int
}

pub open spec fn all_digits(s: Seq<char>) -> bool {
    forall|i: int| 0 <= i < s.len() ==> #[trigger] is_digit(s[i])
}

/// The number that a string of decimal digits denotes.
pub open spec fn digits_value(s: Seq<char>) -> int
    decreases s.len(),
{
    if s.len() == 0 {
        0
    } else {
        10 * digits_value(s.drop_last()) + digit_value(s.last())
    }
}

/// How std's `str::parse::<i64>` reads a string: an optional `+` or `-`, then
/// one or more ASCII digits and nothing else, whose value must fit in an `i64`.
pub open spec fn spec_parse_i64(s: Seq<char>) -> Option<i64> {
    let neg = s.len() > 0 && s[0] == '-';
    let signed = s.len() > 0 && (s[0] == '-' || s[0] == '+');
    let digits = if signed { s.drop_first() } else { s };
    if digits.len() == 0 || !all_digits(digits) {
        None
    } else {
        let v = if neg { -digits_value(digits) } else { digits_value(digits) };
        if i64::MIN <= v <= i64::MAX {
            Some(v as i64)
        } else {
            None
        }
    }
}

proof fn lemma_digits_value_nonneg(s: Seq<char>)
    requires
        all_digits(s),
    ensures
        digits_value(s) >= 0,
    decreases s.len(),
{
    if s.len() > 0 {
        assert(is_digit(s[s.len() - 1]));
        lemma_digits_value_nonneg(s.drop_last());
    }
}

proof fn lemma_digits_value_grows(s: Seq<char>, i: int, j: int)
    requires
        all_digits(s),
        0 <= i <= j <= s.len(),
    ensures
        digits_value(s.take(i)) <= digits_value(s.take(j)),
    decreases j - i,
{
    if i < j {
        lemma_digits_value_grows(s, i, j - 1);
        let t = s.take(j);
        assert(t.drop_last() == s.take(j - 1));
        assert(is_digit(s[j - 1]));
        assert(all_digits(s.take(j - 1)));
        lemma_digits_value_nonneg(s.take(j - 1));
    }
}

/// Parses a decimal `i64` the way std's `str::parse::<i64>` does.
pub fn parse_i64(s: &str) -> (r: Option<i64>)
    ensures
        r == spec_parse_i64(s@),
{
    let cs = chars_of(s);
    let n = cs.len();
    let mut start: usize = 0;
    let mut neg = false;
    if n > 0 && (cs[0] == '-' || cs[0] == '+') {
        neg = cs[0] == '-';
        start = 1;
    }
    let ghost digits = if start == 1 { cs@.drop_first() } else { cs@ };
    if start == n {
        return None;
    }
    let mut mag: u128 = 0;
    let mut i: usize = start;
    while i < n
        invariant
            start <= i <= n,
            n == cs@.len(),
            cs@ == s@,
            start <= 1,
            start < n,
            digits == cs@.subrange(start as int, n as int),
            neg == (cs@.len() > 0 && cs@[0] == '-'),
            (start == 1) == (cs@.len() > 0 && (cs@[0] == '-' || cs@[0] == '+')),
            all_digits(digits.take(i - start)),
            mag == digits_value(digits.take(i - start)),
            mag <= 0x8000_0000_0000_0000,
        decreases n - i,
    {
        let c = cs[i];
        if !('0' <= c && c <= '9') {
            assert(!is_digit(digits[i - start]));
            return None;
        }
        let d = (c as u32 - '0' as u32) as u128;
        proof {
            let k = i - start;
            assert(digits.take(k + 1).drop_last() == digits.take(k));
            assert(digits.take(k + 1).last() == c);
        }
        mag = mag * 10 + d;
        i = i + 1;
        if mag > 0x8000_0000_0000_0000 {
            proof {
                let k = i - start;
                assert forall|j: int| 0 <= j < k implies #[trigger] is_digit(digits.take(k)[j]) by {
                    if j < k - 1 {
                        assert(digits.take(k)[j] == digits.take(k - 1)[j]);
                    }
                }
                assert(digits.take(k).len() == k);
                                if all_digits(digits) {
                    assert(digits.take(digits.len() as int) == digits);
                    lemma_digits_value_grows(digits, k, digits.len() as int);
                    assert(digits_value(digits) > 0x8000_0000_0000_0000);
                }
                let sd = if s@.len() > 0 && (s@[0] == '-' || s@[0] == '+') { s@.drop_first() } else { s@ };
                assert(sd == digits);
            }
            return None;
        }
        proof {
            let k = i - start;
            assert forall|j: int| 0 <= j < k implies #[trigger] is_digit(digits.take(k)[j]) by {
                if j < k - 1 {
                    assert(digits.take(k)[j] == digits.take(k - 1)[j]);
                }
            }
        }
    }
    assert(digits.take(n - start) == digits);
    if neg {
        let v = (0i128 - mag as i128) as i64;
        Some(v)
    } else if mag <= 0x7fff_ffff_ffff_ffff {
        Some(mag as i64)
    } else {
        None
    }
}

/// The decimal digits of a natural number, most significant first.
pub open spec fn nat_digits(n: nat) -> Seq<char>
    decreases n,
{
    if n < 10 {
        seq![digit_char(n as int)]
    } else {
        nat_digits(n / 10).push(digit_char((n % 10) as int))
    }
}

pub open spec fn digit_char(d: int) -> char {
    if d == 0 {
        '0'
    } else if d == 1 {
        '1'
    } else if d == 2 {
        '2'
    } else if d == 3 {
        '3'
    } else if d == 4 {
        '4'
    } else if d == 5 {
        '5'
    } else if d == 6 {
        '6'
    } else if d == 7 {
        '7'
    } else if d == 8 {
        '8'
    } else {
        '9'
    }
}

/// How `format!("{}", n)` writes an integer: a `-` for negatives, then the digits.
pub open spec fn int_text(n: int) -> Seq<char> {
    if n < 0 {
        seq!['-'] + nat_digits((-n) as nat)
    } else {
        nat_digits(n as nat)
    }
}

fn digit_char_of(d: u64) -> (c: char)
    requires
        d < 10,
    ensures
        c == digit_char(d as int),
{
    if d == 0 {
        '0'
    } else if d == 1 {
        '1'
    } else if d == 2 {
        '2'
    } else if d == 3 {
        '3'
    } else if d == 4 {
        '4'
    } else if d == 5 {
        '5'
    } else if d == 6 {
        '6'
    } else if d == 7 {
        '7'
    } else if d == 8 {
        '8'
    } else {
        '9'
    }
}

fn push_nat_digits(out: &mut Vec<char>, n: u64)
    ensures
        final(out)@ == old(out)@ + nat_digits(n as nat),
    decreases n,
{
    if n < 10 {
        out.push(digit_char_of(n));
    } else {
        push_nat_digits(out, n / 10);
        out.push(digit_char_of(n % 10));
    }
}

/// Appends the decimal text of `n` to `out`.
pub fn push_int_text(out: &mut Vec<char>, n: i64)
    ensures
        final(out)@ == old(out)@ + int_text(n as int),
{
    if n < 0 {
        out.push('-');
        let m: u64 = if n == i64::MIN {
            0x8000_0000_0000_0000u64
        } else {
            (-n) as u64
        };
        push_nat_digits(out, m);
        assert(final(out)@ == old(out)@ + int_text(n as int));
    } else {
        push_nat_digits(out, n as u64);
    }
}

/// Whether two strings hold the same characters, compared through their
/// UTF-8 bytes.
pub fn str_eq(a: &str, b: &str) -> (r: bool)
    ensures
        r == (a@ == b@),
{
    let x = a.as_bytes();
    let y = b.as_bytes();
    proof {
        vstd::utf8::encode_utf8_decode_utf8(a@);
        vstd::utf8::encode_utf8_decode_utf8(b@);
    }
    assert(x@ == vstd::utf8::encode_utf8(a@));
    assert(y@ == vstd::utf8::encode_utf8(b@));
    if x.len() != y.len() {
        return false;
    }
    let mut i: usize = 0;
    while i < x.len()
        invariant
            x@.len() == y@.len(),
            x@ == vstd::utf8::encode_utf8(a@),
            y@ == vstd::utf8::encode_utf8(b@),
            i <= x@.len(),
            forall|j: int| 0 <= j < i ==> x@[j] == y@[j],
        decreases x@.len() - i,
    {
        if x[i] != y[i] {
            assert(x@ != y@);
            return false;
        }
        i = i + 1;
    }
    assert(x@ =~= y@);
    true
}

// ---------------------------------------------------------------------------
// Sequence helpers
// ---------------------------------------------------------------------------

/// Appends the characters of `s` to `out`.
pub fn push_str(out: &mut Vec<char>, s: &str)
    ensures
        final(out)@ == old(out)@ + s@,
{
    let mut cs = chars_of(s);
    out.append(&mut cs);
}

/// Whether `s` begins with `p`.
pub fn has_prefix(s: &Vec<char>, p: &Vec<char>) -> (b: bool)
    ensures
        b == (p@.len() <= s@.len() && s@.take(p@.len() as int) == p@),
{
    if p.len() > s.len() {
        return false;
    }
    let mut i: usize = 0;
    while i < p.len()
        invariant
            p@.len() <= s@.len(),
            i <= p@.len(),
            forall|j: int| 0 <= j < i ==> s@[j] == p@[j],
        decreases p@.len() - i,
    {
        if s[i] != p[i] {
            assert(s@.take(p@.len() as int)[i as int] != p@[i as int]);
            return false;
        }
        i = i + 1;
    }
    assert(s@.take(p@.len() as int) =~= p@);
    true
}

/// Whether `s` ends with `p`.
pub fn has_suffix(s: &Vec<char>, p: &Vec<char>) -> (b: bool)
    ensures
        b == (p@.len() <= s@.len() && s@.skip(s@.len() - p@.len()) == p@),
{
    if p.len() > s.len() {
        return false;
    }
    let off = s.len() - p.len();
    let mut i: usize = 0;
    while i < p.len()
        invariant
            off + p@.len() == s@.len(),
            s@.len() == s.len(),
            i <= p@.len(),
            forall|j: int| 0 <= j < i ==> s@[off + j] == p@[j],
        decreases p@.len() - i,
    {
        if s[off + i] != p[i] {
            assert(s@.skip(off as int)[i as int] != p@[i as int]);
            return false;
        }
        i = i + 1;
    }
    assert(s@.skip(off as int) =~= p@);
    true
}

/// The strings of `parts`, with `sep` between neighbours.
pub open spec fn join_spec(parts: Seq<Seq<char>>, sep: Seq<char>) -> Seq<char>
    decreases parts.len(),
{
    if parts.len() == 0 {
        Seq::empty()
    } else if parts.len() == 1 {
        parts[0]
    } else {
        join_spec(parts.drop_last(), sep) + sep + parts.last()
    }
}

/// Joins `parts[from..]` with `sep` between neighbours, as `[T]::join` does.
pub fn join_from(parts: &Vec<String>, from: usize, sep: &str) -> (r: Vec<char>)
    requires
        from <= parts@.len(),
    ensures
        r@ == join_spec(parts@.skip(from as int).map_values(|p: String| p@), sep@),
{
    let ghost views = parts@.skip(from as int).map_values(|p: String| p@);
    let mut out: Vec<char> = Vec::new();
    let mut i: usize = from;
    while i < parts.len()
        invariant
            from <= i <= parts@.len(),
            views == parts@.skip(from as int).map_values(|p: String| p@),
            out@ == join_spec(views.take(i - from), sep@),
        decreases parts@.len() - i,
    {
        let ghost k = i - from;
        assert(views.take(k + 1).drop_last() == views.take(k as int));
        assert(views.take(k + 1).last() == parts@[i as int]@);
        if i > from {
            push_str(&mut out, sep);
        } else {
            assert(views.take(1) == seq![views[0]]);
        }
        push_str(&mut out, parts[i].as_str());
        i = i + 1;
    }
    assert(views.take(parts@.len() - from) == views);
    out
}

} // verus!
