//! The binary wire format.
//!
//! A request frame is a little-endian `u32` payload length and the payload: a
//! `u32` argument count, then each argument as a `u32` byte length and its
//! UTF-8 bytes. A reply frame is a `u32` length and a serialized `Response`,
//! which starts with a tag byte:
//!
//! - nil: the tag alone;
//! - error: a `u32` code, a `u32` length and the message bytes;
//! - string: a `u32` length and the bytes;
//! - integer: an `i64`;
//! - double: the 8 bytes of an `f64`;
//! - array: a `u32` element count and the elements.
//!
//! All integers are little-endian.
use vstd::prelude::*;
use vstd::utf8::{decode_utf8, encode_utf8, valid_utf8};

verus! {

pub const SER_NIL: u8 = 0;

pub const SER_ERR: u8 = 1;

pub const SER_STR: u8 = 2;

pub const SER_INT: u8 = 3;

pub const SER_DBL: u8 = 4;

pub const SER_ARR: u8 = 5;

/// Error code: unknown or malformed command.
pub const ERR_UNKNOWN: u32 = 1;

/// Error code: value of the wrong kind.
pub const ERR_TYPE: u32 = 3;

/// Error code: bad arguments.
pub const ERR_ARG: u32 = 4;

/// A reply.
pub enum Response {
    Nil,
    Error { code: u32, msg: String },
    Str(String),
    Int(i64),
    /// A double, by its bits.
    Dbl(u64),
    Arr(Vec<Response>),
}

/// The four little-endian bytes of `x`.
pub open spec fn le32(x: u32) -> Seq<u8> {
    seq![
        (x % 0x100) as u8,
        ((x / 0x100) % 0x100) as u8,
        ((x / 0x1_0000) % 0x100) as u8,
        ((x / 0x100_0000) % 0x100) as u8,
    ]
}

/// The eight little-endian bytes of `x`.
pub open spec fn le64(x: u64) -> Seq<u8> {
    le32((x % 0x1_0000_0000) as u32) + le32((x / 0x1_0000_0000) as u32)
}

/// A length-prefixed string: its UTF-8 byte count (as a `u32`), then its bytes.
pub open spec fn text_bytes(s: Seq<char>) -> Seq<u8> {
    le32(encode_utf8(s).len() as u32) + encode_utf8(s)
}

/// The serialization of a response.
pub open spec fn encode(r: Response) -> Seq<u8>
    decreases r,
{
    match r {
        Response::Nil => seq![SER_NIL],
        Response::Error { code, msg } => seq![SER_ERR] + le32(code) + text_bytes(msg@),
        Response::Str(s) => seq![SER_STR] + text_bytes(s@),
        Response::Int(n) => seq![SER_INT] + le64(n as u64),
        Response::Dbl(b) => seq![SER_DBL] + le64(b),
        Response::Arr(v) => seq![SER_ARR] + le32(v@.len() as u32) + encode_items(v@, v@.len() as int),
    }
}

/// The serializations of the first `n` responses of `items`, one after another.
pub open spec fn encode_items(items: Seq<Response>, n: int) -> Seq<u8>
    decreases items, n,
{
    if n <= 0 || n > items.len() {
        Seq::empty()
    } else {
        encode_items(items, n - 1) + encode(items[n - 1])
    }
}


/// The serialization of a nil reply.
pub open spec fn nil_bytes() -> Seq<u8> {
    seq![SER_NIL]
}

/// The serialization of an error reply.
pub open spec fn error_bytes(code: u32, msg: Seq<char>) -> Seq<u8> {
    seq![SER_ERR] + le32(code) + text_bytes(msg)
}

/// The serialization of a string reply.
pub open spec fn str_bytes(s: Seq<char>) -> Seq<u8> {
    seq![SER_STR] + text_bytes(s)
}

/// The serialization of an integer reply.
pub open spec fn int_bytes(n: i64) -> Seq<u8> {
    seq![SER_INT] + le64(n as u64)
}

/// The serialization of a double reply.
pub open spec fn dbl_bytes(b: u64) -> Seq<u8> {
    seq![SER_DBL] + le64(b)
}

/// The string replies of `items`, one after another.
pub open spec fn str_items(items: Seq<Seq<char>>) -> Seq<u8>
    decreases items.len(),
{
    if items.len() == 0 {
        Seq::empty()
    } else {
        str_items(items.drop_last()) + str_bytes(items.last())
    }
}

/// The serialization of an array of string replies.
pub open spec fn str_array_bytes(items: Seq<Seq<char>>) -> Seq<u8> {
    seq![SER_ARR] + le32(items.len() as u32) + str_items(items)
}

/// For each (score, member) pair, the member as a string reply then the score
/// as a double reply.
pub open spec fn pair_items(items: Seq<(u64, Seq<char>)>) -> Seq<u8>
    decreases items.len(),
{
    if items.len() == 0 {
        Seq::empty()
    } else {
        pair_items(items.drop_last()) + str_bytes(items.last().1) + dbl_bytes(items.last().0)
    }
}

/// The serialization of an array that holds, for each pair, its member and its score.
pub open spec fn pair_array_bytes(items: Seq<(u64, Seq<char>)>) -> Seq<u8> {
    seq![SER_ARR] + le32((2 * items.len()) as u32) + pair_items(items)
}

/// The serialization of a request payload's arguments: each as a `u32` byte
/// length and its UTF-8 bytes.
pub open spec fn args_bytes(args: Seq<Seq<char>>) -> Seq<u8>
    decreases args.len(),
{
    if args.len() == 0 {
        Seq::empty()
    } else {
        args_bytes(args.drop_last()) + text_bytes(args.last())
    }
}

/// The serialization of a frame: the payload's length as a `u32`, then the payload.
pub open spec fn frame_bytes(payload: Seq<u8>) -> Seq<u8> {
    le32(payload.len() as u32) + payload
}


/// The `u32` stored little-endian at `b[at..at + 4]`.
pub open spec fn read_le32(b: Seq<u8>, at: int) -> int {
    b[at] + 0x100 * b[at + 1] + 0x1_0000 * b[at + 2] + 0x100_0000 * b[at + 3]
}

/// The `count` length-prefixed byte strings that `b[pos..]` consists of, if it
/// consists of exactly that many.
pub open spec fn parse_args(b: Seq<u8>, pos: int, count: nat) -> Option<Seq<Seq<u8>>>
    decreases count,
{
    if count == 0 {
        if pos == b.len() {
            Some(Seq::empty())
        } else {
            None
        }
    } else if pos + 4 > b.len() {
        None
    } else if pos + 4 + read_le32(b, pos) > b.len() {
        None
    } else {
        prepend(
            seq![b.subrange(pos + 4, pos + 4 + read_le32(b, pos))],
            parse_args(b, pos + 4 + read_le32(b, pos), (count - 1) as nat),
        )
    }
}

pub open spec fn prepend(d: Seq<Seq<u8>>, r: Option<Seq<Seq<u8>>>) -> Option<Seq<Seq<u8>>> {
    match r {
        Some(rest) => Some(d + rest),
        None => None,
    }
}

/// The arguments of a request payload: an argument count, then that many
/// length-prefixed UTF-8 strings and nothing more; `None` if the payload is
/// not that.
pub open spec fn parse_payload(b: Seq<u8>) -> Option<Seq<Seq<char>>> {
    if b.len() < 4 {
        None
    } else {
        match parse_args(b, 4, read_le32(b, 0) as nat) {
            Some(raw) => if forall|i: int| 0 <= i < raw.len() ==> valid_utf8(#[trigger] raw[i]) {
                Some(raw.map_values(|x: Seq<u8>| decode_utf8(x)))
            } else {
                None
            },
            None => None,
        }
    }
}

fn push_le32(out: &mut Vec<u8>, x: u32)
    ensures
        final(out)@ == old(out)@ + le32(x),
{
    out.push((x % 0x100) as u8);
    out.push(((x / 0x100) % 0x100) as u8);
    out.push(((x / 0x1_0000) % 0x100) as u8);
    out.push(((x / 0x100_0000) % 0x100) as u8);
    assert(final(out)@ =~= old(out)@ + le32(x));
}

fn push_le64(out: &mut Vec<u8>, x: u64)
    ensures
        final(out)@ == old(out)@ + le64(x),
{
    push_le32(out, (x % 0x1_0000_0000) as u32);
    push_le32(out, (x / 0x1_0000_0000) as u32);
    assert(final(out)@ =~= old(out)@ + le64(x));
}

fn push_text(out: &mut Vec<u8>, s: &str)
    ensures
        final(out)@ == old(out)@ + text_bytes(s@),
{
    let b = s.as_bytes();
    push_le32(out, #[verifier::truncate] (b.len() as u32));
    let ghost mid = out@;
    let mut i: usize = 0;
    while i < b.len()
        invariant
            i <= b@.len(),
            out@ == mid + b@.take(i as int),
        decreases b@.len() - i,
    {
        out.push(b[i]);
        assert(out@ =~= mid + b@.take(i + 1));
        i = i + 1;
    }
    assert(b@.take(b@.len() as int) == b@);
}

impl Response {
    /// Appends the serialization of `self` to `out`.
    pub fn encode_into(&self, out: &mut Vec<u8>)
        ensures
            final(out)@ == old(out)@ + encode(*self),
        decreases self,
    {
        match self {
            Response::Nil => {
                out.push(SER_NIL);
            },
            Response::Error { code, msg } => {
                out.push(SER_ERR);
                push_le32(out, *code);
                push_text(out, msg.as_str());
            },
            Response::Str(s) => {
                out.push(SER_STR);
                push_text(out, s.as_str());
            },
            Response::Int(n) => {
                out.push(SER_INT);
                push_le64(out, #[verifier::truncate] (*n as u64));
            },
            Response::Dbl(b) => {
                out.push(SER_DBL);
                push_le64(out, *b);
            },
            Response::Arr(v) => {
                out.push(SER_ARR);
                push_le32(out, #[verifier::truncate] (v.len() as u32));
                let ghost mid = out@;
                let mut i: usize = 0;
                while i < v.len()
                    invariant
                        i <= v@.len(),
                        *self == Response::Arr(*v),
                        out@ == mid + encode_items(v@, i as int),
                    decreases v@.len() - i,
                {
                    proof {
                        assert(decreases_to!(*self => self->Arr_0));
                        assert(self->Arr_0 == *v);
                        assert(decreases_to!(*v => v@));
                        assert(decreases_to!(v@ => v@[i as int]));
                    }
                    v[i].encode_into(out);
                    i = i + 1;
                }
            },
        }
        assert(final(out)@ =~= old(out)@ + encode(*self));
    }

    /// The serialization of `self`.
    pub fn encode(&self) -> (b: Vec<u8>)
        ensures
            b@ == encode(*self),
    {
        let mut out: Vec<u8> = Vec::new();
        self.encode_into(&mut out);
        assert(out@ =~= encode(*self));
        out
    }
}

/// Serializes a nil reply.
pub fn nil_reply() -> (b: Vec<u8>)
    ensures
        b@ == nil_bytes(),
{
    Response::Nil.encode()
}

/// Serializes an error reply.
pub fn error_reply(code: u32, msg: &str) -> (b: Vec<u8>)
    ensures
        b@ == error_bytes(code, msg@),
{
    let mut out: Vec<u8> = Vec::new();
    out.push(SER_ERR);
    push_le32(&mut out, code);
    push_text(&mut out, msg);
    assert(out@ =~= error_bytes(code, msg@));
    out
}

/// Serializes a string reply.
pub fn str_reply(s: &str) -> (b: Vec<u8>)
    ensures
        b@ == str_bytes(s@),
{
    let mut out: Vec<u8> = Vec::new();
    out.push(SER_STR);
    push_text(&mut out, s);
    assert(out@ =~= str_bytes(s@));
    out
}

/// Serializes an integer reply.
pub fn int_reply(n: i64) -> (b: Vec<u8>)
    ensures
        b@ == int_bytes(n),
{
    Response::Int(n).encode()
}

/// Serializes a double reply.
pub fn dbl_reply(bits: u64) -> (b: Vec<u8>)
    ensures
        b@ == dbl_bytes(bits),
{
    Response::Dbl(bits).encode()
}

/// Serializes an array of string replies.
pub fn str_array_reply(items: Vec<String>) -> (b: Vec<u8>)
    ensures
        b@ == str_array_bytes(items@.map_values(|x: String| x@)),
{
    let ghost views = items@.map_values(|x: String| x@);
    let mut elems: Vec<Response> = Vec::new();
    let n = items.len();
    let mut it = items;
    let mut rev: Vec<String> = Vec::new();
    while it.len() > 0
        invariant
            it@.len() + rev@.len() == n,
            n == views.len(),
            views == items@.map_values(|x: String| x@),
            forall|j: int| 0 <= j < it@.len() ==> (#[trigger] it@[j])@ == views[j],
            forall|j: int| 0 <= j < rev@.len() ==> (#[trigger] rev@[j])@ == views[n - 1 - j],
        decreases it@.len(),
    {
        let x = it.pop().unwrap();
        rev.push(x);
    }
    while rev.len() > 0
        invariant
            rev@.len() + elems@.len() == n,
            n == views.len(),
            forall|j: int| 0 <= j < rev@.len() ==> (#[trigger] rev@[j])@ == views[n - 1 - j],
            encode_items(elems@, elems@.len() as int) == str_items(views.take(elems@.len() as int)),
            forall|j: int| 0 <= j < elems@.len() ==> #[trigger] elems@[j] is Str,
        decreases rev@.len(),
    {
        let x = rev.pop().unwrap();
        let ghost k = elems@.len() as int;
        let ghost before = elems@;
        elems.push(Response::Str(x));
        proof {
            lemma_encode_items_prefix(elems@, k);
            assert(elems@.take(k) =~= before);
            assert(views.take(k + 1).drop_last() =~= views.take(k));
            assert(views.take(k + 1).last() == views[k]);
        }
    }
    assert(views.take(n as int) =~= views);
    let r = Response::Arr(elems);
    r.encode()
}

/// Serializes an array that holds, for each entry, its member and its score.
pub fn pair_array_reply(entries: &Vec<crate::zset::Entry>) -> (b: Vec<u8>)
    ensures
        b@ == pair_array_bytes(crate::zset::entries_view(entries@)),
{
    let ghost views = crate::zset::entries_view(entries@);
    let mut elems: Vec<Response> = Vec::new();
    let mut i: usize = 0;
    while i < entries.len()
        invariant
            i <= entries@.len(),
            views == crate::zset::entries_view(entries@),
            elems@.len() == 2 * i,
            encode_items(elems@, elems@.len() as int) == pair_items(views.take(i as int)),
        decreases entries@.len() - i,
    {
        let e = &entries[i];
        let ghost before = elems@;
        let ghost k = 2 * i;
        elems.push(Response::Str(e.name.clone()));
        proof {
            lemma_encode_items_prefix(elems@, k);
            assert(elems@.take(k) =~= before);
        }
        let ghost mid = elems@;
        elems.push(Response::Dbl(e.score));
        proof {
            lemma_encode_items_prefix(elems@, k + 1);
            assert(elems@.take(k + 1) =~= mid);
            assert(views.take(i + 1).drop_last() =~= views.take(i as int));
            assert(views.take(i + 1).last() == views[i as int]);
        }
        i = i + 1;
    }
    assert(views.take(entries@.len() as int) =~= views);
    let r = Response::Arr(elems);
    r.encode()
}

/// Calls std's `String::from_utf8`, which accepts exactly the valid UTF-8 byte
/// strings and decodes them.
#[verifier::external_body]
fn utf8_string(bytes: &[u8]) -> (r: Option<String>)
    ensures
        match r {
            Some(s) => valid_utf8(bytes@) && s@ == decode_utf8(bytes@),
            None => !valid_utf8(bytes@),
        },
{
    String::from_utf8(bytes.to_vec()).ok()
}

fn read_u32_at(b: &[u8], at: usize) -> (r: u64)
    requires
        at + 4 <= b@.len(),
    ensures
        r == read_le32(b@, at as int),
{
    b[at] as u64 + 0x100 * (b[at + 1] as u64) + 0x1_0000 * (b[at + 2] as u64) + 0x100_0000 * (b[at + 3] as u64)
}

/// Reads the arguments of a request payload (see `parse_payload`).
pub fn parse_request(b: &[u8]) -> (r: Option<Vec<String>>)
    ensures
        match r {
            Some(v) => parse_payload(b@) == Some(v@.map_values(|x: String| x@)),
            None => parse_payload(b@) is None,
        },
{
    let n = b.len();
    if n < 4 {
        return None;
    }
    let count = read_u32_at(b, 0);
    let ghost total = read_le32(b@, 0) as nat;
    let mut raw: Vec<Vec<u8>> = Vec::new();
    let mut pos: usize = 4;
    let mut k: u64 = 0;
    while k < count
        invariant
            n == b@.len(),
            4 <= pos <= n,
            k <= count,
            count == total,
            total == read_le32(b@, 0) as nat,
            parse_args(b@, 4, total) == prepend(
                raw@.map_values(|x: Vec<u8>| x@),
                parse_args(b@, pos as int, (total - k) as nat),
            ),
        decreases count - k,
    {
        if n - pos < 4 {
            proof {
                assert(parse_args(b@, pos as int, (total - k) as nat) is None);
                assert(parse_args(b@, 4, total) is None);

            }
            return None;
        }
        let len = read_u32_at(b, pos);
        if (len as u128) + (pos as u128) + 4 > (n as u128) {
            proof {
                assert(parse_args(b@, pos as int, (total - k) as nat) is None);
                assert(parse_args(b@, 4, total) is None);
            }
            return None;
        }
        let start = pos + 4;
        let end = start + len as usize;
        let mut arg: Vec<u8> = Vec::new();
        let mut i: usize = start;
        while i < end
            invariant
                start <= i <= end <= n == b@.len(),
                arg@ == b@.subrange(start as int, i as int),
            decreases end - i,
        {
            arg.push(b[i]);
            assert(arg@ =~= b@.subrange(start as int, i + 1));
            i = i + 1;
        }
        let ghost before = raw@.map_values(|x: Vec<u8>| x@);
        let ghost argv = arg@;
        raw.push(arg);
        proof {
            assert(raw@.map_values(|x: Vec<u8>| x@) =~= before + seq![argv]);
            let later = parse_args(b@, end as int, (total - k - 1) as nat);
            assert(parse_args(b@, pos as int, (total - k) as nat) == prepend(seq![argv], later));
            match later {
                Some(rest) => {
                    assert(before + (seq![argv] + rest) =~= (before + seq![argv]) + rest);
                },
                None => {},
            }
        }
        pos = end;
        k = k + 1;
    }
    if pos != n {
        assert(parse_args(b@, pos as int, 0) is None);
        return None;
    }
    let ghost rawv = raw@.map_values(|x: Vec<u8>| x@);
    assert(parse_args(b@, 4, total) == Some(rawv)) by {
        assert(rawv + Seq::<Seq<u8>>::empty() =~= rawv);
    }
    let mut out: Vec<String> = Vec::new();
    let mut i: usize = 0;
    while i < raw.len()
        invariant
            i <= raw@.len(),
            out@.len() == i,
            rawv == raw@.map_values(|x: Vec<u8>| x@),
            b@.len() >= 4,
            read_le32(b@, 0) as nat == total,
            parse_args(b@, 4, total) == Some(rawv),
            forall|j: int| 0 <= j < i ==> #[trigger] valid_utf8(rawv[j]),
            forall|j: int| 0 <= j < i ==> (#[trigger] out@[j])@ == decode_utf8(rawv[j]),
        decreases raw@.len() - i,
    {
        assert(raw@[i as int]@ == rawv[i as int]);
        let sl = raw[i].as_slice();
        assert(sl@ == rawv[i as int]);
        match utf8_string(sl) {
            Some(st) => {
                assert(valid_utf8(rawv[i as int]));
                assert(st@ == decode_utf8(rawv[i as int]));
                let ghost before = out@;
                out.push(st);
                assert(out@[i as int]@ == decode_utf8(rawv[i as int]));
                assert forall|j: int| 0 <= j < i + 1 implies (#[trigger] out@[j])@ == decode_utf8(rawv[j]) by {
                    if j < i {
                        assert(out@[j] == before[j]);
                    }
                }
            },
            None => {
                assert(parse_payload(b@) is None);
                return None;
            },
        }
        i = i + 1;
    }
    assert(out@.map_values(|x: String| x@) =~= rawv.map_values(|x: Seq<u8>| decode_utf8(x)));
    Some(out)
}

/// Frames a serialized reply: its length as a `u32`, then the bytes.
pub fn frame(payload: &Vec<u8>) -> (b: Vec<u8>)
    ensures
        b@ == frame_bytes(payload@),
{
    let mut out: Vec<u8> = Vec::new();
    push_le32(&mut out, #[verifier::truncate] (payload.len() as u32));
    let mut i: usize = 0;
    while i < payload.len()
        invariant
            i <= payload@.len(),
            out@ == le32(payload@.len() as u32) + payload@.take(i as int),
        decreases payload@.len() - i,
    {
        out.push(payload[i]);
        assert(out@ =~= le32(payload@.len() as u32) + payload@.take(i + 1));
        i = i + 1;
    }
    assert(payload@.take(payload@.len() as int) =~= payload@);
    out
}

/// `encode_items` of a sequence's first `k + 1` items adds the serialization of
/// item `k` to that of its first `k`, and depends on those items only.
proof fn lemma_encode_items_prefix(items: Seq<Response>, k: int)
    requires
        0 <= k < items.len(),
    ensures
        encode_items(items, k + 1) == encode_items(items.take(k), k) + encode(items[k]),
    decreases k,
{
    lemma_encode_items_take(items, k);
}

proof fn lemma_encode_items_take(items: Seq<Response>, k: int)
    requires
        0 <= k <= items.len(),
    ensures
        encode_items(items, k) == encode_items(items.take(k), k),
    decreases k,
{
    if k > 0 {
        lemma_encode_items_take(items, k - 1);
        lemma_encode_items_take(items.take(k), k - 1);
        assert(items.take(k).take(k - 1) =~= items.take(k - 1));
        assert(items.take(k)[k - 1] == items[k - 1]);
    }
}

} // verus!
