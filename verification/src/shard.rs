use vstd::prelude::*;

verus! {

/// Number of shards the key space is split into.
pub const SHARDS: usize = 32;

/// FNV-1a 64-bit offset basis.
pub const FNV_OFFSET: u64 = 0xcbf2_9ce4_8422_2325;

/// FNV-1a 64-bit prime.
pub const FNV_PRIME: u64 = 0x100_0000_01b3;

/// One FNV-1a step: xor the byte in, then multiply by the prime modulo 2^64.
pub open spec fn fnv_step(h: u64, b: u8) -> u64 {
    (((h ^ (b as u64)) as nat * FNV_PRIME as nat) % 0x1_0000_0000_0000_0000nat) as u64
}

/// FNV-1a 64-bit hash of a byte string.
pub open spec fn fnv1a(bytes: Seq<u8>) -> u64
    decreases bytes.len(),
{
    if bytes.len() == 0 {
        FNV_OFFSET
    } else {
        fnv_step(fnv1a(bytes.drop_last()), bytes.last())
    }
}

/// The shard that holds a key: the FNV-1a hash of its UTF-8 bytes, modulo the shard count.
pub open spec fn spec_shard_of(key: Seq<char>) -> int {
    (fnv1a(vstd::utf8::encode_utf8(key)) % (SHARDS as u64)) as int
}

/// Picks the shard that holds `key`.
pub fn shard_of(key: &str) -> (idx: usize)
    ensures
        idx == spec_shard_of(key@),
        idx < SHARDS,
{
    let bytes = key.as_bytes();
    let mut h: u64 = FNV_OFFSET;
    let mut i: usize = 0;
    while i < bytes.len()
        invariant
            i <= bytes@.len(),
            bytes@ == vstd::utf8::encode_utf8(key@),
            h == fnv1a(bytes@.subrange(0, i as int)),
        decreases bytes@.len() - i,
    {
        let b = bytes[i];
        assert(bytes@.subrange(0, i as int + 1).drop_last() == bytes@.subrange(0, i as int));
        h = (h ^ (b as u64)).wrapping_mul(FNV_PRIME);
        i = i + 1;
    }
    assert(bytes@.subrange(0, i as int) == bytes@);
    (h % (SHARDS as u64)) as usize
}

} // verus!
