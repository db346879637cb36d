//! The two 32-bit hash functions and the double-hashing probe built on them.
//!
//! Every step is arithmetic modulo 2^32: overflow is part of the definition.

use vstd::arithmetic::div_mod::{lemma_add_mod_noop_right, lemma_mod_mod};
use vstd::prelude::*;
use vstd::wrapping::u32_specs::{wrapping_add, wrapping_mul};

verus! {

/// Multiplier of the chunked hash.
pub const BLOOM_MULTIPLIER: u32 = 0xc6a4a793;

/// Seed of the chunked hash.
pub const BLOOM_SEED: u32 = 0xbc9f1d34;

/// Little-endian value of the first `n` bytes of `b`, for `n` at most 4:
/// byte `k` weighs `256^k`.
pub open spec fn le_value(b: Seq<u8>, n: nat) -> u32
    recommends
        n <= 4,
        n <= b.len(),
{
    let b0: int = if n > 0 { b[0] as int } else { 0 };
    let b1: int = if n > 1 { b[1] as int } else { 0 };
    let b2: int = if n > 2 { b[2] as int } else { 0 };
    let b3: int = if n > 3 { b[3] as int } else { 0 };
    (b0 + 0x100 * b1 + 0x1_0000 * b2 + 0x100_0000 * b3) as u32
}

/// Packing four bytes with shifts and ors gives their little-endian value.
proof fn lemma_pack_le(b0: u8, b1: u8, b2: u8, b3: u8)
    by (bit_vector)
    ensures
        (b0 as u32) | ((b1 as u32) << 8) | ((b2 as u32) << 16) | ((b3 as u32) << 24) == b0
            + 0x100 * b1 + 0x1_0000 * b2 + 0x100_0000 * b3,
        (b0 as u32) | ((b1 as u32) << 8) | ((b2 as u32) << 16) == b0 + 0x100 * b1 + 0x1_0000
            * b2,
{
}

/// One round of the chunked hash: add the chunk, multiply, fold the high bits
/// down by `shift`.
pub open spec fn bloom_round(h: u32, chunk: u32, shift: u32) -> u32 {
    let t = wrapping_mul(wrapping_add(h, chunk), BLOOM_MULTIPLIER);
    t ^ (t >> shift)
}

/// The chunked hash's state after absorbing `b` into `h`: whole 4-byte
/// little-endian chunks first, then the 1 to 3 bytes that are left, if any.
pub open spec fn bloom_absorb(h: u32, b: Seq<u8>) -> u32
    decreases b.len(),
{
    if b.len() >= 4 {
        bloom_absorb(bloom_round(h, le_value(b, 4), 16), b.skip(4))
    } else if b.len() > 0 {
        bloom_round(h, le_value(b, b.len()), 24)
    } else {
        h
    }
}

/// The chunked hash's initial state for an input of `len` bytes.
pub open spec fn bloom_start(len: nat) -> u32 {
    BLOOM_SEED ^ wrapping_mul((len % 0x1_0000_0000) as u32, BLOOM_MULTIPLIER)
}

/// The chunked multiplicative hash of `b`.
pub open spec fn leveldb_bloom_hash_spec(b: Seq<u8>) -> u32 {
    bloom_absorb(bloom_start(b.len()), b)
}

/// One byte of the one-at-a-time hash.
pub open spec fn jenkins_round(h: u32, byte: u8) -> u32 {
    let a = wrapping_add(h, byte as u32);
    let s = wrapping_add(a, a << 10u32);
    s ^ (s >> 6u32)
}

/// The one-at-a-time hash's state after absorbing `b` into `h`, byte by byte.
pub open spec fn jenkins_absorb(h: u32, b: Seq<u8>) -> u32
    decreases b.len(),
{
    if b.len() == 0 {
        h
    } else {
        jenkins_absorb(jenkins_round(h, b[0]), b.skip(1))
    }
}

/// The final avalanche of the one-at-a-time hash.
pub open spec fn jenkins_finish(h: u32) -> u32 {
    let a = wrapping_add(h, h << 3u32);
    let x = a ^ (a >> 11u32);
    wrapping_add(x, x << 15u32)
}

/// The one-at-a-time hash of `b`.
pub open spec fn jenkins_hash_spec(b: Seq<u8>) -> u32 {
    jenkins_finish(jenkins_absorb(0, b))
}

/// Double hashing: probe `i` of a pair of hashes in a table of `capacity`
/// slots is `h1 + i * h2`, reduced modulo 2^32 and then modulo `capacity`.
#[verifier::opaque]
pub open spec fn probe_spec(h1: u32, h2: u32, i: nat, capacity: nat) -> nat
    recommends
        capacity > 0,
{
    (((h1 + i * h2) % 0x1_0000_0000) % (capacity as int)) as nat
}

/// Probe `i` of the byte string `item` in a table of `capacity` slots.
pub open spec fn item_probe(item: Seq<u8>, i: nat, capacity: nat) -> nat
    recommends
        capacity > 0,
{
    probe_spec(leveldb_bloom_hash_spec(item), jenkins_hash_spec(item), i, capacity)
}

/// Both hashes, and with them every probe, are functions of the bytes alone:
/// byte strings that agree byte for byte hash alike.
pub proof fn lemma_hashes_are_functions(a: Seq<u8>, b: Seq<u8>)
    requires
        a.len() == b.len(),
        forall|k: int| 0 <= k < a.len() ==> a[k] == b[k],
    ensures
        leveldb_bloom_hash_spec(a) == leveldb_bloom_hash_spec(b),
        jenkins_hash_spec(a) == jenkins_hash_spec(b),
        forall|i: nat, capacity: nat|
            #[trigger] item_probe(a, i, capacity) == item_probe(b, i, capacity),
{
    assert(a =~= b);
}

/// Every probe lands inside the table.
pub proof fn lemma_probe_in_range(h1: u32, h2: u32, i: nat, capacity: nat)
    requires
        capacity > 0,
    ensures
        probe_spec(h1, h2, i, capacity) < capacity,
{
    reveal(probe_spec);
}

/// In a table of half the slots every probe lands where it landed before,
/// reduced modulo the new number of slots: slots that lay half the old
/// capacity apart now coincide.
pub proof fn lemma_probe_halved(h1: u32, h2: u32, i: nat, capacity: nat)
    requires
        capacity >= 2,
        capacity % 2 == 0,
    ensures
        probe_spec(h1, h2, i, capacity / 2) == probe_spec(h1, h2, i, capacity) % (capacity / 2),
{
    reveal(probe_spec);
    let v = (h1 + i * h2) % 0x1_0000_0000;
    let half = (capacity / 2) as int;
    lemma_mod_mod(v, half, 2);
    assert(half * 2 == capacity);
}

/// Probe `i` of the hash pair `(h1, h2)` in a table of `capacity` slots.
pub fn probe(h1: u32, h2: u32, i: u32, capacity: u32) -> (pos: u32)
    requires
        capacity > 0,
    ensures
        pos == probe_spec(h1, h2, i as nat, capacity as nat),
        pos < capacity,
{
    let step: u32 = h2.wrapping_mul(i);
    let sum: u32 = h1.wrapping_add(step);
    proof {
        reveal(probe_spec);
        assert(step == (i * h2) % 0x1_0000_0000) by (nonlinear_arith)
            requires
                step == ((h2 as nat * i as nat) % (0x1_0000_0000 as nat)),
        ;
        assert(sum == (h1 + step) % 0x1_0000_0000);
        lemma_add_mod_noop_right(h1 as int, i * h2, 0x1_0000_0000);
    }
    sum % capacity
}

/// Chunked multiplicative hash of a byte string.
pub fn leveldb_bloom_hash(b: &[u8]) -> (h: u32)
    ensures
        h == leveldb_bloom_hash_spec(b@),
{
    let n: usize = b.len();
    let wide: u64 = n as u64;
    let len: u32 = (wide & 0xffff_ffff) as u32;
    proof {
        assert((wide & 0xffff_ffff) == wide % 0x1_0000_0000) by (bit_vector);
        assert(b@.skip(0) =~= b@);
    }
    let mut h: u32 = BLOOM_SEED ^ len.wrapping_mul(BLOOM_MULTIPLIER);
    let mut idx: usize = 0;
    while n - idx >= 4
        invariant
            n == b.len(),
            idx <= n,
            bloom_absorb(h, b@.skip(idx as int)) == leveldb_bloom_hash_spec(b@),
        decreases n - idx,
    {
        let chunk: u32 = (b[idx] as u32) | ((b[idx + 1] as u32) << 8) | ((b[idx + 2] as u32) << 16)
            | ((b[idx + 3] as u32) << 24);
        proof {
            let rest = b@.skip(idx as int);
            lemma_pack_le(rest[0], rest[1], rest[2], rest[3]);
            assert(le_value(rest, 4) == chunk);
            assert(rest.skip(4) =~= b@.skip(idx + 4));
        }
        h = h.wrapping_add(chunk);
        h = h.wrapping_mul(BLOOM_MULTIPLIER);
        h ^= h >> 16;
        idx += 4;
    }
    let left: usize = n - idx;
    if left > 0 {
        let b0: u8 = b[idx];
        let b1: u8 = if left > 1 { b[idx + 1] } else { 0 };
        let b2: u8 = if left > 2 { b[idx + 2] } else { 0 };
        let partial: u32 = (b0 as u32) | ((b1 as u32) << 8) | ((b2 as u32) << 16);
        proof {
            let rest = b@.skip(idx as int);
            lemma_pack_le(b0, b1, b2, 0);
            assert(le_value(rest, left as nat) == partial);
        }
        h = h.wrapping_add(partial);
        h = h.wrapping_mul(BLOOM_MULTIPLIER);
        h ^= h >> 24;
    }
    h
}

/// One-at-a-time hash of a byte string.
pub fn jenkins_hash(b: &[u8]) -> (h: u32)
    ensures
        h == jenkins_hash_spec(b@),
{
    let mut h2: u32 = 0;
    let mut i: usize = 0;
    proof {
        assert(b@.skip(0) =~= b@);
    }
    while i < b.len()
        invariant
            i <= b.len(),
            jenkins_absorb(h2, b@.skip(i as int)) == jenkins_absorb(0, b@),
        decreases b.len() - i,
    {
        let ch: u8 = b[i];
        proof {
            assert(b@.skip(i as int).skip(1) =~= b@.skip(i + 1));
        }
        h2 = h2.wrapping_add(ch as u32);
        h2 = h2.wrapping_add(h2 << 10);
        h2 ^= h2 >> 6;
        i += 1;
    }
    h2 = h2.wrapping_add(h2 << 3);
    h2 ^= h2 >> 11;
    h2 = h2.wrapping_add(h2 << 15);
    h2
}

} // verus!
