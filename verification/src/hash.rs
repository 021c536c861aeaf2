//! The 64-bit digest that every entry of the store carries.
//!
//! The store only needs some fixed, deterministic mixing function: the
//! protocol compares XOR-combined digests across instances, so the same
//! key/value pair must digest to the same word everywhere.  An FNV-1a
//! style multiply-and-xor chain over 64-bit words serves that purpose
//! and is defined here in full, so every property of the range hashes
//! can be proved rather than assumed.

use vstd::prelude::*;

verus! {

/// FNV-1a offset basis, the seed of every digest chain.
pub const FNV_OFFSET: u64 = 0xcbf29ce484222325;

/// FNV-1a 64-bit prime.
pub const FNV_PRIME: u64 = 0x00000100000001b3;

/// One step of the digest chain: fold a 64-bit word into the
/// accumulator and scramble by the FNV prime (wrapping).
pub open spec fn fnv_step(acc: u64, word: u64) -> u64 {
    vstd::wrapping::u64_specs::wrapping_mul(acc ^ word, FNV_PRIME)
}

/// Digest of a byte string, one chain step per byte.
pub open spec fn bytes_digest(bytes: Seq<u8>) -> u64
    decreases bytes.len(),
{
    if bytes.len() == 0 {
        FNV_OFFSET
    } else {
        fnv_step(bytes_digest(bytes.drop_last()), bytes.last() as u64)
    }
}

/// Digest of one key/value pair, as cached inside the store: the key
/// is folded in first, then the value's own digest.
pub open spec fn entry_hash(key: u64, value_digest: u64) -> u64 {
    fnv_step(fnv_step(FNV_OFFSET, key), value_digest)
}

/// A value that the store can digest.  The executable method must
/// return exactly the mathematical digest, so that cached entry hashes
/// can be specified precisely.
pub trait Hashable: Sized {
    spec fn digest(&self) -> u64;

    fn compute_digest(&self) -> (d: u64)
        ensures
            d == self.digest(),
    ;
}

/// XOR keeps its identity element: folding nothing changes nothing.
pub proof fn lemma_xor_zero(x: u64)
    ensures
        x ^ 0 == x,
        0 ^ x == x,
{
    assert(x ^ 0 == x && 0 ^ x == x) by (bit_vector);
}

/// XOR is commutative.
pub proof fn lemma_xor_comm(a: u64, b: u64)
    ensures
        a ^ b == b ^ a,
{
    assert(a ^ b == b ^ a) by (bit_vector);
}

/// XOR is associative.
pub proof fn lemma_xor_assoc(a: u64, b: u64, c: u64)
    ensures
        (a ^ b) ^ c == a ^ (b ^ c),
{
    assert((a ^ b) ^ c == a ^ (b ^ c)) by (bit_vector);
}

/// One executable chain step; mirrors [`fnv_step`].
pub fn fnv_mix(acc: u64, word: u64) -> (r: u64)
    ensures
        r == fnv_step(acc, word),
{
    (acc ^ word).wrapping_mul(FNV_PRIME)
}

/// Digest of one key/value pair, as transmitted and cached by the
/// store; deterministic in the key and the value alone.
pub fn hash<V: Hashable>(key: u64, value: &V) -> (h: u64)
    ensures
        h == entry_hash(key, value.digest()),
{
    fnv_mix(fnv_mix(FNV_OFFSET, key), value.compute_digest())
}

impl Hashable for u64 {
    open spec fn digest(&self) -> u64 {
        fnv_step(FNV_OFFSET, *self)
    }

    fn compute_digest(&self) -> (d: u64) {
        fnv_mix(FNV_OFFSET, *self)
    }
}

/// Digest of a byte string, computed by one chain step per byte.
pub fn digest_bytes(bytes: &Vec<u8>) -> (d: u64)
    ensures
        d == bytes_digest(bytes@),
{
    let mut acc: u64 = FNV_OFFSET;
    let mut i: usize = 0;
    while i < bytes.len()
        invariant
            0 <= i <= bytes@.len(),
            acc == bytes_digest(bytes@.take(i as int)),
        decreases bytes@.len() - i,
    {
        acc = fnv_mix(acc, bytes[i] as u64);
        proof {
            assert(bytes@.take(i + 1).drop_last() =~= bytes@.take(i as int));
            assert(bytes@.take(i + 1).last() == bytes@[i as int]);
        }
        i = i + 1;
    }
    proof {
        assert(bytes@.take(bytes@.len() as int) =~= bytes@);
    }
    acc
}

impl Hashable for String {
    /// A string digests as the FNV-1a chain over its UTF-8 bytes.
    open spec fn digest(&self) -> u64 {
        bytes_digest(vstd::utf8::encode_utf8(self@))
    }

    fn compute_digest(&self) -> (d: u64) {
        let bytes = self.as_str().as_bytes_vec();
        digest_bytes(&bytes)
    }
}

impl<V: Hashable> Hashable for Option<V> {
    /// A tombstone digests differently from every live value: the
    /// chain folds in a presence word before the inner digest.
    open spec fn digest(&self) -> u64 {
        match self {
            None => fnv_step(FNV_OFFSET, 0),
            Some(v) => fnv_step(fnv_step(FNV_OFFSET, 1), v.digest()),
        }
    }

    fn compute_digest(&self) -> (d: u64) {
        match self {
            None => fnv_mix(FNV_OFFSET, 0),
            Some(v) => fnv_mix(fnv_mix(FNV_OFFSET, 1), v.compute_digest()),
        }
    }
}

} // verus!
