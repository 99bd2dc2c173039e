//! FNV-1a hashing of the derived state: the incremental 64-bit mix, fixed
//! width scalars and length-prefixed strings.
use vstd::prelude::*;
use vstd::bytes::*;
use vstd::string::StringSliceAdditionalSpecFns;

verus! {

/// Offset basis of FNV-1a 64.
pub const FP_SEED: u64 = 0xcbf2_9ce4_8422_2325;

/// Prime of FNV-1a 64.
pub const FP_PRIME: u64 = 0x0000_0100_0000_01B3;

/// One FNV-1a step: xor the byte in, multiply by the prime (wrapping).
pub open spec fn fnv_step(h: u64, b: u8) -> u64 {
    vstd::wrapping::u64_specs::wrapping_mul(h ^ (b as u64), FP_PRIME)
}

/// FNV-1a of `bs` from state `h`.
pub open spec fn fnv(h: u64, bs: Seq<u8>) -> u64
    decreases bs.len(),
{
    if bs.len() == 0 {
        h
    } else {
        fnv_step(fnv(h, bs.drop_last()), bs.last())
    }
}

/// Hashing a concatenation hashes one part after the other.
pub proof fn lemma_fnv_concat(h: u64, a: Seq<u8>, b: Seq<u8>)
    ensures
        fnv(h, a + b) == fnv(fnv(h, a), b),
    decreases b.len(),
{
    if b.len() == 0 {
        assert(a + b =~= a);
    } else {
        lemma_fnv_concat(h, a, b.drop_last());
        assert((a + b).drop_last() =~= a + b.drop_last());
        assert((a + b).last() == b.last());
    }
}

/// Mixes bytes into an FNV-1a 64 state.
pub fn fp_mix(h: u64, bytes: &[u8]) -> (r: u64)
    ensures
        r == fnv(h, bytes@),
{
    let mut acc = h;
    let mut i: usize = 0;
    while i < bytes.len()
        invariant
            0 <= i <= bytes@.len(),
            acc == fnv(h, bytes@.take(i as int)),
        decreases bytes@.len() - i,
    {
        assert(bytes@.take(i + 1).drop_last() =~= bytes@.take(i as int));
        acc = (acc ^ bytes[i] as u64).wrapping_mul(FP_PRIME);
        i += 1;
    }
    assert(bytes@.take(i as int) =~= bytes@);
    acc
}

/// Mixes a scalar as its eight little-endian bytes.
pub fn fp_mix_u64(h: u64, v: u64) -> (r: u64)
    ensures
        r == fnv(h, spec_u64_to_le_bytes(v)),
{
    let b = u64_to_le_bytes(v);
    fp_mix(h, b.as_slice())
}

/// Mixes a string prefixed by its byte length (as a `u64`), so that no
/// two splits of the same bytes collide by construction.
pub fn fp_mix_str(h: u64, s: &str) -> (r: u64)
    ensures
        r == fnv(fnv(h, spec_u64_to_le_bytes(s.spec_bytes().len() as u64)), s.spec_bytes()),
{
    let b = s.as_bytes();
    fp_mix(fp_mix_u64(h, b.len() as u64), b)
}

/// FNV-1a 64 of a byte string.
pub fn fnv1a64(bytes: &[u8]) -> (r: u64)
    ensures
        r == fnv(FP_SEED, bytes@),
{
    fp_mix(FP_SEED, bytes)
}

} // verus!
