//! Hamming distance between packed bit vectors, and the choice of kernel by
//! the CPU's SIMD capabilities. Every kernel computes the same distance; the
//! one here is the portable word-by-word kernel.
use vstd::prelude::*;

verus! {

/// Kernel path: portable.
pub const PATH_SCALAR: u8 = 0;

/// Kernel path: AVX2 XOR.
pub const PATH_AVX2_XOR: u8 = 1;

/// Kernel path: AVX-512.
pub const PATH_AVX512: u8 = 2;

/// Longest vector, in words, whose distance fits a `u32` (64 bits a word).
pub const MAX_HAMMING_WORDS: usize = 0x3ff_ffff;

/// SIMD capabilities of the CPU.
#[derive(Clone, Copy, Debug, Default, PartialEq, Eq, Structural)]
pub struct CpuCaps {
    pub avx2: bool,
    pub avx512: bool,
}

/// Set bits among the low `n` bits of `x`.
pub open spec fn bits_set(x: u64, n: nat) -> nat
    decreases n,
{
    if n == 0 {
        0
    } else {
        bits_set(x, (n - 1) as nat) + if (x >> ((n - 1) as u64)) & 1u64 == 1u64 {
            1nat
        } else {
            0nat
        }
    }
}

/// Number of set bits of a word.
pub open spec fn popcount(x: u64) -> nat {
    bits_set(x, 64)
}

proof fn lemma_bits_set_bound(x: u64, n: nat)
    ensures
        bits_set(x, n) <= n,
    decreases n,
{
    if n > 0 {
        lemma_bits_set_bound(x, (n - 1) as nat);
    }
}

/// `u64::count_ones`: the number of ones in the binary representation.
#[verifier::external_body]
fn count_ones(x: u64) -> (r: u32)
    ensures
        r == popcount(x),
{
    x.count_ones()
}

/// Word `i` of a vector, zero past its end.
pub open spec fn word_or_zero(a: Seq<u64>, i: int) -> u64 {
    if 0 <= i < a.len() {
        a[i]
    } else {
        0
    }
}

/// Differing bits over the first `n` word positions, the shorter vector
/// padded with zero words.
pub open spec fn hamming_upto(a: Seq<u64>, b: Seq<u64>, n: nat) -> nat
    decreases n,
{
    if n == 0 {
        0
    } else {
        hamming_upto(a, b, (n - 1) as nat) + popcount(
            word_or_zero(a, n - 1) ^ word_or_zero(b, n - 1),
        )
    }
}

/// Hamming distance: differing bits over the common words, plus the set bits
/// of the longer vector's extra words.
pub open spec fn hamming_dist(a: Seq<u64>, b: Seq<u64>) -> nat {
    hamming_upto(a, b, if a.len() >= b.len() {
        a.len()
    } else {
        b.len()
    })
}

proof fn lemma_hamming_upto_bound(a: Seq<u64>, b: Seq<u64>, n: nat)
    ensures
        hamming_upto(a, b, n) <= 64 * n,
    decreases n,
{
    if n > 0 {
        lemma_hamming_upto_bound(a, b, (n - 1) as nat);
        lemma_bits_set_bound(word_or_zero(a, n - 1) ^ word_or_zero(b, n - 1), 64);
    }
}

/// Portable kernel: XOR and count word by word, then count the extra words
/// of the longer vector.
pub fn hamming_scalar(a: &[u64], b: &[u64]) -> (r: u32)
    requires
        a@.len() <= MAX_HAMMING_WORDS,
        b@.len() <= MAX_HAMMING_WORDS,
    ensures
        r == hamming_dist(a@, b@),
{
    let n = if a.len() < b.len() {
        a.len()
    } else {
        b.len()
    };
    let m = if a.len() > b.len() {
        a.len()
    } else {
        b.len()
    };
    let mut d: u32 = 0;
    let mut i: usize = 0;
    while i < m
        invariant
            n <= m,
            m == (if a@.len() >= b@.len() {
                a@.len()
            } else {
                b@.len()
            }),
            n == (if a@.len() < b@.len() {
                a@.len()
            } else {
                b@.len()
            }),
            m <= MAX_HAMMING_WORDS,
            0 <= i <= m,
            d == hamming_upto(a@, b@, i as nat),
        decreases m - i,
    {
        proof {
            lemma_hamming_upto_bound(a@, b@, (i + 1) as nat);
        }
        let w = if i < n {
            a[i] ^ b[i]
        } else if i < a.len() {
            let x = a[i];
            assert(x ^ 0u64 == x) by (bit_vector);
            x
        } else {
            let x = b[i];
            assert(0u64 ^ x == x) by (bit_vector);
            x
        };
        assert(w == word_or_zero(a@, i as int) ^ word_or_zero(b@, i as int));
        d = d + count_ones(w);
        i += 1;
    }
    d
}

/// Hamming distance between two packed bit vectors.
pub fn hamming(a: &[u64], b: &[u64]) -> (r: u32)
    requires
        a@.len() <= MAX_HAMMING_WORDS,
        b@.len() <= MAX_HAMMING_WORDS,
    ensures
        r == hamming_dist(a@, b@),
{
    hamming_scalar(a, b)
}

/// Hamming distance between two 1024-bit vectors (16 words).
pub fn hamming_1024(v1: &[u64; 16], v2: &[u64; 16]) -> (r: u32)
    ensures
        r == hamming_dist(v1@, v2@),
{
    hamming(v1.as_slice(), v2.as_slice())
}

/// The kernel path for the given capabilities: AVX-512 when present, else
/// AVX2, else portable.
pub open spec fn path_for(c: CpuCaps) -> u8 {
    if c.avx512 {
        PATH_AVX512
    } else if c.avx2 {
        PATH_AVX2_XOR
    } else {
        PATH_SCALAR
    }
}

/// Chooses the best kernel path for the capabilities.
pub fn select_best_hamming_kernel(caps: CpuCaps) -> (r: u8)
    ensures
        r == path_for(caps),
{
    if caps.avx512 {
        PATH_AVX512
    } else if caps.avx2 {
        PATH_AVX2_XOR
    } else {
        PATH_SCALAR
    }
}

/// Name of a kernel path (any unknown number names the portable kernel).
pub open spec fn path_label(path: u8) -> Seq<char> {
    if path == PATH_AVX512 {
        seq!['a', 'v', 'x', '5', '1', '2']
    } else if path == PATH_AVX2_XOR {
        seq!['a', 'v', 'x', '2', '_', 'x', 'o', 'r']
    } else {
        seq!['s', 'c', 'a', 'l', 'a', 'r']
    }
}

/// Name of the kernel path.
pub fn path_name(path: u8) -> (r: &'static str)
    ensures
        r@ == path_label(path),
{
    if path == PATH_AVX512 {
        proof {
            reveal_strlit("avx512");
        }
        "avx512"
    } else if path == PATH_AVX2_XOR {
        proof {
            reveal_strlit("avx2_xor");
        }
        "avx2_xor"
    } else {
        proof {
            reveal_strlit("scalar");
        }
        "scalar"
    }
}

/// Packs capabilities as bits: bit 0 AVX2, bit 1 AVX-512.
pub fn caps_bits(c: CpuCaps) -> (r: u8)
    ensures
        r == (if c.avx2 {
            1u8
        } else {
            0u8
        }) + (if c.avx512 {
            2u8
        } else {
            0u8
        }),
{
    let mut v: u8 = 0;
    if c.avx2 {
        v = v + 1;
    }
    if c.avx512 {
        v = v + 2;
    }
    v
}

/// Capabilities packed by `caps_bits`.
pub fn caps_from_bits(v: u8) -> (r: CpuCaps)
    ensures
        r.avx2 == (v & 1u8 != 0),
        r.avx512 == (v & 2u8 != 0),
{
    CpuCaps { avx2: v & 1 != 0, avx512: v & 2 != 0 }
}

/// Self-check of the kernel on 1024-bit vectors: identical words at
/// distance 0, one full word apart at distance 64.
pub fn smoke_1024() -> (r: bool)
    ensures
        r,
{
    let mut a = [0u64; 16];
    let b_arr = [0u64; 16];
    let c = [0u64; 16];
    a.set(0, 0xFFFF_FFFF_FFFF_FFFF);
    let mut b = b_arr;
    b.set(0, 0xFFFF_FFFF_FFFF_FFFF);
    let d_ab = hamming_1024(&a, &b);
    let d_ac = hamming_1024(&a, &c);
    let d_s = hamming_scalar(a.as_slice(), c.as_slice());
    proof {
        lemma_smoke_values(a@, b@, c@);
    }
    d_ab == 0 && d_ac == 64 && d_ac == d_s
}

proof fn lemma_hamming_upto_zero_tail(a: Seq<u64>, b: Seq<u64>, n: nat)
    requires
        forall|i: int| 1 <= i < n ==> word_or_zero(a, i) == 0 && word_or_zero(b, i) == 0,
        n >= 1,
    ensures
        hamming_upto(a, b, n) == hamming_upto(a, b, 1),
    decreases n,
{
    if n > 1 {
        lemma_hamming_upto_zero_tail(a, b, (n - 1) as nat);
        assert(word_or_zero(a, n - 1) ^ word_or_zero(b, n - 1) == 0u64) by {
            assert(0u64 ^ 0u64 == 0u64) by (bit_vector);
        }
        assert(popcount(0) == 0) by {
            lemma_bits_set_zero(64);
        }
    }
}

pub proof fn lemma_bits_set_zero(n: nat)
    ensures
        bits_set(0, n) == 0,
    decreases n,
{
    if n > 0 {
        lemma_bits_set_zero((n - 1) as nat);
        let k = (n - 1) as u64;
        assert((0u64 >> k) & 1u64 == 0u64) by (bit_vector);
    }
}

proof fn lemma_bits_set_full(n: nat)
    requires
        n <= 64,
    ensures
        bits_set(0xFFFF_FFFF_FFFF_FFFFu64, n) == n,
    decreases n,
{
    if n > 0 {
        lemma_bits_set_full((n - 1) as nat);
        let k = (n - 1) as u64;
        assert(k < 64);
        assert(k < 64 ==> (0xFFFF_FFFF_FFFF_FFFFu64 >> k) & 1u64 == 1u64) by (bit_vector);
    }
}

proof fn lemma_smoke_values(a: Seq<u64>, b: Seq<u64>, c: Seq<u64>)
    requires
        a.len() == 16 && b.len() == 16 && c.len() == 16,
        a[0] == 0xFFFF_FFFF_FFFF_FFFFu64 && b[0] == 0xFFFF_FFFF_FFFF_FFFFu64 && c[0] == 0,
        forall|i: int| 1 <= i < 16 ==> a[i] == 0 && b[i] == 0 && c[i] == 0,
    ensures
        hamming_dist(a, b) == 0,
        hamming_dist(a, c) == 64,
{
    lemma_hamming_upto_zero_tail(a, b, 16);
    lemma_hamming_upto_zero_tail(a, c, 16);
    let f = 0xFFFF_FFFF_FFFF_FFFFu64;
    assert(f ^ f == 0u64) by (bit_vector);
    assert(f ^ 0u64 == f) by (bit_vector);
    lemma_bits_set_zero(64);
    lemma_bits_set_full(64);
    assert(hamming_upto(a, b, 0) == 0);
    assert(hamming_upto(a, c, 0) == 0);
}

proof fn lemma_bits_set_high_zero(x: u64, k: u64, n: nat)
    requires
        k <= n <= 64,
        k < 64,
        x >> k == 0,
    ensures
        bits_set(x, n) == bits_set(x, k as nat),
    decreases n,
{
    if n > k {
        lemma_bits_set_high_zero(x, k, (n - 1) as nat);
        let m = (n - 1) as u64;
        assert((x >> m) & 1u64 == 0u64) by (bit_vector)
            requires
                x >> k == 0u64,
                m >= k,
                m < 64,
        ;
    }
}

/// Set bits of a word below 16: the set bits among its low four.
pub proof fn lemma_popcount_nibble(x: u64)
    requires
        x < 16,
    ensures
        popcount(x) == ((x & 1u64) + ((x >> 1u64) & 1u64) + ((x >> 2u64) & 1u64) + ((x >> 3u64) & 1u64)),
{
    assert(x >> 4u64 == 0u64) by (bit_vector)
        requires
            x < 16,
    ;
    lemma_bits_set_high_zero(x, 4, 64);
    assert((x >> 0u64) & 1u64 == x & 1u64) by (bit_vector);
    assert(((x >> 0u64) & 1u64) <= 1 && ((x >> 1u64) & 1u64) <= 1 && ((x >> 2u64) & 1u64) <= 1 && ((x
        >> 3u64) & 1u64) <= 1) by (bit_vector);
    assert(bits_set(x, 0) == 0);
    assert(bits_set(x, 1) == (x >> 0u64) & 1u64);
    assert(bits_set(x, 2) == bits_set(x, 1) + ((x >> 1u64) & 1u64));
    assert(bits_set(x, 3) == bits_set(x, 2) + ((x >> 2u64) & 1u64));
    assert(bits_set(x, 4) == bits_set(x, 3) + ((x >> 3u64) & 1u64));
}

} // verus!
