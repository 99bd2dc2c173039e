//! Binary-quantized flat index: fixed-width packed bit vectors ranked by
//! Hamming distance, with a deterministic (distance, id) order.
use vstd::prelude::*;
use vstd::relations::{sorted_by, total_ordering};
use vstd::seq_lib::lemma_sorted_unique;
use crate::hamming_dispatch::{hamming, hamming_dist, path_name, MAX_HAMMING_WORDS};
use crate::fingerprint::{fnv, fp_mix, FP_SEED};
use crate::wire::words_le;
use vstd::bytes::*;
pub use crate::limits::MAX_EMBEDDING_DIM;

verus! {

broadcast use vstd::seq_lib::group_to_multiset_ensures;

/// A flat index: ids in insertion order and their vectors, back to back,
/// each `words_per_vec` words wide (0 until the first insert fixes it).
pub struct BqFlatIndex {
    pub ids: Vec<u64>,
    pub flat: Vec<u64>,
    pub words_per_vec: usize,
}

/// A vector cut or zero-padded to `w` words.
pub open spec fn fit_words(bits: Seq<u64>, w: nat) -> Seq<u64> {
    if bits.len() >= w {
        bits.take(w as int)
    } else {
        bits + Seq::new((w - bits.len()) as nat, |i: int| 0u64)
    }
}

/// Hit order: by distance, then by id.
pub open spec fn hit_le(a: (u64, u32), b: (u64, u32)) -> bool {
    a.1 < b.1 || (a.1 == b.1 && a.0 <= b.0)
}

/// Hits in (distance, id) order.
pub open spec fn hits_sorted(t: Seq<(u64, u32)>) -> bool {
    forall|i: int, j: int| 0 <= i < j < t.len() ==> hit_le(#[trigger] t[i], #[trigger] t[j])
}

/// `r` is the first `k` of the (distance, id) ordering of `s`.
pub open spec fn smallest_k(r: Seq<(u64, u32)>, s: Seq<(u64, u32)>, k: nat) -> bool {
    exists|t: Seq<(u64, u32)>|
        hits_sorted(t) && #[trigger] t.to_multiset()
            == s.to_multiset() && r == t.take(if k < t.len() {
            k as int
        } else {
            t.len() as int
        })
}

/// The hit order is a total order.
pub proof fn lemma_hit_order_total()
    ensures
        total_ordering(|a: (u64, u32), b: (u64, u32)| hit_le(a, b)),
{
}

/// The ordering of a collection of hits is unique, so `smallest_k` pins the
/// result down.
pub proof fn law_smallest_k_unique(r1: Seq<(u64, u32)>, r2: Seq<(u64, u32)>, s: Seq<(u64, u32)>, k: nat)
    requires
        smallest_k(r1, s, k),
        smallest_k(r2, s, k),
    ensures
        r1 == r2,
{
    let le = |a: (u64, u32), b: (u64, u32)| hit_le(a, b);
    let t1 = choose|t: Seq<(u64, u32)>|
        hits_sorted(t) && #[trigger] t.to_multiset() == s.to_multiset() && r1 == t.take(if k < t.len() {
            k as int
        } else {
            t.len() as int
        });
    let t2 = choose|t: Seq<(u64, u32)>|
        hits_sorted(t) && #[trigger] t.to_multiset() == s.to_multiset() && r2 == t.take(if k < t.len() {
            k as int
        } else {
            t.len() as int
        });
    lemma_hit_order_total();
    lemma_hits_sorted_by(t1);
    lemma_hits_sorted_by(t2);
    lemma_sorted_unique(t1, t2, le);
}

proof fn lemma_hits_sorted_by(t: Seq<(u64, u32)>)
    requires
        hits_sorted(t),
    ensures
        sorted_by(t, |a: (u64, u32), b: (u64, u32)| hit_le(a, b)),
{
    assert forall|i: int, j: int| 0 <= i < j < t.len() implies (|a: (u64, u32), b: (u64, u32)| hit_le(a, b))(t[i], t[j]) by {
        assert(hit_le(t[i], t[j]));
    }
}

impl BqFlatIndex {
    /// The flat storage holds one `words_per_vec`-wide vector per id.
    pub open spec fn wf(&self) -> bool {
        &&& self.flat@.len() == self.ids@.len() * self.words_per_vec
        &&& (self.words_per_vec == 0 ==> self.ids@.len() == 0)
    }

    /// Vector of the `i`-th id.
    pub open spec fn vector(&self, i: int) -> Seq<u64> {
        self.flat@.subrange(i * self.words_per_vec, (i + 1) * self.words_per_vec)
    }

    /// The ids at the listed positions with their distances to `query`.
    pub open spec fn scored_at(&self, query: Seq<u64>, c: Seq<usize>) -> Seq<(u64, u32)> {
        Seq::new(c.len(), |i: int| (self.ids@[c[i] as int], hamming_dist(query, self.vector(c[i] as int)) as u32))
    }

    /// Every id with its distance to `query`, in insertion order.
    pub open spec fn scored(&self, query: Seq<u64>) -> Seq<(u64, u32)> {
        Seq::new(self.ids@.len(), |i: int| (self.ids@[i], hamming_dist(query, self.vector(i)) as u32))
    }

    /// An empty index.
    pub fn new() -> (r: Self)
        ensures
            r.wf(),
            r.ids@.len() == 0,
            r.flat@.len() == 0,
            r.words_per_vec == 0,
    {
        BqFlatIndex { ids: Vec::new(), flat: Vec::new(), words_per_vec: 0 }
    }

    fn append_fitted(&mut self, bits: &[u64], w: usize)
        requires
            old(self).flat@.len() + w <= usize::MAX,
        ensures
            final(self).ids@ == old(self).ids@,
            final(self).words_per_vec == old(self).words_per_vec,
            final(self).flat@ == old(self).flat@ + fit_words(bits@, w as nat),
    {
        let ghost start = self.flat@;
        let n = if bits.len() < w {
            bits.len()
        } else {
            w
        };
        let mut i: usize = 0;
        while i < w
            invariant
                0 <= i <= w,
                n == (if bits@.len() < w {
                    bits@.len()
                } else {
                    w as nat
                }),
                start.len() + w <= usize::MAX,
                self.ids@ == old(self).ids@,
                self.words_per_vec == old(self).words_per_vec,
                self.flat@ == start + fit_words(bits@, w as nat).take(i as int),
            decreases w - i,
        {
            let x = if i < n {
                bits[i]
            } else {
                0
            };
            assert(fit_words(bits@, w as nat)[i as int] == x);
            self.flat.push(x);
            assert(fit_words(bits@, w as nat).take(i + 1) =~= fit_words(bits@, w as nat).take(
                i as int,
            ).push(x));
            i += 1;
        }
        assert(fit_words(bits@, w as nat).take(w as int) =~= fit_words(bits@, w as nat));
    }

    /// Adds a vector under `id`, cut or zero-padded to the index's width; the
    /// first insert fixes the width (at least one word).
    pub fn insert(&mut self, id: u64, bits: Vec<u64>)
        requires
            old(self).wf(),
            old(self).flat@.len() + (if old(self).words_per_vec == 0 {
                if bits@.len() == 0 {
                    1
                } else {
                    bits@.len()
                }
            } else {
                old(self).words_per_vec as nat
            }) <= usize::MAX,
        ensures
            final(self).wf(),
            final(self).words_per_vec == (if old(self).words_per_vec == 0 {
                if bits@.len() == 0 {
                    1
                } else {
                    bits@.len()
                }
            } else {
                old(self).words_per_vec as nat
            }),
            final(self).ids@ == old(self).ids@.push(id),
            final(self).flat@ == old(self).flat@ + fit_words(bits@, final(self).words_per_vec as nat),
    {
        if self.words_per_vec == 0 {
            self.words_per_vec = if bits.len() == 0 {
                1
            } else {
                bits.len()
            };
        }
        let w = self.words_per_vec;
        self.ids.push(id);
        self.append_fitted(bits.as_slice(), w);
        proof {
            vstd::arithmetic::mul::lemma_mul_is_distributive_add_other_way(
                w as int,
                old(self).ids@.len() as int,
                1,
            );
        }
    }

    /// Adds a 1024-bit vector under `id`, cut or zero-padded to the index's
    /// width (16 words when it is the first).
    pub fn insert_1024(&mut self, id: u64, bits: &[u64; 16])
        requires
            old(self).wf(),
            old(self).flat@.len() + (if old(self).words_per_vec == 0 {
                16
            } else {
                old(self).words_per_vec as nat
            }) <= usize::MAX,
        ensures
            final(self).wf(),
            final(self).words_per_vec == (if old(self).words_per_vec == 0 {
                16
            } else {
                old(self).words_per_vec as nat
            }),
            final(self).ids@ == old(self).ids@.push(id),
            final(self).flat@ == old(self).flat@ + fit_words(bits@, final(self).words_per_vec as nat),
    {
        if self.words_per_vec == 0 {
            self.words_per_vec = 16;
        }
        let w = self.words_per_vec;
        self.ids.push(id);
        self.append_fitted(bits.as_slice(), w);
        proof {
            vstd::arithmetic::mul::lemma_mul_is_distributive_add_other_way(
                w as int,
                old(self).ids@.len() as int,
                1,
            );
        }
    }

    /// Empties the index and forgets its width.
    pub fn clear(&mut self)
        ensures
            final(self).wf(),
            final(self).ids@.len() == 0,
            final(self).flat@.len() == 0,
            final(self).words_per_vec == 0,
    {
        self.ids.clear();
        self.flat.clear();
        self.words_per_vec = 0;
    }

    /// Number of vectors.
    pub fn len(&self) -> (r: usize)
        ensures
            r == self.ids@.len(),
    {
        self.ids.len()
    }

    /// Distance from `query` to every vector, in insertion order.
    fn score_all(&self, query: &[u64]) -> (r: Vec<(u64, u32)>)
        requires
            self.wf(),
            self.words_per_vec <= MAX_HAMMING_WORDS,
            query@.len() <= MAX_HAMMING_WORDS,
        ensures
            r@ == self.scored(query@),
    {
        let w = self.words_per_vec;
        let mut out: Vec<(u64, u32)> = Vec::new();
        let mut i: usize = 0;
        while i < self.ids.len()
            invariant
                self.wf(),
                w == self.words_per_vec,
                w <= MAX_HAMMING_WORDS,
                query@.len() <= MAX_HAMMING_WORDS,
                0 <= i <= self.ids@.len(),
                out@ == self.scored(query@).take(i as int),
            decreases self.ids@.len() - i,
        {
            let fl = self.flat.len();
            proof {
                vstd::arithmetic::mul::lemma_mul_inequality(i + 1, self.ids@.len() as int, w as int);
                vstd::arithmetic::mul::lemma_mul_is_distributive_add_other_way(w as int, i as int, 1);
                vstd::arithmetic::mul::lemma_mul_is_commutative(w as int, self.ids@.len() as int);
            }
            let start = i * w;
            let v = vstd::slice::slice_subrange(self.flat.as_slice(), start, start + w);
            let d = hamming(query, v);
            out.push((self.ids[i], d));
            assert(out@ =~= self.scored(query@).take(i + 1));
            i += 1;
        }
        assert(out@ =~= self.scored(query@));
        out
    }

    /// The `k` nearest vectors to `query` as (id, distance), ordered by
    /// distance then id; empty for an empty index or `k == 0`.
    pub fn top_k(&self, query: &[u64], k: usize) -> (r: Vec<(u64, u32)>)
        requires
            self.wf(),
            self.words_per_vec <= MAX_HAMMING_WORDS,
            query@.len() <= MAX_HAMMING_WORDS,
        ensures
            smallest_k(r@, self.scored(query@), k as nat),
    {
        if self.words_per_vec == 0 || self.ids.len() == 0 || k == 0 {
            let r: Vec<(u64, u32)> = Vec::new();
            proof {
                let t = sort_hits_spec_witness(self.scored(query@));
                assert(t.take(0) =~= r@);
                if self.ids@.len() == 0 {
                    assert(self.scored(query@).len() == 0);
                    assert(t.len() == 0);
                }
            }
            return r;
        }
        let scored = self.score_all(query);
        let mut sorted = sort_hits(&scored);
        let ghost t = sorted@;
        let keep = if k < sorted.len() {
            k
        } else {
            sorted.len()
        };
        sorted.truncate(keep);
        proof {
            assert(t.to_multiset() == self.scored(query@).to_multiset());
            assert(sorted@ =~= t.take(keep as int));
        }
        sorted
    }
}

impl Default for BqFlatIndex {
    fn default() -> (r: Self)
        ensures
            r.wf(),
            r.ids@.len() == 0,
            r.flat@.len() == 0,
            r.words_per_vec == 0,
    {
        Self::new()
    }
}

/// Some ordering of the hits (for the empty results).
proof fn sort_hits_spec_witness(s: Seq<(u64, u32)>) -> (t: Seq<(u64, u32)>)
    ensures
        hits_sorted(t),
        t.to_multiset() == s.to_multiset(),
        t.len() == s.len(),
    decreases s.len(),
{
    if s.len() == 0 {
        s
    } else {
        let t0 = sort_hits_spec_witness(s.drop_last());
        let x = s.last();
        let p = insert_pos(t0, x);
        lemma_insert_pos(t0, x);
        let t = t0.insert(p, x);
        lemma_insert_sorted(t0, x, p);
        vstd::seq_lib::to_multiset_insert(t0, p, x);
        assert(s =~= s.drop_last().push(x));
        t
    }
}

/// Where `x` goes in a sorted list: after every hit not above it.
spec fn insert_pos(t: Seq<(u64, u32)>, x: (u64, u32)) -> int
    decreases t.len(),
{
    if t.len() == 0 {
        0
    } else if hit_le(t.last(), x) {
        t.len() as int
    } else {
        insert_pos(t.drop_last(), x)
    }
}

proof fn lemma_insert_pos(t: Seq<(u64, u32)>, x: (u64, u32))
    requires
        hits_sorted(t),
    ensures
        0 <= insert_pos(t, x) <= t.len(),
        forall|i: int| 0 <= i < insert_pos(t, x) ==> hit_le(#[trigger] t[i], x),
        forall|i: int| insert_pos(t, x) <= i < t.len() ==> !hit_le(#[trigger] t[i], x),
    decreases t.len(),
{
    if t.len() > 0 && !hit_le(t.last(), x) {
        let t1 = t.drop_last();
        assert(hits_sorted(t1)) by {
            assert forall|i: int, j: int| 0 <= i < j < t1.len() implies hit_le(t1[i], t1[j]) by {
                assert(hit_le(t[i], t[j]));
            }
        }
        lemma_insert_pos(t1, x);
        assert forall|i: int| 0 <= i < insert_pos(t, x) implies hit_le(#[trigger] t[i], x) by {
            assert(t1[i] == t[i]);
        }
        assert forall|i: int| insert_pos(t, x) <= i < t.len() implies !hit_le(#[trigger] t[i], x) by {
            if i < t.len() - 1 {
                assert(t1[i] == t[i]);
            }
        }
    } else if t.len() > 0 {
        assert forall|i: int| 0 <= i < t.len() implies hit_le(#[trigger] t[i], x) by {
            if i < t.len() - 1 {
                assert(hit_le(t[i], t[t.len() - 1]));
            }
        }
    }
}

proof fn lemma_insert_sorted(t: Seq<(u64, u32)>, x: (u64, u32), p: int)
    requires
        hits_sorted(t),
        0 <= p <= t.len(),
        forall|i: int| 0 <= i < p ==> hit_le(#[trigger] t[i], x),
        forall|i: int| p <= i < t.len() ==> !hit_le(#[trigger] t[i], x),
    ensures
        hits_sorted(t.insert(p, x)),
{
    let u = t.insert(p, x);
    assert forall|i: int, j: int| 0 <= i < j < u.len() implies hit_le(#[trigger] u[i], #[trigger] u[j]) by {
        if j < p {
            assert(u[i] == t[i] && u[j] == t[j]);
            assert(hit_le(t[i], t[j]));
        } else if j == p {
            assert(u[i] == t[i]);
        } else if i == p {
            assert(u[j] == t[j - 1]);
            assert(!hit_le(t[j - 1], x));
        } else if i < p {
            assert(u[i] == t[i] && u[j] == t[j - 1]);
            assert(hit_le(t[i], x));
            assert(!hit_le(t[j - 1], x));
        } else {
            assert(u[i] == t[i - 1] && u[j] == t[j - 1]);
            assert(hit_le(t[i - 1], t[j - 1]));
        }
    }
}

/// The hits ordered by (distance, id).
fn sort_hits(s: &Vec<(u64, u32)>) -> (r: Vec<(u64, u32)>)
    ensures
        hits_sorted(r@),
        r@.to_multiset() == s@.to_multiset(),
{
    let mut out: Vec<(u64, u32)> = Vec::new();
    let mut i: usize = 0;
    while i < s.len()
        invariant
            0 <= i <= s@.len(),
            hits_sorted(out@),
            out@.to_multiset() == s@.take(i as int).to_multiset(),
        decreases s@.len() - i,
    {
        let x = s[i];
        let mut p: usize = out.len();
        while p > 0 && !(out[p - 1].1 < x.1 || (out[p - 1].1 == x.1 && out[p - 1].0 <= x.0))
            invariant
                0 <= p <= out@.len(),
                hits_sorted(out@),
                forall|j: int| p <= j < out@.len() ==> !hit_le(#[trigger] out@[j], x),
            decreases p,
        {
            p -= 1;
        }
        proof {
            assert forall|j: int| 0 <= j < p implies hit_le(#[trigger] out@[j], x) by {
                if j < p - 1 {
                    assert(hit_le(out@[j], out@[p - 1]));
                }
            }
            lemma_insert_sorted(out@, x, p as int);
            vstd::seq_lib::to_multiset_insert(out@, p as int, x);
            assert(s@.take(i + 1) =~= s@.take(i as int).push(x));
        }
        out.insert(p, x);
        i += 1;
    }
    assert(s@.take(i as int) =~= s@);
    out
}

/// Name of the active Hamming kernel for the given kernel path.
pub fn hamming_path(path: u8) -> (r: &'static str)
    ensures
        r@ == crate::hamming_dispatch::path_label(path),
{
    path_name(path)
}

/// Self-check of the index: three 4-bit vectors (the signs of `[1,-1,1,-1]`,
/// `[-1,-1,-1,-1]` and `[1,1,1,1]`), and the nearest to the first is itself at
/// distance 0; plus the 1024-bit kernel check.
pub fn smoke() -> (r: bool)
    ensures
        r,
{
    let mut idx = BqFlatIndex::new();
    idx.insert(1, vec![5u64]);
    idx.insert(2, vec![0u64]);
    idx.insert(3, vec![15u64]);
    let q: Vec<u64> = vec![5u64];
    let hits = idx.top_k(q.as_slice(), 1);
    proof {
        let s = idx.scored(q@);
        assert(idx.words_per_vec == 1);
        assert(idx.vector(0) =~= seq![5u64]);
        assert(idx.vector(1) =~= seq![0u64]);
        assert(idx.vector(2) =~= seq![15u64]);
        assert(5u64 ^ 5u64 == 0u64) by (bit_vector);
        assert(5u64 ^ 0u64 == 5u64) by (bit_vector);
        assert(5u64 ^ 15u64 == 10u64) by (bit_vector);
        crate::hamming_dispatch::lemma_bits_set_zero(64);
        crate::hamming_dispatch::lemma_popcount_nibble(5u64);
        crate::hamming_dispatch::lemma_popcount_nibble(10u64);
        assert((5u64 & 1u64) + ((5u64 >> 1u64) & 1u64) + ((5u64 >> 2u64) & 1u64) + ((5u64 >> 3u64) & 1u64)
            == 2) by (bit_vector);
        assert((10u64 & 1u64) + ((10u64 >> 1u64) & 1u64) + ((10u64 >> 2u64) & 1u64) + ((10u64 >> 3u64)
            & 1u64) == 2) by (bit_vector);
        assert(crate::hamming_dispatch::popcount(0u64) == 0);
        assert(crate::hamming_dispatch::popcount(5u64) == 2);
        assert(crate::hamming_dispatch::popcount(10u64) == 2);
        assert(q@[0] == 5u64);
        assert(crate::hamming_dispatch::word_or_zero(q@, 0) == 5u64);
        assert(crate::hamming_dispatch::word_or_zero(idx.vector(0), 0) == 5u64);
        assert(crate::hamming_dispatch::word_or_zero(idx.vector(1), 0) == 0u64);
        assert(crate::hamming_dispatch::word_or_zero(idx.vector(2), 0) == 15u64);
        assert(crate::hamming_dispatch::hamming_upto(q@, idx.vector(0), 0) == 0);
        assert(crate::hamming_dispatch::hamming_upto(q@, idx.vector(1), 0) == 0);
        assert(crate::hamming_dispatch::hamming_upto(q@, idx.vector(2), 0) == 0);
        assert(hamming_dist(q@, idx.vector(0)) == 0);
        assert(hamming_dist(q@, idx.vector(1)) == 2);
        assert(hamming_dist(q@, idx.vector(2)) == 2);
        let t = seq![(1u64, 0u32), (2u64, 2u32), (3u64, 2u32)];
        assert(s =~= t);
        assert(hits_sorted(t));
        assert(smallest_k(seq![(1u64, 0u32)], s, 1)) by {
            assert(t.take(1) =~= seq![(1u64, 0u32)]);
            assert(t.to_multiset() == s.to_multiset());
        }
        law_smallest_k_unique(hits@, seq![(1u64, 0u32)], s, 1);
    }
    let hits_ok = hits.len() == 1 && hits[0].0 == 1 && hits[0].1 == 0;
    hits_ok && crate::hamming_dispatch::smoke_1024()
}

// ---- multi-index hashing ---------------------------------------------------

/// Bucket key of a block of words: FNV-1a 64 of its little-endian bytes.
pub open spec fn block_hash(ws: Seq<u64>) -> u64 {
    fnv(FP_SEED, words_le(ws))
}

fn hash_words(words: &[u64]) -> (r: u64)
    ensures
        r == block_hash(words@),
{
    let mut bytes: Vec<u8> = Vec::new();
    let mut i: usize = 0;
    while i < words.len()
        invariant
            0 <= i <= words@.len(),
            bytes@ == words_le(words@.take(i as int)),
        decreases words@.len() - i,
    {
        let b = u64_to_le_bytes(words[i]);
        bytes.extend_from_slice(b.as_slice());
        proof {
            assert(words@.take(i + 1).drop_last() =~= words@.take(i as int));
        }
        i += 1;
    }
    assert(words@.take(i as int) =~= words@);
    fp_mix(FP_SEED, bytes.as_slice())
}

/// Block `j` of a vector cut into blocks of `bw` words (clipped to its end).
pub open spec fn block_of(v: Seq<u64>, bw: int, j: int) -> Seq<u64> {
    let lo = if j * bw < v.len() {
        j * bw
    } else {
        v.len() as int
    };
    let hi = if (j + 1) * bw < v.len() {
        (j + 1) * bw
    } else {
        v.len() as int
    };
    v.subrange(lo, hi)
}

/// Strictly ascending positions.
pub open spec fn ascending(s: Seq<usize>) -> bool {
    forall|a: int, b: int| 0 <= a < b < s.len() ==> #[trigger] s[a] < #[trigger] s[b]
}

/// Bucket table of one block: hash to positions.
pub open spec fn bucket_map(b: Seq<(u64, Vec<usize>)>) -> Map<u64, Seq<usize>>
    decreases b.len(),
{
    if b.len() == 0 {
        Map::empty()
    } else {
        bucket_map(b.drop_last()).insert(b.last().0, b.last().1@)
    }
}

/// No hash twice in a bucket table.
pub open spec fn bucket_keys_distinct(b: Seq<(u64, Vec<usize>)>) -> bool {
    forall|a: int, c: int| 0 <= a < c < b.len() ==> (#[trigger] b[a]).0 != (#[trigger] b[c]).0
}

proof fn lemma_bucket_map(b: Seq<(u64, Vec<usize>)>, k: u64)
    requires
        bucket_keys_distinct(b),
    ensures
        bucket_map(b).contains_key(k) <==> exists|i: int| 0 <= i < b.len() && b[i].0 == k,
        forall|i: int| 0 <= i < b.len() && (#[trigger] b[i]).0 == k ==> bucket_map(b)[k] == b[i].1@,
    decreases b.len(),
{
    if b.len() > 0 {
        let w = b.drop_last();
        assert(bucket_keys_distinct(w)) by {
            assert forall|a: int, c: int| 0 <= a < c < w.len() implies (#[trigger] w[a]).0 != (#[trigger] w[c]).0 by {
                assert(w[a] == b[a] && w[c] == b[c]);
            }
        }
        lemma_bucket_map(w, k);
        if bucket_map(b).contains_key(k) && b.last().0 != k {
            let i = choose|i: int| 0 <= i < w.len() && w[i].0 == k;
            assert(b[i] == w[i]);
        }
        if exists|i: int| 0 <= i < b.len() && b[i].0 == k {
            let i = choose|i: int| 0 <= i < b.len() && b[i].0 == k;
            if i < w.len() {
                assert(w[i] == b[i]);
            }
        }
        assert forall|i: int| 0 <= i < b.len() && (#[trigger] b[i]).0 == k implies bucket_map(b)[k] == b[i].1@ by {
            if i < w.len() {
                assert(w[i] == b[i]);
                assert(b[i].0 != b[b.len() - 1].0);
            }
        }
    }
}

/// Multi-index hashing over the vectors of a flat index: each vector is cut
/// into blocks, and each block's table maps a block's hash to the positions
/// of the vectors holding that block.
pub struct MihIndex {
    blocks: usize,
    block_words: usize,
    words_per_vec: usize,
    n_vectors: usize,
    buckets: Vec<Vec<(u64, Vec<usize>)>>,
}

impl MihIndex {
    /// Number of blocks.
    pub closed spec fn spec_blocks(&self) -> nat {
        self.blocks as nat
    }

    /// Width of a block in words.
    pub closed spec fn spec_block_words(&self) -> nat {
        self.block_words as nat
    }

    /// Width of a vector in words.
    pub closed spec fn spec_words_per_vec(&self) -> nat {
        self.words_per_vec as nat
    }

    /// Number of vectors the tables were built over.
    pub closed spec fn spec_n_vectors(&self) -> nat {
        self.n_vectors as nat
    }

    /// The table of block `j`.
    pub closed spec fn table(&self, j: int) -> Map<u64, Seq<usize>> {
        bucket_map(self.buckets@[j]@)
    }

    /// One table per block, tables without repeated hashes, ascending
    /// position lists, every position below the vector count.
    #[verifier::type_invariant]
    closed spec fn wf(&self) -> bool {
        &&& self.blocks >= 1
        &&& self.block_words >= 1
        &&& self.block_words * self.blocks <= usize::MAX
        &&& self.buckets@.len() == self.blocks
        &&& forall|j: int| 0 <= j < self.blocks ==> bucket_keys_distinct(#[trigger] self.buckets@[j]@)
        &&& forall|j: int, i: int| 0 <= j < self.blocks && 0 <= i < self.buckets@[j]@.len() ==> ascending(#[trigger] self.buckets@[j]@[i].1@)
        &&& forall|j: int, i: int, m: int| 0 <= j < self.blocks && 0 <= i < self.buckets@[j]@.len() && 0 <= m < self.buckets@[j]@[i].1@.len()
            ==> #[trigger] self.buckets@[j]@[i].1@[m] < self.n_vectors
    }

    /// Every position in the tables names a vector of `src`, whose width is
    /// the one the tables were built with.
    pub open spec fn indexes(&self, src: &BqFlatIndex) -> bool {
        &&& src.wf()
        &&& (src.words_per_vec > 0 ==> self.spec_words_per_vec() == src.words_per_vec)
        &&& forall|j: int, k: u64, p: usize|
            0 <= j < self.spec_blocks() && #[trigger] bucket_of(self.table(j), k).contains(p)
                ==> p < src.ids@.len()
    }
}

proof fn lemma_bucket_update(b: Seq<(u64, Vec<usize>)>, j: int, x: (u64, Vec<usize>))
    requires
        bucket_keys_distinct(b),
        0 <= j < b.len(),
        b[j].0 == x.0,
    ensures
        bucket_keys_distinct(b.update(j, x)),
        bucket_map(b.update(j, x)) == bucket_map(b).insert(x.0, x.1@),
{
    let w = b.update(j, x);
    assert(bucket_keys_distinct(w)) by {
        assert forall|a: int, c: int| 0 <= a < c < w.len() implies (#[trigger] w[a]).0 != (#[trigger] w[c]).0 by {
            assert(w[a].0 == b[a].0 && w[c].0 == b[c].0);
        }
    }
    assert forall|k: u64| #[trigger] bucket_map(w).contains_key(k) == bucket_map(b).insert(x.0, x.1@).contains_key(k) by {
        lemma_bucket_map(w, k);
        lemma_bucket_map(b, k);
        if bucket_map(w).contains_key(k) {
            let a = choose|a: int| 0 <= a < w.len() && w[a].0 == k;
            assert(w[a].0 == b[a].0);
        }
        if bucket_map(b).contains_key(k) {
            let a = choose|a: int| 0 <= a < b.len() && b[a].0 == k;
            assert(w[a].0 == b[a].0);
        }
        if k == x.0 {
            assert(w[j].0 == k);
        }
    }
    assert forall|k: u64| #[trigger] bucket_map(w).contains_key(k) implies bucket_map(w)[k] == bucket_map(b).insert(x.0, x.1@)[k] by {
        lemma_bucket_map(w, k);
        lemma_bucket_map(b, k);
        let a = choose|a: int| 0 <= a < w.len() && w[a].0 == k;
        if a != j {
            assert(w[a] == b[a]);
        }
    }
    assert(bucket_map(w) =~= bucket_map(b).insert(x.0, x.1@));
}

/// Every position in a table is below `bound`, and each list ascends.
pub open spec fn table_ok(b: Seq<(u64, Vec<usize>)>, bound: int) -> bool {
    &&& bucket_keys_distinct(b)
    &&& forall|i: int| 0 <= i < b.len() ==> ascending(#[trigger] b[i].1@)
    &&& forall|i: int, m: int| 0 <= i < b.len() && 0 <= m < b[i].1@.len() ==> #[trigger] b[i].1@[m] < bound
}

/// Adds `pos`, above every position held, under `key`.
fn table_add(table: &mut Vec<(u64, Vec<usize>)>, key: u64, pos: usize)
    requires
        table_ok(old(table)@, pos as int),
    ensures
        table_ok(final(table)@, pos + 1),
        bucket_map(final(table)@) == bucket_map(old(table)@).insert(key, bucket_of(bucket_map(old(table)@), key).push(pos)),
{
    let ghost b0 = table@;
    let mut i: usize = 0;
    while i < table.len()
        invariant
            0 <= i <= table@.len(),
            table@ == b0,
            b0 == old(table)@,
            table_ok(b0, pos as int),
            forall|m: int| 0 <= m < i ==> (#[trigger] table@[m]).0 != key,
        decreases table@.len() - i,
    {
        if table[i].0 == key {
            let mut entry = table.remove(i);
            let ghost old_list = entry.1@;
            entry.1.push(pos);
            let ghost ne = entry;
            table.insert(i, entry);
            proof {
                assert(table@ =~= b0.update(i as int, ne));
                lemma_bucket_update(b0, i as int, ne);
                lemma_bucket_map(b0, key);
                assert(old_list == b0[i as int].1@);
                assert(b0[i as int].0 == key);
                assert(bucket_map(b0).contains_key(key));
                assert(bucket_map(b0)[key] == old_list);
                assert(ne.1@ == old_list.push(pos));
                assert(ne.0 == key);
                assert(bucket_map(table@) == bucket_map(b0.update(i as int, ne)));
                assert(bucket_map(table@) == bucket_map(b0).insert(key, old_list.push(pos)));
                assert forall|m: int| 0 <= m < table@.len() implies ascending(#[trigger] table@[m].1@) by {
                    if m != i {
                        assert(table@[m] == b0[m]);
                    } else {
                        assert forall|a: int, c: int| 0 <= a < c < ne.1@.len() implies #[trigger] ne.1@[a] < #[trigger] ne.1@[c] by {
                            if c < old_list.len() {
                                assert(ascending(b0[i as int].1@));
                            } else {
                                assert(ne.1@[a] == old_list[a]);
                            }
                        }
                    }
                }
                assert forall|m: int, n: int| 0 <= m < table@.len() && 0 <= n < table@[m].1@.len() implies #[trigger] table@[m].1@[n] < pos + 1 by {
                    if m != i {
                        assert(table@[m] == b0[m]);
                    } else if n < old_list.len() {
                        assert(table@[m].1@[n] == b0[m].1@[n]);
                    }
                }
            }
            return;
        }
        i += 1;
    }
    let ghost b1 = table@;
    let mut v: Vec<usize> = Vec::new();
    v.push(pos);
    table.push((key, v));
    proof {
        lemma_bucket_map(b0, key);
        assert(table@.drop_last() =~= b0);
        assert(bucket_map(table@) == bucket_map(b0).insert(key, seq![pos]));
        assert(seq![pos] =~= Seq::<usize>::empty().push(pos));
        assert(bucket_keys_distinct(table@)) by {
            assert forall|a: int, c: int| 0 <= a < c < table@.len() implies (#[trigger] table@[a]).0 != (#[trigger] table@[c]).0 by {
                if c == b0.len() {
                    assert(table@[a] == b0[a]);
                } else {
                    assert(table@[a] == b0[a] && table@[c] == b0[c]);
                }
            }
        }
        assert forall|m: int| 0 <= m < table@.len() implies ascending(#[trigger] table@[m].1@) by {
            if m < b0.len() {
                assert(table@[m] == b0[m]);
            }
        }
        assert forall|m: int, n: int| 0 <= m < table@.len() && 0 <= n < table@[m].1@.len() implies #[trigger] table@[m].1@[n] < pos + 1 by {
            if m < b0.len() {
                assert(table@[m] == b0[m]);
            }
        }
    }
}

/// Positions listed under `k` in a table (none when `k` is absent).
pub open spec fn bucket_of(t: Map<u64, Seq<usize>>, k: u64) -> Seq<usize> {
    if t.contains_key(k) {
        t[k]
    } else {
        Seq::empty()
    }
}

/// Positions and keys of one block's table: `p` is listed under `k` exactly
/// when `p` names a vector whose block hashes to `k`.
pub open spec fn table_holds(t: Map<u64, Seq<usize>>, src: &BqFlatIndex, bw: int, j: int, w: int, n: int) -> bool {
    forall|k: u64, p: usize|
        #[trigger] bucket_of(t, k).contains(p) <==> (p < n && j * bw < w && block_hash(
            block_of(src.vector(p as int), bw, j),
        ) == k)
}

proof fn lemma_table_step(
    t0: Map<u64, Seq<usize>>,
    t1: Map<u64, Seq<usize>>,
    src: &BqFlatIndex,
    bw: int,
    j: int,
    w: int,
    i: int,
    key: u64,
)
    requires
        table_holds(t0, src, bw, j, w, i),
        0 <= i < usize::MAX,
        j * bw < w,
        key == block_hash(block_of(src.vector(i), bw, j)),
        t1 == t0.insert(key, bucket_of(t0, key).push(i as usize)),
    ensures
        table_holds(t1, src, bw, j, w, i + 1),
{
    assert forall|k: u64, p: usize|
        #[trigger] bucket_of(t1, k).contains(p) <==> (p < i + 1 && j * bw < w
            && block_hash(block_of(src.vector(p as int), bw, j)) == k) by {
        let l0 = bucket_of(t0, k);
        assert(l0.contains(p) <==> (p < i && j * bw < w && block_hash(block_of(src.vector(p as int), bw, j)) == k));
        if k == key {
            let l1 = l0.push(i as usize);
            assert(bucket_of(t1, k) == l1);
            if l1.contains(p) && p != i {
                let m = choose|m: int| 0 <= m < l1.len() && #[trigger] l1[m] == p;
                assert(l0[m] == p);
            }
            if l0.contains(p) {
                let m = choose|m: int| 0 <= m < l0.len() && #[trigger] l0[m] == p;
                assert(l1[m] == p);
            }
            if p == i {
                assert(l1[l0.len() as int] == p);
            }
        } else {
            assert(bucket_of(t1, k) == l0);
        }
    }
}

impl MihIndex {
    /// The tables were built over `src`: block width `ceil(width / blocks)`,
    /// and each block's table lists exactly the vectors whose block hashes
    /// to each key.
    pub open spec fn built_over(&self, src: &BqFlatIndex) -> bool {
        &&& self.indexes(src)
        &&& self.spec_blocks() >= 1
        &&& self.spec_n_vectors() == src.ids@.len()
        &&& self.spec_block_words() == (self.spec_words_per_vec() - 1) / (self.spec_blocks() as int) + 1
        &&& forall|j: int| 0 <= j < self.spec_blocks() ==> table_holds(
            #[trigger] self.table(j),
            src,
            self.spec_block_words() as int,
            j,
            self.spec_words_per_vec() as int,
            src.ids@.len() as int,
        )
    }

    /// Builds the tables over the vectors of `src`: at least one block, each
    /// `ceil(width / blocks)` words wide (blocks past the width stay empty).
    pub fn build(src: &BqFlatIndex, blocks: usize) -> (r: Self)
        requires
            src.wf(),
            src.words_per_vec + blocks <= usize::MAX,
        ensures
            r.indexes(src),
            r.spec_blocks() == (if blocks == 0 {
                1
            } else {
                blocks as nat
            }),
            r.spec_words_per_vec() == (if src.words_per_vec == 0 {
                1
            } else {
                src.words_per_vec as nat
            }),
            r.built_over(src),
    {
        let b: usize = if blocks == 0 {
            1
        } else {
            blocks
        };
        let w: usize = if src.words_per_vec == 0 {
            1
        } else {
            src.words_per_vec
        };
        let bw: usize = (w - 1) / b + 1;
        proof {
            assert(bw * b <= w + b - 1) by (nonlinear_arith)
                requires
                    bw == (w - 1) / (b as int) + 1,
                    b >= 1,
                    w >= 1,
            ;
            assert(w + b - 1 <= usize::MAX);
        }
        let n = src.ids.len();
        let mut buckets: Vec<Vec<(u64, Vec<usize>)>> = Vec::new();
        let mut j: usize = 0;
        while j < b
            invariant
                0 <= j <= b,
                b >= 1,
                bw >= 1,
                w >= 1,
                bw * b <= w + b - 1,
                w + b - 1 <= usize::MAX,
                src.wf(),
                n == src.ids@.len(),
                src.words_per_vec > 0 ==> w == src.words_per_vec,
                buckets@.len() == j,
                forall|jj: int| 0 <= jj < j ==> table_ok(#[trigger] buckets@[jj]@, n as int),
                forall|jj: int| 0 <= jj < j ==> table_holds(bucket_map(#[trigger] buckets@[jj]@), src, bw as int, jj, w as int, n as int),
            decreases b - j,
        {
            let mut table: Vec<(u64, Vec<usize>)> = Vec::new();
            proof {
                assert(j * bw + bw <= w + b - 1) by (nonlinear_arith)
                    requires
                        j < b,
                        bw * b <= w + b - 1,
                ;
            }
            let lo = j * bw;
            proof {
                vstd::arithmetic::mul::lemma_mul_is_distributive_add_other_way(bw as int, j as int, 1);
            }
            if lo < w {
                let hi: usize = if lo + bw < w {
                    lo + bw
                } else {
                    w
                };
                let mut i: usize = 0;
                while i < n
                    invariant
                        0 <= i <= n,
                        n == src.ids@.len(),
                        src.wf(),
                        w >= 1,
                        src.words_per_vec > 0 ==> w == src.words_per_vec,
                        lo == j * bw,
                        lo < w,
                        lo < hi <= w,
                        hi == (if (j + 1) * bw < w { (j + 1) * bw } else { w as int }),
                        table_ok(table@, i as int),
                        table_holds(bucket_map(table@), src, bw as int, j as int, w as int, i as int),
                    decreases n - i,
                {
                    proof {
                        assert(src.words_per_vec == w);
                        vstd::arithmetic::mul::lemma_mul_inequality(i + 1, n as int, w as int);
                        vstd::arithmetic::mul::lemma_mul_is_distributive_add_other_way(w as int, i as int, 1);
                        vstd::arithmetic::mul::lemma_mul_is_commutative(w as int, n as int);
                    }
                    let fl = src.flat.len();
                    let start = i * w;
                    let v = vstd::slice::slice_subrange(src.flat.as_slice(), start, start + w);
                    let blk = vstd::slice::slice_subrange(v, lo, hi);
                    proof {
                        assert(v@ == src.vector(i as int));
                        assert(blk@ =~= block_of(src.vector(i as int), bw as int, j as int));
                    }
                    let key = hash_words(blk);
                    let ghost t0 = bucket_map(table@);
                    table_add(&mut table, key, i);
                    proof {
                        lemma_table_step(t0, bucket_map(table@), src, bw as int, j as int, w as int, i as int, key);
                    }
                    i += 1;
                }
            } else {
                proof {
                    assert(bucket_map(table@) =~= Map::<u64, Seq<usize>>::empty());
                }
            }
            let ghost tv = table@;
            buckets.push(table);
            proof {
                assert(buckets@[j as int]@ == tv);
                assert forall|jj: int| 0 <= jj < j + 1 implies table_ok(#[trigger] buckets@[jj]@, n as int) by {
                    if jj == j {
                        assert forall|x: int, m: int| 0 <= x < tv.len() && 0 <= m < tv[x].1@.len() implies #[trigger] tv[x].1@[m] < n by {
                        }
                    }
                }
            }
            j += 1;
        }
        proof {
            assert(bw * b <= usize::MAX);
            assert forall|jj: int| 0 <= jj < b implies bucket_keys_distinct(#[trigger] buckets@[jj]@) by {
                assert(table_ok(buckets@[jj]@, n as int));
            }
            assert forall|jj: int, x: int| 0 <= jj < b && 0 <= x < buckets@[jj]@.len() implies ascending(#[trigger] buckets@[jj]@[x].1@) by {
                assert(table_ok(buckets@[jj]@, n as int));
            }
            assert forall|jj: int, x: int, m: int| 0 <= jj < b && 0 <= x < buckets@[jj]@.len() && 0 <= m < buckets@[jj]@[x].1@.len()
                implies #[trigger] buckets@[jj]@[x].1@[m] < n by {
                assert(table_ok(buckets@[jj]@, n as int));
            }
        }
        let r = MihIndex { blocks: b, block_words: bw, words_per_vec: w, n_vectors: n, buckets };
        proof {
            assert forall|jj: int, k: u64, p: usize|
                0 <= jj < r.spec_blocks() && #[trigger] bucket_of(r.table(jj), k).contains(p)
                implies p < src.ids@.len() by {
                assert(table_holds(bucket_map(r.buckets@[jj]@), src, bw as int, jj, w as int, n as int));
            }
        }
        r
    }
}


/// A block with the given bit of its first word flipped.
pub open spec fn flip_first(block: Seq<u64>, b: int) -> Seq<u64> {
    block.update(0, block[0] ^ (1u64 << (b as u64)))
}

/// Bucket keys probed for a query block: its own hash, then, when `probes`
/// is positive and the block is not empty, the hash of the block with bit
/// `b` of its first word flipped, for each `b` below `min(probes, 64)`.
pub open spec fn probe_keys(block: Seq<u64>, probes: nat) -> Seq<u64> {
    let flips: nat = if probes > 0 && block.len() > 0 {
        if probes < 64 {
            probes
        } else {
            64
        }
    } else {
        0
    };
    seq![block_hash(block)] + Seq::new(flips, |b: int| block_hash(flip_first(block, b)))
}

fn probe_keys_of(block: &[u64], probes: usize) -> (r: Vec<u64>)
    ensures
        r@ == probe_keys(block@, probes as nat),
{
    let mut keys: Vec<u64> = Vec::new();
    keys.push(hash_words(block));
    let flips: usize = if probes > 0 && block.len() > 0 {
        if probes < 64 {
            probes
        } else {
            64
        }
    } else {
        0
    };
    let mut b: usize = 0;
    while b < flips
        invariant
            0 <= b <= flips <= 64,
            flips > 0 ==> block@.len() > 0,
            keys@ == seq![block_hash(block@)] + Seq::new(b as nat, |x: int| block_hash(flip_first(block@, x))),
        decreases flips - b,
    {
        let mut probe = vstd::slice::slice_to_vec(block);
        let first = block[0] ^ (1u64 << (b as u64));
        probe.set(0, first);
        proof {
            assert(probe@ =~= flip_first(block@, b as int));
        }
        let h = hash_words(probe.as_slice());
        keys.push(h);
        proof {
            assert(keys@ =~= seq![block_hash(block@)] + Seq::new((b + 1) as nat, |x: int| block_hash(flip_first(block@, x))));
        }
        b += 1;
    }
    keys
}

/// Adds `pos` to an ascending list, unless it is already there.
fn insert_ascending(out: &mut Vec<usize>, pos: usize)
    requires
        ascending(old(out)@),
    ensures
        ascending(final(out)@),
        forall|x: usize| #[trigger] final(out)@.contains(x) <==> (old(out)@.contains(x) || x == pos),
{
    let ghost o = out@;
    let mut i: usize = 0;
    while i < out.len() && out[i] < pos
        invariant
            0 <= i <= out@.len(),
            out@ == o,
            ascending(o),
            forall|m: int| 0 <= m < i ==> #[trigger] o[m] < pos,
        decreases out@.len() - i,
    {
        i += 1;
    }
    if i < out.len() && out[i] == pos {
        assert(out@.contains(pos) && out@[i as int] == pos);
        return;
    }
    out.insert(i, pos);
    proof {
        let f = out@;
        assert(f =~= o.subrange(0, i as int).push(pos) + o.subrange(i as int, o.len() as int));
        assert forall|a: int, c: int| 0 <= a < c < f.len() implies #[trigger] f[a] < #[trigger] f[c] by {
            if c < i {
                assert(f[a] == o[a] && f[c] == o[c]);
            } else if c == i {
                assert(f[a] == o[a]);
            } else if a < i {
                assert(f[a] == o[a] && f[c] == o[c - 1]);
                assert(o[c - 1] >= pos) by {
                    if c - 1 > i {
                        assert(o[i as int] < o[c - 1]);
                    }
                }
            } else if a == i {
                assert(f[c] == o[c - 1]);
                assert(o[c - 1] > pos) by {
                    assert(o[i as int] >= pos && o[i as int] != pos);
                    if c - 1 > i {
                        assert(o[i as int] < o[c - 1]);
                    }
                }
            } else {
                assert(f[a] == o[a - 1] && f[c] == o[c - 1]);
            }
        }
        assert forall|x: usize| #[trigger] f.contains(x) <==> (o.contains(x) || x == pos) by {
            if f.contains(x) {
                let m = choose|m: int| 0 <= m < f.len() && f[m] == x;
                if m < i {
                    assert(o[m] == x);
                } else if m > i {
                    assert(o[m - 1] == x);
                }
            }
            if o.contains(x) {
                let m = choose|m: int| 0 <= m < o.len() && o[m] == x;
                if m < i {
                    assert(f[m] == x);
                } else {
                    assert(f[m + 1] == x);
                }
            }
            if x == pos {
                assert(f[i as int] == x);
            }
        }
    }
}

impl MihIndex {
    /// Query block `j` hits position `p`: the block starts inside the query
    /// and one of its probe keys lists `p`.
    pub open spec fn hit_in_block(&self, query: Seq<u64>, probes: nat, j: int, p: usize) -> bool {
        let ks = probe_keys(block_of(query, self.spec_block_words() as int, j), probes);
        &&& j * self.spec_block_words() < query.len()
        &&& exists|m: int| 0 <= m < ks.len() && #[trigger] bucket_of(self.table(j), ks[m]).contains(p)
    }

    /// A candidate names one of the vectors the tables were built over.
    proof fn lemma_candidate_below(&self, query: Seq<u64>, probes: nat, p: usize)
        requires
            self.wf(),
            self.is_candidate(query, probes, p),
        ensures
            p < self.spec_n_vectors(),
    {
        let j = choose|j: int| 0 <= j < self.spec_blocks() && #[trigger] self.hit_in_block(query, probes, j, p);
        let ks = probe_keys(block_of(query, self.spec_block_words() as int, j), probes);
        let m = choose|m: int| 0 <= m < ks.len() && #[trigger] bucket_of(self.table(j), ks[m]).contains(p);
        let b = self.buckets@[j]@;
        let k = ks[m];
        assert(bucket_keys_distinct(b));
        lemma_bucket_map(b, k);
        assert(self.table(j).contains_key(k));
        let i = choose|i: int| 0 <= i < b.len() && b[i].0 == k;
        assert(self.table(j)[k] == b[i].1@);
        let t = choose|t: int| 0 <= t < b[i].1@.len() && b[i].1@[t] == p;
        assert(self.buckets@[j]@[i].1@[t] < self.n_vectors);
    }

    /// Position `p` is a candidate for `query`: some block hits it.
    pub open spec fn is_candidate(&self, query: Seq<u64>, probes: nat, p: usize) -> bool {
        exists|j: int| 0 <= j < self.spec_blocks() && #[trigger] self.hit_in_block(query, probes, j, p)
    }

    fn bucket(&self, j: usize, key: u64) -> (r: Option<&Vec<usize>>)
        requires
            self.wf(),
            j < self.spec_blocks(),
        ensures
            match r {
                Some(v) => bucket_of(self.table(j as int), key) == v@,
                None => bucket_of(self.table(j as int), key) == Seq::<usize>::empty(),
            },
    {
        let table = &self.buckets[j];
        proof {
            lemma_bucket_map(table@, key);
        }
        let mut i: usize = 0;
        while i < table.len()
            invariant
                0 <= i <= table@.len(),
                table@ == self.buckets@[j as int]@,
                bucket_keys_distinct(table@),
                forall|m: int| 0 <= m < i ==> (#[trigger] table@[m]).0 != key,
            decreases table@.len() - i,
        {
            if table[i].0 == key {
                proof {
                    lemma_bucket_map(table@, key);
                }
                return Some(&table[i].1);
            }
            i += 1;
        }
        proof {
            lemma_bucket_map(table@, key);
            if bucket_map(table@).contains_key(key) {
                let m = choose|m: int| 0 <= m < table@.len() && table@[m].0 == key;
                assert(table@[m].0 != key);
            }
        }
        None
    }

    /// Candidate positions for `query`, ascending and without repeats: the
    /// union of the buckets that the query's blocks probe, block by block
    /// while a block starts inside the query.
    pub fn candidates(&self, query: &[u64], probes: usize) -> (r: Vec<usize>)
        ensures
            ascending(r@),
            forall|p: usize| #[trigger] r@.contains(p) <==> self.is_candidate(query@, probes as nat, p),
            forall|p: usize| #[trigger] r@.contains(p) ==> p < self.spec_n_vectors(),
    {
        proof {
            use_type_invariant(self);
        }
        let bw = self.block_words;
        let mut out: Vec<usize> = Vec::new();
        let mut j: usize = 0;
        while j < self.blocks
            invariant
                self.wf(),
                bw == self.block_words,
                0 <= j <= self.blocks,
                ascending(out@),
                forall|p: usize| #[trigger] out@.contains(p) <==> exists|jj: int| 0 <= jj < j && #[trigger] self.hit_in_block(query@, probes as nat, jj, p),
            decreases self.blocks - j,
        {
            proof {
                vstd::arithmetic::mul::lemma_mul_inequality(j + 1, self.blocks as int, bw as int);
                vstd::arithmetic::mul::lemma_mul_is_distributive_add_other_way(bw as int, j as int, 1);
                vstd::arithmetic::mul::lemma_mul_is_commutative(bw as int, self.blocks as int);
                vstd::arithmetic::mul::lemma_mul_is_commutative(bw as int, j as int);
            }
            let ghost before = out@;
            let lo = j * bw;
            if lo < query.len() {
                let hi = if lo + bw < query.len() {
                    lo + bw
                } else {
                    query.len()
                };
                let block = vstd::slice::slice_subrange(query, lo, hi);
                assert(block@ =~= block_of(query@, bw as int, j as int));
                let keys = probe_keys_of(block, probes);
                let mut m: usize = 0;
                while m < keys.len()
                    invariant
                        self.wf(),
                        0 <= j < self.blocks,
                        keys@ == probe_keys(block_of(query@, bw as int, j as int), probes as nat),
                        0 <= m <= keys@.len(),
                        ascending(out@),
                        forall|p: usize| #[trigger] out@.contains(p) <==> (before.contains(p)
                            || exists|mm: int| 0 <= mm < m && #[trigger] bucket_of(self.table(j as int), keys@[mm]).contains(p)),
                    decreases keys@.len() - m,
                {
                    let ghost mid = out@;
                    match self.bucket(j, keys[m]) {
                        Some(list) => {
                            let mut x: usize = 0;
                            while x < list.len()
                                invariant
                                    0 <= x <= list@.len(),
                                    ascending(out@),
                                    forall|p: usize| #[trigger] out@.contains(p) <==> (mid.contains(p) || list@.take(x as int).contains(p)),
                                decreases list@.len() - x,
                            {
                                let ghost o2 = out@;
                                insert_ascending(&mut out, list[x]);
                                proof {
                                    assert forall|p: usize| #[trigger] out@.contains(p) <==> (mid.contains(p) || list@.take(x + 1).contains(p)) by {
                                        assert(list@.take(x + 1) =~= list@.take(x as int).push(list@[x as int]));
                                        if list@.take(x as int).contains(p) {
                                            let q = choose|q: int| 0 <= q < x && #[trigger] list@.take(x as int)[q] == p;
                                            assert(list@.take(x + 1)[q] == p);
                                        }
                                        if list@.take(x + 1).contains(p) && p != list@[x as int] {
                                            let q = choose|q: int| 0 <= q < x + 1 && #[trigger] list@.take(x + 1)[q] == p;
                                            assert(list@.take(x as int)[q] == p);
                                        }
                                        if p == list@[x as int] {
                                            assert(list@.take(x + 1)[x as int] == p);
                                        }
                                        assert(o2.contains(p) <==> (mid.contains(p) || list@.take(x as int).contains(p)));
                                    }
                                }
                                x += 1;
                            }
                            proof {
                                assert(list@.take(list@.len() as int) =~= list@);
                            }
                        },
                        None => {},
                    }
                    proof {
                        assert forall|p: usize| #[trigger] out@.contains(p) <==> (before.contains(p)
                            || exists|mm: int| 0 <= mm < m + 1 && #[trigger] bucket_of(self.table(j as int), keys@[mm]).contains(p)) by {
                            if bucket_of(self.table(j as int), keys@[m as int]).contains(p) {
                                assert(exists|mm: int| 0 <= mm < m + 1 && #[trigger] bucket_of(self.table(j as int), keys@[mm]).contains(p));
                            }
                            if exists|mm: int| 0 <= mm < m + 1 && #[trigger] bucket_of(self.table(j as int), keys@[mm]).contains(p) {
                                let mm = choose|mm: int| 0 <= mm < m + 1 && #[trigger] bucket_of(self.table(j as int), keys@[mm]).contains(p);
                                if mm < m {
                                    assert(exists|m2: int| 0 <= m2 < m && #[trigger] bucket_of(self.table(j as int), keys@[m2]).contains(p));
                                }
                            }
                        }
                    }
                    m += 1;
                }
                proof {
                    assert forall|p: usize| #[trigger] out@.contains(p) <==> exists|jj: int| 0 <= jj < j + 1 && #[trigger] self.hit_in_block(query@, probes as nat, jj, p) by {
                        if exists|jj: int| 0 <= jj < j + 1 && #[trigger] self.hit_in_block(query@, probes as nat, jj, p) {
                            let jj = choose|jj: int| 0 <= jj < j + 1 && #[trigger] self.hit_in_block(query@, probes as nat, jj, p);
                            if jj < j {
                                assert(before.contains(p));
                            } else {
                                let ks = probe_keys(block_of(query@, bw as int, j as int), probes as nat);
                                let mm = choose|mm: int| 0 <= mm < ks.len() && #[trigger] bucket_of(self.table(j as int), ks[mm]).contains(p);
                                assert(bucket_of(self.table(j as int), keys@[mm]).contains(p));
                            }
                        }
                        if out@.contains(p) && !before.contains(p) {
                            let mm = choose|mm: int| 0 <= mm < keys@.len() && #[trigger] bucket_of(self.table(j as int), keys@[mm]).contains(p);
                            assert(self.hit_in_block(query@, probes as nat, j as int, p));
                        }
                    }
                }
            } else {
                proof {
                    assert forall|p: usize| #[trigger] out@.contains(p) <==> exists|jj: int| 0 <= jj < j + 1 && #[trigger] self.hit_in_block(query@, probes as nat, jj, p) by {
                        if exists|jj: int| 0 <= jj < j + 1 && #[trigger] self.hit_in_block(query@, probes as nat, jj, p) {
                            let jj = choose|jj: int| 0 <= jj < j + 1 && #[trigger] self.hit_in_block(query@, probes as nat, jj, p);
                            assert(jj != j);
                        }
                    }
                }
            }
            j += 1;
        }
        proof {
            assert forall|p: usize| #[trigger] out@.contains(p) implies p < self.spec_n_vectors() by {
                assert(self.is_candidate(query@, probes as nat, p));
                self.lemma_candidate_below(query@, probes as nat, p);
            }
        }
        out
    }
}


impl MihIndex {
    /// The `k` nearest candidates to `query` as (id, distance), ranked by the
    /// full distance to the vectors of `src`, ordered by distance then id.
    pub fn top_k(&self, src: &BqFlatIndex, query: &[u64], k: usize, probes: usize) -> (r: Vec<(u64, u32)>)
        requires
            self.indexes(src),
            src.words_per_vec <= MAX_HAMMING_WORDS,
            query@.len() <= MAX_HAMMING_WORDS,
        ensures
            k == 0 ==> r@.len() == 0,
            k > 0 ==> exists|c: Seq<usize>|
                ascending(c) && (forall|p: usize| #[trigger] c.contains(p) <==> self.is_candidate(query@, probes as nat, p))
                    && smallest_k(r@, src.scored_at(query@, c), k as nat),
    {
        if k == 0 {
            return Vec::new();
        }
        let cand = self.candidates(query, probes);
        let w = self.words_per_vec;
        let mut scored: Vec<(u64, u32)> = Vec::new();
        let mut i: usize = 0;
        while i < cand.len()
            invariant
                self.indexes(src),
                src.words_per_vec <= MAX_HAMMING_WORDS,
                query@.len() <= MAX_HAMMING_WORDS,
                w == self.spec_words_per_vec(),
                forall|p: usize| #[trigger] cand@.contains(p) <==> self.is_candidate(query@, probes as nat, p),
                0 <= i <= cand@.len(),
                scored@ == src.scored_at(query@, cand@).take(i as int),
            decreases cand@.len() - i,
        {
            let pos = cand[i];
            proof {
                assert(cand@.contains(pos));
                let jj = choose|jj: int| 0 <= jj < self.spec_blocks() && #[trigger] self.hit_in_block(query@, probes as nat, jj, pos);
                let ks = probe_keys(block_of(query@, self.spec_block_words() as int, jj), probes as nat);
                let mm = choose|mm: int| 0 <= mm < ks.len() && #[trigger] bucket_of(self.table(jj), ks[mm]).contains(pos);
                assert(bucket_of(self.table(jj), ks[mm]).contains(pos));
                assert(pos < src.ids@.len());
                assert(src.words_per_vec > 0);
                assert(w == src.words_per_vec);
                vstd::arithmetic::mul::lemma_mul_inequality(pos + 1, src.ids@.len() as int, w as int);
                vstd::arithmetic::mul::lemma_mul_is_distributive_add_other_way(w as int, pos as int, 1);
                vstd::arithmetic::mul::lemma_mul_is_commutative(w as int, src.ids@.len() as int);
                vstd::arithmetic::mul::lemma_mul_is_commutative(w as int, pos as int);
            }
            let fl = src.flat.len();
            let start = pos * w;
            let v = vstd::slice::slice_subrange(src.flat.as_slice(), start, start + w);
            let d = hamming(query, v);
            scored.push((src.ids[pos], d));
            assert(scored@ =~= src.scored_at(query@, cand@).take(i + 1));
            i += 1;
        }
        assert(scored@ =~= src.scored_at(query@, cand@));
        let mut sorted = sort_hits(&scored);
        let ghost t = sorted@;
        let keep = if k < sorted.len() {
            k
        } else {
            sorted.len()
        };
        sorted.truncate(keep);
        proof {
            assert(sorted@ =~= t.take(keep as int));
            assert(smallest_k(sorted@, src.scored_at(query@, cand@), k as nat));
        }
        sorted
    }
}


/// A stored vector, used as the query, is always among its own candidates:
/// every one of its blocks lands in the bucket that holds it.
pub proof fn law_stored_vector_is_candidate(mih: &MihIndex, src: &BqFlatIndex, p: usize, probes: nat)
    requires
        mih.built_over(src),
        p < src.ids@.len(),
    ensures
        mih.is_candidate(src.vector(p as int), probes, p),
{
    let q = src.vector(p as int);
    let bw = mih.spec_block_words() as int;
    let w = mih.spec_words_per_vec() as int;
    assert(src.words_per_vec > 0);
    assert(w == src.words_per_vec);
    vstd::arithmetic::mul::lemma_mul_inequality(p + 1, src.ids@.len() as int, w);
    vstd::arithmetic::mul::lemma_mul_is_distributive_add_other_way(w, p as int, 1);
    vstd::arithmetic::mul::lemma_mul_is_commutative(w, src.ids@.len() as int);
    assert(q.len() == w);
    assert(0 * bw == 0);
    let ks = probe_keys(block_of(q, bw, 0), probes);
    assert(table_holds(mih.table(0), src, bw, 0, w, src.ids@.len() as int));
    assert(ks[0] == block_hash(block_of(q, bw, 0)));
    assert(bucket_of(mih.table(0), ks[0]).contains(p));
    assert(mih.hit_in_block(q, probes, 0, p));
}


// ---- quantization ----------------------------------------------------------

/// Bit `b` of a word.
pub open spec fn bit_of(w: u64, b: int) -> bool {
    (w >> (b as u64)) & 1u64 == 1u64
}

/// Bit `i` of a bit vector packed 64 to a word, lowest bit first.
pub open spec fn packed_bit(words: Seq<u64>, i: int) -> bool {
    bit_of(words[i / 64], i % 64)
}

proof fn lemma_set_bit(w: u64, b: u64, c: u64)
    requires
        b < 64,
        c < 64,
    ensures
        ((w | (1u64 << b)) >> c) & 1u64 == (if c == b {
            1u64
        } else {
            (w >> c) & 1u64
        }),
{
    assert(((w | (1u64 << b)) >> c) & 1u64 == (if c == b {
        1u64
    } else {
        (w >> c) & 1u64
    })) by (bit_vector)
        requires
            b < 64,
            c < 64,
    ;
}

/// Packs sign flags into a bit vector: bit `i` is set exactly when
/// `positive[i]`, in `ceil(len / 64)` words whose bits past the end are clear.
pub fn quantize_signs(positive: &[bool]) -> (r: Vec<u64>)
    ensures
        r@.len() == (positive@.len() + 63) / 64,
        forall|i: int| 0 <= i < positive@.len() ==> packed_bit(r@, i) == positive@[i],
        forall|i: int| positive@.len() <= i < r@.len() * 64 ==> !packed_bit(r@, i),
{
    let n = positive.len();
    let n_words = n / 64 + if n % 64 == 0 {
        0
    } else {
        1
    };
    assert(n_words == (n + 63) / 64);
    let mut out: Vec<u64> = Vec::new();
    let mut k: usize = 0;
    while k < n_words
        invariant
            0 <= k <= n_words,
            out@.len() == k,
            forall|m: int| 0 <= m < k ==> #[trigger] out@[m] == 0u64,
        decreases n_words - k,
    {
        out.push(0);
        k += 1;
    }
    assert forall|m: int| 0 <= m < out@.len() * 64 implies !packed_bit(out@, m) by {
        let c = (m % 64) as u64;
        assert((0u64 >> c) & 1u64 == 0u64) by (bit_vector);
        assert(out@[m / 64] == 0u64);
    }
    let mut i: usize = 0;
    while i < n
        invariant
            n == positive@.len(),
            n_words == (n + 63) / 64,
            0 <= i <= n,
            out@.len() == n_words,
            forall|m: int| 0 <= m < i ==> packed_bit(out@, m) == positive@[m],
            forall|m: int| i <= m < out@.len() * 64 ==> !packed_bit(out@, m),
        decreases n - i,
    {
        if positive[i] {
            let wi = i / 64;
            let b = i % 64;
            let old_w = out[wi];
            let ghost o = out@;
            out.set(wi, old_w | (1u64 << (b as u64)));
            proof {
                assert forall|m: int| 0 <= m < out@.len() * 64 implies packed_bit(out@, m) == (if m == i {
                    true
                } else {
                    packed_bit(o, m)
                }) by {
                    if m / 64 == wi {
                        lemma_set_bit(old_w, b as u64, (m % 64) as u64);
                        assert(m % 64 != b ==> m != i);
                    } else {
                        assert(out@[m / 64] == o[m / 64]);
                        assert(m != i);
                    }
                }
            }
        }
        i += 1;
    }
    out
}

/// A bit vector cut or zero-padded to 16 words (1024 bits).
pub fn quantize_1024_words(q: &[u64]) -> (r: [u64; 16])
    ensures
        r@ == fit_words(q@, 16),
{
    let mut out = [0u64; 16];
    let n = if q.len() < 16 {
        q.len()
    } else {
        16
    };
    let mut i: usize = 0;
    while i < n
        invariant
            n == (if q@.len() < 16 { q@.len() } else { 16 }),
            0 <= i <= n,
            out@.len() == 16,
            forall|m: int| 0 <= m < i ==> out@[m] == q@[m],
            forall|m: int| i <= m < 16 ==> out@[m] == 0u64,
        decreases n - i,
    {
        out.set(i, q[i]);
        i += 1;
    }
    assert(out@ =~= fit_words(q@, 16));
    out
}


impl MihIndex {
    /// Whether the tables can be ranked against `src`: `src` is well formed,
    /// has the width the tables were built with, and holds at least as many
    /// vectors as they were built over.
    pub fn serves(&self, src: &BqFlatIndex) -> (r: bool)
        ensures
            r == (src.wf() && (src.words_per_vec > 0 ==> self.spec_words_per_vec() == src.words_per_vec)
                && self.spec_n_vectors() <= src.ids@.len()),
            r ==> self.indexes(src),
    {
        proof {
            use_type_invariant(self);
        }
        let n = src.ids.len();
        let fl = src.flat.len();
        let ok_flat = match n.checked_mul(src.words_per_vec) {
            Some(t) => t == fl,
            None => false,
        };
        let ok_empty = src.words_per_vec != 0 || n == 0;
        let ok_width = src.words_per_vec == 0 || self.words_per_vec == src.words_per_vec;
        let r = ok_flat && ok_empty && ok_width && self.n_vectors <= n;
        proof {
            if !ok_flat {
                if src.flat@.len() == src.ids@.len() * src.words_per_vec {
                    assert(src.ids@.len() * src.words_per_vec <= usize::MAX);
                }
            }
            if r {
                assert forall|j: int, k: u64, p: usize|
                    0 <= j < self.spec_blocks() && #[trigger] bucket_of(self.table(j), k).contains(p)
                    implies p < src.ids@.len() by {
                    let b = self.buckets@[j]@;
                    lemma_bucket_map(b, k);
                    let t = choose|t: int| 0 <= t < bucket_of(self.table(j), k).len() && bucket_of(self.table(j), k)[t] == p;
                    let i = choose|i: int| 0 <= i < b.len() && b[i].0 == k;
                    assert(b[i].1@[t] == p);
                }
            }
        }
        r
    }
}


proof fn lemma_ascending_prefix(c: Seq<usize>, n: nat, i: int)
    requires
        ascending(c),
        forall|p: usize| #[trigger] c.contains(p) <==> p < n,
        0 <= i <= c.len(),
    ensures
        forall|j: int| 0 <= j < i ==> #[trigger] c[j] == j,
    decreases i,
{
    if i > 0 {
        lemma_ascending_prefix(c, n, i - 1);
        let m = i - 1;
        if c[m] != m {
            if c[m] < m {
                let v = c[m];
                assert(c[v as int] == v);
                assert(c[v as int] < c[m]);
            } else {
                assert(c.contains(c[m]));
                let v = m as usize;
                assert(v < n);
                assert(c.contains(v));
                let j = choose|j: int| 0 <= j < c.len() && c[j] == v;
                if j < m {
                    assert(c[j] == j);
                } else if j > m {
                    assert(c[m] < c[j]);
                }
            }
        }
    }
}

/// An ascending list of exactly the positions below `n` is `0, 1, .., n - 1`.
proof fn lemma_ascending_range(c: Seq<usize>, n: nat)
    requires
        n <= usize::MAX,
        ascending(c),
        forall|p: usize| #[trigger] c.contains(p) <==> p < n,
    ensures
        c.len() == n,
        forall|j: int| 0 <= j < c.len() ==> #[trigger] c[j] == j,
{
    lemma_ascending_prefix(c, n, c.len() as int);
    if c.len() > 0 {
        let last = c.len() - 1;
        assert(c.contains(c[last as int]));
    }
    if n > 0 {
        let v = (n - 1) as usize;
        assert(c.contains(v));
        let j = choose|j: int| 0 <= j < c.len() && c[j] == v;
        assert(c[j] == j);
    }
}

/// When every stored vector is a candidate for the query, the multi-index
/// ranking is exactly the flat index's ranking.
pub proof fn law_mih_ranks_like_flat(
    mih: &MihIndex,
    src: &BqFlatIndex,
    query: Seq<u64>,
    probes: nat,
    k: nat,
    c: Seq<usize>,
    r_mih: Seq<(u64, u32)>,
    r_flat: Seq<(u64, u32)>,
)
    requires
        mih.indexes(src),
        src.ids@.len() <= usize::MAX,
        forall|p: usize| p < src.ids@.len() ==> #[trigger] mih.is_candidate(query, probes, p),
        ascending(c),
        forall|p: usize| #[trigger] c.contains(p) <==> mih.is_candidate(query, probes, p),
        smallest_k(r_mih, src.scored_at(query, c), k),
        smallest_k(r_flat, src.scored(query), k),
    ensures
        r_mih == r_flat,
{
    let n = src.ids@.len();
    assert forall|p: usize| #[trigger] c.contains(p) <==> p < n by {
        if mih.is_candidate(query, probes, p) {
            let j = choose|j: int| 0 <= j < mih.spec_blocks() && #[trigger] mih.hit_in_block(query, probes, j, p);
            let ks = probe_keys(block_of(query, mih.spec_block_words() as int, j), probes);
            let m = choose|m: int| 0 <= m < ks.len() && #[trigger] bucket_of(mih.table(j), ks[m]).contains(p);
            assert(bucket_of(mih.table(j), ks[m]).contains(p));
        }
    }
    lemma_ascending_range(c, n);
    assert(src.scored_at(query, c) =~= src.scored(query));
    law_smallest_k_unique(r_mih, r_flat, src.scored(query), k);
}


/// Law: multi-index probing recovers one-bit neighbours. For an index
/// built over `src`, a stored vector whose block `j` equals the query's
/// block except for bit `b` of its first word, with `b` below both `probes`
/// and 64, is a candidate for that query.
pub proof fn law_one_bit_flip_is_candidate(
    mih: &MihIndex,
    src: &BqFlatIndex,
    query: Seq<u64>,
    probes: nat,
    p: usize,
    j: int,
    b: nat,
)
    requires
        mih.built_over(src),
        p < src.ids@.len(),
        0 <= j < mih.spec_blocks(),
        j * mih.spec_block_words() < query.len(),
        b < probes,
        b < 64,
        ({
            let qb = block_of(query, mih.spec_block_words() as int, j);
            let vb = block_of(src.vector(p as int), mih.spec_block_words() as int, j);
            &&& qb.len() > 0
            &&& vb.len() == qb.len()
            &&& vb[0] == qb[0] ^ (1u64 << (b as u64))
            &&& forall|i: int| 1 <= i < qb.len() ==> vb[i] == qb[i]
        }),
    ensures
        mih.is_candidate(query, probes, p),
{
    let bw = mih.spec_block_words() as int;
    let w = mih.spec_words_per_vec() as int;
    let qb = block_of(query, bw, j);
    let vb = block_of(src.vector(p as int), bw, j);
    let v = src.vector(p as int);
    assert(src.words_per_vec > 0) by {
        if src.words_per_vec == 0 {
            assert(src.ids@.len() == 0);
        }
    }
    assert(w == src.words_per_vec);
    vstd::arithmetic::mul::lemma_mul_inequality(p + 1, src.ids@.len() as int, w);
    vstd::arithmetic::mul::lemma_mul_is_distributive_add_other_way(w, p as int, 1);
    vstd::arithmetic::mul::lemma_mul_is_commutative(w, src.ids@.len() as int);
    vstd::arithmetic::mul::lemma_mul_is_commutative(w, p as int);
    vstd::arithmetic::mul::lemma_mul_is_commutative(w, p + 1);
    assert(v.len() == w);
    assert(j * bw < w) by {
        vstd::arithmetic::mul::lemma_mul_is_distributive_add_other_way(bw, j, 1);
        vstd::arithmetic::mul::lemma_mul_is_commutative(bw, j);
        vstd::arithmetic::mul::lemma_mul_is_commutative(bw, j + 1);
        if j * bw >= w {
            assert((j + 1) * bw >= w);
            assert(vb.len() == 0);
        }
    }
    let ks = probe_keys(qb, probes);
    assert(ks[1 + b as int] == block_hash(flip_first(qb, b as int)));
    assert(flip_first(qb, b as int) =~= vb);
    assert(table_holds(mih.table(j), src, bw, j, w, src.ids@.len() as int));
    assert(bucket_of(mih.table(j), ks[1 + b as int]).contains(p));
    assert(mih.hit_in_block(query, probes, j, p));
}



/// Block `j` of stored vector `p` hashes like block `j` of the query, or
/// like it with bit `b` of its first word flipped, `b` below both `probes`
/// and 64.
pub open spec fn probe_hit(mih: &MihIndex, src: &BqFlatIndex, query: Seq<u64>, probes: nat, p: usize, j: int, b: int) -> bool {
    let bw = mih.spec_block_words() as int;
    let qb = block_of(query, bw, j);
    let h = block_hash(block_of(src.vector(p as int), bw, j));
    &&& 0 <= j < mih.spec_blocks()
    &&& (h == block_hash(qb) || (0 <= b < probes && b < 64 && qb.len() > 0 && h == block_hash(
        qb.update(0, qb[0] ^ (1u64 << (b as u64))),
    )))
}

/// Law: multi-index probing finds nothing else. For an index built over
/// `src`, a candidate is a stored vector some block of which hashes like
/// the query's block, or like the query's block with one bit `b` of its
/// first word flipped, `b` below both `probes` and 64.
pub proof fn law_candidates_are_probe_hits(mih: &MihIndex, src: &BqFlatIndex, query: Seq<u64>, probes: nat, p: usize)
    requires
        mih.built_over(src),
        mih.is_candidate(query, probes, p),
    ensures
        p < src.ids@.len(),
        exists|j: int, b: int| #[trigger] probe_hit(mih, src, query, probes, p, j, b),
{
    let bw = mih.spec_block_words() as int;
    let j = choose|j: int| 0 <= j < mih.spec_blocks() && #[trigger] mih.hit_in_block(query, probes, j, p);
    let qb = block_of(query, bw, j);
    let ks = probe_keys(qb, probes);
    let m = choose|m: int| 0 <= m < ks.len() && #[trigger] bucket_of(mih.table(j), ks[m]).contains(p);
    assert(table_holds(mih.table(j), src, bw, j, mih.spec_words_per_vec() as int, src.ids@.len() as int));
    if m == 0 {
        assert(probe_hit(mih, src, query, probes, p, j, 0));
    } else {
        let b = m - 1;
        assert(ks[m] == block_hash(flip_first(qb, b)));
        assert(probe_hit(mih, src, query, probes, p, j, b));
    }
}

} // verus!
