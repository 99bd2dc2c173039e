//! The shipped demonstration embedder: a deterministic character-trigram
//! hash voting into 256 bins (the vector arithmetic that turns the votes into
//! a normalized vector runs outside the verified core).
use vstd::prelude::*;
use vstd::slice::slice_subrange;
use vstd::utf8::encode_utf8;
use crate::fingerprint::{fnv, fp_mix, FP_SEED};

verus! {

/// Deterministic trigram-hash embedder, for keyword recall on short texts;
/// not a semantic model.
#[derive(Clone, Copy, Debug, Default)]
pub struct DemoEmbedder;

/// Bins of the demo embedding.
pub const DEMO_BINS: u64 = 256;

/// The byte windows hashed: each trigram, or each single byte of a text
/// shorter than three bytes.
pub open spec fn demo_windows(b: Seq<u8>) -> Seq<Seq<u8>> {
    if b.len() < 3 {
        Seq::new(b.len(), |i: int| seq![b[i]])
    } else {
        Seq::new((b.len() - 2) as nat, |i: int| b.subrange(i, i + 3))
    }
}

/// The vote of a window: the bin its FNV-1a hash names, and `+1` (true) when
/// bit 8 of the hash is set, `-1` otherwise.
pub open spec fn demo_vote(w: Seq<u8>) -> (u64, bool) {
    let h = fnv(FP_SEED, w);
    (h % DEMO_BINS, (h >> 8u64) & 1u64 == 1u64)
}

/// The votes of a text, one per window, in window order (the same window
/// always votes the same way, wherever it stands).
pub fn demo_votes(text: &str) -> (r: Vec<(u64, bool)>)
    ensures
        r@ == demo_windows(encode_utf8(text@)).map_values(|w: Seq<u8>| demo_vote(w)),
{
    let b = text.as_bytes();
    let bl = b.len();
    let ghost ws = demo_windows(b@);
    let n: usize = if b.len() < 3 {
        b.len()
    } else {
        b.len() - 2
    };
    let width: usize = if b.len() < 3 {
        1
    } else {
        3
    };
    let mut out: Vec<(u64, bool)> = Vec::new();
    let mut i: usize = 0;
    while i < n
        invariant
            ws == demo_windows(b@),
            n == ws.len(),
            width == (if b@.len() < 3 { 1usize } else { 3usize }),
            0 <= i <= n,
            n + width <= b@.len() + 1,
            b@.len() <= usize::MAX,
            out@ == ws.take(i as int).map_values(|w: Seq<u8>| demo_vote(w)),
        decreases n - i,
    {
        let w = slice_subrange(b, i, i + width);
        proof {
            if b@.len() < 3 {
                assert(w@ =~= seq![b@[i as int]]);
            }
            assert(w@ == ws[i as int]);
        }
        let h = fp_mix(FP_SEED, w);
        out.push((h % DEMO_BINS, (h >> 8u64) & 1u64 == 1u64));
        proof {
            assert(ws.take(i + 1) =~= ws.take(i as int).push(ws[i as int]));
            assert(out@ =~= ws.take(i + 1).map_values(|w: Seq<u8>| demo_vote(w)));
        }
        i += 1;
    }
    assert(ws.take(i as int) =~= ws);
    out
}

} // verus!
