//! First-class conflicts: the concurrent versions the version agent
//! preserved, persisted with their evidence, and their deterministic ids.
use vstd::prelude::*;
use vstd::bytes::*;
use vstd::slice::*;
use vstd::utf8::encode_utf8;
use vstd::string::StringSliceAdditionalSpecFns;
use vstd::wrapping::u64_specs::{wrapping_add, wrapping_mul};
use crate::fingerprint::{FP_PRIME, FP_SEED};
use crate::order::{bytes_lt, lemma_lt_asymmetric, lemma_lt_irreflexive, lemma_lt_total, lemma_lt_transitive, order_bytes};
use crate::text::{bytes_hex, hex_bytes};
use crate::wire::{
    bytes_at, lemma_bytes_at_concat, lemma_bytes_at_prefix, lemma_le_bytes_roundtrip, lemma_strs16_prefix,
    lemma_strs16_step, push_bytes,
    push_str16, push_strs16, push_u16, push_u32, push_u64, rd_u16, rd_u32, rd_u64, read_str16,
    read_strs16, str16_wire, str_views, strs16_ok, strs16_wire, StrFieldError,
};

verus! {

/// Status of a conflict; a resolved one carries its winner.
#[derive(Clone, Copy, Debug, PartialEq, Eq, Structural)]
pub enum ConflictStatus {
    Open,
    Resolved,
}

/// Wire number of a status.
pub open spec fn status_code(s: ConflictStatus) -> u8 {
    match s {
        ConflictStatus::Open => 0,
        ConflictStatus::Resolved => 1,
    }
}

impl ConflictStatus {
    /// Status of a wire number, `None` above 1.
    pub fn from_u8(v: u8) -> (r: Option<Self>)
        ensures
            r == (if v == 0 {
                Some(ConflictStatus::Open)
            } else if v == 1 {
                Some(ConflictStatus::Resolved)
            } else {
                None
            }),
    {
        match v {
            0 => Some(Self::Open),
            1 => Some(Self::Resolved),
            _ => None,
        }
    }

    /// Wire number of the status.
    pub fn to_u8(self) -> (r: u8)
        ensures
            r == status_code(self),
    {
        match self {
            Self::Open => 0,
            Self::Resolved => 1,
        }
    }
}

/// A persisted conflict: what the layer above needs to decide without
/// hiding evidence.
#[derive(Clone, Debug, PartialEq, Eq)]
pub struct ConflictRecord {
    /// Deterministic id over the subject and the sorted candidates.
    pub conflict_id: String,
    /// Storage key of the slot where the versions collided.
    pub subject: String,
    /// Concurrent candidates (version ids), sorted.
    pub candidates: Vec<String>,
    /// Source nodes of the candidates (sorted, without repeats).
    pub nodes: Vec<u8>,
    /// Creation tick (local clock of the recording node).
    pub created_tick: u64,
    pub status: ConflictStatus,
    /// Winner (version id) once resolved.
    pub resolved_winner: Option<String>,
    /// Preserved evidence: encoded records, parallel to `candidates`.
    pub records: Vec<Vec<u8>>,
}

/// Abstract conflict.
pub struct ConflictModel {
    pub conflict_id: Seq<char>,
    pub subject: Seq<char>,
    pub candidates: Seq<Seq<char>>,
    pub nodes: Seq<u8>,
    pub created_tick: u64,
    pub status: ConflictStatus,
    pub resolved_winner: Option<Seq<char>>,
    pub records: Seq<Seq<u8>>,
}

/// Text of an optional string.
pub open spec fn opt_text(o: Option<String>) -> Option<Seq<char>> {
    match o {
        Some(w) => Some(w@),
        None => None,
    }
}

/// Contents of a list of byte records.
pub open spec fn blob_views(v: Seq<Vec<u8>>) -> Seq<Seq<u8>> {
    v.map_values(|b: Vec<u8>| b@)
}

impl View for ConflictRecord {
    type V = ConflictModel;

    open spec fn view(&self) -> ConflictModel {
        ConflictModel {
            conflict_id: self.conflict_id@,
            subject: self.subject@,
            candidates: str_views(self.candidates@),
            nodes: self.nodes@,
            created_tick: self.created_tick,
            status: self.status,
            resolved_winner: opt_text(self.resolved_winner),
            records: blob_views(self.records@),
        }
    }
}

/// Bytes of a list of records, each with its length as a `u32`.
pub open spec fn blobs32_wire(bs: Seq<Seq<u8>>) -> Seq<u8>
    decreases bs.len(),
{
    if bs.len() == 0 {
        Seq::empty()
    } else {
        blobs32_wire(bs.drop_last()) + spec_u32_to_le_bytes(bs.last().len() as u32) + bs.last()
    }
}

/// Bytes of the winner (nothing when there is none).
pub open spec fn winner_wire(w: Option<Seq<char>>) -> Seq<u8> {
    match w {
        Some(t) => str16_wire(t),
        None => Seq::empty(),
    }
}

/// Fixed head: magic "CFL1", version 1, status, winner flag, tick.
pub open spec fn cfl_head(m: ConflictModel, hw: u8) -> Seq<u8> {
    seq![67u8, 70u8, 76u8, 49u8, 1u8, status_code(m.status), hw] + spec_u64_to_le_bytes(m.created_tick)
}

/// Bytes of a conflict, with `hw` as the winner flag.
pub open spec fn cfl_wire_with(m: ConflictModel, hw: u8) -> Seq<u8> {
    cfl_head(m, hw) + str16_wire(m.conflict_id) + str16_wire(m.subject) + spec_u16_to_le_bytes(
        m.candidates.len() as u16,
    ) + strs16_wire(m.candidates) + seq![m.nodes.len() as u8] + m.nodes + winner_wire(
        m.resolved_winner,
    ) + seq![m.records.len() as u8] + blobs32_wire(m.records)
}

/// Bytes of a conflict as encoded (flag 1 when resolved with a winner).
pub open spec fn cfl_wire(m: ConflictModel) -> Seq<u8> {
    cfl_wire_with(
        m,
        if m.resolved_winner is Some {
            1u8
        } else {
            0u8
        },
    )
}

/// Every length fits its field.
pub open spec fn cfl_ok(m: ConflictModel) -> bool {
    &&& encode_utf8(m.conflict_id).len() <= u16::MAX
    &&& encode_utf8(m.subject).len() <= u16::MAX
    &&& m.candidates.len() <= u16::MAX
    &&& strs16_ok(m.candidates)
    &&& m.nodes.len() <= u8::MAX
    &&& (m.resolved_winner matches Some(w) ==> encode_utf8(w).len() <= u16::MAX)
    &&& m.records.len() <= u8::MAX
    &&& forall|i: int| 0 <= i < m.records.len() ==> #[trigger] m.records[i].len() <= u32::MAX
}

proof fn lemma_blobs_step(bs: Seq<Seq<u8>>, j: int)
    requires
        0 <= j < bs.len(),
    ensures
        blobs32_wire(bs.take(j + 1)) == blobs32_wire(bs.take(j)) + spec_u32_to_le_bytes(
            bs[j].len() as u32,
        ) + bs[j],
{
    assert(bs.take(j + 1).drop_last() =~= bs.take(j));
}

proof fn lemma_blobs_prefix(bs: Seq<Seq<u8>>, j: int)
    requires
        0 <= j <= bs.len(),
    ensures
        blobs32_wire(bs.take(j)).len() <= blobs32_wire(bs).len(),
        blobs32_wire(bs).subrange(0, blobs32_wire(bs.take(j)).len() as int) == blobs32_wire(bs.take(j)),
    decreases bs.len(),
{
    if j == bs.len() {
        assert(bs.take(j) =~= bs);
    } else {
        lemma_blobs_prefix(bs.drop_last(), j);
        assert(bs.drop_last().take(j) =~= bs.take(j));
        let a = blobs32_wire(bs.drop_last());
        let b = spec_u32_to_le_bytes(bs.last().len() as u32) + bs.last();
        assert(blobs32_wire(bs) == a + b);
        assert((a + b).subrange(0, blobs32_wire(bs.take(j)).len() as int) =~= a.subrange(
            0,
            blobs32_wire(bs.take(j)).len() as int,
        ));
    }
}

/// Where the parts of a conflict sit when its bytes start the data.
proof fn lemma_cfl_fields(data: Seq<u8>, m: ConflictModel, hw: u8)
    requires
        bytes_at(data, 0, cfl_wire_with(m, hw)),
    ensures
        ({
            let o1 = 15int;
            let o2 = o1 + str16_wire(m.conflict_id).len();
            let o3: int = o2 + str16_wire(m.subject).len();
            let o4: int = o3 + 2;
            let o5: int = o4 + strs16_wire(m.candidates).len();
            let o6 = o5 + 1;
            let o7 = o6 + m.nodes.len();
            let o8: int = o7 + winner_wire(m.resolved_winner).len();
            let o9 = o8 + 1;
            &&& data.len() >= 15
            &&& data.subrange(0, 4) == seq![67u8, 70u8, 76u8, 49u8]
            &&& data[4] == 1
            &&& data[5] == status_code(m.status)
            &&& data[6] == hw
            &&& data.subrange(7, 15) == spec_u64_to_le_bytes(m.created_tick)
            &&& bytes_at(data, o1, str16_wire(m.conflict_id))
            &&& bytes_at(data, o2, str16_wire(m.subject))
            &&& bytes_at(data, o3, spec_u16_to_le_bytes(m.candidates.len() as u16))
            &&& bytes_at(data, o4, strs16_wire(m.candidates))
            &&& o5 < data.len() && data[o5] == m.nodes.len() as u8
            &&& bytes_at(data, o6, m.nodes)
            &&& bytes_at(data, o7, winner_wire(m.resolved_winner))
            &&& o8 < data.len() && data[o8] == m.records.len() as u8
            &&& bytes_at(data, o9, blobs32_wire(m.records))
        }),
{
    lemma_le_bytes_roundtrip();
    let h = cfl_head(m, hw);
    let a = str16_wire(m.conflict_id);
    let b = str16_wire(m.subject);
    let c = spec_u16_to_le_bytes(m.candidates.len() as u16);
    let d = strs16_wire(m.candidates);
    let e = seq![m.nodes.len() as u8];
    let f = m.nodes;
    let g = winner_wire(m.resolved_winner);
    let i = seq![m.records.len() as u8];
    let j = blobs32_wire(m.records);
    assert(cfl_wire_with(m, hw) == h + a + b + c + d + e + f + g + i + j);
    lemma_bytes_at_concat(data, 0, h + a + b + c + d + e + f + g + i, j);
    lemma_bytes_at_concat(data, 0, h + a + b + c + d + e + f + g, i);
    lemma_bytes_at_concat(data, 0, h + a + b + c + d + e + f, g);
    lemma_bytes_at_concat(data, 0, h + a + b + c + d + e, f);
    lemma_bytes_at_concat(data, 0, h + a + b + c + d, e);
    lemma_bytes_at_concat(data, 0, h + a + b + c, d);
    lemma_bytes_at_concat(data, 0, h + a + b, c);
    lemma_bytes_at_concat(data, 0, h + a, b);
    lemma_bytes_at_concat(data, 0, h, a);
    assert(h.len() == 15);
    assert(data.subrange(0, 15) == h);
    assert(data.subrange(0, 4) =~= h.subrange(0, 4));
    assert(data.subrange(7, 15) =~= h.subrange(7, 15));
    assert(data[4] == h[4]);
    assert(data[5] == h[5]);
    assert(data[6] == h[6]);
    let o5: int = 15int + a.len() + b.len() + c.len() + d.len();
    let o8: int = o5 + 1 + f.len() + g.len();
    assert(data[o5] == data.subrange(o5, o5 + 1)[0]);
    assert(data[o8] == data.subrange(o8, o8 + 1)[0]);
}

/// Two string fields at the same place have the same length: their 16-bit
/// length prefixes are the same two bytes.
proof fn lemma_str16_same_len(d: Seq<u8>, o: int, x: Seq<char>, y: Seq<char>)
    requires
        bytes_at(d, o, str16_wire(x)),
        bytes_at(d, o, str16_wire(y)),
        encode_utf8(x).len() <= u16::MAX,
        encode_utf8(y).len() <= u16::MAX,
    ensures
        str16_wire(x).len() == str16_wire(y).len(),
{
    lemma_le_bytes_roundtrip();
    let lx = encode_utf8(x).len() as u16;
    let ly = encode_utf8(y).len() as u16;
    assert(str16_wire(x).subrange(0, 2) =~= spec_u16_to_le_bytes(lx));
    assert(str16_wire(y).subrange(0, 2) =~= spec_u16_to_le_bytes(ly));
    assert(d.subrange(o, o + 2) =~= str16_wire(x).subrange(0, 2)) by {
        assert(d.subrange(o, o + 2) =~= d.subrange(o, o + str16_wire(x).len()).subrange(0, 2));
    }
    assert(d.subrange(o, o + 2) =~= str16_wire(y).subrange(0, 2)) by {
        assert(d.subrange(o, o + 2) =~= d.subrange(o, o + str16_wire(y).len()).subrange(0, 2));
    }
}

/// Two string lists of the same count at the same place take the same
/// number of bytes.
proof fn lemma_strs16_same_len(d: Seq<u8>, o: int, xs: Seq<Seq<char>>, ys: Seq<Seq<char>>, j: int)
    requires
        bytes_at(d, o, strs16_wire(xs)),
        bytes_at(d, o, strs16_wire(ys)),
        strs16_ok(xs),
        strs16_ok(ys),
        xs.len() == ys.len(),
        0 <= j <= xs.len(),
    ensures
        strs16_wire(xs.take(j)).len() == strs16_wire(ys.take(j)).len(),
    decreases j,
{
    if j == 0 {
        assert(xs.take(0) =~= Seq::<Seq<char>>::empty());
        assert(ys.take(0) =~= Seq::<Seq<char>>::empty());
    } else {
        lemma_strs16_same_len(d, o, xs, ys, j - 1);
        lemma_strs16_step(xs, j - 1);
        lemma_strs16_step(ys, j - 1);
        lemma_strs16_prefix(xs, j);
        lemma_strs16_prefix(ys, j);
        let px = strs16_wire(xs.take(j));
        let py = strs16_wire(ys.take(j));
        lemma_bytes_at_prefix(d, o, strs16_wire(xs), px.len() as int);
        lemma_bytes_at_prefix(d, o, strs16_wire(ys), py.len() as int);
        lemma_bytes_at_concat(d, o, strs16_wire(xs.take(j - 1)), str16_wire(xs[j - 1]));
        lemma_bytes_at_concat(d, o, strs16_wire(ys.take(j - 1)), str16_wire(ys[j - 1]));
        lemma_str16_same_len(d, o + strs16_wire(xs.take(j - 1)).len(), xs[j - 1], ys[j - 1]);
    }
}

/// Two record lists of the same count at the same place take the same
/// number of bytes.
proof fn lemma_blobs_same_len(d: Seq<u8>, o: int, xs: Seq<Seq<u8>>, ys: Seq<Seq<u8>>, j: int)
    requires
        bytes_at(d, o, blobs32_wire(xs)),
        bytes_at(d, o, blobs32_wire(ys)),
        forall|i: int| 0 <= i < xs.len() ==> #[trigger] xs[i].len() <= u32::MAX,
        forall|i: int| 0 <= i < ys.len() ==> #[trigger] ys[i].len() <= u32::MAX,
        xs.len() == ys.len(),
        0 <= j <= xs.len(),
    ensures
        blobs32_wire(xs.take(j)).len() == blobs32_wire(ys.take(j)).len(),
    decreases j,
{
    if j == 0 {
        assert(xs.take(0) =~= Seq::<Seq<u8>>::empty());
        assert(ys.take(0) =~= Seq::<Seq<u8>>::empty());
    } else {
        lemma_le_bytes_roundtrip();
        lemma_blobs_same_len(d, o, xs, ys, j - 1);
        lemma_blobs_step(xs, j - 1);
        lemma_blobs_step(ys, j - 1);
        lemma_blobs_prefix(xs, j);
        lemma_blobs_prefix(ys, j);
        let px = blobs32_wire(xs.take(j));
        let py = blobs32_wire(ys.take(j));
        lemma_bytes_at_prefix(d, o, blobs32_wire(xs), px.len() as int);
        lemma_bytes_at_prefix(d, o, blobs32_wire(ys), py.len() as int);
        let ax = blobs32_wire(xs.take(j - 1));
        let ay = blobs32_wire(ys.take(j - 1));
        let hx = spec_u32_to_le_bytes(xs[j - 1].len() as u32);
        let hy = spec_u32_to_le_bytes(ys[j - 1].len() as u32);
        assert(px == ax + hx + xs[j - 1]);
        assert(py == ay + hy + ys[j - 1]);
        lemma_bytes_at_concat(d, o, ax + hx, xs[j - 1]);
        lemma_bytes_at_concat(d, o, ax, hx);
        lemma_bytes_at_concat(d, o, ay + hy, ys[j - 1]);
        lemma_bytes_at_concat(d, o, ay, hy);
        assert(hx == hy);
        assert(xs[j - 1].len() == ys[j - 1].len());
    }
}

/// Law: a truncated conflict is rejected. No conflict's bytes start a
/// proper prefix of another conflict's bytes, so `decode` (whose conflict's
/// bytes start the data) reads none from such a prefix.
#[verifier::rlimit(100)]
#[verifier::spinoff_prover]
pub proof fn law_conflict_truncated_rejected(data: Seq<u8>, m: ConflictModel, e: ConflictModel, hw: u8)
    requires
        cfl_ok(m),
        cfl_ok(e),
        (hw != 0) == (e.resolved_winner is Some),
        data.len() < cfl_wire(m).len(),
        data == cfl_wire(m).take(data.len() as int),
    ensures
        !bytes_at(data, 0, cfl_wire_with(e, hw)),
{
    if bytes_at(data, 0, cfl_wire_with(e, hw)) {
        lemma_le_bytes_roundtrip();
        let w = cfl_wire(m);
        let x = cfl_wire_with(e, hw);
        let hm: u8 = if m.resolved_winner is Some { 1u8 } else { 0u8 };
        assert(bytes_at(w, 0, w)) by {
            assert(w.subrange(0, w.len() as int) =~= w);
        }
        assert(bytes_at(w, 0, x)) by {
            assert(w.subrange(0, x.len() as int) =~= data.subrange(0, x.len() as int));
        }
        lemma_cfl_fields(w, m, hm);
        lemma_cfl_fields(w, e, hw);
        lemma_str16_same_len(w, 15, m.conflict_id, e.conflict_id);
        let o2: int = 15 + str16_wire(m.conflict_id).len() as int;
        lemma_str16_same_len(w, o2, m.subject, e.subject);
        let o3: int = o2 + str16_wire(m.subject).len();
        assert(m.candidates.len() == e.candidates.len()) by {
            assert(spec_u16_to_le_bytes(m.candidates.len() as u16) == w.subrange(o3, o3 + 2));
            assert(spec_u16_to_le_bytes(e.candidates.len() as u16) == w.subrange(o3, o3 + 2));
        }
        let o4: int = o3 + 2;
        lemma_strs16_same_len(w, o4, m.candidates, e.candidates, m.candidates.len() as int);
        assert(m.candidates.take(m.candidates.len() as int) =~= m.candidates);
        assert(e.candidates.take(e.candidates.len() as int) =~= e.candidates);
        let o5: int = o4 + strs16_wire(m.candidates).len();
        assert(m.nodes.len() == e.nodes.len());
        let o7: int = o5 + 1 + m.nodes.len();
        assert(w[6] == hm && w[6] == hw);
        if m.resolved_winner is Some {
            lemma_str16_same_len(w, o7, m.resolved_winner->0, e.resolved_winner->0);
        }
        let o8: int = o7 + winner_wire(m.resolved_winner).len();
        assert(m.records.len() == e.records.len());
        lemma_blobs_same_len(w, o8 + 1, m.records, e.records, m.records.len() as int);
        assert(m.records.take(m.records.len() as int) =~= m.records);
        assert(e.records.take(e.records.len() as int) =~= e.records);
    }
}

/// Why a list of records could not be read.
pub(crate) enum BlobError {
    TruncLen,
    Overflow,
    TruncBytes,
}

/// Where record `i` sits when a list of records sits at `off`.
proof fn lemma_blob_at(data: Seq<u8>, off: int, bs: Seq<Seq<u8>>, i: int)
    requires
        bytes_at(data, off, blobs32_wire(bs)),
        0 <= i < bs.len(),
    ensures
        bytes_at(data, off + blobs32_wire(bs.take(i)).len(), spec_u32_to_le_bytes(bs[i].len() as u32)),
        bytes_at(data, off + blobs32_wire(bs.take(i)).len() + 4, bs[i]),
        blobs32_wire(bs.take(i + 1)).len() == blobs32_wire(bs.take(i)).len() + 4 + bs[i].len(),
{
    lemma_le_bytes_roundtrip();
    lemma_blobs_prefix(bs, i + 1);
    lemma_blobs_step(bs, i);
    lemma_bytes_at_prefix(data, off, blobs32_wire(bs), blobs32_wire(bs.take(i + 1)).len() as int);
    let a = blobs32_wire(bs.take(i));
    let b = spec_u32_to_le_bytes(bs[i].len() as u32);
    assert(blobs32_wire(bs.take(i + 1)) =~= a + (b + bs[i]));
    lemma_bytes_at_concat(data, off, a, b + bs[i]);
    lemma_bytes_at_concat(data, off + a.len(), b, bs[i]);
}

/// Reads `n` records (each a `u32` length and its bytes) from `off`.
pub(crate) fn read_blobs32(data: &[u8], off: usize, n: usize) -> (r: Result<(Vec<Vec<u8>>, usize), BlobError>)
    requires
        off <= data@.len(),
    ensures
        r matches Ok((v, o2)) ==> v@.len() == n && bytes_at(data@, off as int, blobs32_wire(blob_views(v@)))
            && o2 == off + blobs32_wire(blob_views(v@)).len() && forall|i: int|
            0 <= i < n ==> #[trigger] blob_views(v@)[i].len() <= u32::MAX,
        forall|bs: Seq<Seq<u8>>|
            bs.len() == n && (forall|i: int| 0 <= i < n ==> #[trigger] bs[i].len() <= u32::MAX)
                && #[trigger] bytes_at(data@, off as int, blobs32_wire(bs)) ==> (r matches Ok((v, o2))
                && blob_views(v@) == bs && o2 == off + blobs32_wire(bs).len()),
{
    proof {
        lemma_le_bytes_roundtrip();
    }
    let mut v: Vec<Vec<u8>> = Vec::new();
    let mut o = off;
    let mut i: usize = 0;
    proof {
        assert(blob_views(v@) =~= Seq::<Seq<u8>>::empty());
        assert(blobs32_wire(Seq::<Seq<u8>>::empty()) =~= Seq::<u8>::empty());
        assert(data@.subrange(off as int, off as int) =~= Seq::<u8>::empty());
    }
    while i < n
        invariant
            0 <= i <= n,
            v@.len() == i,
            off <= data@.len(),
            o == off + blobs32_wire(blob_views(v@)).len(),
            bytes_at(data@, off as int, blobs32_wire(blob_views(v@))),
            forall|j: int| 0 <= j < i ==> #[trigger] blob_views(v@)[j].len() <= u32::MAX,
            forall|bs: Seq<Seq<u8>>|
                bs.len() == n && (forall|j: int| 0 <= j < n ==> #[trigger] bs[j].len() <= u32::MAX)
                    && #[trigger] bytes_at(data@, off as int, blobs32_wire(bs)) ==> blob_views(v@) == bs.take(
                    i as int,
                ),
        decreases n - i,
    {
        if o > data.len() || data.len() - o < 4 {
            proof {
                assert forall|bs: Seq<Seq<u8>>|
                    bs.len() == n && (forall|j: int| 0 <= j < n ==> #[trigger] bs[j].len() <= u32::MAX)
                        && #[trigger] bytes_at(data@, off as int, blobs32_wire(bs)) implies false by {
                    lemma_blob_at(data@, off as int, bs, i as int);
                }
            }
            return Err(BlobError::TruncLen);
        }
        let rl = match rd_u32(data, o) {
            Some(x) => x as usize,
            None => {
                proof {
                    assert forall|bs: Seq<Seq<u8>>|
                        bs.len() == n && (forall|j: int| 0 <= j < n ==> #[trigger] bs[j].len() <= u32::MAX)
                            && #[trigger] bytes_at(data@, off as int, blobs32_wire(bs)) implies false by {
                        lemma_blob_at(data@, off as int, bs, i as int);
                    }
                }
                return Err(BlobError::TruncLen);
            },
        };
        let o2 = o + 4;
        proof {
            assert forall|bs: Seq<Seq<u8>>|
                bs.len() == n && (forall|j: int| 0 <= j < n ==> #[trigger] bs[j].len() <= u32::MAX)
                    && #[trigger] bytes_at(data@, off as int, blobs32_wire(bs)) implies bs[i as int].len() == rl
                && bytes_at(data@, o2 as int, bs[i as int]) by {
                lemma_blob_at(data@, off as int, bs, i as int);
                lemma_le_bytes_roundtrip();
                assert(blob_views(v@) == bs.take(i as int));
                assert(o == off + blobs32_wire(bs.take(i as int)).len());
                assert(data@.subrange(o as int, o + 4) == spec_u32_to_le_bytes(bs[i as int].len() as u32));
            }
        }
        let end = match o2.checked_add(rl) {
            Some(e) => e,
            None => {
                return Err(BlobError::Overflow);
            },
        };
        if end > data.len() {
            return Err(BlobError::TruncBytes);
        }
        let b = slice_to_vec(slice_subrange(data, o2, end));
        proof {
            lemma_le_bytes_roundtrip();
            assert(blob_views(v@.push(b)) =~= blob_views(v@).push(b@));
            lemma_blobs_step(blob_views(v@).push(b@), i as int);
            assert(blob_views(v@).push(b@).take(i as int) =~= blob_views(v@));
            assert(blob_views(v@).push(b@).take(i + 1) =~= blob_views(v@).push(b@));
            assert(data@.subrange(o as int, o + 4) == spec_u32_to_le_bytes(rl as u32));
            lemma_bytes_at_concat(data@, o as int, spec_u32_to_le_bytes(rl as u32), b@);
            lemma_bytes_at_concat(data@, off as int, blobs32_wire(blob_views(v@)), spec_u32_to_le_bytes(rl as u32) + b@);
            assert(blobs32_wire(blob_views(v@).push(b@)) =~= blobs32_wire(blob_views(v@)) + (spec_u32_to_le_bytes(rl as u32) + b@));
            assert forall|bs: Seq<Seq<u8>>|
                bs.len() == n && (forall|j: int| 0 <= j < n ==> #[trigger] bs[j].len() <= u32::MAX)
                    && #[trigger] bytes_at(data@, off as int, blobs32_wire(bs)) implies blob_views(v@).push(
                b@,
            ) == bs.take(i + 1) by {
                assert(bs[i as int] =~= b@);
                assert(bs.take(i + 1) =~= bs.take(i as int).push(bs[i as int]));
            }
        }
        v.push(b);
        o = end;
        i += 1;
    }
    proof {
        assert forall|bs: Seq<Seq<u8>>|
            bs.len() == n && (forall|j: int| 0 <= j < n ==> #[trigger] bs[j].len() <= u32::MAX)
                && #[trigger] bytes_at(data@, off as int, blobs32_wire(bs)) implies blob_views(v@) == bs by {
            assert(bs.take(n as int) =~= bs);
        }
    }
    Ok((v, o))
}

/// Message of a string field failure.
fn str_err(e: StrFieldError) -> (r: &'static str)
    ensures
        r@ == (match e {
            StrFieldError::TruncLen => "trunc slen"@,
            StrFieldError::Overflow => "trunc s"@,
            StrFieldError::TruncBytes => "trunc s"@,
            StrFieldError::Utf8 => "utf8 s"@,
        }),
{
    match e {
        StrFieldError::TruncLen => "trunc slen",
        StrFieldError::Overflow => "trunc s",
        StrFieldError::TruncBytes => "trunc s",
        StrFieldError::Utf8 => "utf8 s",
    }
}

/// The magic "CFL1".
pub open spec fn cfl_magic() -> Seq<u8> {
    seq![67u8, 70u8, 76u8, 49u8]
}

/// A conflict read part by part from the start of the data sits there
/// as a whole.
proof fn lemma_cfl_assemble(data: Seq<u8>, m: ConflictModel, hw: u8, o2: int, o3: int, o5: int, o7: int, o8: int)
    requires
        data.len() >= 15,
        data.subrange(0, 4) == cfl_magic(),
        data[4] == 1,
        data[5] == status_code(m.status),
        data[6] == hw,
        (hw != 0) == (m.resolved_winner is Some),
        m.created_tick == spec_u64_from_le_bytes(data.subrange(7, 15)),
        bytes_at(data, 15, str16_wire(m.conflict_id)),
        o2 == 15 + str16_wire(m.conflict_id).len(),
        encode_utf8(m.conflict_id).len() <= u16::MAX,
        bytes_at(data, o2, str16_wire(m.subject)),
        o3 == o2 + str16_wire(m.subject).len(),
        encode_utf8(m.subject).len() <= u16::MAX,
        o3 + 2 <= data.len(),
        m.candidates.len() == spec_u16_from_le_bytes(data.subrange(o3, o3 + 2)),
        bytes_at(data, o3 + 2, strs16_wire(m.candidates)),
        strs16_ok(m.candidates),
        o5 == o3 + 2 + strs16_wire(m.candidates).len(),
        o5 < data.len(),
        m.nodes.len() == data[o5],
        bytes_at(data, o5 + 1, m.nodes),
        o7 == o5 + 1 + m.nodes.len(),
        bytes_at(data, o7, winner_wire(m.resolved_winner)),
        m.resolved_winner matches Some(w) ==> encode_utf8(w).len() <= u16::MAX,
        o8 == o7 + winner_wire(m.resolved_winner).len(),
        o8 < data.len(),
        m.records.len() == data[o8],
        bytes_at(data, o8 + 1, blobs32_wire(m.records)),
        forall|i: int| 0 <= i < m.records.len() ==> #[trigger] m.records[i].len() <= u32::MAX,
    ensures
        cfl_ok(m),
        bytes_at(data, 0, cfl_wire_with(m, hw)),
{
    lemma_le_bytes_roundtrip();
    let h = cfl_head(m, hw);
    assert(data.subrange(0, 15) =~= h) by {
        assert(data.subrange(7, 15) == spec_u64_to_le_bytes(m.created_tick));
        assert forall|k: int| 0 <= k < 15 implies data.subrange(0, 15)[k] == h[k] by {
            if k < 4 {
                assert(data.subrange(0, 15)[k] == data.subrange(0, 4)[k]);
            } else if k >= 7 {
                assert(data.subrange(0, 15)[k] == data.subrange(7, 15)[k - 7]);
            }
        }
    }
    assert(bytes_at(data, o3, spec_u16_to_le_bytes(m.candidates.len() as u16))) by {
        assert(data.subrange(o3, o3 + 2) == spec_u16_to_le_bytes(m.candidates.len() as u16));
    }
    assert(bytes_at(data, o5, seq![m.nodes.len() as u8])) by {
        assert(data.subrange(o5, o5 + 1) =~= seq![m.nodes.len() as u8]);
    }
    assert(bytes_at(data, o8, seq![m.records.len() as u8])) by {
        assert(data.subrange(o8, o8 + 1) =~= seq![m.records.len() as u8]);
    }
    let a = str16_wire(m.conflict_id);
    let b = str16_wire(m.subject);
    let c = spec_u16_to_le_bytes(m.candidates.len() as u16);
    let d = strs16_wire(m.candidates);
    let e = seq![m.nodes.len() as u8];
    let f = m.nodes;
    let g = winner_wire(m.resolved_winner);
    let i = seq![m.records.len() as u8];
    let j = blobs32_wire(m.records);
    lemma_bytes_at_concat(data, 0, h, a);
    lemma_bytes_at_concat(data, 0, h + a, b);
    lemma_bytes_at_concat(data, 0, h + a + b, c);
    lemma_bytes_at_concat(data, 0, h + a + b + c, d);
    lemma_bytes_at_concat(data, 0, h + a + b + c + d, e);
    lemma_bytes_at_concat(data, 0, h + a + b + c + d + e, f);
    lemma_bytes_at_concat(data, 0, h + a + b + c + d + e + f, g);
    lemma_bytes_at_concat(data, 0, h + a + b + c + d + e + f + g, i);
    lemma_bytes_at_concat(data, 0, h + a + b + c + d + e + f + g + i, j);
    assert(cfl_wire_with(m, hw) == h + a + b + c + d + e + f + g + i + j);
}

impl ConflictRecord {
    /// Encodes, refusing (never truncating) a field whose length does not
    /// fit its width.
    pub fn try_encode(&self) -> (r: Result<Vec<u8>, &'static str>)
        ensures
            ({
                let m = self@;
                let count_over = encode_utf8(m.conflict_id).len() > u16::MAX || encode_utf8(
                    m.subject,
                ).len() > u16::MAX || m.candidates.len() > u16::MAX || m.nodes.len() > u8::MAX
                    || m.records.len() > u8::MAX;
                let cand_over = !strs16_ok(m.candidates);
                let winner_over = m.resolved_winner matches Some(w) && encode_utf8(w).len()
                    > u16::MAX;
                let rec_over = exists|i: int|
                    0 <= i < m.records.len() && #[trigger] m.records[i].len() > u32::MAX;
                &&& count_over ==> r == Err::<Vec<u8>, &'static str>("cfl field count overflow")
                &&& !count_over && cand_over ==> r == Err::<Vec<u8>, &'static str>(
                    "cfl candidate too long",
                )
                &&& !count_over && !cand_over && winner_over ==> r == Err::<Vec<u8>, &'static str>(
                    "cfl winner too long",
                )
                &&& !count_over && !cand_over && !winner_over && rec_over ==> r == Err::<
                    Vec<u8>,
                    &'static str,
                >("cfl record too long")
                &&& r is Ok <==> cfl_ok(m)
                &&& r matches Ok(b) ==> b@ == cfl_wire(m)
            }),
    {
        match self.fits() {
            Ok(()) => Ok(self.write_wire()),
            Err(e) => Err(e),
        }
    }

    /// Which field, if any, does not fit its width, checked in wire order.
    fn fits(&self) -> (r: Result<(), &'static str>)
        ensures
            ({
                let m = self@;
                let count_over = encode_utf8(m.conflict_id).len() > u16::MAX || encode_utf8(
                    m.subject,
                ).len() > u16::MAX || m.candidates.len() > u16::MAX || m.nodes.len() > u8::MAX
                    || m.records.len() > u8::MAX;
                let cand_over = !strs16_ok(m.candidates);
                let winner_over = m.resolved_winner matches Some(w) && encode_utf8(w).len()
                    > u16::MAX;
                let rec_over = exists|i: int|
                    0 <= i < m.records.len() && #[trigger] m.records[i].len() > u32::MAX;
                &&& count_over ==> r == Err::<(), &'static str>("cfl field count overflow")
                &&& !count_over && cand_over ==> r == Err::<(), &'static str>(
                    "cfl candidate too long",
                )
                &&& !count_over && !cand_over && winner_over ==> r == Err::<(), &'static str>(
                    "cfl winner too long",
                )
                &&& !count_over && !cand_over && !winner_over && rec_over ==> r == Err::<(), &'static str>("cfl record too long")
                &&& r is Ok <==> cfl_ok(m)
            }),
    {
        let ghost m = self@;
        let ghost count_over = encode_utf8(m.conflict_id).len() > u16::MAX || encode_utf8(m.subject).len()
            > u16::MAX || m.candidates.len() > u16::MAX || m.nodes.len() > u8::MAX || m.records.len()
            > u8::MAX;
        let cid_len = self.conflict_id.as_str().as_bytes().len();
        let subj_len = self.subject.as_str().as_bytes().len();
        if cid_len > 0xFFFF || subj_len > 0xFFFF || self.candidates.len() > 0xFFFF
            || self.nodes.len() > 0xFF || self.records.len() > 0xFF {
            return Err("cfl field count overflow");
        }
        assert(!count_over);
        let mut i: usize = 0;
        while i < self.candidates.len()
            invariant
                0 <= i <= self.candidates@.len(),
                m == self@,
                encode_utf8(m.conflict_id).len() <= u16::MAX,
                encode_utf8(m.subject).len() <= u16::MAX,
                m.candidates.len() <= u16::MAX,
                m.nodes.len() <= u8::MAX,
                m.records.len() <= u8::MAX,
                forall|j: int| 0 <= j < i ==> encode_utf8(#[trigger] m.candidates[j]).len() <= u16::MAX,
            decreases self.candidates@.len() - i,
        {
            let cl = self.candidates[i].as_str().as_bytes().len();
            assert(m.candidates[i as int] == self.candidates@[i as int]@);
            if cl > 0xFFFF {
                assert(!strs16_ok(m.candidates));
                return Err("cfl candidate too long");
            }
            i += 1;
        }
        assert(strs16_ok(m.candidates));
        match &self.resolved_winner {
            Some(w) => {
                if w.as_str().as_bytes().len() > 0xFFFF {
                    return Err("cfl winner too long");
                }
            },
            None => {},
        }
        let mut i: usize = 0;
        while i < self.records.len()
            invariant
                0 <= i <= self.records@.len(),
                m == self@,
                encode_utf8(m.conflict_id).len() <= u16::MAX,
                encode_utf8(m.subject).len() <= u16::MAX,
                m.candidates.len() <= u16::MAX,
                m.nodes.len() <= u8::MAX,
                m.records.len() <= u8::MAX,
                strs16_ok(m.candidates),
                m.resolved_winner matches Some(w) ==> encode_utf8(w).len() <= u16::MAX,
                forall|j: int| 0 <= j < i ==> #[trigger] m.records[j].len() <= u32::MAX,
            decreases self.records@.len() - i,
        {
            assert(m.records[i as int] == self.records@[i as int]@);
            if self.records[i].len() > 0xFFFF_FFFF {
                return Err("cfl record too long");
            }
            i += 1;
        }
        assert(!exists|j: int| 0 <= j < m.records.len() && #[trigger] m.records[j].len() > u32::MAX);
        assert(cfl_ok(m));
        Ok(())
    }

    /// The bytes of a conflict whose lengths fit their fields.
    fn write_wire(&self) -> (r: Vec<u8>)
        requires
            cfl_ok(self@),
        ensures
            r@ == cfl_wire(self@),
    {
        let ghost m = self@;
        let mut out: Vec<u8> = Vec::new();
        out.push(67u8);
        out.push(70u8);
        out.push(76u8);
        out.push(49u8);
        out.push(1u8);
        out.push(self.status.to_u8());
        let hw: u8 = if self.resolved_winner.is_some() {
            1
        } else {
            0
        };
        out.push(hw);
        push_u64(&mut out, self.created_tick);
        push_str16(&mut out, self.conflict_id.as_str());
        push_str16(&mut out, self.subject.as_str());
        push_u16(&mut out, self.candidates.len() as u16);
        push_strs16(&mut out, &self.candidates);
        out.push(self.nodes.len() as u8);
        push_bytes(&mut out, self.nodes.as_slice());
        match &self.resolved_winner {
            Some(w) => push_str16(&mut out, w.as_str()),
            None => {},
        }
        out.push(self.records.len() as u8);
        let ghost head = out@;
        let mut i: usize = 0;
        while i < self.records.len()
            invariant
                0 <= i <= self.records@.len(),
                out@ == head + blobs32_wire(blob_views(self.records@).take(i as int)),
            decreases self.records@.len() - i,
        {
            push_u32(&mut out, self.records[i].len() as u32);
            push_bytes(&mut out, self.records[i].as_slice());
            proof {
                lemma_blobs_step(blob_views(self.records@), i as int);
            }
            i += 1;
            assert(out@ =~= head + blobs32_wire(blob_views(self.records@).take(i as int)));
        }
        assert(blob_views(self.records@).take(i as int) =~= blob_views(self.records@));
        assert(out@ =~= cfl_wire(m));
        out
    }


    /// Decodes a conflict, bounds-checked (trailing bytes are ignored):
    /// the conflict whose bytes start `data` (any non-zero winner flag
    /// announces a winner), or why there is none.
    #[verifier::rlimit(80)]
    pub fn decode(data: &[u8]) -> (r: Result<Self, &'static str>)
        ensures
            data@.len() < 15 || data@.subrange(0, 4) != cfl_magic() ==> r == Err::<Self, &'static str>(
                "bad cfl magic",
            ),
            data@.len() >= 15 && data@.subrange(0, 4) == cfl_magic() && data@[4] != 1 ==> r == Err::<
                Self,
                &'static str,
            >("bad cfl version"),
            data@.len() >= 15 && data@.subrange(0, 4) == cfl_magic() && data@[4] == 1 && data@[5] > 1
                ==> r == Err::<Self, &'static str>("bad cfl status"),
            r matches Ok(c) ==> cfl_ok(c@) && (data@[6] != 0) == (c@.resolved_winner is Some) && bytes_at(
                data@,
                0,
                cfl_wire_with(c@, data@[6]),
            ),
            forall|m: ConflictModel, hw: u8|
                cfl_ok(m) && (hw != 0) == (m.resolved_winner is Some) && #[trigger] bytes_at(
                    data@,
                    0,
                    cfl_wire_with(m, hw),
                ) ==> (r matches Ok(c) && c@ == m),
    {
        proof {
            lemma_le_bytes_roundtrip();
        }
        if data.len() < 15 || data[0] != 67 || data[1] != 70 || data[2] != 76 || data[3] != 49 {
            proof {
                if data@.len() >= 15 {
                    assert(data@.subrange(0, 4)[0] == data@[0]);
                    assert(data@.subrange(0, 4)[1] == data@[1]);
                    assert(data@.subrange(0, 4)[2] == data@[2]);
                    assert(data@.subrange(0, 4)[3] == data@[3]);
                }
                assert forall|m: ConflictModel, hw: u8|
                    cfl_ok(m) && (hw != 0) == (m.resolved_winner is Some) && #[trigger] bytes_at(data@, 0, cfl_wire_with(m, hw))
                    implies false by {
                    lemma_cfl_fields(data@, m, hw);
                    assert(data@.subrange(0, 4)[0] == data@[0]);
                    assert(data@.subrange(0, 4)[1] == data@[1]);
                    assert(data@.subrange(0, 4)[2] == data@[2]);
                    assert(data@.subrange(0, 4)[3] == data@[3]);
                }
            }
            return Err("bad cfl magic");
        }
        proof {
            assert(data@.subrange(0, 4) =~= cfl_magic());
        }
        if data[4] != 1 {
            proof {
                assert forall|m: ConflictModel, hw: u8|
                    cfl_ok(m) && (hw != 0) == (m.resolved_winner is Some) && #[trigger] bytes_at(data@, 0, cfl_wire_with(m, hw))
                    implies false by {
                    lemma_cfl_fields(data@, m, hw);
                }
            }
            return Err("bad cfl version");
        }
        let status = match ConflictStatus::from_u8(data[5]) {
            Some(st) => st,
            None => {
                proof {
                    assert forall|m: ConflictModel, hw: u8|
                        cfl_ok(m) && (hw != 0) == (m.resolved_winner is Some) && #[trigger] bytes_at(data@, 0, cfl_wire_with(m, hw))
                        implies false by {
                        lemma_cfl_fields(data@, m, hw);
                    }
                }
                return Err("bad cfl status");
            },
        };
        let hw = data[6];
        let has_winner = hw != 0;
        let created_tick = match rd_u64(data, 7) {
            Some(x) => x,
            None => return Err("trunc cfl created"),
        };
        proof {
            assert forall|m: ConflictModel, hw2: u8|
                cfl_ok(m) && (hw2 != 0) == (m.resolved_winner is Some) && #[trigger] bytes_at(data@, 0, cfl_wire_with(m, hw2))
                implies m.status == status && hw2 == hw && m.created_tick == created_tick by {
                lemma_cfl_fields(data@, m, hw2);
            }
        }
        let (conflict_id, o2) = match read_str16(data, 15) {
            Ok(x) => x,
            Err(e) => {
                proof {
                    assert forall|m: ConflictModel, hw2: u8|
                        cfl_ok(m) && (hw2 != 0) == (m.resolved_winner is Some) && #[trigger] bytes_at(data@, 0, cfl_wire_with(m, hw2))
                        implies false by {
                        lemma_cfl_fields(data@, m, hw2);
                    }
                }
                return Err(str_err(e));
            },
        };
        proof {
            assert forall|m: ConflictModel, hw2: u8|
                cfl_ok(m) && (hw2 != 0) == (m.resolved_winner is Some) && #[trigger] bytes_at(data@, 0, cfl_wire_with(m, hw2))
                implies m.conflict_id == conflict_id@ by {
                lemma_cfl_fields(data@, m, hw2);
            }
        }
        let (subject, o3) = match read_str16(data, o2) {
            Ok(x) => x,
            Err(e) => {
                proof {
                    assert forall|m: ConflictModel, hw2: u8|
                        cfl_ok(m) && (hw2 != 0) == (m.resolved_winner is Some) && #[trigger] bytes_at(data@, 0, cfl_wire_with(m, hw2))
                        implies false by {
                        lemma_cfl_fields(data@, m, hw2);
                    }
                }
                return Err(str_err(e));
            },
        };
        proof {
            assert forall|m: ConflictModel, hw2: u8|
                cfl_ok(m) && (hw2 != 0) == (m.resolved_winner is Some) && #[trigger] bytes_at(data@, 0, cfl_wire_with(m, hw2))
                implies m.subject == subject@ by {
                lemma_cfl_fields(data@, m, hw2);
            }
        }
        let n = match rd_u16(data, o3) {
            Some(x) => x as usize,
            None => {
                proof {
                    assert forall|m: ConflictModel, hw2: u8|
                        cfl_ok(m) && (hw2 != 0) == (m.resolved_winner is Some) && #[trigger] bytes_at(data@, 0, cfl_wire_with(m, hw2))
                        implies false by {
                        lemma_cfl_fields(data@, m, hw2);
                    }
                }
                return Err("trunc cfl n");
            },
        };
        let o4 = o3 + 2;
        proof {
            assert forall|m: ConflictModel, hw2: u8|
                cfl_ok(m) && (hw2 != 0) == (m.resolved_winner is Some) && #[trigger] bytes_at(data@, 0, cfl_wire_with(m, hw2))
                implies m.candidates.len() == n by {
                lemma_cfl_fields(data@, m, hw2);
                assert(data@.subrange(o3 as int, o3 + 2) == spec_u16_to_le_bytes(m.candidates.len() as u16));
            }
        }
        let (candidates, o5) = match read_strs16(data, o4, n) {
            Ok(x) => x,
            Err(e) => {
                proof {
                    assert forall|m: ConflictModel, hw2: u8|
                        cfl_ok(m) && (hw2 != 0) == (m.resolved_winner is Some) && #[trigger] bytes_at(data@, 0, cfl_wire_with(m, hw2))
                        implies false by {
                        lemma_cfl_fields(data@, m, hw2);
                    }
                }
                return Err(str_err(e));
            },
        };
        proof {
            assert forall|m: ConflictModel, hw2: u8|
                cfl_ok(m) && (hw2 != 0) == (m.resolved_winner is Some) && #[trigger] bytes_at(data@, 0, cfl_wire_with(m, hw2))
                implies m.candidates == str_views(candidates@) by {
                lemma_cfl_fields(data@, m, hw2);
            }
        }
        if o5 >= data.len() {
            proof {
                assert forall|m: ConflictModel, hw2: u8|
                    cfl_ok(m) && (hw2 != 0) == (m.resolved_winner is Some) && #[trigger] bytes_at(data@, 0, cfl_wire_with(m, hw2))
                    implies false by {
                    lemma_cfl_fields(data@, m, hw2);
                }
            }
            return Err("trunc cfl nn");
        }
        let nn = data[o5] as usize;
        let o6 = o5 + 1;
        if nn > data.len() - o6 {
            proof {
                assert forall|m: ConflictModel, hw2: u8|
                    cfl_ok(m) && (hw2 != 0) == (m.resolved_winner is Some) && #[trigger] bytes_at(data@, 0, cfl_wire_with(m, hw2))
                    implies false by {
                    lemma_cfl_fields(data@, m, hw2);
                }
            }
            return Err("trunc cfl node");
        }
        let o7 = o6 + nn;
        let nodes = slice_to_vec(slice_subrange(data, o6, o7));
        proof {
            assert forall|m: ConflictModel, hw2: u8|
                cfl_ok(m) && (hw2 != 0) == (m.resolved_winner is Some) && #[trigger] bytes_at(data@, 0, cfl_wire_with(m, hw2))
                implies m.nodes == nodes@ by {
                lemma_cfl_fields(data@, m, hw2);
                assert(m.nodes =~= nodes@);
            }
        }
        let mut o8 = o7;
        let resolved_winner = if has_winner {
            match read_str16(data, o7) {
                Ok((w, o)) => {
                    o8 = o;
                    Some(w)
                },
                Err(e) => {
                    proof {
                        assert forall|m: ConflictModel, hw2: u8|
                            cfl_ok(m) && (hw2 != 0) == (m.resolved_winner is Some) && #[trigger] bytes_at(data@, 0, cfl_wire_with(m, hw2))
                            implies false by {
                            lemma_cfl_fields(data@, m, hw2);
                        }
                    }
                    return Err(str_err(e));
                },
            }
        } else {
            None
        };
        let ghost wv: Option<Seq<char>> = opt_text(resolved_winner);
        proof {
            if !has_winner {
                assert(data@.subrange(o7 as int, o7 as int) =~= Seq::<u8>::empty());
            }
            assert(bytes_at(data@, o7 as int, winner_wire(wv)));
            assert(o8 == o7 + winner_wire(wv).len());
            assert forall|m: ConflictModel, hw2: u8|
                cfl_ok(m) && (hw2 != 0) == (m.resolved_winner is Some) && #[trigger] bytes_at(data@, 0, cfl_wire_with(m, hw2))
                implies m.resolved_winner == wv by {
                lemma_cfl_fields(data@, m, hw2);
            }
        }
        if o8 >= data.len() {
            proof {
                assert forall|m: ConflictModel, hw2: u8|
                    cfl_ok(m) && (hw2 != 0) == (m.resolved_winner is Some) && #[trigger] bytes_at(data@, 0, cfl_wire_with(m, hw2))
                    implies false by {
                    lemma_cfl_fields(data@, m, hw2);
                }
            }
            return Err("trunc cfl nr");
        }
        let nr = data[o8] as usize;
        let o9 = o8 + 1;
        let (records, o10) = match read_blobs32(data, o9, nr) {
            Ok(x) => x,
            Err(e) => {
                proof {
                    assert forall|m: ConflictModel, hw2: u8|
                        cfl_ok(m) && (hw2 != 0) == (m.resolved_winner is Some) && #[trigger] bytes_at(data@, 0, cfl_wire_with(m, hw2))
                        implies false by {
                        lemma_cfl_fields(data@, m, hw2);
                    }
                }
                return Err(match e {
                    BlobError::TruncLen => "trunc cfl rl",
                    BlobError::Overflow => "overflow cfl rec",
                    BlobError::TruncBytes => "trunc cfl rec",
                });
            },
        };
        let c = ConflictRecord {
            conflict_id,
            subject,
            candidates,
            nodes,
            created_tick,
            status,
            resolved_winner,
            records,
        };
        proof {
            lemma_cfl_assemble(data@, c@, hw, o2 as int, o3 as int, o5 as int, o7 as int, o8 as int);
            assert forall|m: ConflictModel, hw2: u8|
                cfl_ok(m) && (hw2 != 0) == (m.resolved_winner is Some) && #[trigger] bytes_at(data@, 0, cfl_wire_with(m, hw2))
                implies c@ == m by {
                lemma_cfl_fields(data@, m, hw2);
                assert(m.records == c@.records);
            }
        }
        Ok(c)
    }

    /// Encodes a conflict whose lengths fit their fields.
    pub fn encode(&self) -> (r: Vec<u8>)
        requires
            cfl_ok(self@),
        ensures
            r@ == cfl_wire(self@),
    {
        match self.try_encode() {
            Ok(b) => b,
            Err(_) => Vec::new(),
        }
    }
}

/// The texts are strictly ascending by their UTF-8 bytes (so none occurs twice).
pub open spec fn texts_sorted(t: Seq<Seq<char>>) -> bool {
    forall|i: int, j: int|
        0 <= i < j < t.len() ==> bytes_lt(encode_utf8(#[trigger] t[i]), encode_utf8(#[trigger] t[j]))
}

/// One byte into the two-lane digest: each lane xors it in and multiplies by
/// the FNV prime; the second lane then adds the first lane's new value.
#[verifier::opaque]
pub open spec fn id_feed(st: (u64, u64), b: u8) -> (u64, u64) {
    let h0 = wrapping_mul(st.0 ^ (b as u64), FP_PRIME);
    (h0, wrapping_add(wrapping_mul(st.1 ^ (b as u64), FP_PRIME), h0))
}

/// The two-lane digest of `bs` from state `st`.
pub open spec fn id_feed_all(st: (u64, u64), bs: Seq<u8>) -> (u64, u64)
    decreases bs.len(),
{
    if bs.len() == 0 {
        st
    } else {
        id_feed(id_feed_all(st, bs.drop_last()), bs.last())
    }
}

/// The candidates' bytes as hashed: each one after a `0xFF` separator.
pub open spec fn candidate_stream(t: Seq<Seq<char>>) -> Seq<u8>
    decreases t.len(),
{
    if t.len() == 0 {
        Seq::empty()
    } else {
        candidate_stream(t.drop_last()) + seq![0xFFu8] + encode_utf8(t.last())
    }
}

/// The id of a conflict over `subject` between the (canonically ordered)
/// candidate texts: 32 lower-case hex digits of both digest lanes, each lane's
/// bytes little-endian.
pub open spec fn conflict_id_text(subject: Seq<char>, t: Seq<Seq<char>>) -> Seq<char> {
    let d = id_feed_all((FP_SEED, FP_SEED), encode_utf8(subject) + candidate_stream(t));
    bytes_hex(spec_u64_to_le_bytes(d.0) + spec_u64_to_le_bytes(d.1))
}

proof fn lemma_id_feed_concat(st: (u64, u64), a: Seq<u8>, b: Seq<u8>)
    ensures
        id_feed_all(st, a + b) == id_feed_all(id_feed_all(st, a), b),
    decreases b.len(),
{
    if b.len() == 0 {
        assert(a + b =~= a);
    } else {
        lemma_id_feed_concat(st, a, b.drop_last());
        assert((a + b).drop_last() =~= a + b.drop_last());
        assert((a + b).last() == b.last());
    }
}

proof fn lemma_stream_step(t: Seq<Seq<char>>, k: int)
    requires
        0 <= k < t.len(),
    ensures
        candidate_stream(t.take(k + 1)) == candidate_stream(t.take(k)) + (seq![0xFFu8] + encode_utf8(t[k])),
{
    assert(t.take(k + 1).drop_last() =~= t.take(k));
    assert(t.take(k + 1).last() == t[k]);
    assert(candidate_stream(t.take(k)) + seq![0xFFu8] + encode_utf8(t[k]) =~= candidate_stream(t.take(k))
        + (seq![0xFFu8] + encode_utf8(t[k])));
}

proof fn lemma_id_one(st: (u64, u64), b: u8)
    ensures
        id_feed_all(st, seq![b]) == id_feed(st, b),
{
    assert(seq![b].drop_last() =~= Seq::<u8>::empty());
    assert(id_feed_all(st, Seq::<u8>::empty()) == st);
    assert(seq![b].last() == b);
    assert(id_feed_all(st, seq![b]) == id_feed(id_feed_all(st, seq![b].drop_last()), seq![b].last()));
}

proof fn lemma_id_step(pre: Seq<u8>, t: Seq<Seq<char>>, k: int)
    requires
        0 <= k < t.len(),
    ensures
        id_feed_all((FP_SEED, FP_SEED), pre + candidate_stream(t.take(k + 1))) == id_feed_all(
            id_feed(id_feed_all((FP_SEED, FP_SEED), pre + candidate_stream(t.take(k))), 0xFFu8),
            encode_utf8(t[k]),
        ),
{
    let s0 = pre + candidate_stream(t.take(k));
    let x = seq![0xFFu8] + encode_utf8(t[k]);
    lemma_stream_step(t, k);
    assert(pre + candidate_stream(t.take(k + 1)) =~= s0 + x);
    lemma_id_feed_concat((FP_SEED, FP_SEED), s0, x);
    lemma_id_feed_concat(id_feed_all((FP_SEED, FP_SEED), s0), seq![0xFFu8], encode_utf8(t[k]));
    lemma_id_one(id_feed_all((FP_SEED, FP_SEED), s0), 0xFFu8);
}

fn id_feed_byte(st: (u64, u64), b: u8) -> (r: (u64, u64))
    ensures
        r == id_feed(st, b),
{
    reveal(id_feed);
    let h0 = (st.0 ^ b as u64).wrapping_mul(FP_PRIME);
    (h0, (st.1 ^ b as u64).wrapping_mul(FP_PRIME).wrapping_add(h0))
}

fn id_feed_bytes(st: (u64, u64), bs: &[u8]) -> (r: (u64, u64))
    ensures
        r == id_feed_all(st, bs@),
{
    let mut acc = st;
    let mut i: usize = 0;
    while i < bs.len()
        invariant
            0 <= i <= bs@.len(),
            acc == id_feed_all(st, bs@.take(i as int)),
        decreases bs@.len() - i,
    {
        assert(bs@.take(i + 1).drop_last() =~= bs@.take(i as int));
        acc = id_feed_byte(acc, bs[i]);
        i += 1;
    }
    assert(bs@.take(i as int) =~= bs@);
    acc
}

/// Equal bytes, equal text.
proof fn lemma_text_of_bytes(a: Seq<char>, b: Seq<char>)
    requires
        encode_utf8(a) == encode_utf8(b),
    ensures
        a == b,
{
    vstd::utf8::encode_utf8_decode_utf8(a);
    vstd::utf8::encode_utf8_decode_utf8(b);
}

/// Where a text with bytes `cb` goes in an ascending list: the first slot
/// whose text does not sort before it, and whether that slot holds it.
fn find_slot(out: &Vec<String>, cb: &[u8], Ghost(c): Ghost<Seq<char>>) -> (r: (usize, bool))
    requires
        cb@ == encode_utf8(c),
    ensures
        r.0 <= out@.len(),
        forall|i: int| 0 <= i < r.0 ==> bytes_lt(encode_utf8(#[trigger] str_views(out@)[i]), encode_utf8(c)),
        r.1 ==> r.0 < out@.len() && encode_utf8(str_views(out@)[r.0 as int]) == encode_utf8(c),
        !r.1 && r.0 < out@.len() ==> bytes_lt(encode_utf8(c), encode_utf8(str_views(out@)[r.0 as int])),
{
    let ghost t0 = str_views(out@);
    let mut p: usize = 0;
    while p < out.len()
        invariant
            0 <= p <= out@.len(),
            t0 == str_views(out@),
            cb@ == encode_utf8(c),
            forall|i: int| 0 <= i < p ==> bytes_lt(encode_utf8(#[trigger] t0[i]), encode_utf8(c)),
        decreases out@.len() - p,
    {
        let o = order_bytes(out[p].as_str().as_bytes(), cb);
        assert(t0[p as int] == out@[p as int]@);
        if o == 0 {
            return (p, true);
        } else if o > 0 {
            return (p, false);
        }
        p += 1;
    }
    (p, false)
}

/// Inserts `c` into the ascending list unless its text is already there.
pub(crate) fn insert_text(out: &mut Vec<String>, c: String)
    requires
        texts_sorted(str_views(old(out)@)),
    ensures
        texts_sorted(str_views(final(out)@)),
        str_views(final(out)@).to_set() == str_views(old(out)@).to_set().insert(c@),
{
    let ghost t0 = str_views(out@);
    let cb = c.as_str().as_bytes();
    let (p, found) = find_slot(out, cb, Ghost(c@));
    if found {
        proof {
            lemma_text_of_bytes(t0[p as int], c@);
            assert(str_views(out@).to_set() =~= t0.to_set().insert(c@)) by {
                assert(t0.to_set().contains(t0[p as int]));
            }
        }
        return;
    }
    out.insert(p, c);
    proof {
        let t1 = str_views(out@);
        assert(t1 =~= t0.insert(p as int, c@));
        assert forall|i: int, j: int| 0 <= i < j < t1.len() implies bytes_lt(
            encode_utf8(#[trigger] t1[i]),
            encode_utf8(#[trigger] t1[j]),
        ) by {
            if j < p {
                assert(t1[i] == t0[i] && t1[j] == t0[j]);
            } else if j == p {
                assert(t1[i] == t0[i]);
            } else if i == p {
                assert(t1[j] == t0[j - 1]);
                if j - 1 > p {
                    lemma_lt_transitive(encode_utf8(c@), encode_utf8(t0[p as int]), encode_utf8(t0[j - 1]));
                }
            } else if i < p {
                assert(t1[i] == t0[i] && t1[j] == t0[j - 1]);
            } else {
                assert(t1[i] == t0[i - 1] && t1[j] == t0[j - 1]);
            }
        }
        assert forall|x: Seq<char>| #[trigger] t1.to_set().contains(x) <==> t0.to_set().insert(c@).contains(x) by {
            if t1.to_set().contains(x) {
                let k = choose|k: int| 0 <= k < t1.len() && t1[k] == x;
                if k < p {
                    assert(t0[k] == x);
                } else if k > p {
                    assert(t0[k - 1] == x);
                }
            }
            if t0.to_set().contains(x) {
                let k = choose|k: int| 0 <= k < t0.len() && t0[k] == x;
                if k < p {
                    assert(t1[k] == x);
                } else {
                    assert(t1[k + 1] == x);
                }
            }
            if x == c@ {
                assert(t1[p as int] == x);
            }
        }
        assert(t1.to_set() =~= t0.to_set().insert(c@));
    }
}

/// Deterministic id of a conflict: the candidates are sorted by their bytes
/// and deduplicated in place, then the subject and each candidate (after a
/// `0xFF` separator) are hashed into a 128-bit digest, returned as 32 hex
/// digits. Any order or repetition of the same candidates gives the same id.
pub fn generate_conflict_id(subject: &str, candidates: &mut Vec<String>) -> (r: String)
    ensures
        texts_sorted(str_views(final(candidates)@)),
        str_views(final(candidates)@).to_set() == str_views(old(candidates)@).to_set(),
        r@ == conflict_id_text(subject@, str_views(final(candidates)@)),
{
    let mut src: Vec<String> = Vec::new();
    std::mem::swap(candidates, &mut src);
    let ghost all = str_views(src@).to_set();
    let mut out: Vec<String> = Vec::new();
    proof {
        assert(str_views(out@).to_set() =~= Set::<Seq<char>>::empty());
    }
    while src.len() > 0
        invariant
            texts_sorted(str_views(out@)),
            str_views(out@).to_set().union(str_views(src@).to_set()) == all,
        decreases src@.len(),
    {
        let ghost before = src@;
        let c = src.pop().unwrap();
        proof {
            assert(before =~= src@.push(c));
            assert(str_views(before).to_set() =~= str_views(src@).to_set().insert(c@)) by {
                assert(str_views(before) =~= str_views(src@).push(c@));
                vstd::seq_lib::lemma_seq_contains_after_push(str_views(src@), c@, c@);
                assert forall|x: Seq<char>| #[trigger] str_views(before).to_set().contains(x) <==> str_views(src@).to_set().insert(c@).contains(x) by {
                    if str_views(before).to_set().contains(x) {
                        let k = choose|k: int| 0 <= k < str_views(before).len() && str_views(before)[k] == x;
                        if k < src@.len() {
                            assert(str_views(src@)[k] == x);
                        }
                    }
                    if str_views(src@).to_set().contains(x) {
                        let k = choose|k: int| 0 <= k < str_views(src@).len() && str_views(src@)[k] == x;
                        assert(str_views(before)[k] == x);
                    }
                    if x == c@ {
                        assert(str_views(before)[src@.len() as int] == x);
                    }
                }
            }
        }
        insert_text(&mut out, c);
        proof {
            assert(str_views(out@).to_set().union(str_views(src@).to_set()) =~= all);
        }
    }
    proof {
        assert(str_views(src@).to_set() =~= Set::<Seq<char>>::empty());
        assert(str_views(out@).to_set().union(str_views(src@).to_set()) =~= str_views(out@).to_set());
    }
    let ghost t = str_views(out@);
    let sb = subject.as_bytes();
    let mut st = id_feed_bytes((FP_SEED, FP_SEED), sb);
    let mut k: usize = 0;
    while k < out.len()
        invariant
            0 <= k <= out@.len(),
            t == str_views(out@),
            st == id_feed_all((FP_SEED, FP_SEED), encode_utf8(subject@) + candidate_stream(t.take(k as int))),
        decreases out@.len() - k,
    {
        let cb = out[k].as_str().as_bytes();
        proof {
            assert(t[k as int] == out@[k as int]@);
            lemma_id_step(encode_utf8(subject@), t, k as int);
        }
        st = id_feed_byte(st, 0xFF);
        st = id_feed_bytes(st, cb);
        k += 1;
    }
    proof {
        assert(t.take(k as int) =~= t);
    }
    let mut digest = u64_to_le_bytes(st.0);
    let mut hi = u64_to_le_bytes(st.1);
    digest.append(&mut hi);
    *candidates = out;
    hex_bytes(digest.as_slice())
}

/// A canonical candidate list is determined by its set of texts: two strictly
/// ascending lists holding the same texts are the same list.
pub proof fn law_canonical_candidates_unique(a: Seq<Seq<char>>, b: Seq<Seq<char>>)
    requires
        texts_sorted(a),
        texts_sorted(b),
        a.to_set() == b.to_set(),
    ensures
        a == b,
    decreases a.len(),
{
    if a.len() == 0 {
        if b.len() > 0 {
            assert(b.to_set().contains(b[0]));
        }
        assert(a =~= b);
    } else if b.len() == 0 {
        assert(a.to_set().contains(a[0]));
    } else {
        assert(a.to_set().contains(a[0]));
        assert(b.to_set().contains(b[0]));
        if a[0] != b[0] {
            let j = choose|j: int| 0 <= j < b.len() && b[j] == a[0];
            let i = choose|i: int| 0 <= i < a.len() && a[i] == b[0];
            assert(j > 0 && i > 0);
            assert(bytes_lt(encode_utf8(b[0]), encode_utf8(b[j])));
            assert(bytes_lt(encode_utf8(a[0]), encode_utf8(a[i])));
            lemma_lt_asymmetric(encode_utf8(b[0]), encode_utf8(a[0]));
        }
        let a1 = a.drop_first();
        let b1 = b.drop_first();
        assert forall|i: int, j: int| 0 <= i < j < a1.len() implies bytes_lt(
            encode_utf8(#[trigger] a1[i]),
            encode_utf8(#[trigger] a1[j]),
        ) by {
            assert(a1[i] == a[i + 1] && a1[j] == a[j + 1]);
        }
        assert forall|i: int, j: int| 0 <= i < j < b1.len() implies bytes_lt(
            encode_utf8(#[trigger] b1[i]),
            encode_utf8(#[trigger] b1[j]),
        ) by {
            assert(b1[i] == b[i + 1] && b1[j] == b[j + 1]);
        }
        assert forall|x: Seq<char>| #[trigger] a1.to_set().contains(x) <==> b1.to_set().contains(x) by {
            if a1.to_set().contains(x) {
                let k = choose|k: int| 0 <= k < a1.len() && a1[k] == x;
                assert(a[k + 1] == x);
                assert(bytes_lt(encode_utf8(a[0]), encode_utf8(a[k + 1])));
                if x == a[0] {
                    lemma_lt_irreflexive(encode_utf8(x));
                }
                assert(b.to_set().contains(x));
                let m = choose|m: int| 0 <= m < b.len() && b[m] == x;
                assert(m > 0);
                assert(b1[m - 1] == x);
            }
            if b1.to_set().contains(x) {
                let k = choose|k: int| 0 <= k < b1.len() && b1[k] == x;
                assert(b[k + 1] == x);
                assert(bytes_lt(encode_utf8(b[0]), encode_utf8(b[k + 1])));
                if x == b[0] {
                    lemma_lt_irreflexive(encode_utf8(x));
                }
                assert(a.to_set().contains(x));
                let m = choose|m: int| 0 <= m < a.len() && a[m] == x;
                assert(m > 0);
                assert(a1[m - 1] == x);
            }
        }
        assert(a1.to_set() =~= b1.to_set());
        law_canonical_candidates_unique(a1, b1);
        assert(a =~= seq![a[0]] + a1);
        assert(b =~= seq![b[0]] + b1);
    }
}

/// The id of a conflict depends on the set of candidate texts only: the
/// canonical lists of two candidate lists holding the same texts give the
/// same id.
pub proof fn law_conflict_id_set_determined(subject: Seq<char>, a: Seq<Seq<char>>, b: Seq<Seq<char>>)
    requires
        texts_sorted(a),
        texts_sorted(b),
        a.to_set() == b.to_set(),
    ensures
        conflict_id_text(subject, a) == conflict_id_text(subject, b),
{
    law_canonical_candidates_unique(a, b);
}

} // verus!
