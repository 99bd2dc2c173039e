//! Memory documents and their NMD1 wire form.
use vstd::prelude::*;
use vstd::bytes::*;
use vstd::slice::*;
use vstd::string::StringExecFns;
use vstd::utf8::{decode_utf8, encode_utf8, valid_utf8, decode_utf8_encode_utf8, encode_utf8_decode_utf8, encode_utf8_valid_utf8};
use crate::clock::{clock_wire, lemma_clock_wire_roundtrip, VectorClock};
use crate::memory_doc::{
    doc_clock_off, doc_key_len, doc_magic, doc_payload_len, doc_payload_off, doc_view_error, layer_code,
    layer_name, layer_of_code, state_code, state_of_code, MemoryLayer, MemoryState,
};
use crate::meta::{law_meta_roundtrip, meta_holds, meta_ok, meta_wire, MemoryMeta, MetaModel};
use crate::text::{hex16_text, push_hex16, utf8_str};
use crate::wire::{
    bytes_at, lemma_bytes_at_concat, lemma_le_bytes_roundtrip, lemma_words_le, push_bytes, push_u32, push_u64, push_words,
    rd_u32, rd_u64, words_le,
};

verus! {

/// A memory document: layer, key, vector clock, payload, optional packed
/// embedding, and the metadata attached beside it.
#[derive(Clone, Debug, PartialEq)]
pub struct MemoryDoc {
    pub layer: MemoryLayer,
    pub key: String,
    pub clock: VectorClock,
    pub payload: Vec<u8>,
    /// Packed binary embedding (for semantic and procedural memories).
    pub bitvec: Option<Vec<u64>>,
    /// Identity and provenance; kept in memory only, never in the NMD1 bytes.
    pub meta: Option<MemoryMeta>,
}

/// What the NMD1 bytes of a document hold.
pub struct DocModel {
    pub layer: MemoryLayer,
    pub key: Seq<char>,
    pub nodes: Seq<u8>,
    pub counts: Seq<u64>,
    pub payload: Seq<u8>,
    pub bitvec: Option<Seq<u64>>,
}

/// Words of an optional bit vector.
pub open spec fn opt_words(b: Option<Vec<u64>>) -> Option<Seq<u64>> {
    match b {
        Some(v) => Some(v@),
        None => None,
    }
}

impl MemoryDoc {
    /// The fields the NMD1 bytes carry.
    pub open spec fn model(&self) -> DocModel {
        DocModel {
            layer: self.layer,
            key: self.key@,
            nodes: self.clock.nodes@,
            counts: self.clock.counts@,
            payload: self.payload@,
            bitvec: opt_words(self.bitvec),
        }
    }
}

/// Bytes of the bit-vector field: flag 1, the word count as a `u32`, the
/// words little-endian; flag 0 when there is none.
pub open spec fn bitvec_wire(b: Option<Seq<u64>>) -> Seq<u8> {
    match b {
        Some(w) => seq![1u8] + spec_u32_to_le_bytes(w.len() as u32) + words_le(w),
        None => seq![0u8],
    }
}

/// NMD1 bytes: magic, layer, key length (`u32`) and key, the 72-byte clock,
/// payload length (`u32`) and payload, then the bit-vector field. Lengths
/// are cut to 32 bits.
pub open spec fn doc_wire(m: DocModel) -> Seq<u8> {
    doc_magic() + seq![layer_code(m.layer)] + spec_u32_to_le_bytes(encode_utf8(m.key).len() as u32)
        + encode_utf8(m.key) + clock_wire(m.nodes, m.counts) + spec_u32_to_le_bytes(m.payload.len() as u32)
        + m.payload + bitvec_wire(m.bitvec)
}

/// Eight fixed clock slots and every length within its field.
pub open spec fn doc_model_ok(m: DocModel) -> bool {
    &&& m.nodes.len() == 8
    &&& m.counts.len() == 8
    &&& encode_utf8(m.key).len() <= u32::MAX
    &&& m.payload.len() <= u32::MAX
    &&& (m.bitvec matches Some(w) ==> w.len() <= u32::MAX)
}

impl MemoryDoc {
    /// A document with a fresh clock, no bit vector and no metadata.
    pub fn new(layer: MemoryLayer, key: &str, payload: Vec<u8>) -> (r: Self)
        ensures
            r.layer == layer,
            r.key@ == key@,
            r.payload@ == payload@,
            r.clock.nodes@ == Seq::new(8, |_i: int| 0xFFu8),
            r.clock.counts@ == Seq::new(8, |_i: int| 0u64),
            r.clock.overflow@.len() == 0,
            r.bitvec is None,
            r.meta is None,
    {
        MemoryDoc { layer, key: key.to_owned(), clock: VectorClock::new(), payload, bitvec: None, meta: None }
    }

    /// Storage key `md/<layer>/<key>`.
    pub fn storage_key(&self) -> (r: String)
        ensures
            r@ == seq!['m', 'd', '/'] + layer_name(self.layer) + seq!['/'] + self.key@,
    {
        let mut s = String::new();
        s.append("md/");
        s.append(self.layer.as_str());
        s.append("/");
        s.append(self.key.as_str());
        proof {
            reveal_strlit("md/");
            reveal_strlit("/");
        }
        s
    }

    /// Replaces the payload and ticks the clock for `node_id`; layer and key
    /// stay.
    pub fn patch_payload(&mut self, new_payload: Vec<u8>, node_id: u8)
        ensures
            final(self).payload@ == new_payload@,
            final(self).layer == old(self).layer,
            final(self).key@ == old(self).key@,
            final(self).bitvec == old(self).bitvec,
            final(self).meta == old(self).meta,
            old(self).clock.counter(node_id) == u64::MAX ==> final(self).clock == old(self).clock,
            old(self).clock.counter(node_id) < u64::MAX ==> VectorClock::set_counter_post(
                old(self).clock,
                final(self).clock,
                node_id,
                (old(self).clock.counter(node_id) + 1) as u64,
            ),
    {
        self.payload = new_payload;
        self.clock.tick(node_id);
    }

    /// Time key `ts/<16 hex digits>`: byte order follows tick order.
    pub fn sortable_ts_key(tick: u64) -> (r: String)
        ensures
            r@ == seq!['t', 's', '/'] + hex16_text(tick),
    {
        let mut s = String::new();
        s.append("ts/");
        proof {
            reveal_strlit("ts/");
        }
        push_hex16(&mut s, tick);
        s
    }

    /// NMD1 bytes of the document (the metadata and the clock overflow are
    /// not part of them).
    pub fn encode(&self) -> (r: Vec<u8>)
        ensures
            r@ == doc_wire(self.model()),
    {
        let mut out: Vec<u8> = Vec::new();
        out.push(78);
        out.push(77);
        out.push(68);
        out.push(49);
        out.push(self.layer.to_u8());
        let kb = self.key.as_str().as_bytes();
        push_u32(&mut out, kb.len() as u32);
        push_bytes(&mut out, kb);
        self.clock.encode(&mut out);
        push_u32(&mut out, self.payload.len() as u32);
        push_bytes(&mut out, self.payload.as_slice());
        match &self.bitvec {
            Some(bv) => {
                out.push(1);
                push_u32(&mut out, bv.len() as u32);
                push_words(&mut out, bv.as_slice());
            },
            None => {
                out.push(0);
            },
        }
        assert(out@ =~= doc_wire(self.model()));
        out
    }
}


/// Offset of the bit-vector flag: right after the payload.
pub open spec fn doc_bv_off(d: Seq<u8>) -> int {
    doc_payload_off(d) + doc_payload_len(d)
}

/// Declared word count of the bit vector.
pub open spec fn doc_bv_len(d: Seq<u8>) -> int {
    spec_u32_from_le_bytes(d.subrange(doc_bv_off(d) + 1, doc_bv_off(d) + 5)) as int
}

/// Why the bytes are no document, checked in this order; `None` when the
/// header, the payload and the bit-vector field (any flag other than 1
/// meaning none) are all there. Trailing bytes are ignored.
pub open spec fn doc_error(d: Seq<u8>) -> Option<&'static str> {
    if doc_view_error(d) is Some {
        doc_view_error(d)
    } else if doc_bv_off(d) >= d.len() {
        Some("trunc bitflag")
    } else if d[doc_bv_off(d)] == 1 && doc_bv_off(d) + 5 > d.len() {
        Some("trunc bvlen")
    } else if d[doc_bv_off(d)] == 1 && doc_bv_off(d) + 5 + 8 * doc_bv_len(d) > d.len() {
        Some("trunc bv")
    } else {
        None
    }
}

/// `n` little-endian words stored from `off`.
pub open spec fn words_at(d: Seq<u8>, off: int, n: nat) -> Seq<u64> {
    Seq::new(n, |i: int| spec_u64_from_le_bytes(d.subrange(off + 8 * i, off + 8 * i + 8)))
}

/// `m` is the document the bytes `d` hold, field by field.
pub open spec fn decoded_as(d: Seq<u8>, m: DocModel) -> bool {
    let co = doc_clock_off(d);
    let bo = doc_bv_off(d);
    &&& layer_of_code(d[4]) == Some(m.layer)
    &&& m.key == decode_utf8(d.subrange(9, co))
    &&& m.nodes.len() == 8
    &&& m.counts.len() == 8
    &&& clock_wire(m.nodes, m.counts) == d.subrange(co, co + 72)
    &&& m.payload == d.subrange(doc_payload_off(d), bo)
    &&& m.bitvec == (if d[bo] == 1 {
        Some(words_at(d, bo + 5, doc_bv_len(d) as nat))
    } else {
        None
    })
}

impl MemoryDoc {
    /// Decodes NMD1 bytes, bounds-checked: each malformed or truncated input
    /// gives its error, none panics. The result has no metadata and no clock
    /// overflow.
    pub fn decode(data: &[u8]) -> (r: Result<Self, &'static str>)
        ensures
            doc_error(data@) matches Some(e) ==> r == Err::<Self, &'static str>(e),
            doc_error(data@) is None ==> (r matches Ok(doc) && decoded_as(data@, doc.model()) && doc.meta is None
                && doc.clock.overflow@.len() == 0),
    {
        proof {
            lemma_le_bytes_roundtrip();
        }
        if data.len() < 5 || data[0] != 78 || data[1] != 77 || data[2] != 68 || data[3] != 49 {
            proof {
                if data@.len() >= 5 && data@.subrange(0, 4) == doc_magic() {
                    assert(data@.subrange(0, 4)[0] == data@[0]);
                    assert(data@.subrange(0, 4)[1] == data@[1]);
                    assert(data@.subrange(0, 4)[2] == data@[2]);
                    assert(data@.subrange(0, 4)[3] == data@[3]);
                }
            }
            return Err("bad magic");
        }
        proof {
            assert(data@.subrange(0, 4) =~= doc_magic());
        }
        let layer = match MemoryLayer::from_u8(data[4]) {
            Some(l) => l,
            None => {
                return Err("bad layer");
            },
        };
        let klen = match rd_u32(data, 5) {
            Some(k) => k as usize,
            None => {
                return Err("trunc keylen");
            },
        };
        if klen > data.len() - 9 {
            return Err("trunc key");
        }
        let off = 9 + klen;
        let key = match utf8_str(slice_subrange(data, 9, off)) {
            Some(k) => k.to_owned(),
            None => {
                return Err("utf8");
            },
        };
        if data.len() - off < 72 {
            return Err("trunc clock");
        }
        let clock = match VectorClock::decode(slice_subrange(data, off, data.len())) {
            Some((c, _)) => c,
            None => {
                return Err("trunc clock");
            },
        };
        proof {
            assert(data@.subrange(off as int, data@.len() as int).subrange(0, 72) =~= data@.subrange(
                off as int,
                off + 72,
            ));
        }
        let plen = match rd_u32(data, off + 72) {
            Some(p) => p as usize,
            None => {
                return Err("trunc plen");
            },
        };
        let poff = off + 76;
        if plen > data.len() - poff {
            return Err("trunc payload");
        }
        let payload = slice_to_vec(slice_subrange(data, poff, poff + plen));
        let bo = poff + plen;
        if bo >= data.len() {
            return Err("trunc bitflag");
        }
        let flag = data[bo];
        let bitvec = if flag == 1 {
            let n = match rd_u32(data, bo + 1) {
                Some(x) => x as usize,
                None => {
                    return Err("trunc bvlen");
                },
            };
            let ws = bo + 5;
            if (n as u64) * 8 > (data.len() - ws) as u64 {
                return Err("trunc bv");
            }
            let dlen = data.len();
            let mut bv: Vec<u64> = Vec::new();
            let mut i: usize = 0;
            while i < n
                invariant
                    0 <= i <= n,
                    dlen == data@.len(),
                    ws + 8 * n <= data@.len(),
                    bv@ == words_at(data@, ws as int, i as nat),
                decreases n - i,
            {
                let w = rd_u64(data, ws + 8 * i);
                bv.push(w.unwrap());
                assert(bv@ =~= words_at(data@, ws as int, (i + 1) as nat));
                i += 1;
            }
            Some(bv)
        } else {
            None
        };
        let doc = MemoryDoc { layer, key, clock, payload, bitvec, meta: None };
        proof {
            assert(doc.model().payload =~= data@.subrange(doc_payload_off(data@), doc_bv_off(data@)));
        }
        Ok(doc)
    }
}


proof fn lemma_layer_code_roundtrip(l: MemoryLayer)
    ensures
        layer_of_code(layer_code(l)) == Some(l),
{
}

/// The bytes hold at most one document.
proof fn lemma_decoded_unique(d: Seq<u8>, m1: DocModel, m2: DocModel)
    requires
        decoded_as(d, m1),
        decoded_as(d, m2),
    ensures
        m1 == m2,
{
    lemma_clock_wire_roundtrip(m1.nodes, m1.counts, m2.nodes, m2.counts);
}

/// Where the fields of a document sit in its NMD1 bytes.
proof fn lemma_doc_fields(m: DocModel)
    requires
        doc_model_ok(m),
    ensures
        ({
            let d = doc_wire(m);
            let kb = encode_utf8(m.key);
            let co: int = 9 + kb.len() as int;
            let bo: int = co + 76 + m.payload.len() as int;
            &&& d.len() >= 9
            &&& d.subrange(0, 4) == doc_magic()
            &&& d[4] == layer_code(m.layer)
            &&& doc_key_len(d) == kb.len()
            &&& doc_clock_off(d) == co
            &&& d.subrange(9, co) == kb
            &&& co + 76 <= d.len()
            &&& d.subrange(co, co + 72) == clock_wire(m.nodes, m.counts)
            &&& doc_payload_len(d) == m.payload.len()
            &&& doc_payload_off(d) == co + 76
            &&& bytes_at(d, co + 76, m.payload)
            &&& doc_bv_off(d) == bo
            &&& bytes_at(d, bo, bitvec_wire(m.bitvec))
        }),
{
    lemma_le_bytes_roundtrip();
    let d = doc_wire(m);
    let h = doc_magic() + seq![layer_code(m.layer)];
    let a = spec_u32_to_le_bytes(encode_utf8(m.key).len() as u32);
    let b = encode_utf8(m.key);
    let c = clock_wire(m.nodes, m.counts);
    let e = spec_u32_to_le_bytes(m.payload.len() as u32);
    let f = m.payload;
    let g = bitvec_wire(m.bitvec);
    crate::clock::lemma_counts_bytes_len(m.counts, 8);
    assert(c.len() == 72);
    assert(d == h + a + b + c + e + f + g);
    assert(bytes_at(d, 0, d)) by {
        assert(d.subrange(0, d.len() as int) =~= d);
    }
    lemma_bytes_at_concat(d, 0, h + a + b + c + e + f, g);
    lemma_bytes_at_concat(d, 0, h + a + b + c + e, f);
    lemma_bytes_at_concat(d, 0, h + a + b + c, e);
    lemma_bytes_at_concat(d, 0, h + a + b, c);
    lemma_bytes_at_concat(d, 0, h + a, b);
    lemma_bytes_at_concat(d, 0, h, a);
    assert(h.len() == 5);
    assert(d.subrange(0, 5) == h);
    assert(d.subrange(0, 4) =~= h.subrange(0, 4));
    assert(h.subrange(0, 4) =~= doc_magic());
    assert(d[4] == d.subrange(0, 5)[4]);
    assert(d.subrange(5, 9) == a);
}

/// Law: decoding the NMD1 bytes of a document gives back exactly its layer,
/// key, clock slots, payload and bit vector.
pub proof fn law_doc_roundtrip(m: DocModel)
    requires
        doc_model_ok(m),
    ensures
        doc_error(doc_wire(m)) is None,
        forall|m2: DocModel| decoded_as(doc_wire(m), m2) <==> m2 == m,
{
    lemma_le_bytes_roundtrip();
    lemma_doc_fields(m);
    lemma_layer_code_roundtrip(m.layer);
    let d = doc_wire(m);
    let kb = encode_utf8(m.key);
    let co: int = 9 + kb.len() as int;
    let bo: int = co + 76 + m.payload.len() as int;
    encode_utf8_valid_utf8(m.key);
    encode_utf8_decode_utf8(m.key);
    assert(doc_view_error(d) is None);
    let g = bitvec_wire(m.bitvec);
    assert(d[bo] == g[0]) by {
        assert(d.subrange(bo, bo + g.len())[0] == d[bo]);
    }
    match m.bitvec {
        Some(w) => {
            let n: int = w.len() as int;
            lemma_words_le(w);
            lemma_bytes_at_concat(d, bo, seq![1u8] + spec_u32_to_le_bytes(n as u32), words_le(w));
            lemma_bytes_at_concat(d, bo, seq![1u8], spec_u32_to_le_bytes(n as u32));
            assert(d.subrange(bo + 1, bo + 5) == spec_u32_to_le_bytes(n as u32));
            assert(doc_bv_len(d) == n);
            assert(bo + 5 + 8 * n <= d.len());
            assert(words_at(d, bo + 5, n as nat) =~= w) by {
                assert forall|i: int| 0 <= i < n implies words_at(d, bo + 5, n as nat)[i] == w[i] by {
                    assert(d.subrange(bo + 5 + 8 * i, bo + 5 + 8 * i + 8) =~= words_le(w).subrange(8 * i, 8 * i + 8));
                    assert(words_le(w).subrange(8 * i, 8 * i + 8) == spec_u64_to_le_bytes(w[i]));
                }
            }
        },
        None => {},
    }
    assert(decoded_as(d, m));
    assert forall|m2: DocModel| decoded_as(d, m2) <==> m2 == m by {
        if decoded_as(d, m2) {
            lemma_decoded_unique(d, m, m2);
        }
    }
}


/// A memory as one unit of replication: the document (with its metadata),
/// its logical state and its validity window.
#[derive(Clone, Debug, PartialEq)]
pub struct MemoryRecord {
    pub doc: MemoryDoc,
    pub state: MemoryState,
    /// Window `from <= now < until` (`None`: always valid).
    pub validity: Option<(u64, u64)>,
}

/// The magic "MDR1".
pub open spec fn rec_magic() -> Seq<u8> {
    seq![77u8, 68u8, 82u8, 49u8]
}

/// Bytes of the validity field.
pub open spec fn validity_wire(v: Option<(u64, u64)>) -> Seq<u8> {
    match v {
        Some((from, until)) => seq![1u8] + spec_u64_to_le_bytes(from) + spec_u64_to_le_bytes(until),
        None => seq![0u8],
    }
}

/// Bytes of the metadata field: flag 1, the MDM1 length as a `u32`, the MDM1
/// bytes; flag 0 when there is none.
pub open spec fn meta_field_wire(m: Option<MetaModel>) -> Seq<u8> {
    match m {
        Some(x) => seq![1u8] + spec_u32_to_le_bytes(meta_wire(x).len() as u32) + meta_wire(x),
        None => seq![0u8],
    }
}

/// Metadata model of an optional record.
pub open spec fn opt_meta(m: Option<MemoryMeta>) -> Option<MetaModel> {
    match m {
        Some(x) => Some(x@),
        None => None,
    }
}

/// MDR1 bytes: magic, state, validity, metadata, then the NMD1 document.
pub open spec fn rec_wire(state: MemoryState, validity: Option<(u64, u64)>, meta: Option<MetaModel>, doc: DocModel) -> Seq<u8> {
    rec_magic() + seq![state_code(state)] + validity_wire(validity) + meta_field_wire(meta) + doc_wire(doc)
}

/// MDR1 bytes of a record as `encode` writes them.
pub open spec fn record_wire(r: MemoryRecord) -> Seq<u8> {
    rec_wire(r.state, r.validity, opt_meta(r.doc.meta), r.doc.model())
}

/// Offset of the metadata flag.
pub open spec fn rec_meta_off(d: Seq<u8>) -> int {
    if d[5] == 1 {
        22
    } else {
        6
    }
}

/// Declared length of the metadata bytes.
pub open spec fn rec_meta_len(d: Seq<u8>) -> int {
    spec_u32_from_le_bytes(d.subrange(rec_meta_off(d) + 1, rec_meta_off(d) + 5)) as int
}

/// The metadata bytes.
pub open spec fn rec_meta_bytes(d: Seq<u8>) -> Seq<u8> {
    d.subrange(rec_meta_off(d) + 5, rec_meta_off(d) + 5 + rec_meta_len(d))
}

/// Offset of the NMD1 document.
pub open spec fn rec_doc_off(d: Seq<u8>) -> int {
    if d[rec_meta_off(d)] == 1 {
        rec_meta_off(d) + 5 + rec_meta_len(d)
    } else {
        rec_meta_off(d) + 1
    }
}

/// Why the bytes are no record, checked in this order; `None` when every
/// field is there and well formed.
pub open spec fn rec_error(d: Seq<u8>) -> Option<&'static str> {
    if d.len() < 6 || d.subrange(0, 4) != rec_magic() {
        Some("bad record magic")
    } else if state_of_code(d[4]) is None {
        Some("bad record state")
    } else if d[5] > 1 {
        Some("bad validity flag")
    } else if d[5] == 1 && d.len() < 22 {
        Some("trunc validity")
    } else if rec_meta_off(d) >= d.len() {
        Some("trunc metaflag")
    } else if d[rec_meta_off(d)] > 1 {
        Some("bad meta flag")
    } else if d[rec_meta_off(d)] == 1 && rec_meta_off(d) + 5 > d.len() {
        Some("trunc metalen")
    } else if d[rec_meta_off(d)] == 1 && rec_meta_off(d) + 5 + rec_meta_len(d) > d.len() {
        Some("trunc meta")
    } else if d[rec_meta_off(d)] == 1 && !(exists|m: MetaModel| #[trigger] meta_holds(rec_meta_bytes(d), m)) {
        Some("bad meta")
    } else if doc_error(d.subrange(rec_doc_off(d), d.len() as int)) is Some {
        Some("trunc nmd1")
    } else {
        None
    }
}

/// `r` is the record the bytes `d` hold (with `rec_error(d)` none): state,
/// validity, the metadata the MDM1 bytes hold, and the NMD1 document.
pub open spec fn record_as(d: Seq<u8>, r: MemoryRecord) -> bool {
    &&& state_of_code(d[4]) == Some(r.state)
    &&& r.validity == (if d[5] == 1 {
        Some((spec_u64_from_le_bytes(d.subrange(6, 14)), spec_u64_from_le_bytes(d.subrange(14, 22))))
    } else {
        None
    })
    &&& (d[rec_meta_off(d)] == 1 ==> (r.doc.meta matches Some(x) && meta_holds(rec_meta_bytes(d), x@)
        && forall|m: MetaModel| #[trigger] meta_holds(rec_meta_bytes(d), m) ==> m == x@))
    &&& (d[rec_meta_off(d)] != 1 ==> r.doc.meta is None)
    &&& decoded_as(d.subrange(rec_doc_off(d), d.len() as int), r.doc.model())
    &&& r.doc.clock.overflow@.len() == 0
}

impl MemoryRecord {
    pub fn new(doc: MemoryDoc, state: MemoryState, validity: Option<(u64, u64)>) -> (r: Self)
        ensures
            r == (MemoryRecord { doc, state, validity }),
    {
        MemoryRecord { doc, state, validity }
    }

    /// MDR1 bytes of the record (the metadata travels with it).
    pub fn encode(&self) -> (r: Vec<u8>)
        ensures
            r@ == rec_wire(self.state, self.validity, opt_meta(self.doc.meta), self.doc.model()),
    {
        let mut out: Vec<u8> = Vec::new();
        out.push(77);
        out.push(68);
        out.push(82);
        out.push(49);
        out.push(self.state.to_u8());
        match self.validity {
            Some((from, until)) => {
                out.push(1);
                push_u64(&mut out, from);
                push_u64(&mut out, until);
            },
            None => {
                out.push(0);
            },
        }
        match &self.doc.meta {
            Some(m) => {
                out.push(1);
                let mb = m.encode();
                push_u32(&mut out, mb.len() as u32);
                push_bytes(&mut out, mb.as_slice());
            },
            None => {
                out.push(0);
            },
        }
        let db = self.doc.encode();
        push_bytes(&mut out, db.as_slice());
        assert(out@ =~= rec_wire(self.state, self.validity, opt_meta(self.doc.meta), self.doc.model()));
        out
    }

    /// Decodes MDR1 bytes, bounds-checked: each malformed or truncated input
    /// gives its error, none panics.
    pub fn decode(data: &[u8]) -> (r: Result<Self, &'static str>)
        ensures
            rec_error(data@) matches Some(e) ==> r == Err::<Self, &'static str>(e),
            rec_error(data@) is None ==> (r matches Ok(x) && record_as(data@, x)),
    {
        proof {
            lemma_le_bytes_roundtrip();
        }
        if data.len() < 6 || data[0] != 77 || data[1] != 68 || data[2] != 82 || data[3] != 49 {
            proof {
                if data@.len() >= 6 && data@.subrange(0, 4) == rec_magic() {
                    assert(data@.subrange(0, 4)[0] == data@[0]);
                    assert(data@.subrange(0, 4)[1] == data@[1]);
                    assert(data@.subrange(0, 4)[2] == data@[2]);
                    assert(data@.subrange(0, 4)[3] == data@[3]);
                }
            }
            return Err("bad record magic");
        }
        proof {
            assert(data@.subrange(0, 4) =~= rec_magic());
        }
        let state = match MemoryState::from_u8(data[4]) {
            Some(s) => s,
            None => {
                return Err("bad record state");
            },
        };
        let vflag = data[5];
        let mut off: usize = 6;
        let validity = if vflag == 0 {
            None
        } else if vflag == 1 {
            if data.len() < 22 {
                return Err("trunc validity");
            }
            let from = rd_u64(data, 6).unwrap();
            let until = rd_u64(data, 14).unwrap();
            off = 22;
            Some((from, until))
        } else {
            return Err("bad validity flag");
        };
        assert(off == rec_meta_off(data@));
        if off >= data.len() {
            return Err("trunc metaflag");
        }
        let mflag = data[off];
        let meta = if mflag == 0 {
            off = off + 1;
            None
        } else if mflag == 1 {
            let mlen = match rd_u32(data, off + 1) {
                Some(x) => x as usize,
                None => {
                    return Err("trunc metalen");
                },
            };
            let mo = off + 5;
            if mlen > data.len() - mo {
                return Err("trunc meta");
            }
            let mb = slice_subrange(data, mo, mo + mlen);
            assert(mb@ == rec_meta_bytes(data@));
            let m = match MemoryMeta::decode(mb) {
                Ok(m) => m,
                Err(_) => {
                    return Err("bad meta");
                },
            };
            off = mo + mlen;
            Some(m)
        } else {
            return Err("bad meta flag");
        };
        assert(off == rec_doc_off(data@));
        let mut doc = match MemoryDoc::decode(slice_subrange(data, off, data.len())) {
            Ok(d) => d,
            Err(_) => {
                return Err("trunc nmd1");
            },
        };
        doc.meta = meta;
        Ok(MemoryRecord { doc, state, validity })
    }
}


proof fn lemma_state_code_roundtrip(st: MemoryState)
    ensures
        state_of_code(state_code(st)) == Some(st),
{
}

/// Bytes of a metadata field around given MDM1 bytes.
spec fn meta_bytes_field(mb: Option<Seq<u8>>) -> Seq<u8> {
    match mb {
        Some(x) => seq![1u8] + spec_u32_to_le_bytes(x.len() as u32) + x,
        None => seq![0u8],
    }
}

/// Where the fields of a record sit in its MDR1 bytes.
proof fn lemma_rec_layout(state: MemoryState, validity: Option<(u64, u64)>, mb: Option<Seq<u8>>, c: Seq<u8>)
    requires
        mb matches Some(x) ==> x.len() <= u32::MAX,
    ensures
        ({
            let w = rec_magic() + seq![state_code(state)] + validity_wire(validity) + meta_bytes_field(mb) + c;
            let mo: int = if validity is Some {
                22
            } else {
                6
            };
            let dof: int = mo + meta_bytes_field(mb).len();
            &&& w.len() >= mo + 1
            &&& w.subrange(0, 4) == rec_magic()
            &&& w[4] == state_code(state)
            &&& w[5] == (if validity is Some {
                1u8
            } else {
                0u8
            })
            &&& (validity matches Some((from, until)) ==> spec_u64_from_le_bytes(w.subrange(6, 14)) == from
                && spec_u64_from_le_bytes(w.subrange(14, 22)) == until)
            &&& rec_meta_off(w) == mo
            &&& w[mo] == (if mb is Some {
                1u8
            } else {
                0u8
            })
            &&& (mb matches Some(x) ==> rec_meta_len(w) == x.len() && rec_meta_bytes(w) == x)
            &&& rec_doc_off(w) == dof
            &&& w.subrange(dof, w.len() as int) == c
        }),
{
    lemma_le_bytes_roundtrip();
    let h = rec_magic() + seq![state_code(state)];
    let a = validity_wire(validity);
    let b = meta_bytes_field(mb);
    let w = h + a + b + c;
    assert(w.subrange(0, 4) =~= rec_magic());
    assert(w[4] == h[4]);
    assert(w[5] == a[0]);
    let mo: int = 5 + a.len() as int;
    match validity {
        Some((from, until)) => {
            assert(w.subrange(6, 14) =~= spec_u64_to_le_bytes(from));
            assert(w.subrange(14, 22) =~= spec_u64_to_le_bytes(until));
        },
        None => {},
    }
    assert(w[mo] == b[0]);
    match mb {
        Some(x) => {
            assert(w.subrange(mo + 1, mo + 5) =~= spec_u32_to_le_bytes(x.len() as u32));
            assert(w.subrange(mo + 5, mo + 5 + x.len()) =~= x);
        },
        None => {},
    }
    let dof: int = mo + b.len() as int;
    assert(w.subrange(dof, w.len() as int) =~= c);
}

/// Law: decoding the MDR1 bytes of a record gives back its state, validity,
/// metadata and document (the document as its NMD1 bytes carry it).
#[verifier::rlimit(40)]
pub proof fn law_record_roundtrip(
    state: MemoryState,
    validity: Option<(u64, u64)>,
    meta: Option<MetaModel>,
    doc: DocModel,
)
    requires
        doc_model_ok(doc),
        meta matches Some(m) ==> meta_ok(m) && meta_wire(m).len() <= u32::MAX,
    ensures
        rec_error(rec_wire(state, validity, meta, doc)) is None,
        forall|r: MemoryRecord| #[trigger] record_as(rec_wire(state, validity, meta, doc), r) ==> r.state == state
            && r.validity == validity && opt_meta(r.doc.meta) == meta && r.doc.model() == doc,
{
    lemma_state_code_roundtrip(state);
    let mb: Option<Seq<u8>> = match meta {
        Some(m) => Some(meta_wire(m)),
        None => None,
    };
    let c = doc_wire(doc);
    assert(meta_field_wire(meta) == meta_bytes_field(mb));
    let w = rec_wire(state, validity, meta, doc);
    assert(w == rec_magic() + seq![state_code(state)] + validity_wire(validity) + meta_bytes_field(mb) + c);
    lemma_rec_layout(state, validity, mb, c);
    law_doc_roundtrip(doc);
    match meta {
        Some(m) => {
            law_meta_roundtrip(m);
            assert(meta_holds(rec_meta_bytes(w), m));
        },
        None => {},
    }
    assert(rec_error(w) is None);
    assert forall|r: MemoryRecord| #[trigger] record_as(w, r) implies r.state == state && r.validity == validity
        && opt_meta(r.doc.meta) == meta && r.doc.model() == doc by {
        match meta {
            Some(m) => {
                assert(meta_holds(rec_meta_bytes(w), m));
            },
            None => {},
        }
    }
}

} // verus!
