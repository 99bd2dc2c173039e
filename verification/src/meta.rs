//! Memory metadata (identity and provenance) and its MDM1 wire form.
use vstd::prelude::*;
use vstd::bytes::*;
use vstd::slice::*;
use vstd::utf8::encode_utf8;
use crate::wire::{
    bytes_at, lemma_bytes_at_concat, lemma_bytes_at_prefix, lemma_le_bytes_roundtrip, push_str16, push_strs16,
    push_u16, push_u32, push_u64, rd_u16, rd_u32, rd_u64, read_str16, read_strs16, str16_wire, str_views,
    strs16_ok, strs16_wire, StrFieldError,
};
use crate::memory_doc::{generate_memory_id, layer_importance_bits, memory_id_text, MemoryLayer};
use crate::text::same_text;

verus! {

/// Identity and provenance of a memory, kept beside the document.
///
/// `confidence_bits` and `importance_bits` hold the IEEE-754 bit patterns of
/// the confidence and importance scores in `[0, 1]`.
#[derive(Clone, Debug, PartialEq)]
pub struct MemoryMeta {
    /// Stable identity of the memory slot (32 hex digits).
    pub memory_id: String,
    /// Identity of the current version in the causal history.
    pub version_id: String,
    /// Creating node.
    pub source: u8,
    pub confidence_bits: u32,
    pub importance_bits: u32,
    /// Tick of the creator's clock at creation.
    pub created_tick: u64,
    /// Causal parents (version ids).
    pub parent_ids: Vec<String>,
    /// Vector-clock entries beyond the eight fixed slots.
    pub clock_overflow: Vec<(u8, u64)>,
    /// Own-clock tick of the last reinforcement (0 when never reinforced).
    pub last_reinforced: u64,
}

/// What a metadata record holds.
pub struct MetaModel {
    pub memory_id: Seq<char>,
    pub version_id: Seq<char>,
    pub source: u8,
    pub confidence_bits: u32,
    pub importance_bits: u32,
    pub created_tick: u64,
    pub parent_ids: Seq<Seq<char>>,
    pub clock_overflow: Seq<(u8, u64)>,
    pub last_reinforced: u64,
}

impl View for MemoryMeta {
    type V = MetaModel;

    open spec fn view(&self) -> MetaModel {
        MetaModel {
            memory_id: self.memory_id@,
            version_id: self.version_id@,
            source: self.source,
            confidence_bits: self.confidence_bits,
            importance_bits: self.importance_bits,
            created_tick: self.created_tick,
            parent_ids: str_views(self.parent_ids@),
            clock_overflow: self.clock_overflow@,
            last_reinforced: self.last_reinforced,
        }
    }
}

/// The magic "MDM1".
pub open spec fn meta_magic() -> Seq<u8> {
    seq![77u8, 68u8, 77u8, 49u8]
}

/// Version written by `encode`; versions 1 and 2 are still read.
pub const META_VERSION: u8 = 3;

/// Bytes of the clock overflow entries: node, then counter little-endian.
pub open spec fn over_wire(ov: Seq<(u8, u64)>) -> Seq<u8>
    decreases ov.len(),
{
    if ov.len() == 0 {
        Seq::empty()
    } else {
        over_wire(ov.drop_last()) + seq![ov.last().0] + spec_u64_to_le_bytes(ov.last().1)
    }
}

/// Fields common to every version, after the version byte.
pub open spec fn meta_body(m: MetaModel) -> Seq<u8> {
    str16_wire(m.memory_id) + seq![m.source] + spec_u32_to_le_bytes(m.confidence_bits) + spec_u32_to_le_bytes(
        m.importance_bits,
    ) + spec_u64_to_le_bytes(m.created_tick) + spec_u16_to_le_bytes(m.parent_ids.len() as u16) + strs16_wire(
        m.parent_ids,
    ) + spec_u16_to_le_bytes(m.clock_overflow.len() as u16) + over_wire(m.clock_overflow)
}

/// Bytes of a metadata record in version `v`: version 2 adds the version id,
/// version 3 the last reinforcement tick.
pub open spec fn meta_wire_v(m: MetaModel, v: u8) -> Seq<u8> {
    meta_magic() + seq![v] + meta_body(m) + (if v >= 2 {
        str16_wire(m.version_id)
    } else {
        Seq::empty()
    }) + (if v >= 3 {
        spec_u64_to_le_bytes(m.last_reinforced)
    } else {
        Seq::empty()
    })
}

/// Bytes written by `encode` (version 3).
pub open spec fn meta_wire(m: MetaModel) -> Seq<u8> {
    meta_wire_v(m, 3)
}

/// Every length fits its 16-bit field.
pub open spec fn meta_ok(m: MetaModel) -> bool {
    &&& encode_utf8(m.memory_id).len() <= u16::MAX
    &&& encode_utf8(m.version_id).len() <= u16::MAX
    &&& m.parent_ids.len() <= u16::MAX
    &&& strs16_ok(m.parent_ids)
    &&& m.clock_overflow.len() <= u16::MAX
}

/// `d` holds the record `m` in the version its fifth byte names (1 to 3):
/// version 1 reads the version id as the memory id, versions before 3 read
/// no reinforcement.
pub open spec fn meta_holds(d: Seq<u8>, m: MetaModel) -> bool {
    &&& d.len() >= 5
    &&& 1 <= d[4] <= 3
    &&& meta_ok(m)
    &&& bytes_at(d, 0, meta_wire_v(m, d[4]))
    &&& (d[4] == 1 ==> m.version_id == m.memory_id)
    &&& (d[4] < 3 ==> m.last_reinforced == 0)
}

pub proof fn lemma_over_wire(ov: Seq<(u8, u64)>)
    ensures
        over_wire(ov).len() == 9 * ov.len(),
        forall|k: int| 0 <= k < ov.len() ==> #[trigger] over_wire(ov).subrange(9 * k, 9 * k + 9) == seq![ov[k].0]
            + spec_u64_to_le_bytes(ov[k].1),
    decreases ov.len(),
{
    lemma_le_bytes_roundtrip();
    if ov.len() > 0 {
        let w = ov.drop_last();
        lemma_over_wire(w);
        let a = over_wire(w);
        let b = seq![ov.last().0] + spec_u64_to_le_bytes(ov.last().1);
        assert(over_wire(ov) =~= a + b);
        assert forall|k: int| 0 <= k < ov.len() implies #[trigger] over_wire(ov).subrange(9 * k, 9 * k + 9)
            == seq![ov[k].0] + spec_u64_to_le_bytes(ov[k].1) by {
            if k < w.len() {
                assert((a + b).subrange(9 * k, 9 * k + 9) =~= a.subrange(9 * k, 9 * k + 9));
                assert(w[k] == ov[k]);
            } else {
                assert((a + b).subrange(9 * k, 9 * k + 9) =~= b);
            }
        }
    }
}

/// The overflow entry stored at `off`.
pub open spec fn over_entry_at(d: Seq<u8>, off: int) -> (u8, u64) {
    (d[off], spec_u64_from_le_bytes(d.subrange(off + 1, off + 9)))
}

pub proof fn lemma_over_read(d: Seq<u8>, off: int, ov: Seq<(u8, u64)>)
    requires
        bytes_at(d, off, over_wire(ov)),
    ensures
        off + 9 * ov.len() <= d.len(),
        forall|k: int| 0 <= k < ov.len() ==> #[trigger] ov[k] == over_entry_at(d, off + 9 * k),
{
    lemma_le_bytes_roundtrip();
    lemma_over_wire(ov);
    assert forall|k: int| 0 <= k < ov.len() implies #[trigger] ov[k] == over_entry_at(d, off + 9 * k) by {
        let e = seq![ov[k].0] + spec_u64_to_le_bytes(ov[k].1);
        assert(d.subrange(off + 9 * k, off + 9 * k + 9) =~= over_wire(ov).subrange(9 * k, 9 * k + 9));
        assert(d[off + 9 * k] == e[0]);
        assert(d.subrange(off + 9 * k + 1, off + 9 * k + 9) =~= e.subrange(1, 9));
        assert(e.subrange(1, 9) =~= spec_u64_to_le_bytes(ov[k].1));
    }
}

pub proof fn lemma_over_assemble(d: Seq<u8>, off: int, ov: Seq<(u8, u64)>)
    requires
        0 <= off,
        off + 9 * ov.len() <= d.len(),
        forall|k: int| 0 <= k < ov.len() ==> #[trigger] ov[k] == over_entry_at(d, off + 9 * k),
    ensures
        bytes_at(d, off, over_wire(ov)),
    decreases ov.len(),
{
    lemma_le_bytes_roundtrip();
    if ov.len() == 0 {
        assert(d.subrange(off, off) =~= over_wire(ov));
    } else {
        let w = ov.drop_last();
        assert forall|k: int| 0 <= k < w.len() implies #[trigger] w[k] == over_entry_at(d, off + 9 * k) by {
            assert(w[k] == ov[k]);
        }
        lemma_over_assemble(d, off, w);
        lemma_over_wire(w);
        let j = w.len() as int;
        let e = seq![ov.last().0] + spec_u64_to_le_bytes(ov.last().1);
        assert(ov[j] == over_entry_at(d, off + 9 * j));
        assert(d.subrange(off + 9 * j + 1, off + 9 * j + 9) == spec_u64_to_le_bytes(ov[j].1));
        assert(d.subrange(off + 9 * j, off + 9 * j + 9) =~= e);
        assert(bytes_at(d, off + over_wire(w).len(), e));
        assert(over_wire(ov) =~= over_wire(w) + e);
        lemma_bytes_at_concat(d, off, over_wire(w), e);
    }
}

/// Where the fields of a record sit when its bytes start the data.
proof fn lemma_meta_fields(d: Seq<u8>, m: MetaModel, v: u8)
    requires
        bytes_at(d, 0, meta_wire_v(m, v)),
    ensures
        ({
            let o2: int = 5 + str16_wire(m.memory_id).len() as int;
            let o3: int = o2 + 19;
            let o4: int = o3 + strs16_wire(m.parent_ids).len() as int;
            let o5: int = o4 + 2 + over_wire(m.clock_overflow).len() as int;
            let o6: int = o5 + (if v >= 2 {
                str16_wire(m.version_id).len() as int
            } else {
                0
            });
            &&& d.len() >= 5
            &&& d.subrange(0, 4) == meta_magic()
            &&& d[4] == v
            &&& bytes_at(d, 5, str16_wire(m.memory_id))
            &&& o2 + 19 <= d.len()
            &&& d[o2] == m.source
            &&& d.subrange(o2 + 1, o2 + 5) == spec_u32_to_le_bytes(m.confidence_bits)
            &&& d.subrange(o2 + 5, o2 + 9) == spec_u32_to_le_bytes(m.importance_bits)
            &&& d.subrange(o2 + 9, o2 + 17) == spec_u64_to_le_bytes(m.created_tick)
            &&& d.subrange(o2 + 17, o2 + 19) == spec_u16_to_le_bytes(m.parent_ids.len() as u16)
            &&& bytes_at(d, o3, strs16_wire(m.parent_ids))
            &&& o4 + 2 <= d.len()
            &&& d.subrange(o4, o4 + 2) == spec_u16_to_le_bytes(m.clock_overflow.len() as u16)
            &&& bytes_at(d, o4 + 2, over_wire(m.clock_overflow))
            &&& (v >= 2 ==> bytes_at(d, o5, str16_wire(m.version_id)))
            &&& (v >= 3 ==> o6 + 8 <= d.len() && d.subrange(o6, o6 + 8) == spec_u64_to_le_bytes(m.last_reinforced))
        }),
{
    lemma_le_bytes_roundtrip();
    let h = meta_magic() + seq![v];
    let a = str16_wire(m.memory_id);
    let b = seq![m.source] + spec_u32_to_le_bytes(m.confidence_bits) + spec_u32_to_le_bytes(m.importance_bits)
        + spec_u64_to_le_bytes(m.created_tick) + spec_u16_to_le_bytes(m.parent_ids.len() as u16);
    let c = strs16_wire(m.parent_ids);
    let e = spec_u16_to_le_bytes(m.clock_overflow.len() as u16);
    let f = over_wire(m.clock_overflow);
    let g = if v >= 2 {
        str16_wire(m.version_id)
    } else {
        Seq::empty()
    };
    let i = if v >= 3 {
        spec_u64_to_le_bytes(m.last_reinforced)
    } else {
        Seq::empty()
    };
    assert(meta_wire_v(m, v) =~= h + a + b + c + e + f + g + i);
    lemma_bytes_at_concat(d, 0, h + a + b + c + e + f + g, i);
    lemma_bytes_at_concat(d, 0, h + a + b + c + e + f, g);
    lemma_bytes_at_concat(d, 0, h + a + b + c + e, f);
    lemma_bytes_at_concat(d, 0, h + a + b + c, e);
    lemma_bytes_at_concat(d, 0, h + a + b, c);
    lemma_bytes_at_concat(d, 0, h + a, b);
    lemma_bytes_at_concat(d, 0, h, a);
    assert(h.len() == 5);
    assert(d.subrange(0, 4) =~= h.subrange(0, 4));
    assert(d[4] == d.subrange(0, 5)[4]);
    let o2: int = 5 + a.len() as int;
    assert(b.len() == 19);
    assert(d.subrange(o2, o2 + 19) == b);
    assert(d[o2] == b[0]);
    assert(d.subrange(o2 + 1, o2 + 5) =~= b.subrange(1, 5));
    assert(d.subrange(o2 + 5, o2 + 9) =~= b.subrange(5, 9));
    assert(d.subrange(o2 + 9, o2 + 17) =~= b.subrange(9, 17));
    assert(d.subrange(o2 + 17, o2 + 19) =~= b.subrange(17, 19));
    assert(b.subrange(1, 5) =~= spec_u32_to_le_bytes(m.confidence_bits));
    assert(b.subrange(5, 9) =~= spec_u32_to_le_bytes(m.importance_bits));
    assert(b.subrange(9, 17) =~= spec_u64_to_le_bytes(m.created_tick));
    assert(b.subrange(17, 19) =~= spec_u16_to_le_bytes(m.parent_ids.len() as u16));
}

impl MemoryMeta {
    /// MDM1 bytes (version 3); lengths are cut to 16 bits.
    pub fn encode(&self) -> (r: Vec<u8>)
        ensures
            r@ == meta_wire(self@),
    {
        let mut out: Vec<u8> = Vec::new();
        out.push(77);
        out.push(68);
        out.push(77);
        out.push(49);
        out.push(META_VERSION);
        push_str16(&mut out, self.memory_id.as_str());
        out.push(self.source);
        push_u32(&mut out, self.confidence_bits);
        push_u32(&mut out, self.importance_bits);
        push_u64(&mut out, self.created_tick);
        push_u16(&mut out, self.parent_ids.len() as u16);
        push_strs16(&mut out, &self.parent_ids);
        push_u16(&mut out, self.clock_overflow.len() as u16);
        let ghost before = out@;
        let mut i: usize = 0;
        while i < self.clock_overflow.len()
            invariant
                0 <= i <= self.clock_overflow@.len(),
                out@ == before + over_wire(self.clock_overflow@.take(i as int)),
            decreases self.clock_overflow@.len() - i,
        {
            let (n, c) = self.clock_overflow[i];
            out.push(n);
            push_u64(&mut out, c);
            proof {
                assert(self.clock_overflow@.take(i + 1).drop_last() =~= self.clock_overflow@.take(i as int));
            }
            i += 1;
            assert(out@ =~= before + over_wire(self.clock_overflow@.take(i as int)));
        }
        assert(self.clock_overflow@.take(i as int) =~= self.clock_overflow@);
        push_str16(&mut out, self.version_id.as_str());
        push_u64(&mut out, self.last_reinforced);
        assert(out@ =~= meta_wire(self@));
        out
    }
}


/// A record read field by field from the start of the data sits there as a
/// whole.
proof fn lemma_meta_assemble(d: Seq<u8>, m: MetaModel, v: u8, o2: int, o4: int, o5: int, o6: int)
    requires
        d.len() >= 5,
        d.subrange(0, 4) == meta_magic(),
        d[4] == v,
        bytes_at(d, 5, str16_wire(m.memory_id)),
        o2 == 5 + str16_wire(m.memory_id).len(),
        o2 + 19 <= d.len(),
        d[o2] == m.source,
        m.confidence_bits == spec_u32_from_le_bytes(d.subrange(o2 + 1, o2 + 5)),
        m.importance_bits == spec_u32_from_le_bytes(d.subrange(o2 + 5, o2 + 9)),
        m.created_tick == spec_u64_from_le_bytes(d.subrange(o2 + 9, o2 + 17)),
        m.parent_ids.len() == spec_u16_from_le_bytes(d.subrange(o2 + 17, o2 + 19)),
        bytes_at(d, o2 + 19, strs16_wire(m.parent_ids)),
        o4 == o2 + 19 + strs16_wire(m.parent_ids).len(),
        o4 + 2 <= d.len(),
        m.clock_overflow.len() == spec_u16_from_le_bytes(d.subrange(o4, o4 + 2)),
        bytes_at(d, o4 + 2, over_wire(m.clock_overflow)),
        o5 == o4 + 2 + over_wire(m.clock_overflow).len(),
        v >= 2 ==> bytes_at(d, o5, str16_wire(m.version_id)),
        o6 == o5 + (if v >= 2 {
            str16_wire(m.version_id).len() as int
        } else {
            0
        }),
        v >= 3 ==> o6 + 8 <= d.len() && m.last_reinforced == spec_u64_from_le_bytes(d.subrange(o6, o6 + 8)),
    ensures
        bytes_at(d, 0, meta_wire_v(m, v)),
{
    lemma_le_bytes_roundtrip();
    let h = meta_magic() + seq![v];
    let a = str16_wire(m.memory_id);
    let b = seq![m.source] + spec_u32_to_le_bytes(m.confidence_bits) + spec_u32_to_le_bytes(m.importance_bits)
        + spec_u64_to_le_bytes(m.created_tick) + spec_u16_to_le_bytes(m.parent_ids.len() as u16);
    let c = strs16_wire(m.parent_ids);
    let e = spec_u16_to_le_bytes(m.clock_overflow.len() as u16);
    let f = over_wire(m.clock_overflow);
    let g = if v >= 2 {
        str16_wire(m.version_id)
    } else {
        Seq::empty()
    };
    let i = if v >= 3 {
        spec_u64_to_le_bytes(m.last_reinforced)
    } else {
        Seq::empty()
    };
    assert(d.subrange(0, 5) =~= h) by {
        assert forall|k: int| 0 <= k < 5 implies d.subrange(0, 5)[k] == h[k] by {
            if k < 4 {
                assert(d.subrange(0, 5)[k] == d.subrange(0, 4)[k]);
            }
        }
    }
    assert(d.subrange(o2, o2 + 19) =~= b) by {
        assert(d.subrange(o2 + 1, o2 + 5) == spec_u32_to_le_bytes(m.confidence_bits));
        assert(d.subrange(o2 + 5, o2 + 9) == spec_u32_to_le_bytes(m.importance_bits));
        assert(d.subrange(o2 + 9, o2 + 17) == spec_u64_to_le_bytes(m.created_tick));
        assert(d.subrange(o2 + 17, o2 + 19) == spec_u16_to_le_bytes(m.parent_ids.len() as u16));
        assert forall|k: int| 0 <= k < 19 implies d.subrange(o2, o2 + 19)[k] == b[k] by {
            if 1 <= k < 5 {
                assert(d.subrange(o2, o2 + 19)[k] == d.subrange(o2 + 1, o2 + 5)[k - 1]);
            } else if 5 <= k < 9 {
                assert(d.subrange(o2, o2 + 19)[k] == d.subrange(o2 + 5, o2 + 9)[k - 5]);
            } else if 9 <= k < 17 {
                assert(d.subrange(o2, o2 + 19)[k] == d.subrange(o2 + 9, o2 + 17)[k - 9]);
            } else if 17 <= k {
                assert(d.subrange(o2, o2 + 19)[k] == d.subrange(o2 + 17, o2 + 19)[k - 17]);
            }
        }
    }
    assert(d.subrange(o4, o4 + 2) == e);
    if v < 2 {
        assert(d.subrange(o5, o5) =~= g);
    }
    if v >= 3 {
        assert(d.subrange(o6, o6 + 8) == i);
    } else {
        assert(d.subrange(o6, o6) =~= i);
    }
    lemma_bytes_at_concat(d, 0, h, a);
    lemma_bytes_at_concat(d, 0, h + a, b);
    lemma_bytes_at_concat(d, 0, h + a + b, c);
    lemma_bytes_at_concat(d, 0, h + a + b + c, e);
    lemma_bytes_at_concat(d, 0, h + a + b + c + e, f);
    lemma_bytes_at_concat(d, 0, h + a + b + c + e + f, g);
    lemma_bytes_at_concat(d, 0, h + a + b + c + e + f + g, i);
    assert(meta_wire_v(m, v) =~= h + a + b + c + e + f + g + i);
}

impl MemoryMeta {
    /// Decodes MDM1 bytes of version 1, 2 or 3, bounds-checked (trailing
    /// bytes are ignored): the record the bytes hold, or why there is none.
    /// Version 1 takes the memory id as the version id; versions before 3
    /// read no reinforcement (0).
    #[verifier::rlimit(100)]
    #[verifier::spinoff_prover]
    pub fn decode(data: &[u8]) -> (r: Result<Self, &'static str>)
        ensures
            data@.len() < 5 || data@.subrange(0, 4) != meta_magic() ==> r == Err::<Self, &'static str>("bad meta magic"),
            data@.len() >= 5 && data@.subrange(0, 4) == meta_magic() && !(1 <= data@[4] <= 3) ==> r == Err::<
                Self,
                &'static str,
            >("bad meta version"),
            r matches Ok(x) ==> meta_holds(data@, x@),
            forall|m: MetaModel| #[trigger] meta_holds(data@, m) ==> (r matches Ok(x) && x@ == m),
    {
        proof {
            lemma_le_bytes_roundtrip();
        }
        if data.len() < 5 || data[0] != 77 || data[1] != 68 || data[2] != 77 || data[3] != 49 {
            proof {
                if data@.len() >= 5 {
                    assert(data@.subrange(0, 4)[0] == data@[0]);
                    assert(data@.subrange(0, 4)[1] == data@[1]);
                    assert(data@.subrange(0, 4)[2] == data@[2]);
                    assert(data@.subrange(0, 4)[3] == data@[3]);
                }
                assert forall|m: MetaModel| #[trigger] meta_holds(data@, m) implies false by {
                    lemma_meta_fields(data@, m, data@[4]);
                    assert(data@.subrange(0, 4)[0] == data@[0]);
                    assert(data@.subrange(0, 4)[1] == data@[1]);
                    assert(data@.subrange(0, 4)[2] == data@[2]);
                    assert(data@.subrange(0, 4)[3] == data@[3]);
                }
            }
            return Err("bad meta magic");
        }
        proof {
            assert(data@.subrange(0, 4) =~= meta_magic());
        }
        let ver = data[4];
        if ver != 1 && ver != 2 && ver != 3 {
            return Err("bad meta version");
        }
        let ghost d = data@;
        let (memory_id, o2) = match read_str16(data, 5) {
            Ok(x) => x,
            Err(e) => {
                proof {
                    assert forall|m: MetaModel| #[trigger] meta_holds(d, m) implies false by {
                        lemma_meta_fields(d, m, ver);
                    }
                }
                return Err(match e {
                    StrFieldError::TruncLen => "trunc idlen",
                    StrFieldError::Utf8 => "utf8 id",
                    _ => "trunc id",
                });
            },
        };
        proof {
            assert forall|m: MetaModel| #[trigger] meta_holds(d, m) implies m.memory_id == memory_id@ by {
                lemma_meta_fields(d, m, ver);
            }
        }
        if o2 >= data.len() {
            proof {
                assert forall|m: MetaModel| #[trigger] meta_holds(d, m) implies false by {
                    lemma_meta_fields(d, m, ver);
                }
            }
            return Err("trunc source");
        }
        let source = data[o2];
        let confidence_bits = match rd_u32(data, o2 + 1) {
            Some(x) => x,
            None => {
                proof {
                    assert forall|m: MetaModel| #[trigger] meta_holds(d, m) implies false by {
                        lemma_meta_fields(d, m, ver);
                    }
                }
                return Err("trunc confidence");
            },
        };
        let importance_bits = match rd_u32(data, o2 + 5) {
            Some(x) => x,
            None => {
                proof {
                    assert forall|m: MetaModel| #[trigger] meta_holds(d, m) implies false by {
                        lemma_meta_fields(d, m, ver);
                    }
                }
                return Err("trunc importance");
            },
        };
        let created_tick = match rd_u64(data, o2 + 9) {
            Some(x) => x,
            None => {
                proof {
                    assert forall|m: MetaModel| #[trigger] meta_holds(d, m) implies false by {
                        lemma_meta_fields(d, m, ver);
                    }
                }
                return Err("trunc created");
            },
        };
        let nparents = match rd_u16(data, o2 + 17) {
            Some(x) => x as usize,
            None => {
                proof {
                    assert forall|m: MetaModel| #[trigger] meta_holds(d, m) implies false by {
                        lemma_meta_fields(d, m, ver);
                    }
                }
                return Err("trunc nparents");
            },
        };
        proof {
            assert forall|m: MetaModel| #[trigger] meta_holds(d, m) implies m.source == source && m.confidence_bits
                == confidence_bits && m.importance_bits == importance_bits && m.created_tick == created_tick
                && m.parent_ids.len() == nparents by {
                lemma_meta_fields(d, m, ver);
            }
        }
        let o3 = o2 + 19;
        let (parent_ids, o4) = match read_strs16(data, o3, nparents) {
            Ok(x) => x,
            Err(e) => {
                proof {
                    assert forall|m: MetaModel| #[trigger] meta_holds(d, m) implies false by {
                        lemma_meta_fields(d, m, ver);
                    }
                }
                return Err(match e {
                    StrFieldError::TruncLen => "trunc plen",
                    StrFieldError::Utf8 => "utf8 p",
                    _ => "trunc parent",
                });
            },
        };
        proof {
            assert forall|m: MetaModel| #[trigger] meta_holds(d, m) implies m.parent_ids == str_views(parent_ids@) by {
                lemma_meta_fields(d, m, ver);
            }
        }
        let nover = match rd_u16(data, o4) {
            Some(x) => x as usize,
            None => {
                proof {
                    assert forall|m: MetaModel| #[trigger] meta_holds(d, m) implies false by {
                        lemma_meta_fields(d, m, ver);
                    }
                }
                return Err("trunc nover");
            },
        };
        proof {
            assert forall|m: MetaModel| #[trigger] meta_holds(d, m) implies m.clock_overflow.len() == nover by {
                lemma_meta_fields(d, m, ver);
            }
        }
        let os = o4 + 2;
        let dlen = data.len();
        let mut clock_overflow: Vec<(u8, u64)> = Vec::new();
        let mut o = os;
        let mut i: usize = 0;
        while i < nover
            invariant
                dlen == data@.len(),
                d == data@,
                d.len() >= 5,
                d.subrange(0, 4) == meta_magic(),
                os == o4 + 2,
                1 <= ver <= 3,
                d[4] == ver,
                os <= dlen,
                0 <= i <= nover,
                o == os + 9 * i,
                o <= dlen,
                clock_overflow@.len() == i,
                forall|k: int| 0 <= k < i ==> #[trigger] clock_overflow@[k] == over_entry_at(d, os + 9 * k),
                forall|m: MetaModel| #[trigger] meta_holds(d, m) ==> m.clock_overflow.len() == nover
                    && 5 + str16_wire(m.memory_id).len() == o2 && o4 == o2 + 19 + strs16_wire(m.parent_ids).len(),
            decreases nover - i,
        {
            if o >= dlen {
                proof {
                    assert forall|m: MetaModel| #[trigger] meta_holds(d, m) implies false by {
                        lemma_meta_fields(d, m, ver);
                        lemma_over_read(d, os as int, m.clock_overflow);
                    }
                }
                return Err("trunc over node");
            }
            let n = data[o];
            let c = match rd_u64(data, o + 1) {
                Some(x) => x,
                None => {
                    proof {
                        assert forall|m: MetaModel| #[trigger] meta_holds(d, m) implies false by {
                            lemma_meta_fields(d, m, ver);
                            lemma_over_read(d, os as int, m.clock_overflow);
                        }
                    }
                    return Err("trunc over count");
                },
            };
            clock_overflow.push((n, c));
            o = o + 9;
            i += 1;
        }
        proof {
            assert forall|m: MetaModel| #[trigger] meta_holds(d, m) implies m.clock_overflow == clock_overflow@ by {
                lemma_meta_fields(d, m, ver);
                lemma_over_read(d, os as int, m.clock_overflow);
                assert(m.clock_overflow =~= clock_overflow@);
            }
            lemma_over_assemble(d, os as int, clock_overflow@);
            lemma_over_wire(clock_overflow@);
        }
        let o5 = o;
        let (version_id, o6) = if ver >= 2 {
            match read_str16(data, o5) {
                Ok(x) => x,
                Err(e) => {
                    proof {
                        assert forall|m: MetaModel| #[trigger] meta_holds(d, m) implies false by {
                            lemma_meta_fields(d, m, ver);
                            lemma_over_wire(m.clock_overflow);
                        }
                    }
                    return Err(match e {
                        StrFieldError::TruncLen => "trunc vidlen",
                        StrFieldError::Utf8 => "utf8 vid",
                        _ => "trunc vid",
                    });
                },
            }
        } else {
            (memory_id.clone(), o5)
        };
        proof {
            assert forall|m: MetaModel| #[trigger] meta_holds(d, m) implies m.version_id == version_id@ by {
                lemma_meta_fields(d, m, ver);
                lemma_over_wire(m.clock_overflow);
            }
        }
        let last_reinforced = if ver >= 3 {
            match rd_u64(data, o6) {
                Some(x) => x,
                None => {
                    proof {
                        assert forall|m: MetaModel| #[trigger] meta_holds(d, m) implies false by {
                            lemma_meta_fields(d, m, ver);
                            lemma_over_wire(m.clock_overflow);
                        }
                    }
                    return Err("trunc last_reinforced");
                },
            }
        } else {
            0
        };
        let x = MemoryMeta {
            memory_id,
            version_id,
            source,
            confidence_bits,
            importance_bits,
            created_tick,
            parent_ids,
            clock_overflow,
            last_reinforced,
        };
        proof {
            lemma_meta_assemble(d, x@, ver, o2 as int, o4 as int, o5 as int, o6 as int);
            assert forall|m: MetaModel| #[trigger] meta_holds(d, m) implies m == x@ by {
                lemma_meta_fields(d, m, ver);
                lemma_over_wire(m.clock_overflow);
            }
        }
        Ok(x)
    }
}

/// Law: the bytes `encode` writes hold the record, so `decode` gives it
/// back exactly.
pub proof fn law_meta_roundtrip(m: MetaModel)
    requires
        meta_ok(m),
    ensures
        meta_holds(meta_wire(m), m),
{
    let d = meta_wire(m);
    assert(d.subrange(0, d.len() as int) =~= d);
    assert(d[4] == 3u8);
}


// ---------------------------------------------------------------------------
// Lineage: what a write leaves in a slot's metadata
// ---------------------------------------------------------------------------

/// IEEE-754 bits of the confidence 1.0 given to a fresh record.
pub const FULL_CONFIDENCE_BITS: u32 = 0x3F80_0000;

/// Metadata of an optional record.
pub open spec fn opt_meta(o: Option<MemoryMeta>) -> Option<MetaModel> {
    match o {
        Some(m) => Some(m@),
        None => None,
    }
}

/// `ps` with each of `extra` appended, in order, unless already present.
pub open spec fn with_parents(ps: Seq<Seq<char>>, extra: Seq<Seq<char>>) -> Seq<Seq<char>>
    decreases extra.len(),
{
    if extra.len() == 0 {
        ps
    } else {
        let q = with_parents(ps, extra.drop_last());
        if q.contains(extra.last()) {
            q
        } else {
            q.push(extra.last())
        }
    }
}

/// The last `max` entries of `ps` (all of them when there are no more).
pub open spec fn keep_last(ps: Seq<Seq<char>>, max: nat) -> Seq<Seq<char>> {
    if ps.len() > max {
        ps.subrange(ps.len() - max, ps.len() as int)
    } else {
        ps
    }
}

/// A local write moves the record to version `vid`: when it is a new
/// version, the previous version id joins the parents (once), and the
/// parents are cut to the `max` most recent.
pub open spec fn bumped(e: MetaModel, vid: Seq<char>, max: nat) -> MetaModel {
    if vid == e.version_id {
        e
    } else {
        MetaModel {
            version_id: vid,
            parent_ids: if e.parent_ids.contains(e.version_id) {
                e.parent_ids
            } else {
                keep_last(e.parent_ids.push(e.version_id), max)
            },
            ..e
        }
    }
}

/// The written document's metadata brings its confidence and importance,
/// and its parents are added to the record's.
pub open spec fn adopted(m: MetaModel, d: MetaModel) -> MetaModel {
    MetaModel {
        confidence_bits: d.confidence_bits,
        importance_bits: d.importance_bits,
        parent_ids: with_parents(m.parent_ids, d.parent_ids),
        ..m
    }
}

/// First record of a slot created here: the generated id is both the
/// memory id and the version id.
pub open spec fn fresh_meta(node_id: u8, tick: u64, layer: MemoryLayer, key: Seq<char>) -> MetaModel {
    MetaModel {
        memory_id: memory_id_text(node_id, tick, layer, key),
        version_id: memory_id_text(node_id, tick, layer, key),
        source: node_id,
        confidence_bits: FULL_CONFIDENCE_BITS,
        importance_bits: layer_importance_bits(layer),
        created_tick: tick,
        parent_ids: Seq::empty(),
        clock_overflow: Seq::empty(),
        last_reinforced: 0,
    }
}

/// The metadata a write leaves in a slot, from the stored record and the
/// one the written document carries:
/// - stored, local write (`bump`): moved to the version generated from the
///   node, tick, layer and key, then the document's scores and parents;
/// - stored, no bump: the local identity stays, with the document's scores
///   and parents when it brings metadata;
/// - nothing stored: the document's metadata (a replica keeps its sender's
///   identity), else a fresh record.
/// In every case the clock's overflow entries are the document's.
pub open spec fn next_meta_model(
    existing: Option<MetaModel>,
    incoming: Option<MetaModel>,
    bump: bool,
    node_id: u8,
    tick: u64,
    layer: MemoryLayer,
    key: Seq<char>,
    overflow: Seq<(u8, u64)>,
    max_parents: nat,
) -> MetaModel {
    let base = match existing {
        Some(e) => {
            let b = if bump {
                bumped(e, memory_id_text(node_id, tick, layer, key), max_parents)
            } else {
                e
            };
            match incoming {
                Some(d) => adopted(b, d),
                None => b,
            }
        },
        None => match incoming {
            Some(d) => d,
            None => fresh_meta(node_id, tick, layer, key),
        },
    };
    MetaModel { clock_overflow: overflow, ..base }
}

/// Whether `s` is one of `v`.
fn contains_text(v: &Vec<String>, s: &str) -> (r: bool)
    ensures
        r == str_views(v@).contains(s@),
{
    let mut i: usize = 0;
    while i < v.len()
        invariant
            0 <= i <= v@.len(),
            forall|j: int| 0 <= j < i ==> v@[j]@ != s@,
        decreases v@.len() - i,
    {
        if same_text(v[i].as_str(), s) {
            proof {
                assert(str_views(v@)[i as int] == s@);
            }
            return true;
        }
        i += 1;
    }
    proof {
        if str_views(v@).contains(s@) {
            let j = choose|j: int| 0 <= j < str_views(v@).len() && str_views(v@)[j] == s@;
            assert(v@[j]@ == s@);
        }
    }
    false
}

/// The last `max` entries of `v`.
fn keep_last_of(v: Vec<String>, max: usize) -> (r: Vec<String>)
    ensures
        str_views(r@) == keep_last(str_views(v@), max as nat),
{
    if v.len() <= max {
        return v;
    }
    let start = v.len() - max;
    let mut out: Vec<String> = Vec::new();
    let mut i: usize = start;
    while i < v.len()
        invariant
            start <= i <= v@.len(),
            start == v@.len() - max,
            str_views(out@) == str_views(v@).subrange(start as int, i as int),
        decreases v@.len() - i,
    {
        let t = v[i].clone();
        assert(t@ == v@[i as int]@);
        let ghost before = out@;
        out.push(t);
        proof {
            assert(out@ == before.push(t));
            assert(str_views(out@) =~= str_views(before).push(t@));
            assert(str_views(v@).subrange(start as int, i + 1) =~= str_views(v@).subrange(start as int, i as int).push(
                str_views(v@)[i as int],
            ));
        }
        i += 1;
    }
    out
}

/// `ps` with each of `extra` appended unless already present.
fn merge_parents(ps: Vec<String>, extra: &Vec<String>) -> (r: Vec<String>)
    ensures
        str_views(r@) == with_parents(str_views(ps@), str_views(extra@)),
{
    let mut out = ps;
    let mut i: usize = 0;
    while i < extra.len()
        invariant
            0 <= i <= extra@.len(),
            str_views(out@) == with_parents(str_views(ps@), str_views(extra@).take(i as int)),
        decreases extra@.len() - i,
    {
        proof {
            let e = str_views(extra@).take(i + 1);
            assert(e.drop_last() =~= str_views(extra@).take(i as int));
            assert(e.last() == extra@[i as int]@);
        }
        if !contains_text(&out, extra[i].as_str()) {
            let t = extra[i].clone();
            out.push(t);
            proof {
                assert(str_views(out@) =~= with_parents(str_views(ps@), str_views(extra@).take(i as int)).push(
                    extra@[i as int]@,
                ));
            }
        }
        i += 1;
    }
    proof {
        assert(str_views(extra@).take(extra@.len() as int) =~= str_views(extra@));
    }
    out
}

/// The metadata a write leaves in a slot (see `next_meta_model`): the
/// stored record `existing`, the written document's record `incoming`,
/// whether the write is a local one that moves the version, the writing
/// node, its clock tick, the slot's layer and key, the document clock's
/// overflow entries, and how many parents are kept at most.
pub fn next_meta(
    existing: Option<MemoryMeta>,
    incoming: Option<MemoryMeta>,
    bump_version: bool,
    node_id: u8,
    tick: u64,
    layer: MemoryLayer,
    key: &str,
    clock_overflow: Vec<(u8, u64)>,
    max_parents: usize,
) -> (r: MemoryMeta)
    ensures
        r@ == next_meta_model(
            opt_meta(existing),
            opt_meta(incoming),
            bump_version,
            node_id,
            tick,
            layer,
            key@,
            clock_overflow@,
            max_parents as nat,
        ),
        existing is Some && incoming is Some ==> r.confidence_bits == incoming->0.confidence_bits
            && r.importance_bits == incoming->0.importance_bits && r.memory_id@ == existing->0.memory_id@,
        existing is Some && incoming is None && !bump_version ==> r.version_id@ == existing->0.version_id@
            && r.confidence_bits == existing->0.confidence_bits && r.importance_bits == existing->0.importance_bits,
{
    proof {
        if existing is Some && incoming is Some {
            law_write_adopts_document_scores(existing->0@, incoming->0@, bump_version, node_id, tick, layer, key@,
                clock_overflow@, max_parents as nat);
        }
    }
    let ghost ex = opt_meta(existing);
    let ghost inc = opt_meta(incoming);
    let mut m = match existing {
        Some(e) => {
            let mut mm = e;
            if bump_version {
                let new_vid = generate_memory_id(node_id, tick, layer, key);
                if !same_text(new_vid.as_str(), mm.version_id.as_str()) {
                    if !contains_text(&mm.parent_ids, mm.version_id.as_str()) {
                        let v = mm.version_id.clone();
                        let mut ps = mm.parent_ids;
                        ps.push(v);
                        proof {
                            assert(str_views(ps@) =~= ex->0.parent_ids.push(ex->0.version_id));
                        }
                        mm.parent_ids = keep_last_of(ps, max_parents);
                    }
                    mm.version_id = new_vid;
                }
            }
            assert(mm@ == (if bump_version {
                bumped(ex->0, memory_id_text(node_id, tick, layer, key@), max_parents as nat)
            } else {
                ex->0
            }));
            match incoming {
                Some(d) => {
                    mm.confidence_bits = d.confidence_bits;
                    mm.importance_bits = d.importance_bits;
                    mm.parent_ids = merge_parents(mm.parent_ids, &d.parent_ids);
                },
                None => {},
            }
            mm
        },
        None => match incoming {
            Some(d) => d,
            None => {
                let mid = generate_memory_id(node_id, tick, layer, key);
                let vid = mid.clone();
                let ps: Vec<String> = Vec::new();
                proof {
                    assert(str_views(ps@) =~= Seq::<Seq<char>>::empty());
                }
                MemoryMeta {
                    memory_id: mid,
                    version_id: vid,
                    source: node_id,
                    confidence_bits: FULL_CONFIDENCE_BITS,
                    importance_bits: layer.default_importance_bits(),
                    created_tick: tick,
                    parent_ids: ps,
                    clock_overflow: Vec::new(),
                    last_reinforced: 0,
                }
            },
        },
    };
    m.clock_overflow = clock_overflow;
    m
}


/// Law: a local write that moves a stored record to a new version keeps
/// its identity and records the previous version among its parents (when
/// at least one parent is kept), whatever the document brings.
pub proof fn law_write_records_previous_version(
    e: MetaModel,
    incoming: Option<MetaModel>,
    node_id: u8,
    tick: u64,
    layer: MemoryLayer,
    key: Seq<char>,
    overflow: Seq<(u8, u64)>,
    max_parents: nat,
)
    requires
        memory_id_text(node_id, tick, layer, key) != e.version_id,
        max_parents >= 1,
    ensures
        ({
            let r = next_meta_model(Some(e), incoming, true, node_id, tick, layer, key, overflow, max_parents);
            &&& r.memory_id == e.memory_id
            &&& r.source == e.source
            &&& r.created_tick == e.created_tick
            &&& r.version_id == memory_id_text(node_id, tick, layer, key)
            &&& r.parent_ids.contains(e.version_id)
        }),
{
    let vid = memory_id_text(node_id, tick, layer, key);
    let b = bumped(e, vid, max_parents);
    if !e.parent_ids.contains(e.version_id) {
        let ps = e.parent_ids.push(e.version_id);
        let k = keep_last(ps, max_parents);
        assert(k[k.len() - 1] == e.version_id);
        assert(k.contains(e.version_id));
    }
    assert(b.parent_ids.contains(e.version_id));
    if let Some(d) = incoming {
        lemma_with_parents_keeps(b.parent_ids, d.parent_ids, e.version_id);
    }
}

/// Adding parents keeps every parent already there.
pub proof fn lemma_with_parents_keeps(ps: Seq<Seq<char>>, extra: Seq<Seq<char>>, x: Seq<char>)
    requires
        ps.contains(x),
    ensures
        with_parents(ps, extra).contains(x),
    decreases extra.len(),
{
    if extra.len() > 0 {
        lemma_with_parents_keeps(ps, extra.drop_last(), x);
        let q = with_parents(ps, extra.drop_last());
        if !q.contains(extra.last()) {
            let j = choose|j: int| 0 <= j < q.len() && q[j] == x;
            assert(q.push(extra.last())[j] == x);
        }
    }
}


/// Law: over a stored record, a write keeps the slot's identity (memory id,
/// source, creation tick) and, when the written document carries metadata,
/// takes the document's confidence and importance and keeps every one of
/// its parents, whether or not the write moves the version.
pub proof fn law_write_adopts_document_scores(
    e: MetaModel,
    d: MetaModel,
    bump: bool,
    node_id: u8,
    tick: u64,
    layer: MemoryLayer,
    key: Seq<char>,
    overflow: Seq<(u8, u64)>,
    max_parents: nat,
)
    ensures
        ({
            let r = next_meta_model(Some(e), Some(d), bump, node_id, tick, layer, key, overflow, max_parents);
            &&& r.memory_id == e.memory_id
            &&& r.source == e.source
            &&& r.created_tick == e.created_tick
            &&& r.confidence_bits == d.confidence_bits
            &&& r.importance_bits == d.importance_bits
            &&& forall|i: int| 0 <= i < d.parent_ids.len() ==> r.parent_ids.contains(#[trigger] d.parent_ids[i])
            &&& r.clock_overflow == overflow
        }),
{
    let b = if bump {
        bumped(e, memory_id_text(node_id, tick, layer, key), max_parents)
    } else {
        e
    };
    assert forall|i: int| 0 <= i < d.parent_ids.len() implies with_parents(b.parent_ids, d.parent_ids).contains(
        #[trigger] d.parent_ids[i],
    ) by {
        lemma_with_parents_has_extra(b.parent_ids, d.parent_ids, i);
    }
}

/// Every added parent is among the result.
proof fn lemma_with_parents_has_extra(ps: Seq<Seq<char>>, extra: Seq<Seq<char>>, i: int)
    requires
        0 <= i < extra.len(),
    ensures
        with_parents(ps, extra).contains(extra[i]),
    decreases extra.len(),
{
    let q = with_parents(ps, extra.drop_last());
    if i == extra.len() - 1 {
        if !q.contains(extra.last()) {
            assert(q.push(extra.last())[q.len() as int] == extra.last());
        }
    } else {
        lemma_with_parents_has_extra(ps, extra.drop_last(), i);
        assert(extra.drop_last()[i] == extra[i]);
        if !q.contains(extra.last()) {
            let j = choose|j: int| 0 <= j < q.len() && q[j] == extra[i];
            assert(q.push(extra.last())[j] == extra[i]);
        }
    }
}


/// Law: what a write leaves when nothing was stored for the slot: the
/// metadata a replicated document carries (its sender's identity), or else
/// a fresh record whose memory id and version id are both the id generated
/// from the writing node, tick, layer and key, created by that node at that
/// tick with full confidence, the layer's default importance and no
/// parents. A write without metadata and without a version move leaves the
/// stored record as it was (but for the clock overflow).
pub proof fn law_write_without_stored_record(
    d: Option<MetaModel>,
    e: MetaModel,
    bump: bool,
    node_id: u8,
    tick: u64,
    layer: MemoryLayer,
    key: Seq<char>,
    overflow: Seq<(u8, u64)>,
    max_parents: nat,
)
    ensures
        ({
            let r = next_meta_model(None, d, bump, node_id, tick, layer, key, overflow, max_parents);
            &&& d matches Some(dd) ==> r == (MetaModel { clock_overflow: overflow, ..dd })
            &&& d is None ==> {
                &&& r.memory_id == memory_id_text(node_id, tick, layer, key)
                &&& r.version_id == r.memory_id
                &&& r.source == node_id
                &&& r.created_tick == tick
                &&& r.confidence_bits == 0x3F80_0000u32
                &&& r.importance_bits == layer_importance_bits(layer)
                &&& r.parent_ids.len() == 0
                &&& r.last_reinforced == 0
                &&& r.clock_overflow == overflow
            }
        }),
        next_meta_model(Some(e), None, false, node_id, tick, layer, key, overflow, max_parents) == (MetaModel {
            clock_overflow: overflow,
            ..e
        }),
{
}

} // verus!
