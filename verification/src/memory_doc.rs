//! Memory documents: cognitive layers, logical states, dynamic vector clocks,
//! relation kinds, deterministic memory ids and the zero-copy NMD1 view.
use vstd::prelude::*;
use vstd::bytes::*;
use vstd::string::StringSliceAdditionalSpecFns;
use vstd::slice::*;
use vstd::utf8::{decode_utf8, encode_utf8, valid_utf8};
use crate::fingerprint::{fnv, fp_mix, FP_SEED};
use crate::text::{bytes_hex, hex_bytes, same_text, utf8_str};
use crate::wire::{lemma_le_bytes_roundtrip, rd_u32};
use crate::wire::push_u64;
pub use crate::clock::VectorClock;
pub use crate::doc::{MemoryDoc, MemoryRecord};
pub use crate::meta::MemoryMeta;

verus! {

/// Cognitive memory layers L0..L7.
#[derive(Clone, Copy, Debug, PartialEq, Eq, Structural)]
pub enum MemoryLayer {
    L0Sensory,
    L1Working,
    L2EpisodicShort,
    L3EpisodicLong,
    L4Semantic,
    L5Procedural,
    L6Reserved,
    L7Identity,
}

/// Wire number of a layer.
pub open spec fn layer_code(l: MemoryLayer) -> u8 {
    match l {
        MemoryLayer::L0Sensory => 0,
        MemoryLayer::L1Working => 1,
        MemoryLayer::L2EpisodicShort => 2,
        MemoryLayer::L3EpisodicLong => 3,
        MemoryLayer::L4Semantic => 4,
        MemoryLayer::L5Procedural => 5,
        MemoryLayer::L6Reserved => 6,
        MemoryLayer::L7Identity => 7,
    }
}

/// Layer of a wire number, `None` above 7.
pub open spec fn layer_of_code(v: u8) -> Option<MemoryLayer> {
    if v == 0 {
        Some(MemoryLayer::L0Sensory)
    } else if v == 1 {
        Some(MemoryLayer::L1Working)
    } else if v == 2 {
        Some(MemoryLayer::L2EpisodicShort)
    } else if v == 3 {
        Some(MemoryLayer::L3EpisodicLong)
    } else if v == 4 {
        Some(MemoryLayer::L4Semantic)
    } else if v == 5 {
        Some(MemoryLayer::L5Procedural)
    } else if v == 6 {
        Some(MemoryLayer::L6Reserved)
    } else if v == 7 {
        Some(MemoryLayer::L7Identity)
    } else {
        None
    }
}

/// Short name of a layer ("L0".."L7").
pub open spec fn layer_name(l: MemoryLayer) -> Seq<char> {
    seq!['L', (('0' as u8) + layer_code(l)) as char]
}

/// Default importance of a layer's memories, as the IEEE-754 bits of an
/// `f32` in `[0, 1]`: 1.0 for semantic and identity, 0.8 procedural, 0.5
/// reserved, 0.4 long episodic, 0.2 short episodic, 0.0 sensory and working.
pub open spec fn layer_importance_bits(l: MemoryLayer) -> u32 {
    match l {
        MemoryLayer::L4Semantic | MemoryLayer::L7Identity => 0x3F80_0000u32,
        MemoryLayer::L5Procedural => 0x3F4C_CCCDu32,
        MemoryLayer::L3EpisodicLong => 0x3ECC_CCCDu32,
        MemoryLayer::L2EpisodicShort => 0x3E4C_CCCDu32,
        MemoryLayer::L0Sensory | MemoryLayer::L1Working => 0u32,
        MemoryLayer::L6Reserved => 0x3F00_0000u32,
    }
}

impl MemoryLayer {
    /// Default importance of the layer, as the bits of an `f32`.
    pub fn default_importance_bits(&self) -> (r: u32)
        ensures
            r == layer_importance_bits(*self),
    {
        match self {
            MemoryLayer::L4Semantic | MemoryLayer::L7Identity => 0x3F80_0000u32,
            MemoryLayer::L5Procedural => 0x3F4C_CCCDu32,
            MemoryLayer::L3EpisodicLong => 0x3ECC_CCCDu32,
            MemoryLayer::L2EpisodicShort => 0x3E4C_CCCDu32,
            MemoryLayer::L0Sensory | MemoryLayer::L1Working => 0u32,
            MemoryLayer::L6Reserved => 0x3F00_0000u32,
        }
    }

    /// Single validation point for a layer read from external bytes.
    pub fn from_u8(v: u8) -> (r: Option<Self>)
        ensures
            r == layer_of_code(v),
    {
        match v {
            0 => Some(Self::L0Sensory),
            1 => Some(Self::L1Working),
            2 => Some(Self::L2EpisodicShort),
            3 => Some(Self::L3EpisodicLong),
            4 => Some(Self::L4Semantic),
            5 => Some(Self::L5Procedural),
            6 => Some(Self::L6Reserved),
            7 => Some(Self::L7Identity),
            _ => None,
        }
    }

    /// Wire number of the layer.
    pub fn to_u8(self) -> (r: u8)
        ensures
            r == layer_code(self),
            layer_of_code(r) == Some(self),
    {
        match self {
            Self::L0Sensory => 0,
            Self::L1Working => 1,
            Self::L2EpisodicShort => 2,
            Self::L3EpisodicLong => 3,
            Self::L4Semantic => 4,
            Self::L5Procedural => 5,
            Self::L6Reserved => 6,
            Self::L7Identity => 7,
        }
    }

    /// Short name ("L0".."L7").
    pub fn as_str(self) -> (r: &'static str)
        ensures
            r@ == layer_name(self),
    {
        match self {
            Self::L0Sensory => {
                proof {
                    reveal_strlit("L0");
                }
                "L0"
            },
            Self::L1Working => {
                proof {
                    reveal_strlit("L1");
                }
                "L1"
            },
            Self::L2EpisodicShort => {
                proof {
                    reveal_strlit("L2");
                }
                "L2"
            },
            Self::L3EpisodicLong => {
                proof {
                    reveal_strlit("L3");
                }
                "L3"
            },
            Self::L4Semantic => {
                proof {
                    reveal_strlit("L4");
                }
                "L4"
            },
            Self::L5Procedural => {
                proof {
                    reveal_strlit("L5");
                }
                "L5"
            },
            Self::L6Reserved => {
                proof {
                    reveal_strlit("L6");
                }
                "L6"
            },
            Self::L7Identity => {
                proof {
                    reveal_strlit("L7");
                }
                "L7"
            },
        }
    }
}

/// Logical state of a memory (physical deletion is a different thing).
#[derive(Clone, Copy, Debug, Default, PartialEq, Eq, Structural)]
pub enum MemoryState {
    #[default]
    Active,
    Superseded,
    Archived,
    Invalidated,
    Decayed,
}

/// Wire number of a state.
pub open spec fn state_code(s: MemoryState) -> u8 {
    match s {
        MemoryState::Active => 0,
        MemoryState::Superseded => 1,
        MemoryState::Archived => 2,
        MemoryState::Invalidated => 3,
        MemoryState::Decayed => 4,
    }
}

/// State of a wire number, `None` above 4.
pub open spec fn state_of_code(v: u8) -> Option<MemoryState> {
    if v == 0 {
        Some(MemoryState::Active)
    } else if v == 1 {
        Some(MemoryState::Superseded)
    } else if v == 2 {
        Some(MemoryState::Archived)
    } else if v == 3 {
        Some(MemoryState::Invalidated)
    } else if v == 4 {
        Some(MemoryState::Decayed)
    } else {
        None
    }
}

impl MemoryState {
    pub fn from_u8(v: u8) -> (r: Option<Self>)
        ensures
            r == state_of_code(v),
    {
        match v {
            0 => Some(Self::Active),
            1 => Some(Self::Superseded),
            2 => Some(Self::Archived),
            3 => Some(Self::Invalidated),
            4 => Some(Self::Decayed),
            _ => None,
        }
    }

    /// Wire number of the state.
    pub fn to_u8(self) -> (r: u8)
        ensures
            r == state_code(self),
            state_of_code(r) == Some(self),
    {
        match self {
            Self::Active => 0,
            Self::Superseded => 1,
            Self::Archived => 2,
            Self::Invalidated => 3,
            Self::Decayed => 4,
        }
    }
}

/// One link of a memory's causal lineage: a version and its parents,
/// resolved back to the storage key.
#[derive(Clone, Debug, PartialEq)]
pub struct LineageEntry {
    pub version_id: String,
    pub memory_id: String,
    pub storage_key: String,
    pub source: u8,
    pub created_tick: u64,
    pub parent_ids: Vec<String>,
}

/// Seed of the second lane of a memory id.
pub const MEMORY_ID_LANE_SEED: u64 = 0x9e37_79b9_7f4a_7c15;

/// The bytes a memory id hashes: creator node, creation tick (little-endian),
/// layer number, key bytes.
pub open spec fn memory_id_input(node_id: u8, created_tick: u64, layer: MemoryLayer, key: Seq<char>) -> Seq<u8> {
    seq![node_id] + spec_u64_to_le_bytes(created_tick) + seq![layer_code(layer)] + encode_utf8(key)
}

/// A memory id: two FNV-1a 64 lanes over the same input (the second seeded
/// with the offset basis xor `MEMORY_ID_LANE_SEED`), each lane's
/// little-endian bytes as lower-case hex, 32 digits in all.
pub open spec fn memory_id_text(node_id: u8, created_tick: u64, layer: MemoryLayer, key: Seq<char>) -> Seq<char> {
    let bs = memory_id_input(node_id, created_tick, layer, key);
    bytes_hex(spec_u64_to_le_bytes(fnv(FP_SEED, bs)) + spec_u64_to_le_bytes(fnv(FP_SEED ^ MEMORY_ID_LANE_SEED, bs)))
}

/// A lower-case hex digit: `0`-`9` or `a`-`f`.
pub open spec fn is_hex_digit(c: char) -> bool {
    ('0' <= c && c <= '9') || ('a' <= c && c <= 'f')
}

/// The hex text of bytes has two lower-case hex digits per byte.
proof fn lemma_bytes_hex_shape(bs: Seq<u8>)
    ensures
        bytes_hex(bs).len() == 2 * bs.len(),
        forall|i: int| 0 <= i < bytes_hex(bs).len() ==> is_hex_digit(#[trigger] bytes_hex(bs)[i]),
    decreases bs.len(),
{
    if bs.len() > 0 {
        lemma_bytes_hex_shape(bs.drop_last());
        let b = bs.last();
        let hi = (b >> 4u8) as u64;
        let lo = (b & 15u8) as u64;
        assert(hi < 16) by (bit_vector)
            requires
                hi == (b >> 4u8) as u64;
        assert(lo < 16) by (bit_vector)
            requires
                lo == (b & 15u8) as u64;
        let p = bytes_hex(bs.drop_last());
        let t = p + seq![crate::text::hex_char(hi), crate::text::hex_char(lo)];
        assert forall|i: int| 0 <= i < t.len() implies is_hex_digit(#[trigger] t[i]) by {
            if i < p.len() {
                assert(t[i] == p[i]);
            }
        }
    }
}

/// Law: a memory id is 32 lower-case hex digits, and the same creating
/// event (node, tick, layer, key) always gives the same id.
pub proof fn law_memory_id_shape(node_id: u8, created_tick: u64, layer: MemoryLayer, key: Seq<char>)
    ensures
        memory_id_text(node_id, created_tick, layer, key).len() == 32,
        forall|i: int| 0 <= i < 32 ==> is_hex_digit(#[trigger] memory_id_text(node_id, created_tick, layer, key)[i]),
{
    let bs = memory_id_input(node_id, created_tick, layer, key);
    let h = spec_u64_to_le_bytes(fnv(FP_SEED, bs)) + spec_u64_to_le_bytes(fnv(FP_SEED ^ MEMORY_ID_LANE_SEED, bs));
    lemma_le_bytes_roundtrip();
    assert(h.len() == 16);
    lemma_bytes_hex_shape(h);
}

/// Deterministic id of a memory, from the event that created it.
pub fn generate_memory_id(node_id: u8, created_tick: u64, layer: MemoryLayer, key: &str) -> (r: String)
    ensures
        r@ == memory_id_text(node_id, created_tick, layer, key@),
{
    let mut input: Vec<u8> = Vec::new();
    input.push(node_id);
    push_u64(&mut input, created_tick);
    input.push(layer.to_u8());
    let kb = key.as_bytes();
    input.extend_from_slice(kb);
    proof {
        assert(input@ =~= memory_id_input(node_id, created_tick, layer, key@));
    }
    let h0 = fp_mix(FP_SEED, input.as_slice());
    let h1 = fp_mix(FP_SEED ^ MEMORY_ID_LANE_SEED, input.as_slice());
    let mut out = u64_to_le_bytes(h0);
    let mut hi = u64_to_le_bytes(h1);
    out.append(&mut hi);
    hex_bytes(out.as_slice())
}

/// Kind of an associative relation between two memories.
#[derive(Clone, Copy, Debug, PartialEq, Eq, Hash, Structural)]
pub enum RelationKind {
    /// Related or weakly similar; symmetric in recall.
    RelatedTo,
    /// A causes B.
    Causes,
    /// A is evidence for B.
    Supports,
    /// A explicitly contradicts B.
    Contradicts,
    /// A was derived from B.
    DerivedFrom,
    /// A makes B obsolete.
    Supersedes,
}

/// Wire number of a relation kind.
pub open spec fn relation_code(k: RelationKind) -> u8 {
    match k {
        RelationKind::RelatedTo => 0,
        RelationKind::Causes => 1,
        RelationKind::Supports => 2,
        RelationKind::Contradicts => 3,
        RelationKind::DerivedFrom => 4,
        RelationKind::Supersedes => 5,
    }
}

/// Name of a relation kind.
pub open spec fn relation_name(k: RelationKind) -> Seq<char> {
    match k {
        RelationKind::RelatedTo => seq!['r', 'e', 'l', 'a', 't', 'e', 'd', '_', 't', 'o'],
        RelationKind::Causes => seq!['c', 'a', 'u', 's', 'e', 's'],
        RelationKind::Supports => seq!['s', 'u', 'p', 'p', 'o', 'r', 't', 's'],
        RelationKind::Contradicts => seq!['c', 'o', 'n', 't', 'r', 'a', 'd', 'i', 'c', 't', 's'],
        RelationKind::DerivedFrom => seq!['d', 'e', 'r', 'i', 'v', 'e', 'd', '_', 'f', 'r', 'o', 'm'],
        RelationKind::Supersedes => seq!['s', 'u', 'p', 'e', 'r', 's', 'e', 'd', 'e', 's'],
    }
}

impl RelationKind {
    /// Every kind, in wire order.
    pub const ALL: [RelationKind; 6] = [
        RelationKind::RelatedTo,
        RelationKind::Causes,
        RelationKind::Supports,
        RelationKind::Contradicts,
        RelationKind::DerivedFrom,
        RelationKind::Supersedes,
    ];

    /// Kind of a wire number, `None` above 5.
    pub fn from_u8(v: u8) -> (r: Option<Self>)
        ensures
            r matches Some(k) ==> relation_code(k) == v,
            r is None <==> v > 5,
    {
        match v {
            0 => Some(Self::RelatedTo),
            1 => Some(Self::Causes),
            2 => Some(Self::Supports),
            3 => Some(Self::Contradicts),
            4 => Some(Self::DerivedFrom),
            5 => Some(Self::Supersedes),
            _ => None,
        }
    }

    /// Name of the kind.
    pub fn as_str(self) -> (r: &'static str)
        ensures
            r@ == relation_name(self),
    {
        match self {
            Self::RelatedTo => {
                proof {
                    reveal_strlit("related_to");
                }
                "related_to"
            },
            Self::Causes => {
                proof {
                    reveal_strlit("causes");
                }
                "causes"
            },
            Self::Supports => {
                proof {
                    reveal_strlit("supports");
                }
                "supports"
            },
            Self::Contradicts => {
                proof {
                    reveal_strlit("contradicts");
                }
                "contradicts"
            },
            Self::DerivedFrom => {
                proof {
                    reveal_strlit("derived_from");
                }
                "derived_from"
            },
            Self::Supersedes => {
                proof {
                    reveal_strlit("supersedes");
                }
                "supersedes"
            },
        }
    }

    /// Kind of a name, the inverse of `as_str`; `None` for any other text.
    pub fn from_str(s: &str) -> (r: Option<Self>)
        ensures
            r matches Some(k) ==> relation_name(k) == s@,
            r is None ==> forall|k: RelationKind| relation_name(k) != s@,
    {
        let mut i: usize = 0;
        while i < 6
            invariant
                0 <= i <= 6,
                forall|j: int| 0 <= j < i ==> relation_name(#[trigger] Self::ALL@[j]) != s@,
            decreases 6 - i,
        {
            let k = Self::ALL[i];
            if same_text(k.as_str(), s) {
                return Some(k);
            }
            i += 1;
        }
        proof {
            assert forall|k: RelationKind| relation_name(k) != s@ by {
                let j = relation_code(k) as int;
                assert(Self::ALL@[j] == k);
            }
        }
        None
    }
}

/// Magic of a serialized memory document ("NMD1").
pub open spec fn doc_magic() -> Seq<u8> {
    seq![78u8, 77u8, 68u8, 49u8]
}

/// Size of the fixed vector-clock block of a document: eight node ids and
/// eight little-endian counters.
pub const DOC_CLOCK_BYTES: usize = 72;

/// Declared key length of a document.
pub open spec fn doc_key_len(d: Seq<u8>) -> int {
    spec_u32_from_le_bytes(d.subrange(5, 9)) as int
}

/// Offset of the clock block: right after the key.
pub open spec fn doc_clock_off(d: Seq<u8>) -> int {
    9 + doc_key_len(d)
}

/// Declared payload length of a document.
pub open spec fn doc_payload_len(d: Seq<u8>) -> int {
    spec_u32_from_le_bytes(d.subrange(doc_clock_off(d) + 72, doc_clock_off(d) + 76)) as int
}

/// Offset of the payload.
pub open spec fn doc_payload_off(d: Seq<u8>) -> int {
    doc_clock_off(d) + 76
}

/// Why the bytes are no document header, checked in this order; `None` when
/// magic, layer, key, clock block and payload are all there.
pub open spec fn doc_view_error(d: Seq<u8>) -> Option<&'static str> {
    if d.len() < 5 || d.subrange(0, 4) != doc_magic() {
        Some("bad magic")
    } else if layer_of_code(d[4]) is None {
        Some("bad layer")
    } else if d.len() < 9 {
        Some("trunc keylen")
    } else if doc_clock_off(d) > d.len() {
        Some("trunc key")
    } else if !valid_utf8(d.subrange(9, doc_clock_off(d))) {
        Some("utf8")
    } else if doc_clock_off(d) + 72 > d.len() {
        Some("trunc clock")
    } else if doc_clock_off(d) + 76 > d.len() {
        Some("trunc plen")
    } else if doc_payload_off(d) + doc_payload_len(d) > d.len() {
        Some("trunc payload")
    } else {
        None
    }
}

/// Zero-copy view of a serialized memory document: layer, key and payload
/// are read in place.
pub struct MemoryDocView<'a> {
    data: &'a [u8],
    layer: MemoryLayer,
    key: &'a str,
    payload: &'a [u8],
    clock_off: usize,
}

impl<'a> MemoryDocView<'a> {
    /// The viewed fields are those the bytes hold.
    #[verifier::type_invariant]
    spec fn consistent(self) -> bool {
        let d = self.data@;
        &&& doc_view_error(d) is None
        &&& layer_of_code(d[4]) == Some(self.layer)
        &&& self.key@ == decode_utf8(d.subrange(9, doc_clock_off(d)))
        &&& self.clock_off == doc_clock_off(d)
        &&& self.payload@ == d.subrange(doc_payload_off(d), doc_payload_off(d) + doc_payload_len(d))
    }

    /// The bytes viewed.
    pub closed spec fn bytes(&self) -> Seq<u8> {
        self.data@
    }

    /// Parses the header of a document in place; each malformed or truncated
    /// input gives its error, none panics.
    pub fn parse(data: &'a [u8]) -> (r: Result<Self, &'static str>)
        ensures
            doc_view_error(data@) matches Some(e) ==> r == Err::<Self, &'static str>(e),
            doc_view_error(data@) is None ==> (r matches Ok(v) && v.bytes() == data@),
    {
        proof {
            lemma_le_bytes_roundtrip();
        }
        if data.len() < 5 || data[0] != 78 || data[1] != 77 || data[2] != 68 || data[3] != 49 {
            proof {
                if data@.len() >= 5 && data@.subrange(0, 4) == doc_magic() {
                    assert(data@.subrange(0, 4)[0] == data@[0]);
                    assert(data@.subrange(0, 4)[1] == data@[1]);
                    assert(data@.subrange(0, 4)[2] == data@[2]);
                    assert(data@.subrange(0, 4)[3] == data@[3]);
                }
            }
            return Err("bad magic");
        }
        proof {
            assert(data@.subrange(0, 4) =~= doc_magic());
        }
        let layer = match MemoryLayer::from_u8(data[4]) {
            Some(l) => l,
            None => {
                return Err("bad layer");
            },
        };
        let klen = match rd_u32(data, 5) {
            Some(k) => k as usize,
            None => {
                return Err("trunc keylen");
            },
        };
        if klen > data.len() - 9 {
            return Err("trunc key");
        }
        let off = 9 + klen;
        let key = match utf8_str(slice_subrange(data, 9, off)) {
            Some(k) => k,
            None => {
                return Err("utf8");
            },
        };
        if data.len() - off < 72 {
            return Err("trunc clock");
        }
        let plen = match rd_u32(data, off + 72) {
            Some(p) => p as usize,
            None => {
                return Err("trunc plen");
            },
        };
        let poff = off + 76;
        if plen > data.len() - poff {
            return Err("trunc payload");
        }
        let payload = slice_subrange(data, poff, poff + plen);
        Ok(MemoryDocView { data, layer, key, payload, clock_off: off })
    }

    /// Layer of the document.
    pub fn layer(&self) -> (r: MemoryLayer)
        ensures
            layer_of_code(self.bytes()[4]) == Some(r),
    {
        proof {
            use_type_invariant(self);
        }
        self.layer
    }

    /// Key of the document, read in place.
    pub fn key(&self) -> (r: &str)
        ensures
            r@ == decode_utf8(self.bytes().subrange(9, doc_clock_off(self.bytes()))),
    {
        proof {
            use_type_invariant(self);
        }
        self.key
    }

    /// Payload of the document, read in place.
    pub fn payload(&self) -> (r: &[u8])
        ensures
            r@ == self.bytes().subrange(
                doc_payload_off(self.bytes()),
                doc_payload_off(self.bytes()) + doc_payload_len(self.bytes()),
            ),
    {
        proof {
            use_type_invariant(self);
        }
        self.payload
    }

    /// The fixed clock block of the document, read in place.
    pub fn clock_bytes(&self) -> (r: &[u8])
        ensures
            r@ == self.bytes().subrange(doc_clock_off(self.bytes()), doc_clock_off(self.bytes()) + 72),
    {
        proof {
            use_type_invariant(self);
        }
        let n = self.data.len();
        assert(self.clock_off + 72 <= n);
        slice_subrange(self.data, self.clock_off, self.clock_off + DOC_CLOCK_BYTES)
    }

    /// An owned copy of the whole document the bytes hold.
    pub fn to_owned_doc(&self) -> (r: Result<MemoryDoc, &'static str>)
        ensures
            crate::doc::doc_error(self.bytes()) matches Some(e) ==> r == Err::<MemoryDoc, &'static str>(e),
            crate::doc::doc_error(self.bytes()) is None ==> (r matches Ok(doc) && crate::doc::decoded_as(
                self.bytes(),
                doc.model(),
            ) && doc.meta is None && doc.clock.overflow@.len() == 0),
    {
        MemoryDoc::decode(self.data)
    }
}

} // verus!
