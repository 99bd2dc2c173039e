//! CRDT memory-version sync: per-layer merge policy, an authenticable
//! transport envelope, the durable sync state and the version agent that
//! detects and preserves concurrent writes instead of erasing them.
use vstd::prelude::*;
use vstd::bytes::*;
use vstd::slice::*;
use crate::clock::{first_over, lemma_first_over, lemma_first_over_is};
use crate::error::SgdbError;
use crate::memory_doc::MemoryLayer;
pub use crate::delta::{MemoryDelta, MemorySnapshot};
use crate::wire::{starts_with, lemma_starts_with, lemma_le_bytes_roundtrip, push_bytes, push_u16, push_u32, push_u64, rd_u16, rd_u32, rd_u64};

verus! {

/// Minimum interval between two transmissions (caller clock units).
pub const SYNC_INTERVAL: u64 = 200;

/// Default UDP port of the peer mesh.
pub const DEFAULT_P2P_PORT: u16 = 42069;

/// A known memory version of one node.
#[derive(Clone, Copy, Debug, PartialEq, Eq, Structural)]
pub struct MemoryVersion {
    pub node_id: u8,
    pub version: u64,
}

/// Verdict of merging one received version.
#[derive(Clone, Copy, Debug, PartialEq, Eq, Structural)]
pub enum MergeVerdict {
    /// Echo of our own broadcast.
    SelfPacket,
    /// Older than the known version of that node.
    Stale,
    /// Already known (or the empty version 0).
    Duplicate,
    /// New version, no independent local state: adopted.
    Applied,
    /// New version concurrent with local state: preserved in `conflicts`.
    Conflict,
    /// The layer's policy refuses remote versions.
    Rejected,
}

/// Merge policy of a memory layer.
#[derive(Clone, Copy, Debug, PartialEq, Eq, Structural)]
pub enum MergePolicy {
    LocalOnly,
    LocalWorking,
    MultiValueRegister,
    CausalLwwWithHistory,
    ControlledLww,
    Reserved,
}

/// The layer to policy table.
pub open spec fn policy_of(layer: MemoryLayer) -> MergePolicy {
    match layer {
        MemoryLayer::L0Sensory => MergePolicy::LocalOnly,
        MemoryLayer::L1Working => MergePolicy::LocalWorking,
        MemoryLayer::L2EpisodicShort => MergePolicy::MultiValueRegister,
        MemoryLayer::L3EpisodicLong => MergePolicy::MultiValueRegister,
        MemoryLayer::L4Semantic => MergePolicy::CausalLwwWithHistory,
        MemoryLayer::L5Procedural => MergePolicy::ControlledLww,
        MemoryLayer::L6Reserved => MergePolicy::Reserved,
        MemoryLayer::L7Identity => MergePolicy::ControlledLww,
    }
}

/// Policies that adopt remote versions (L0/L1 are local, L6 undefined).
pub open spec fn policy_accepts(p: MergePolicy) -> bool {
    !(p is LocalOnly || p is LocalWorking || p is Reserved)
}

impl MergePolicy {
    /// Single source of truth of the layer to policy table.
    pub fn for_layer(layer: MemoryLayer) -> (r: Self)
        ensures
            r == policy_of(layer),
    {
        match layer {
            MemoryLayer::L0Sensory => Self::LocalOnly,
            MemoryLayer::L1Working => Self::LocalWorking,
            MemoryLayer::L2EpisodicShort | MemoryLayer::L3EpisodicLong => Self::MultiValueRegister,
            MemoryLayer::L4Semantic => Self::CausalLwwWithHistory,
            MemoryLayer::L5Procedural | MemoryLayer::L7Identity => Self::ControlledLww,
            MemoryLayer::L6Reserved => Self::Reserved,
        }
    }

    /// Layers that accept remote versions and records.
    pub fn accepts_remote(&self) -> (r: bool)
        ensures
            r == policy_accepts(*self),
    {
        match self {
            Self::LocalOnly | Self::LocalWorking | Self::Reserved => false,
            _ => true,
        }
    }

    /// Human-readable summary of the policy.
    pub fn description(&self) -> (r: &'static str)
        ensures
            r@.len() > 0,
            r@ == (match self {
                Self::LocalOnly => "L0 sensory: strictly local, remote never adopted"@,
                Self::LocalWorking => "L1 working: local-only working memory"@,
                Self::MultiValueRegister => "L2/L3 episodic: concurrent versions both retained (multi-value)"@,
                Self::CausalLwwWithHistory => "L4 semantic: causally-dominant wins, older superseded with history"@,
                Self::ControlledLww => "L5/L7 procedural/identity: LWW with safeguards, history preserved"@,
                Self::Reserved => "L6 reserved: no merge semantics defined"@,
            }),
    {
        match self {
            Self::LocalOnly => {
                proof {
                    reveal_strlit("L0 sensory: strictly local, remote never adopted");
                }
                "L0 sensory: strictly local, remote never adopted"
            },
            Self::LocalWorking => {
                proof {
                    reveal_strlit("L1 working: local-only working memory");
                }
                "L1 working: local-only working memory"
            },
            Self::MultiValueRegister => {
                proof {
                    reveal_strlit(
                        "L2/L3 episodic: concurrent versions both retained (multi-value)",
                    );
                }
                "L2/L3 episodic: concurrent versions both retained (multi-value)"
            },
            Self::CausalLwwWithHistory => {
                proof {
                    reveal_strlit(
                        "L4 semantic: causally-dominant wins, older superseded with history",
                    );
                }
                "L4 semantic: causally-dominant wins, older superseded with history"
            },
            Self::ControlledLww => {
                proof {
                    reveal_strlit(
                        "L5/L7 procedural/identity: LWW with safeguards, history preserved",
                    );
                }
                "L5/L7 procedural/identity: LWW with safeguards, history preserved"
            },
            Self::Reserved => {
                proof {
                    reveal_strlit("L6 reserved: no merge semantics defined");
                }
                "L6 reserved: no merge semantics defined"
            },
        }
    }
}

/// Pluggable transport of versions between nodes, implemented by users
/// for their medium (UDP, TCP, serial, IPC).
pub trait Transport {
    /// Publishes the local version to peers.
    fn send_crdt(&mut self, node_id: u8, version: u64) -> Result<(), SgdbError>;

    /// Versions received since the last call.
    fn recv_crdt(&mut self) -> Vec<(u8, u64)>;

    /// Publishes one delta; transports without deltas fall back to
    /// `send_crdt` (the payload is ignored).
    fn send_delta(&mut self, node_id: u8, version: u64, payload: &[u8]) -> Result<(), SgdbError> {
        self.send_crdt(node_id, version)
    }
}

// ---------------------------------------------------------------------------
// SignedEnvelope
// ---------------------------------------------------------------------------

/// Authenticable transport envelope: payload plus opaque authentication
/// filled and checked by the transport.
///
/// Wire: `[node_id u8][plen u32le][alen u32le][payload][auth]`.
#[derive(Clone, Debug, PartialEq, Eq)]
pub struct SignedEnvelope {
    pub node_id: u8,
    pub payload: Vec<u8>,
    pub auth: Vec<u8>,
}

/// Wire bytes of an envelope with the given fields.
pub open spec fn envelope_wire(node_id: u8, payload: Seq<u8>, auth: Seq<u8>) -> Seq<u8> {
    seq![node_id] + spec_u32_to_le_bytes(payload.len() as u32) + spec_u32_to_le_bytes(
        auth.len() as u32,
    ) + payload + auth
}

/// Fields that fit the wire's length prefixes.
pub open spec fn envelope_fits(payload: Seq<u8>, auth: Seq<u8>) -> bool {
    payload.len() <= u32::MAX && auth.len() <= u32::MAX
}

impl SignedEnvelope {
    pub fn new(node_id: u8, payload: Vec<u8>, auth: Vec<u8>) -> (r: Self)
        ensures
            r.node_id == node_id,
            r.payload@ == payload@,
            r.auth@ == auth@,
    {
        SignedEnvelope { node_id, payload, auth }
    }

    /// Encodes; `Err` when a field does not fit its length prefix (never a
    /// silent truncation).
    pub fn try_encode(&self) -> (r: Result<Vec<u8>, &'static str>)
        ensures
            r is Ok <==> envelope_fits(self.payload@, self.auth@),
            r matches Ok(b) ==> b@ == envelope_wire(self.node_id, self.payload@, self.auth@),
    {
        if self.payload.len() > 0xFFFF_FFFF || self.auth.len() > 0xFFFF_FFFF {
            return Err("envelope field overflow");
        }
        let mut out: Vec<u8> = Vec::new();
        out.push(self.node_id);
        push_u32(&mut out, self.payload.len() as u32);
        push_u32(&mut out, self.auth.len() as u32);
        push_bytes(&mut out, self.payload.as_slice());
        push_bytes(&mut out, self.auth.as_slice());
        assert(out@ =~= envelope_wire(self.node_id, self.payload@, self.auth@));
        Ok(out)
    }

    /// Encodes an envelope whose fields fit the wire.
    pub fn encode(&self) -> (r: Vec<u8>)
        requires
            envelope_fits(self.payload@, self.auth@),
        ensures
            r@ == envelope_wire(self.node_id, self.payload@, self.auth@),
    {
        match self.try_encode() {
            Ok(b) => b,
            Err(_) => Vec::new(),
        }
    }

    /// Decodes one envelope from the front of a stream and returns it with
    /// the bytes consumed; `None` when truncated.
    pub fn decode(data: &[u8]) -> (r: Option<(Self, usize)>)
        ensures
            r is Some <==> (data@.len() >= 9 && 9 + spec_u32_from_le_bytes(data@.subrange(1, 5))
                + spec_u32_from_le_bytes(data@.subrange(5, 9)) <= data@.len()),
            r matches Some((e, n)) ==> envelope_fits(e.payload@, e.auth@) && n as int
                == envelope_wire(e.node_id, e.payload@, e.auth@).len() && data@.subrange(0, n as int)
                == envelope_wire(e.node_id, e.payload@, e.auth@),
            forall|node: u8, p: Seq<u8>, a: Seq<u8>|
                envelope_fits(p, a) && starts_with(data@, #[trigger] envelope_wire(node, p, a)) ==> (
                r matches Some((e, n)) && e.node_id == node && e.payload@ == p && e.auth@ == a && n
                    == envelope_wire(node, p, a).len()),
    {
        proof {
            lemma_le_bytes_roundtrip();
        }
        if data.len() < 9 {
            proof {
                assert forall|node: u8, p: Seq<u8>, a: Seq<u8>|
                    envelope_fits(p, a) && starts_with(data@, #[trigger] envelope_wire(node, p, a)) implies false by {
                    assert(envelope_wire(node, p, a).len() >= 9);
                }
            }
            return None;
        }
        let node_id = data[0];
        let plen = rd_u32(data, 1).unwrap() as usize;
        let alen = rd_u32(data, 5).unwrap() as usize;
        proof {
            assert forall|node: u8, p: Seq<u8>, a: Seq<u8>|
                envelope_fits(p, a) && starts_with(data@, #[trigger] envelope_wire(node, p, a)) implies (
                node_id == node && plen == p.len() && alen == a.len()) by {
                let w = envelope_wire(node, p, a);
                lemma_starts_with(data@, w);
                assert(w.subrange(1, 5) =~= spec_u32_to_le_bytes(p.len() as u32));
                assert(w.subrange(5, 9) =~= spec_u32_to_le_bytes(a.len() as u32));
            }
        }
        if plen > data.len() - 9 || alen > data.len() - 9 - plen {
            return None;
        }
        let end = 9 + plen + alen;
        let payload = slice_to_vec(slice_subrange(data, 9, 9 + plen));
        let auth = slice_to_vec(slice_subrange(data, 9 + plen, end));
        let e = SignedEnvelope { node_id, payload, auth };
        proof {
            assert(data@.subrange(0, end as int) =~= envelope_wire(node_id, payload@, auth@));
            assert forall|node: u8, p: Seq<u8>, a: Seq<u8>|
                envelope_fits(p, a) && starts_with(data@, #[trigger] envelope_wire(node, p, a)) implies (
                node_id == node && payload@ == p && auth@ == a) by {
                let w = envelope_wire(node, p, a);
                assert(data@.subrange(0, w.len() as int) == w);
                assert(data@[0] == w[0]);
                assert(data@.subrange(1, 5) =~= w.subrange(1, 5));
                assert(data@.subrange(5, 9) =~= w.subrange(5, 9));
                assert(w.subrange(1, 5) =~= spec_u32_to_le_bytes(p.len() as u32));
                assert(w.subrange(5, 9) =~= spec_u32_to_le_bytes(a.len() as u32));
                assert(data@.subrange(1, 5) =~= spec_u32_to_le_bytes(p.len() as u32));
                assert(data@.subrange(5, 9) =~= spec_u32_to_le_bytes(a.len() as u32));
                assert(payload@ =~= w.subrange(9, 9 + p.len() as int));
                assert(auth@ =~= w.subrange(9 + p.len() as int, w.len() as int));
                assert(payload@ =~= p);
                assert(auth@ =~= a);
            }
        }
        Some((e, end))
    }
}


// ---------------------------------------------------------------------------
// CrdtState
// ---------------------------------------------------------------------------

/// Durable sync state: identity, counters and the versions known of others.
///
/// Wire "CRDT" v1: `magic | ver u8 | node_id u8 | local u64le | own u64le |
/// n u16le + (node u8 + version u64le)*`.
#[derive(Clone, Debug, PartialEq, Eq)]
pub struct CrdtState {
    pub node_id: u8,
    pub local_version: u64,
    pub own_writes: u64,
    pub node_versions: Vec<(u8, u64)>,
}

/// Bytes of a list of (node, version) pairs, 9 bytes each.
pub open spec fn pairs_wire(vs: Seq<(u8, u64)>) -> Seq<u8>
    decreases vs.len(),
{
    if vs.len() == 0 {
        Seq::empty()
    } else {
        pairs_wire(vs.drop_last()) + seq![vs.last().0] + spec_u64_to_le_bytes(vs.last().1)
    }
}

/// The magic of the durable state ("CRDT").
pub open spec fn crdt_magic() -> Seq<u8> {
    seq![67u8, 82u8, 68u8, 84u8]
}

/// Wire bytes of a durable state.
pub open spec fn crdt_state_wire(
    node_id: u8,
    local_version: u64,
    own_writes: u64,
    vs: Seq<(u8, u64)>,
) -> Seq<u8> {
    crdt_magic() + seq![1u8, node_id] + spec_u64_to_le_bytes(local_version)
        + spec_u64_to_le_bytes(own_writes) + spec_u16_to_le_bytes(vs.len() as u16) + pairs_wire(vs)
}

pub proof fn lemma_pairs_wire_len(vs: Seq<(u8, u64)>)
    ensures
        pairs_wire(vs).len() == 9 * vs.len(),
    decreases vs.len(),
{
    lemma_le_bytes_roundtrip();
    if vs.len() > 0 {
        lemma_pairs_wire_len(vs.drop_last());
    }
}

/// Law: a truncated state is rejected. No state's bytes start a proper
/// prefix of another state's bytes, so `decode` (whose state's bytes start
/// the data) reads none from such a prefix.
pub proof fn law_crdt_state_truncated_rejected(
    data: Seq<u8>,
    node: u8,
    l: u64,
    o: u64,
    vs: Seq<(u8, u64)>,
    node2: u8,
    l2: u64,
    o2: u64,
    vs2: Seq<(u8, u64)>,
)
    requires
        vs.len() <= u16::MAX,
        vs2.len() <= u16::MAX,
        data.len() < crdt_state_wire(node, l, o, vs).len(),
        data == crdt_state_wire(node, l, o, vs).take(data.len() as int),
    ensures
        !starts_with(data, crdt_state_wire(node2, l2, o2, vs2)),
{
    if starts_with(data, crdt_state_wire(node2, l2, o2, vs2)) {
        lemma_le_bytes_roundtrip();
        lemma_pairs_wire_len(vs);
        lemma_pairs_wire_len(vs2);
        let w = crdt_state_wire(node, l, o, vs);
        let x = crdt_state_wire(node2, l2, o2, vs2);
        assert(x.subrange(22, 24) =~= spec_u16_to_le_bytes(vs2.len() as u16));
        assert(w.subrange(22, 24) =~= spec_u16_to_le_bytes(vs.len() as u16));
        assert(x.subrange(22, 24) =~= data.subrange(22, 24));
        assert(w.subrange(22, 24) =~= data.subrange(22, 24));
        assert(vs.len() == vs2.len());
    }
}

/// The `k`-th pair sits at bytes `9k..9k+9`.
pub proof fn lemma_pairs_wire_at(vs: Seq<(u8, u64)>, k: int)
    requires
        0 <= k < vs.len(),
    ensures
        pairs_wire(vs).subrange(9 * k, 9 * k + 9) == seq![vs[k].0] + spec_u64_to_le_bytes(vs[k].1),
        pairs_wire(vs.take(k + 1)) == pairs_wire(vs.take(k)) + seq![vs[k].0]
            + spec_u64_to_le_bytes(vs[k].1),
    decreases vs.len(),
{
    lemma_le_bytes_roundtrip();
    lemma_pairs_wire_len(vs.drop_last());
    assert(vs.take(k + 1).drop_last() =~= vs.take(k));
    if k < vs.len() - 1 {
        lemma_pairs_wire_at(vs.drop_last(), k);
        assert(vs.drop_last()[k] == vs[k]);
        assert(pairs_wire(vs).subrange(9 * k, 9 * k + 9) =~= pairs_wire(vs.drop_last()).subrange(
            9 * k,
            9 * k + 9,
        ));
    } else {
        assert(pairs_wire(vs).subrange(9 * k, 9 * k + 9) =~= seq![vs[k].0] + spec_u64_to_le_bytes(
            vs[k].1,
        ));
    }
}

impl CrdtState {
    /// Encodes; `Err` when more than `u16::MAX` versions are listed.
    pub fn try_encode(&self) -> (r: Result<Vec<u8>, &'static str>)
        ensures
            r is Ok <==> self.node_versions@.len() <= u16::MAX,
            r matches Ok(b) ==> b@ == crdt_state_wire(
                self.node_id,
                self.local_version,
                self.own_writes,
                self.node_versions@,
            ),
    {
        if self.node_versions.len() > 0xFFFF {
            return Err("crdt node_versions overflow");
        }
        let mut out: Vec<u8> = Vec::new();
        out.push(67u8);
        out.push(82u8);
        out.push(68u8);
        out.push(84u8);
        out.push(1u8);
        out.push(self.node_id);
        push_u64(&mut out, self.local_version);
        push_u64(&mut out, self.own_writes);
        push_u16(&mut out, self.node_versions.len() as u16);
        let ghost head = out@;
        let mut i: usize = 0;
        while i < self.node_versions.len()
            invariant
                0 <= i <= self.node_versions@.len(),
                out@ == head + pairs_wire(self.node_versions@.take(i as int)),
            decreases self.node_versions@.len() - i,
        {
            let (n, v) = self.node_versions[i];
            out.push(n);
            push_u64(&mut out, v);
            proof {
                lemma_pairs_wire_at(self.node_versions@, i as int);
            }
            i += 1;
            assert(out@ =~= head + pairs_wire(self.node_versions@.take(i as int)));
        }
        assert(self.node_versions@.take(i as int) =~= self.node_versions@);
        assert(out@ =~= crdt_state_wire(
            self.node_id,
            self.local_version,
            self.own_writes,
            self.node_versions@,
        ));
        Ok(out)
    }

    /// Encodes a state with at most `u16::MAX` versions.
    pub fn encode(&self) -> (r: Vec<u8>)
        requires
            self.node_versions@.len() <= u16::MAX,
        ensures
            r@ == crdt_state_wire(
                self.node_id,
                self.local_version,
                self.own_writes,
                self.node_versions@,
            ),
    {
        match self.try_encode() {
            Ok(b) => b,
            Err(_) => Vec::new(),
        }
    }

    /// Decodes (bounds-checked; trailing bytes are ignored).
    pub fn decode(data: &[u8]) -> (r: Result<Self, &'static str>)
        ensures
            data@.len() < 15 || data@.subrange(0, 4) != crdt_magic() ==> r == Err::<Self, &'static str>(
                "bad crdt magic",
            ),
            data@.len() >= 15 && data@.subrange(0, 4) == crdt_magic() && data@[4] != 1 ==> r == Err::<
                Self,
                &'static str,
            >("bad crdt version"),
            r matches Ok(s) ==> s.node_versions@.len() <= u16::MAX && starts_with(
                data@,
                crdt_state_wire(s.node_id, s.local_version, s.own_writes, s.node_versions@),
            ),
            forall|node: u8, l: u64, o: u64, vs: Seq<(u8, u64)>|
                vs.len() <= u16::MAX && starts_with(data@, #[trigger] crdt_state_wire(node, l, o, vs))
                    ==> (r matches Ok(s) && s.node_id == node && s.local_version == l
                    && s.own_writes == o && s.node_versions@ == vs),
    {
        proof {
            lemma_le_bytes_roundtrip();
        }
        if data.len() < 15 || data[0] != 67u8 || data[1] != 82u8 || data[2] != 68u8 || data[3]
            != 84u8 {
            proof {
                assert forall|node: u8, l: u64, o: u64, vs: Seq<(u8, u64)>|
                    vs.len() <= u16::MAX && starts_with(data@, #[trigger] crdt_state_wire(node, l, o, vs)) implies false by {
                        lemma_starts_with(data@, crdt_state_wire(node, l, o, vs));
                        lemma_pairs_wire_len(vs);
                    lemma_pairs_wire_len(vs);
                    assert(data@[0] == 67u8 && data@[1] == 82u8 && data@[2] == 68u8 && data@[3]
                        == 84u8);
                }
            }
            return Err("bad crdt magic");
        }
        proof {
            assert(data@.subrange(0, 4) =~= crdt_magic());
        }
        if data[4] != 1u8 {
            proof {
                assert forall|node: u8, l: u64, o: u64, vs: Seq<(u8, u64)>|
                    vs.len() <= u16::MAX && starts_with(data@, #[trigger] crdt_state_wire(node, l, o, vs)) implies false by {
                        lemma_starts_with(data@, crdt_state_wire(node, l, o, vs));
                        lemma_pairs_wire_len(vs);
                    assert(data@[4] == 1u8);
                }
            }
            return Err("bad crdt version");
        }
        let node_id = data[5];
        let local_version = match rd_u64(data, 6) {
            Some(v) => v,
            None => {
                proof {
                    assert forall|node: u8, l: u64, o: u64, vs: Seq<(u8, u64)>|
                        vs.len() <= u16::MAX && starts_with(data@, #[trigger] crdt_state_wire(node, l, o, vs)) implies false by {
                            lemma_starts_with(data@, crdt_state_wire(node, l, o, vs));
                            lemma_pairs_wire_len(vs);
                        lemma_pairs_wire_len(vs);
                    }
                }
                return Err("trunc crdt local");
            },
        };
        let own_writes = match rd_u64(data, 14) {
            Some(v) => v,
            None => {
                proof {
                    assert forall|node: u8, l: u64, o: u64, vs: Seq<(u8, u64)>|
                        vs.len() <= u16::MAX && starts_with(data@, #[trigger] crdt_state_wire(node, l, o, vs)) implies false by {
                            lemma_starts_with(data@, crdt_state_wire(node, l, o, vs));
                            lemma_pairs_wire_len(vs);
                        lemma_pairs_wire_len(vs);
                    }
                }
                return Err("trunc crdt own");
            },
        };
        let n = match rd_u16(data, 22) {
            Some(v) => v as usize,
            None => {
                proof {
                    assert forall|node: u8, l: u64, o: u64, vs: Seq<(u8, u64)>|
                        vs.len() <= u16::MAX && starts_with(data@, #[trigger] crdt_state_wire(node, l, o, vs)) implies false by {
                            lemma_starts_with(data@, crdt_state_wire(node, l, o, vs));
                            lemma_pairs_wire_len(vs);
                        lemma_pairs_wire_len(vs);
                    }
                }
                return Err("trunc crdt n");
            },
        };
        proof {
            assert forall|node: u8, l: u64, o: u64, vs: Seq<(u8, u64)>|
                vs.len() <= u16::MAX && starts_with(data@, #[trigger] crdt_state_wire(node, l, o, vs)) implies node == node_id && l == local_version && o == own_writes
                && vs.len() == n by {
                    lemma_starts_with(data@, crdt_state_wire(node, l, o, vs));
                    lemma_pairs_wire_len(vs);
                let w = crdt_state_wire(node, l, o, vs);
                assert(w.subrange(6, 14) =~= spec_u64_to_le_bytes(l));
                assert(w.subrange(14, 22) =~= spec_u64_to_le_bytes(o));
                assert(w.subrange(22, 24) =~= spec_u16_to_le_bytes(vs.len() as u16));
                assert(data@[5] == node);
                assert(data@.subrange(6, 14) =~= spec_u64_to_le_bytes(l));
                assert(data@.subrange(14, 22) =~= spec_u64_to_le_bytes(o));
                assert(data@.subrange(22, 24) =~= spec_u16_to_le_bytes(vs.len() as u16));
            }
        }
        let mut off: usize = 24;
        let mut node_versions: Vec<(u8, u64)> = Vec::new();
        let mut i: usize = 0;
        while i < n
            invariant
                data@.len() >= 15 && data@.subrange(0, 4) == crdt_magic() && data@[4] == 1,
                0 <= i <= n,
                n <= u16::MAX,
                off == 24 + 9 * i,
                off <= data@.len(),
                node_versions@.len() == i,
                data@.subrange(24, off as int) == pairs_wire(node_versions@),
                forall|node: u8, l: u64, o: u64, vs: Seq<(u8, u64)>|
                    vs.len() <= u16::MAX && starts_with(data@, #[trigger] crdt_state_wire(node, l, o, vs)) ==> vs.len() == n && node_versions@ == vs.take(i as int),
            decreases n - i,
        {
            proof {
                lemma_le_bytes_roundtrip();
            }
            if off >= data.len() {
                proof {
                    assert forall|node: u8, l: u64, o: u64, vs: Seq<(u8, u64)>|
                        vs.len() <= u16::MAX && starts_with(data@, #[trigger] crdt_state_wire(node, l, o, vs)) implies false by {
                            lemma_starts_with(data@, crdt_state_wire(node, l, o, vs));
                            lemma_pairs_wire_len(vs);
                        lemma_pairs_wire_len(vs);
                    }
                }
                return Err("trunc crdt node");
            }
            let node = data[off];
            let v = match rd_u64(data, off + 1) {
                Some(v) => v,
                None => {
                    proof {
                        assert forall|nd: u8, l: u64, o: u64, vs: Seq<(u8, u64)>|
                            vs.len() <= u16::MAX && starts_with(data@, #[trigger] crdt_state_wire(nd, l, o, vs)) implies false by {
                                lemma_starts_with(data@, crdt_state_wire(nd, l, o, vs));
                                lemma_pairs_wire_len(vs);
                            lemma_pairs_wire_len(vs);
                        }
                    }
                    return Err("trunc crdt v");
                },
            };
            let ghost prev = node_versions@;
            node_versions.push((node, v));
            proof {
                let nv = node_versions@;
                assert(nv.drop_last() =~= prev);
                assert(data@.subrange(24, off + 9) =~= data@.subrange(24, off as int) + seq![node]
                    + data@.subrange(off + 1, off + 9));
                assert(spec_u64_to_le_bytes(v) == data@.subrange(off + 1, off + 9));
                assert forall|nd: u8, l: u64, o: u64, vs: Seq<(u8, u64)>|
                    vs.len() <= u16::MAX && starts_with(data@, #[trigger] crdt_state_wire(nd, l, o, vs)) implies node_versions@ == vs.take(i + 1) by {
                        lemma_starts_with(data@, crdt_state_wire(nd, l, o, vs));
                        lemma_pairs_wire_len(vs);
                    lemma_pairs_wire_len(vs);
                    lemma_pairs_wire_at(vs, i as int);
                    let pw = pairs_wire(vs);
                    let w = crdt_state_wire(nd, l, o, vs);
                    assert(w.subrange(24, 24 + 9 * vs.len() as int) =~= pw);
                    assert(data@.subrange(24, 24 + 9 * vs.len() as int) =~= pw);
                    assert(data@.subrange(off as int, off + 9) =~= pw.subrange(9 * i, 9 * i + 9));
                    let chunk = data@.subrange(off as int, off + 9);
                    assert(chunk == seq![vs[i as int].0] + spec_u64_to_le_bytes(vs[i as int].1));
                    assert(data@.subrange(off + 1, off + 9) =~= chunk.subrange(1, 9));
                    assert(chunk.subrange(1, 9) =~= spec_u64_to_le_bytes(vs[i as int].1));
                    assert(data@[off as int] == chunk[0]);
                    assert(vs.take(i + 1) =~= vs.take(i as int).push(vs[i as int]));
                }
            }
            off = off + 9;
            i = i + 1;
        }
        let s = CrdtState { node_id, local_version, own_writes, node_versions };
        proof {
            lemma_pairs_wire_len(s.node_versions@);
            assert(data@.subrange(0, 24 + 9 * n) =~= crdt_state_wire(
                node_id,
                local_version,
                own_writes,
                s.node_versions@,
            )) by {
                assert(data@.subrange(0, 24 + 9 * n) =~= data@.subrange(0, 24) + data@.subrange(
                    24,
                    24 + 9 * n,
                ));
                assert(data@.subrange(6, 14) == spec_u64_to_le_bytes(local_version));
                assert(data@.subrange(14, 22) == spec_u64_to_le_bytes(own_writes));
                assert(data@.subrange(22, 24) == spec_u16_to_le_bytes(n as u16));
            }
            assert forall|nd: u8, l: u64, o: u64, vs: Seq<(u8, u64)>|
                vs.len() <= u16::MAX && starts_with(data@, #[trigger] crdt_state_wire(nd, l, o, vs)) implies s.node_versions@ == vs by {
                    lemma_starts_with(data@, crdt_state_wire(nd, l, o, vs));
                    lemma_pairs_wire_len(vs);
                assert(vs.take(n as int) =~= vs);
            }
        }
        Ok(s)
    }
}


// ---------------------------------------------------------------------------
// CrdtMemorySync
// ---------------------------------------------------------------------------

/// Version-sync agent: the local version, the versions known of other
/// nodes, the concurrent versions it preserved, and the deltas not yet sent.
pub struct CrdtMemorySync {
    node_id: u8,
    local_version: u64,
    /// Writes made here (never adopted from peers): the independent local
    /// state on which concurrency detection rests.
    pub own_writes: u64,
    pub node_versions: Vec<(u8, u64)>,
    pub conflicts: Vec<MemoryVersion>,
    pending: Vec<u64>,
    last_sync_at: Option<u64>,
    pub active: bool,
}

/// Abstract state of the agent.
pub struct SyncModel {
    pub node_id: u8,
    pub local_version: u64,
    pub own_writes: u64,
    pub node_versions: Seq<(u8, u64)>,
    pub conflicts: Seq<MemoryVersion>,
    pub pending: Seq<u64>,
    pub last_sync_at: Option<u64>,
    pub active: bool,
}

impl View for CrdtMemorySync {
    type V = SyncModel;

    closed spec fn view(&self) -> SyncModel {
        SyncModel {
            node_id: self.node_id,
            local_version: self.local_version,
            own_writes: self.own_writes,
            node_versions: self.node_versions@,
            conflicts: self.conflicts@,
            pending: self.pending@,
            last_sync_at: self.last_sync_at,
            active: self.active,
        }
    }
}

/// Known version of `node` in a version list (first entry), if any.
pub open spec fn known_of(vs: Seq<(u8, u64)>, node: u8) -> Option<u64> {
    let j = first_over(vs, node, 0);
    if j < vs.len() {
        Some(vs[j].1)
    } else {
        None
    }
}

/// State after applying each packet of `pkts` in order, as
/// `apply_remote_version` does.
pub open spec fn apply_all(m: SyncModel, pkts: Seq<(u8, u64)>) -> SyncModel
    decreases pkts.len(),
{
    if pkts.len() == 0 {
        m
    } else {
        apply_step(apply_all(m, pkts.drop_last()), pkts.last().0, pkts.last().1).0
    }
}

/// State after one sync round on the versions `received`: they are applied
/// in order; then, outside the rate-limit window, the pending deltas are
/// handed out and the round is recorded.
pub open spec fn sync_round_state(m: SyncModel, now: u64, received: Seq<(u8, u64)>) -> SyncModel {
    let a = apply_all(m, received);
    if rate_limited(a, now) {
        a
    } else {
        SyncModel { pending: Seq::empty(), last_sync_at: Some(now), active: true, ..a }
    }
}

/// Applying received versions touches only the known versions and the
/// conflicts.
pub proof fn lemma_apply_all_keeps(m: SyncModel, pkts: Seq<(u8, u64)>)
    ensures
        apply_all(m, pkts).node_id == m.node_id,
        apply_all(m, pkts).local_version == m.local_version,
        apply_all(m, pkts).own_writes == m.own_writes,
        apply_all(m, pkts).pending == m.pending,
        apply_all(m, pkts).last_sync_at == m.last_sync_at,
        apply_all(m, pkts).active == m.active,
    decreases pkts.len(),
{
    if pkts.len() > 0 {
        lemma_apply_all_keeps(m, pkts.drop_last());
    }
}

/// Insert or update the known version of a node (dedup by node id).
pub open spec fn upsert(vs: Seq<(u8, u64)>, node: u8, v: u64) -> Seq<(u8, u64)> {
    let j = first_over(vs, node, 0);
    if j < vs.len() {
        vs.update(j, (node, v))
    } else {
        vs.push((node, v))
    }
}

/// Whether the agent holds state independent of `node`: own writes, or a
/// known version of some other node.
pub open spec fn has_other_state(m: SyncModel, node: u8) -> bool {
    m.own_writes > 0 || m.node_versions.len() > 1 || (m.node_versions.len() == 1
        && m.node_versions[0].0 != node)
}

/// Transition of `apply_remote_version(node, v)`: the new state and verdict.
pub open spec fn apply_step(m: SyncModel, node: u8, v: u64) -> (SyncModel, MergeVerdict) {
    if node == m.node_id {
        (m, MergeVerdict::SelfPacket)
    } else if v == 0 {
        (m, MergeVerdict::Duplicate)
    } else if known_of(m.node_versions, node) matches Some(k) && v < k {
        (m, MergeVerdict::Stale)
    } else if known_of(m.node_versions, node) == Some(v) {
        (m, MergeVerdict::Duplicate)
    } else if has_other_state(m, node) {
        let mv = MemoryVersion { node_id: node, version: v };
        (
            SyncModel {
                node_versions: upsert(m.node_versions, node, v),
                conflicts: if m.conflicts.contains(mv) {
                    m.conflicts
                } else {
                    m.conflicts.push(mv)
                },
                ..m
            },
            MergeVerdict::Conflict,
        )
    } else {
        (SyncModel { node_versions: upsert(m.node_versions, node, v), ..m }, MergeVerdict::Applied)
    }
}

/// A pending delta must be sent when no peer is known yet or some known
/// peer is behind it.
pub open spec fn delta_needed(vs: Seq<(u8, u64)>, v: u64) -> bool {
    vs.len() == 0 || exists|k: int| 0 <= k < vs.len() && vs[k].1 < v
}

/// Transmission is rate-limited: within `SYNC_INTERVAL` of the last sync
/// (wrapping difference) nothing is sent.
pub open spec fn rate_limited(m: SyncModel, now: u64) -> bool {
    m.last_sync_at matches Some(last) && vstd::wrapping::u64_specs::wrapping_sub(now, last)
        < SYNC_INTERVAL
}

/// Ordering of versions by (node, version).
pub open spec fn version_le(a: MemoryVersion, b: MemoryVersion) -> bool {
    a.node_id < b.node_id || (a.node_id == b.node_id && a.version <= b.version)
}

/// Sorted by (node, version).
pub open spec fn versions_sorted(s: Seq<MemoryVersion>) -> bool {
    forall|i: int, j: int| 0 <= i < j < s.len() ==> version_le(s[i], s[j])
}

/// Known version of a node in a peer clock (0 when absent).
pub open spec fn peer_known(peer: Seq<(u8, u64)>, n: u8) -> u64 {
    match known_of(peer, n) {
        Some(k) => k,
        None => 0,
    }
}

/// What the agent knows and the peer does not: each known version (own
/// included, last) above the peer's version of that node.
pub open spec fn missing_candidates(m: SyncModel, peer: Seq<(u8, u64)>) -> Seq<MemoryVersion> {
    let others = m.node_versions.filter(|p: (u8, u64)| peer_known(peer, p.0) < p.1).map_values(
        |p: (u8, u64)| MemoryVersion { node_id: p.0, version: p.1 },
    );
    if peer_known(peer, m.node_id) < m.local_version {
        others.push(MemoryVersion { node_id: m.node_id, version: m.local_version })
    } else {
        others
    }
}

/// Executable (node, version) ordering.
fn version_leq(a: MemoryVersion, b: MemoryVersion) -> (r: bool)
    ensures
        r == version_le(a, b),
{
    a.node_id < b.node_id || (a.node_id == b.node_id && a.version <= b.version)
}

/// Sorts versions by (node, version).
fn sort_versions(v: Vec<MemoryVersion>) -> (r: Vec<MemoryVersion>)
    ensures
        versions_sorted(r@),
        r@.to_multiset() == v@.to_multiset(),
{
    broadcast use vstd::seq_lib::group_to_multiset_ensures;

    let mut out: Vec<MemoryVersion> = Vec::new();
    let mut i: usize = 0;
    while i < v.len()
        invariant
            0 <= i <= v@.len(),
            versions_sorted(out@),
            out@.to_multiset() == v@.take(i as int).to_multiset(),
        decreases v@.len() - i,
    {
        let x = v[i];
        let mut p: usize = 0;
        while p < out.len() && version_leq(out[p], x)
            invariant
                0 <= p <= out@.len(),
                forall|k: int| 0 <= k < p ==> version_le(out@[k], x),
            decreases out@.len() - p,
        {
            p += 1;
        }
        let ghost before = out@;
        out.insert(p, x);
        proof {
            vstd::seq_lib::to_multiset_insert(before, p as int, x);
            assert(v@.take(i + 1) =~= v@.take(i as int).push(x));
            assert forall|a: int, b: int| 0 <= a < b < out@.len() implies version_le(
                out@[a],
                out@[b],
            ) by {
                if b < p {
                } else if a < p && b == p {
                } else if a < p {
                    assert(out@[b] == before[b - 1]);
                    assert(version_le(before[a], before[b - 1]));
                } else if a == p {
                    assert(out@[b] == before[b - 1]);
                    assert(!version_le(before[p as int], x) || p == before.len());
                    assert(version_le(before[p as int], before[b - 1]) || b - 1 == p);
                } else {
                    assert(out@[a] == before[a - 1]);
                    assert(out@[b] == before[b - 1]);
                }
            }
        }
        i += 1;
        proof {
            assert(v@.take(i as int) =~= v@.take(i - 1).push(x));
            v@.take(i - 1).to_multiset_ensures();
            assert(v@.take(i as int).to_multiset() =~= v@.take(i - 1).to_multiset().insert(x));
        }
    }
    assert(v@.take(v@.len() as int) =~= v@);
    out
}

/// One more element of a prefix either joins its filter or not.
pub proof fn lemma_filter_take<A>(s: Seq<A>, i: int, pred: spec_fn(A) -> bool)
    requires
        0 <= i < s.len(),
    ensures
        s.take(i + 1).filter(pred) == if pred(s[i]) {
            s.take(i).filter(pred).push(s[i])
        } else {
            s.take(i).filter(pred)
        },
{
    reveal_with_fuel(Seq::filter, 1);
    assert(s.take(i + 1).drop_last() =~= s.take(i));
}

/// Copies a list of (node, version) pairs.
fn copy_pairs(v: &Vec<(u8, u64)>) -> (r: Vec<(u8, u64)>)
    ensures
        r@ == v@,
{
    let mut out: Vec<(u8, u64)> = Vec::new();
    let mut i: usize = 0;
    while i < v.len()
        invariant
            0 <= i <= v@.len(),
            out@ == v@.take(i as int),
        decreases v@.len() - i,
    {
        out.push(v[i]);
        i += 1;
        assert(out@ =~= v@.take(i as int));
    }
    assert(v@.take(i as int) =~= v@);
    out
}

/// Self-test of the agent: creation, recorded changes, local fallback.
pub fn demo() -> (r: bool)
    ensures
        r,
{
    let mut sync = CrdtMemorySync::new(1);
    if sync.active || sync.local_version != 0 {
        return false;
    }
    sync.record_change();
    if sync.local_version != 1 {
        return false;
    }
    sync.record_change();
    if sync.local_version != 2 {
        return false;
    }
    if sync.local_version() != 2 {
        return false;
    }
    if sync.node_versions.len() != 0 {
        return false;
    }
    true
}

impl CrdtMemorySync {
    /// Fresh agent: version 0, no peers, no conflicts, never synced.
    pub fn new(node_id: u8) -> (r: Self)
        ensures
            r@ == (SyncModel {
                node_id,
                local_version: 0,
                own_writes: 0,
                node_versions: Seq::empty(),
                conflicts: Seq::empty(),
                pending: Seq::empty(),
                last_sync_at: None,
                active: false,
            }),
    {
        Self {
            node_id,
            local_version: 0,
            own_writes: 0,
            node_versions: Vec::new(),
            conflicts: Vec::new(),
            pending: Vec::new(),
            last_sync_at: None,
            active: false,
        }
    }

    /// Local node id.
    pub fn node_id(&self) -> (r: u8)
        ensures
            r == self@.node_id,
    {
        self.node_id
    }

    /// Full known clock: own version first, then the known versions.
    pub fn announce(&self) -> (r: Vec<(u8, u64)>)
        ensures
            r@ == seq![(self@.node_id, self@.local_version)] + self@.node_versions,
    {
        let mut out: Vec<(u8, u64)> = Vec::new();
        out.push((self.node_id, self.local_version));
        let mut i: usize = 0;
        while i < self.node_versions.len()
            invariant
                0 <= i <= self.node_versions@.len(),
                out@ == seq![(self.node_id, self.local_version)] + self.node_versions@.take(
                    i as int,
                ),
            decreases self.node_versions@.len() - i,
        {
            out.push(self.node_versions[i]);
            i += 1;
            assert(out@ =~= seq![(self.node_id, self.local_version)] + self.node_versions@.take(
                i as int,
            ));
        }
        assert(self.node_versions@.take(i as int) =~= self.node_versions@);
        out
    }

    /// What a peer reports as "what I know" in a delta request.
    pub fn known_clock(&self) -> (r: Vec<(u8, u64)>)
        ensures
            r@ == seq![(self@.node_id, self@.local_version)] + self@.node_versions,
    {
        self.announce()
    }

    /// Durable state of the agent.
    pub fn state(&self) -> (r: CrdtState)
        ensures
            r.node_id == self@.node_id,
            r.local_version == self@.local_version,
            r.own_writes == self@.own_writes,
            r.node_versions@ == self@.node_versions,
    {
        CrdtState {
            node_id: self.node_id,
            local_version: self.local_version,
            own_writes: self.own_writes,
            node_versions: copy_pairs(&self.node_versions),
        }
    }

    /// Restores a durable state; refuses (changing nothing) a state of
    /// another node.
    pub fn restore(&mut self, s: CrdtState) -> (r: bool)
        ensures
            r == (s.node_id == old(self)@.node_id),
            !r ==> final(self)@ == old(self)@,
            r ==> final(self)@ == (SyncModel {
                local_version: s.local_version,
                own_writes: s.own_writes,
                node_versions: s.node_versions@,
                ..old(self)@
            }),
    {
        if s.node_id != self.node_id {
            return false;
        }
        self.local_version = s.local_version;
        self.own_writes = s.own_writes;
        self.node_versions = s.node_versions;
        true
    }

    /// Current local version.
    pub fn local_version(&self) -> (r: u64)
        ensures
            r == self@.local_version,
    {
        self.local_version
    }

    /// Number of local writes.
    pub fn own_writes(&self) -> (r: u64)
        ensures
            r == self@.own_writes,
    {
        self.own_writes
    }

    /// Marks a local mutation: both counters advance (saturating) and the
    /// new version joins the pending deltas.
    pub fn record_change(&mut self)
        ensures
            final(self)@ == (SyncModel {
                local_version: if old(self)@.local_version == u64::MAX {
                    u64::MAX
                } else {
                    (old(self)@.local_version + 1) as u64
                },
                own_writes: if old(self)@.own_writes == u64::MAX {
                    u64::MAX
                } else {
                    (old(self)@.own_writes + 1) as u64
                },
                pending: old(self)@.pending.push(final(self)@.local_version),
                ..old(self)@
            }),
    {
        self.local_version = self.local_version.saturating_add(1);
        self.own_writes = self.own_writes.saturating_add(1);
        self.pending.push(self.local_version);
    }

    /// Local deltas not yet delivered.
    pub fn pending_deltas(&self) -> (r: usize)
        ensures
            r == self@.pending.len(),
    {
        self.pending.len()
    }

    /// Applies a received version under the policy of its layer: L0/L1/L6
    /// never adopt a remote version.
    pub fn apply_remote_version_with_policy(&mut self, node: u8, v: u64, policy: MergePolicy) -> (r:
        MergeVerdict)
        ensures
            !policy_accepts(policy) ==> r == MergeVerdict::Rejected && final(self)@ == old(self)@,
            policy_accepts(policy) ==> (final(self)@, r) == apply_step(old(self)@, node, v),
    {
        if !policy.accepts_remote() {
            return MergeVerdict::Rejected;
        }
        self.apply_remote_version(node, v)
    }

    /// Index of the first known version of `node` (len when none).
    fn find_peer(&self, node: u8) -> (r: usize)
        ensures
            r == first_over(self.node_versions@, node, 0),
    {
        let mut j: usize = 0;
        while j < self.node_versions.len()
            invariant
                0 <= j <= self.node_versions@.len(),
                forall|k: int| 0 <= k < j ==> self.node_versions@[k].0 != node,
            decreases self.node_versions@.len() - j,
        {
            if self.node_versions[j].0 == node {
                proof {
                    lemma_first_over_is(self.node_versions@, node, j as int);
                }
                return j;
            }
            j += 1;
        }
        proof {
            lemma_first_over_is(self.node_versions@, node, j as int);
        }
        j
    }

    /// Applies a received version and says what became of it: own echo,
    /// empty version, stale, duplicate, adopted, or concurrent (preserved).
    pub fn apply_remote_version(&mut self, node: u8, v: u64) -> (r: MergeVerdict)
        ensures
            (final(self)@, r) == apply_step(old(self)@, node, v),
            r == MergeVerdict::Conflict ==> old(self)@.own_writes > 0 || old(self)@.node_versions.len() > 1
                || exists|k: int|
                0 <= k < old(self)@.node_versions.len() && #[trigger] old(self)@.node_versions[k].0 != node,
            old(self)@.own_writes == 0 && node != old(self)@.node_id && v != 0 && old(self)@.node_versions.len()
                <= 1 && (forall|k: int| 0 <= k < old(self)@.node_versions.len() ==> #[trigger] old(self)@.node_versions[k].0 == node)
                && !(known_of(old(self)@.node_versions, node) matches Some(k) && v <= k) ==> r == MergeVerdict::Applied
                && final(self)@.conflicts == old(self)@.conflicts,
    {
        proof {
            lemma_verdict_bounds(self@, node, v);
        }
        if node == self.node_id {
            return MergeVerdict::SelfPacket;
        }
        if v == 0 {
            return MergeVerdict::Duplicate;
        }
        let j = self.find_peer(node);
        if j < self.node_versions.len() {
            let k = self.node_versions[j].1;
            if v < k {
                return MergeVerdict::Stale;
            }
            if v == k {
                return MergeVerdict::Duplicate;
            }
        }
        let len = self.node_versions.len();
        let has_other = self.own_writes > 0 || len > 1 || (len == 1 && self.node_versions[0].0
            != node);
        self.upsert_peer_version(node, v);
        if has_other {
            let mut seen = false;
            let mut t: usize = 0;
            while t < self.conflicts.len()
                invariant
                    0 <= t <= self.conflicts@.len(),
                    seen == exists|q: int|
                        0 <= q < t && self.conflicts@[q] == (MemoryVersion {
                            node_id: node,
                            version: v,
                        }),
                decreases self.conflicts@.len() - t,
            {
                if self.conflicts[t].node_id == node && self.conflicts[t].version == v {
                    seen = true;
                }
                t += 1;
            }
            if !seen {
                self.conflicts.push(MemoryVersion { node_id: node, version: v });
            }
            MergeVerdict::Conflict
        } else {
            MergeVerdict::Applied
        }
    }

    /// Missing causal range for a peer: every version known here above the
    /// peer's version of that node, sorted by (node, version).
    pub fn missing_after(&self, peer_versions: &[(u8, u64)]) -> (r: Vec<MemoryVersion>)
        ensures
            versions_sorted(r@),
            r@.to_multiset() == missing_candidates(self@, peer_versions@).to_multiset(),
    {
        let mut out: Vec<MemoryVersion> = Vec::new();
        let ghost pred = |p: (u8, u64)| peer_known(peer_versions@, p.0) < p.1;
        let ghost mk = |p: (u8, u64)| MemoryVersion { node_id: p.0, version: p.1 };
        let mut i: usize = 0;
        while i < self.node_versions.len()
            invariant
                0 <= i <= self.node_versions@.len(),
                out@ == self.node_versions@.take(i as int).filter(pred).map_values(mk),
                pred == (|p: (u8, u64)| peer_known(peer_versions@, p.0) < p.1),
                mk == (|p: (u8, u64)| MemoryVersion { node_id: p.0, version: p.1 }),
            decreases self.node_versions@.len() - i,
        {
            let (n, k) = self.node_versions[i];
            let known = known_in(peer_versions, n);
            let ghost before = out@;
            if known < k {
                out.push(MemoryVersion { node_id: n, version: k });
            }
            proof {
                lemma_filter_take(self.node_versions@, i as int, pred);
                let f0 = self.node_versions@.take(i as int).filter(pred);
                assert(f0.push((n, k)).map_values(mk) =~= f0.map_values(mk).push(mk((n, k))));
            }
            i += 1;
        }
        assert(self.node_versions@.take(i as int) =~= self.node_versions@);
        if known_in(peer_versions, self.node_id) < self.local_version {
            out.push(MemoryVersion { node_id: self.node_id, version: self.local_version });
        }
        sort_versions(out)
    }

    /// Inserts or updates the known version of a peer (dedup by node id).
    fn upsert_peer_version(&mut self, node: u8, v: u64)
        ensures
            final(self)@ == (SyncModel {
                node_versions: upsert(old(self)@.node_versions, node, v),
                ..old(self)@
            }),
    {
        let j = self.find_peer(node);
        if j < self.node_versions.len() {
            self.node_versions.set(j, (node, v));
        } else {
            self.node_versions.push((node, v));
        }
    }

    /// Applies every received version in order.
    fn receive_all(&mut self, pkts: &Vec<(u8, u64)>)
        ensures
            final(self)@ == apply_all(old(self)@, pkts@),
            final(self)@.node_id == old(self)@.node_id,
            final(self)@.local_version == old(self)@.local_version,
            final(self)@.own_writes == old(self)@.own_writes,
            final(self)@.pending == old(self)@.pending,
            final(self)@.last_sync_at == old(self)@.last_sync_at,
            final(self)@.active == old(self)@.active,
    {
        let mut i: usize = 0;
        while i < pkts.len()
            invariant
                0 <= i <= pkts@.len(),
                self@.node_id == old(self)@.node_id,
                self@.local_version == old(self)@.local_version,
                self@.own_writes == old(self)@.own_writes,
                self@.pending == old(self)@.pending,
                self@.last_sync_at == old(self)@.last_sync_at,
                self@.active == old(self)@.active,
                self@ == apply_all(old(self)@, pkts@.take(i as int)),
            decreases pkts@.len() - i,
        {
            let (node, v) = pkts[i];
            let _ = self.apply_remote_version(node, v);
            proof {
                assert(pkts@.take(i + 1).drop_last() =~= pkts@.take(i as int));
            }
            i += 1;
        }
        proof {
            assert(pkts@.take(i as int) =~= pkts@);
        }
    }

    /// Transmission plan of one sync round: `None` while rate-limited (no
    /// change); otherwise the pending deltas some peer still lacks (all of
    /// them when no peer is known), and the round is recorded.
    pub fn plan_transmission(&mut self, now: u64) -> (r: Option<Vec<u64>>)
        ensures
            rate_limited(old(self)@, now) ==> r is None && final(self)@ == old(self)@,
            !rate_limited(old(self)@, now) ==> (r matches Some(ds) && ds@ == old(self)@.pending.filter(
                |v: u64| delta_needed(old(self)@.node_versions, v),
            ) && final(self)@ == (SyncModel {
                pending: Seq::empty(),
                last_sync_at: Some(now),
                active: true,
                ..old(self)@
            })),
            !rate_limited(old(self)@, now) ==> forall|v: u64|
                #[trigger] r->0@.contains(v) == (old(self)@.pending.contains(v) && (old(self)@.node_versions.len() == 0
                    || exists|k: int| 0 <= k < old(self)@.node_versions.len() && #[trigger] old(self)@.node_versions[k].1 < v)),
    {
        if let Some(last) = self.last_sync_at {
            if now.wrapping_sub(last) < SYNC_INTERVAL {
                return None;
            }
        }
        self.last_sync_at = Some(now);
        self.active = true;
        let mut pending: Vec<u64> = Vec::new();
        core::mem::swap(&mut pending, &mut self.pending);
        let ghost needed = |v: u64| delta_needed(self.node_versions@, v);
        let mut out: Vec<u64> = Vec::new();
        let mut i: usize = 0;
        while i < pending.len()
            invariant
                0 <= i <= pending@.len(),
                out@ == pending@.take(i as int).filter(needed),
                needed == (|v: u64| delta_needed(self.node_versions@, v)),
            decreases pending@.len() - i,
        {
            let v = pending[i];
            let mut needs = self.node_versions.len() == 0;
            let mut k: usize = 0;
            while k < self.node_versions.len()
                invariant
                    0 <= k <= self.node_versions@.len(),
                    needs == (self.node_versions@.len() == 0 || exists|q: int|
                        0 <= q < k && self.node_versions@[q].1 < v),
                decreases self.node_versions@.len() - k,
            {
                if self.node_versions[k].1 < v {
                    needs = true;
                }
                k += 1;
            }
            proof {
                lemma_filter_take(pending@, i as int, needed);
            }
            if needs {
                out.push(v);
            }
            i += 1;
        }
        assert(pending@.take(i as int) =~= pending@);
        proof {
            assert forall|v: u64| #[trigger] out@.contains(v) == (old(self)@.pending.contains(v) && (
            old(self)@.node_versions.len() == 0 || exists|k: int|
                0 <= k < old(self)@.node_versions.len() && #[trigger] old(self)@.node_versions[k].1 < v)) by {
                law_plan_sends_what_a_peer_lacks(old(self)@, v);
            }
        }
        Some(out)
    }

    /// The decisions of one sync round on the versions a transport
    /// delivered: they are applied in order as by `apply_remote_version`,
    /// then the transmission is planned as by `plan_transmission` (`None`
    /// while rate-limited; otherwise the deltas to send, the round recorded).
    pub fn sync_round(&mut self, now: u64, received: &Vec<(u8, u64)>) -> (r: Option<Vec<u64>>)
        ensures
            ({
                let m = apply_all(old(self)@, received@);
                &&& rate_limited(m, now) ==> r is None && final(self)@ == m
                &&& !rate_limited(m, now) ==> (r matches Some(ds) && ds@ == m.pending.filter(
                    |v: u64| delta_needed(m.node_versions, v),
                ) && final(self)@ == (SyncModel {
                    pending: Seq::empty(),
                    last_sync_at: Some(now),
                    active: true,
                    ..m
                }))
            }),
            rate_limited(apply_all(old(self)@, received@), now) == rate_limited(old(self)@, now),
    {
        proof {
            lemma_apply_all_keeps(old(self)@, received@);
        }
        self.receive_all(received);
        self.plan_transmission(now)
    }

    /// One sync round over a transport: applies every received version,
    /// then (outside the rate-limit window) sends each pending delta some
    /// peer lacks and a heartbeat with the local version.
    pub fn sync<T: Transport>(&mut self, now: u64, transport: &mut T) -> (r: Result<(), SgdbError>)
        ensures
            final(self)@.node_id == old(self)@.node_id,
            final(self)@.local_version == old(self)@.local_version,
            final(self)@.own_writes == old(self)@.own_writes,
            rate_limited(old(self)@, now) ==> r is Ok && final(self)@.pending == old(self)@.pending
                && final(self)@.last_sync_at == old(self)@.last_sync_at,
            !rate_limited(old(self)@, now) ==> final(self)@.pending.len() == 0
                && final(self)@.last_sync_at == Some(now) && final(self)@.active,
            exists|received: Seq<(u8, u64)>| final(self)@ == #[trigger] sync_round_state(old(self)@, now, received),
    {
        let pkts = transport.recv_crdt();
        proof {
            lemma_apply_all_keeps(old(self)@, pkts@);
        }
        let plan = self.sync_round(now, &pkts);
        let ghost after = self@;
        assert(after == sync_round_state(old(self)@, now, pkts@));
        match plan {
            None => Ok(()),
            Some(deltas) => {
                let mut i: usize = 0;
                while i < deltas.len()
                    invariant
                        0 <= i <= deltas@.len(),
                        self@ == after,
                        after.node_id == old(self)@.node_id,
                        after.local_version == old(self)@.local_version,
                        after.own_writes == old(self)@.own_writes,
                        !rate_limited(old(self)@, now),
                        after.pending.len() == 0,
                        after.last_sync_at == Some(now),
                        after.active,
                        after == sync_round_state(old(self)@, now, pkts@),
                    decreases deltas@.len() - i,
                {
                    let _ = transport.send_delta(self.node_id, deltas[i], &[])?;
                    i += 1;
                }
                transport.send_crdt(self.node_id, self.local_version)
            },
        }
    }
}

/// Known version of `n` in a peer clock (0 when absent).
fn known_in(peer: &[(u8, u64)], n: u8) -> (r: u64)
    ensures
        r == peer_known(peer@, n),
{
    let mut j: usize = 0;
    while j < peer.len()
        invariant
            0 <= j <= peer@.len(),
            forall|k: int| 0 <= k < j ==> peer@[k].0 != n,
        decreases peer@.len() - j,
    {
        if peer[j].0 == n {
            proof {
                lemma_first_over_is(peer@, n, j as int);
            }
            return peer[j].1;
        }
        j += 1;
    }
    proof {
        lemma_first_over_is(peer@, n, j as int);
    }
    0
}

// ---------------------------------------------------------------------------
// Laws of the version merge
// ---------------------------------------------------------------------------

/// What `upsert` leaves known: `v` for the updated node, everything else
/// unchanged.
pub proof fn lemma_known_of_upsert(vs: Seq<(u8, u64)>, n: u8, v: u64, x: u8)
    ensures
        known_of(upsert(vs, n, v), x) == (if x == n {
            Some(v)
        } else {
            known_of(vs, x)
        }),
{
    let j = first_over(vs, n, 0);
    lemma_first_over(vs, n, 0);
    lemma_first_over(vs, x, 0);
    let jx = first_over(vs, x, 0);
    let u = upsert(vs, n, v);
    if j < vs.len() {
        assert(u == vs.update(j, (n, v)));
        if x == n {
            lemma_first_over_is(u, n, j);
        } else {
            assert forall|k: int| 0 <= k < jx implies u[k].0 != x by {
                if k == j {
                } else {
                }
            }
            if jx < vs.len() {
                assert(jx != j);
                lemma_first_over_is(u, x, jx);
            } else {
                lemma_first_over_is(u, x, u.len() as int);
            }
        }
    } else {
        assert(u == vs.push((n, v)));
        if x == n {
            lemma_first_over_is(u, n, vs.len() as int);
        } else {
            if jx < vs.len() {
                lemma_first_over_is(u, x, jx);
            } else {
                assert(u[vs.len() as int].0 == n);
                lemma_first_over_is(u, x, u.len() as int);
            }
        }
    }
}

/// Re-delivering a version is idempotent: applying the same `(node, v)` a
/// second time leaves the state unchanged and neither adopts nor records a
/// conflict.
pub proof fn law_redelivery_idempotent(m: SyncModel, node: u8, v: u64)
    ensures
        ({
            let m1 = apply_step(m, node, v).0;
            let (m2, verdict) = apply_step(m1, node, v);
            m2 == m1 && verdict != MergeVerdict::Applied && verdict != MergeVerdict::Conflict
        }),
{
    let m1 = apply_step(m, node, v).0;
    lemma_known_of_upsert(m.node_versions, node, v, node);
}

/// Known versions never regress: after any delivery each node known before
/// is still known, at a version no lower than before.
pub proof fn law_no_regression(m: SyncModel, node: u8, v: u64, x: u8)
    requires
        known_of(m.node_versions, x) is Some,
    ensures
        ({
            let m1 = apply_step(m, node, v).0;
            known_of(m1.node_versions, x) matches Some(k1) && k1 >= known_of(
                m.node_versions,
                x,
            )->0
        }),
{
    lemma_known_of_upsert(m.node_versions, node, v, x);
}

/// A delivered version is known afterwards unless it was the node's own
/// echo, the empty version, or older than what was known.
pub proof fn law_delivery_is_known(m: SyncModel, node: u8, v: u64)
    ensures
        ({
            let (m1, verdict) = apply_step(m, node, v);
            (verdict == MergeVerdict::Applied || verdict == MergeVerdict::Conflict
                || (verdict == MergeVerdict::Duplicate && v != 0 && node != m.node_id))
                ==> known_of(m1.node_versions, node) == Some(v)
        }),
{
    lemma_known_of_upsert(m.node_versions, node, v, node);
}

/// The agent never adopts its own echo, and the local state (id, version,
/// own writes, pending deltas, sync clock) is untouched by any delivery.
pub proof fn law_delivery_keeps_local_state(m: SyncModel, node: u8, v: u64)
    ensures
        ({
            let (m1, verdict) = apply_step(m, node, v);
            &&& node == m.node_id ==> m1 == m && verdict == MergeVerdict::SelfPacket
            &&& m1.node_id == m.node_id
            &&& m1.local_version == m.local_version
            &&& m1.own_writes == m.own_writes
            &&& m1.pending == m.pending
            &&& m1.last_sync_at == m.last_sync_at
            &&& m1.active == m.active
        }),
{
}

/// Preserved conflicts are never lost: each delivery keeps every recorded
/// concurrent version, in place, and adds at most the delivered one.
pub proof fn law_conflicts_preserved(m: SyncModel, node: u8, v: u64)
    ensures
        ({
            let m1 = apply_step(m, node, v).0;
            &&& m1.conflicts.len() >= m.conflicts.len()
            &&& m1.conflicts.subrange(0, m.conflicts.len() as int) == m.conflicts
            &&& m1.conflicts.len() <= m.conflicts.len() + 1
        }),
{
    let m1 = apply_step(m, node, v).0;
    assert(m1.conflicts.subrange(0, m.conflicts.len() as int) =~= m.conflicts);
}


/// No node appears twice among the known versions (what `upsert` keeps).
pub open spec fn nodes_distinct(vs: Seq<(u8, u64)>) -> bool {
    forall|a: int, b: int| 0 <= a < b < vs.len() ==> vs[a].0 != vs[b].0
}

/// Law: the verdict of a delivery `(n, v)`, in terms of what the agent
/// knows. Its own echo is `SelfPacket`; the empty version or the version
/// already known is `Duplicate`; an older one is `Stale`. A newer version
/// is a `Conflict` exactly when the agent holds state independent of `n`
/// (own writes, or a known version of another node), and `Applied`
/// otherwise: a causal successor of the only known peer is adopted. An
/// adopted version becomes the known one and records no conflict; a
/// conflict is recorded.
pub proof fn law_delivery_verdicts(m: SyncModel, n: u8, v: u64)
    requires
        nodes_distinct(m.node_versions),
    ensures
        ({
            let (m1, r) = apply_step(m, n, v);
            let known = known_of(m.node_versions, n);
            let newer = n != m.node_id && v != 0 && !(known matches Some(k) && v <= k);
            let independent = m.own_writes > 0 || exists|k: int|
                0 <= k < m.node_versions.len() && #[trigger] m.node_versions[k].0 != n;
            &&& (r == MergeVerdict::SelfPacket) == (n == m.node_id)
            &&& n != m.node_id ==> ((r == MergeVerdict::Duplicate) == (v == 0 || known == Some(v)))
            &&& n != m.node_id && v != 0 ==> ((r == MergeVerdict::Stale) == (known matches Some(k) && v < k))
            &&& newer ==> ((r == MergeVerdict::Conflict) == independent)
            &&& newer ==> ((r == MergeVerdict::Applied) == !independent)
            &&& !newer ==> m1 == m
            &&& r == MergeVerdict::Applied ==> m1.conflicts == m.conflicts && known_of(m1.node_versions, n) == Some(v)
            &&& r == MergeVerdict::Conflict ==> m1.conflicts.contains(MemoryVersion { node_id: n, version: v })
                && known_of(m1.node_versions, n) == Some(v)
        }),
{
    let vs = m.node_versions;
    lemma_known_of_upsert(vs, n, v, n);
    let independent = m.own_writes > 0 || exists|k: int| 0 <= k < vs.len() && #[trigger] vs[k].0 != n;
    if has_other_state(m, n) && m.own_writes == 0 {
        if vs.len() > 1 {
            assert(vs[0].0 != vs[1].0);
            if vs[0].0 != n {
                assert(vs[0].0 != n);
            } else {
                assert(vs[1].0 != n);
            }
        } else {
            assert(vs[0].0 != n);
        }
    }
    if independent && m.own_writes == 0 {
        let k = choose|k: int| 0 <= k < vs.len() && #[trigger] vs[k].0 != n;
        if vs.len() == 1 {
            assert(k == 0);
        }
    }
    assert(has_other_state(m, n) == independent);
    let mv = MemoryVersion { node_id: n, version: v };
    if !m.conflicts.contains(mv) {
        assert(m.conflicts.push(mv)[m.conflicts.len() as int] == mv);
    }
}

/// Law: on an agent with no writes of its own whose only known version is
/// of node `n`, a newer version of `n` is adopted: it becomes the known
/// version and no conflict is recorded.
pub proof fn law_successor_of_sole_peer_applied(m: SyncModel, n: u8, k: u64, v: u64)
    requires
        m.own_writes == 0,
        m.node_versions == seq![(n, k)],
        n != m.node_id,
        k < v,
    ensures
        apply_step(m, n, v) == (SyncModel { node_versions: seq![(n, v)], ..m }, MergeVerdict::Applied),
{
    lemma_first_over_is(m.node_versions, n, 0);
    assert(m.node_versions.update(0, (n, v)) =~= seq![(n, v)]);
}

/// Law: a transmission plan sends every pending delta that some known peer
/// lacks (a peer whose known version is below it), and all of them when no
/// peer is known; it sends nothing else, in the pending order.
pub proof fn law_plan_sends_what_a_peer_lacks(m: SyncModel, v: u64)
    ensures
        ({
            let ds = m.pending.filter(|x: u64| delta_needed(m.node_versions, x));
            &&& ds.contains(v) == (m.pending.contains(v) && (m.node_versions.len() == 0 || exists|k: int|
                0 <= k < m.node_versions.len() && #[trigger] m.node_versions[k].1 < v))
            &&& ds.len() <= m.pending.len()
        }),
{
    let p = |x: u64| delta_needed(m.node_versions, x);
    let ds = m.pending.filter(p);
    if ds.contains(v) {
        m.pending.lemma_filter_contains_rev(p, v);
        let i = choose|i: int| 0 <= i < ds.len() && ds[i] == v;
        m.pending.lemma_filter_pred(p, i);
    }
    if m.pending.contains(v) && p(v) {
        let i = choose|i: int| 0 <= i < m.pending.len() && m.pending[i] == v;
        m.pending.lemma_filter_contains(p, i);
    }
    m.pending.lemma_filter_len(p);
}


/// What a conflict needs, and when a newer version is simply adopted.
proof fn lemma_verdict_bounds(m: SyncModel, node: u8, v: u64)
    ensures
        apply_step(m, node, v).1 == MergeVerdict::Conflict ==> m.own_writes > 0 || m.node_versions.len() > 1
            || exists|k: int| 0 <= k < m.node_versions.len() && #[trigger] m.node_versions[k].0 != node,
        m.own_writes == 0 && node != m.node_id && v != 0 && m.node_versions.len() <= 1 && (forall|k: int|
            0 <= k < m.node_versions.len() ==> #[trigger] m.node_versions[k].0 == node) && !(known_of(
            m.node_versions,
            node,
        ) matches Some(k) && v <= k) ==> apply_step(m, node, v).1 == MergeVerdict::Applied
            && apply_step(m, node, v).0.conflicts == m.conflicts,
{
    if m.node_versions.len() == 1 && m.node_versions[0].0 != node {
        assert(exists|k: int| 0 <= k < m.node_versions.len() && #[trigger] m.node_versions[k].0 != node);
    }
    if m.node_versions.len() == 1 && (forall|k: int| 0 <= k < m.node_versions.len() ==> #[trigger] m.node_versions[k].0 == node) {
        assert(m.node_versions[0].0 == node);
    }
}


/// Law: the rate limit. An agent that never synced may always send; one
/// that last synced at `l` waits until `SYNC_INTERVAL` ticks have passed
/// (times compared without wrap-around here).
pub proof fn law_rate_limit_window(m: SyncModel, now: u64)
    ensures
        m.last_sync_at is None ==> !rate_limited(m, now),
        forall|l: u64| m.last_sync_at == Some(l) && l <= now ==> (rate_limited(m, now) == (now - l < SYNC_INTERVAL)),
{
}

} // verus!
