use neural_sgdb::crdt::{
    demo, CrdtMemorySync, CrdtState, MemoryVersion, MergePolicy, MergeVerdict, SignedEnvelope, Transport,
};
use neural_sgdb::error::SgdbError;
use neural_sgdb::memory_doc::MemoryLayer;

#[derive(Default)]
struct LoopTransport {
    sent: Vec<(u8, u64)>,
}

impl LoopTransport {
    fn take_sent(&mut self) -> Vec<(u8, u64)> {
        std::mem::take(&mut self.sent)
    }
    fn from(pkts: Vec<(u8, u64)>) -> Self {
        Self { sent: pkts }
    }
}

impl Transport for LoopTransport {
    fn send_crdt(&mut self, node: u8, v: u64) -> Result<(), SgdbError> {
        self.sent.push((node, v));
        Ok(())
    }
    fn recv_crdt(&mut self) -> Vec<(u8, u64)> {
        std::mem::take(&mut self.sent)
    }
}

#[test]
fn demo_ok() {
    assert!(demo());
}

#[test]
fn concurrent_writes_preserved() {
    let mut a = CrdtMemorySync::new(1);
    let mut b = CrdtMemorySync::new(2);
    a.record_change();
    a.record_change();
    b.record_change();
    let mut ta = LoopTransport::default();
    let mut tb = LoopTransport::default();
    a.sync(0, &mut ta).unwrap();
    b.sync(0, &mut tb).unwrap();
    assert_eq!(a.apply_remote_version(2, 1), MergeVerdict::Conflict);
    assert_eq!(b.apply_remote_version(1, 2), MergeVerdict::Conflict);
    assert_eq!(a.local_version(), 2);
    assert_eq!(b.local_version(), 1);
    assert_eq!(a.node_versions, vec![(2, 1)]);
    assert_eq!(b.node_versions, vec![(1, 2)]);
    assert_eq!(a.conflicts, vec![MemoryVersion { node_id: 2, version: 1 }]);
    assert_eq!(b.conflicts, vec![MemoryVersion { node_id: 1, version: 2 }]);
}

#[test]
fn self_packet_ignored() {
    let mut a = CrdtMemorySync::new(7);
    a.record_change();
    let mut t = LoopTransport::from(vec![(7, 1)]);
    assert_eq!(a.apply_remote_version(7, 1), MergeVerdict::SelfPacket);
    a.sync(0, &mut t).unwrap();
    assert!(a.node_versions.is_empty());
    assert!(a.conflicts.is_empty());
    assert_eq!(a.local_version(), 1);
}

#[test]
fn older_and_duplicate_ignored() {
    let mut a = CrdtMemorySync::new(1);
    a.apply_remote_version(2, 5);
    assert_eq!(a.node_versions, vec![(2, 5)]);
    assert_eq!(a.apply_remote_version(2, 3), MergeVerdict::Stale);
    assert_eq!(a.node_versions, vec![(2, 5)]);
    assert_eq!(a.apply_remote_version(2, 5), MergeVerdict::Duplicate);
    assert_eq!(a.node_versions, vec![(2, 5)]);
}

#[test]
fn fresh_node_adopts_remote() {
    let mut a = CrdtMemorySync::new(1);
    assert_eq!(a.apply_remote_version(2, 4), MergeVerdict::Applied);
    assert_eq!(a.node_versions, vec![(2, 4)]);
    assert!(a.conflicts.is_empty());
}

#[test]
fn local_fallback_no_peers() {
    let mut a = CrdtMemorySync::new(7);
    a.record_change();
    let mut t = LoopTransport::default();
    a.sync(0, &mut t).unwrap();
    assert_eq!(a.local_version(), 1);
    assert!(a.active);
    assert!(a.node_versions.is_empty());
}

#[test]
fn rate_limit() {
    let mut a = CrdtMemorySync::new(1);
    let mut t = LoopTransport::default();
    a.sync(0, &mut t).unwrap();
    assert_eq!(t.take_sent().len(), 1);
    a.sync(50, &mut t).unwrap();
    assert_eq!(t.take_sent().len(), 0);
    a.sync(200, &mut t).unwrap();
    assert_eq!(t.take_sent().len(), 1);
}

#[test]
fn apply_remote_version_never_panics() {
    let mut a = CrdtMemorySync::new(1);
    assert_eq!(a.apply_remote_version(1, u64::MAX), MergeVerdict::SelfPacket);
    for &(node, v) in &[(0, 0), (255, u64::MAX), (2, 0), (2, u64::MAX), (2, u64::MAX)] {
        let _ = a.apply_remote_version(node, v);
    }
    assert!(!a.node_versions.iter().any(|(n, _)| *n == 1));
}

#[test]
fn signed_envelope_roundtrip_and_prefix() {
    let env = SignedEnvelope::new(3, b"payload".to_vec(), b"sig".to_vec());
    let enc = env.encode();
    let (dec, n) = SignedEnvelope::decode(&enc).unwrap();
    assert_eq!(n, enc.len());
    assert_eq!(dec, env);
    let empty = SignedEnvelope::new(1, Vec::new(), Vec::new());
    let (d2, n2) = SignedEnvelope::decode(&empty.encode()).unwrap();
    assert_eq!(d2, empty);
    assert_eq!(n2, 9);
    let mut ext = enc.clone();
    ext.extend_from_slice(b"next");
    let (d3, n3) = SignedEnvelope::decode(&ext).unwrap();
    assert_eq!(d3, env);
    assert_eq!(n3, enc.len());
}

#[test]
fn signed_envelope_never_panics_on_malformed() {
    let env = SignedEnvelope::new(1, vec![0xAB; 16], vec![0xCD; 8]);
    let enc = env.encode();
    for cut in 0..enc.len() {
        let _ = SignedEnvelope::decode(&enc[..cut]);
    }
    let mut bad = vec![0u8; 9];
    bad[1..5].copy_from_slice(&u32::MAX.to_le_bytes());
    bad[5..9].copy_from_slice(&u32::MAX.to_le_bytes());
    assert!(SignedEnvelope::decode(&bad).is_none());
    let mut state = 0x0DDB_1A5Eu64;
    for len in 0..64usize {
        let data: Vec<u8> = (0..len)
            .map(|_| {
                state = state.wrapping_mul(1103515245).wrapping_add(12345);
                ((state >> 32) & 0xFF) as u8
            })
            .collect();
        let _ = SignedEnvelope::decode(&data);
    }
}

#[test]
fn missing_after_requests_unseen_range() {
    let mut a = CrdtMemorySync::new(1);
    a.record_change();
    a.record_change();
    a.apply_remote_version(2, 4);
    a.apply_remote_version(3, 7);
    assert_eq!(
        a.missing_after(&[]),
        vec![
            MemoryVersion { node_id: 1, version: 2 },
            MemoryVersion { node_id: 2, version: 4 },
            MemoryVersion { node_id: 3, version: 7 },
        ]
    );
    assert_eq!(
        a.missing_after(&[(1, 1), (2, 4)]),
        vec![MemoryVersion { node_id: 1, version: 2 }, MemoryVersion { node_id: 3, version: 7 }]
    );
    assert!(a.missing_after(&[(1, 2), (2, 4), (3, 7)]).is_empty());
}

#[test]
fn version_zero_is_ignored() {
    let mut a = CrdtMemorySync::new(1);
    a.record_change();
    assert_eq!(a.apply_remote_version(2, 0), MergeVerdict::Duplicate);
    assert!(a.node_versions.is_empty());
    assert!(a.conflicts.is_empty());
    assert_eq!(a.apply_remote_version(2, 1), MergeVerdict::Conflict);
    assert_eq!(a.node_versions, vec![(2, 1)]);
}

#[test]
fn merge_policy_table() {
    assert_eq!(MergePolicy::for_layer(MemoryLayer::L0Sensory), MergePolicy::LocalOnly);
    assert_eq!(MergePolicy::for_layer(MemoryLayer::L1Working), MergePolicy::LocalWorking);
    assert_eq!(MergePolicy::for_layer(MemoryLayer::L2EpisodicShort), MergePolicy::MultiValueRegister);
    assert_eq!(MergePolicy::for_layer(MemoryLayer::L3EpisodicLong), MergePolicy::MultiValueRegister);
    assert_eq!(MergePolicy::for_layer(MemoryLayer::L4Semantic), MergePolicy::CausalLwwWithHistory);
    assert_eq!(MergePolicy::for_layer(MemoryLayer::L5Procedural), MergePolicy::ControlledLww);
    assert_eq!(MergePolicy::for_layer(MemoryLayer::L7Identity), MergePolicy::ControlledLww);
    assert_eq!(MergePolicy::for_layer(MemoryLayer::L6Reserved), MergePolicy::Reserved);
    assert!(!MergePolicy::LocalOnly.accepts_remote());
    assert!(!MergePolicy::LocalWorking.accepts_remote());
    assert!(!MergePolicy::Reserved.accepts_remote());
    for p in [MergePolicy::MultiValueRegister, MergePolicy::CausalLwwWithHistory, MergePolicy::ControlledLww] {
        assert!(p.accepts_remote(), "{} should accept remote", p.description());
    }
    for l in [
        MemoryLayer::L0Sensory,
        MemoryLayer::L1Working,
        MemoryLayer::L2EpisodicShort,
        MemoryLayer::L3EpisodicLong,
        MemoryLayer::L4Semantic,
        MemoryLayer::L5Procedural,
        MemoryLayer::L6Reserved,
        MemoryLayer::L7Identity,
    ] {
        let _ = MergePolicy::for_layer(l);
    }
}

#[test]
fn layer_policy_rejects_local_layers() {
    let mut a = CrdtMemorySync::new(1);
    for layer in [MemoryLayer::L0Sensory, MemoryLayer::L1Working, MemoryLayer::L6Reserved] {
        assert_eq!(
            a.apply_remote_version_with_policy(2, 1, MergePolicy::for_layer(layer)),
            MergeVerdict::Rejected
        );
        assert!(a.node_versions.is_empty(), "a local layer cannot register a peer");
    }
    assert_eq!(
        a.apply_remote_version_with_policy(2, 1, MergePolicy::for_layer(MemoryLayer::L4Semantic)),
        MergeVerdict::Applied
    );
}

#[test]
fn crdt_state_roundtrip_and_restore() {
    let mut a = CrdtMemorySync::new(7);
    a.record_change();
    a.record_change();
    assert_eq!(a.apply_remote_version(3, 5), MergeVerdict::Conflict);
    let s = a.state();
    let bytes = s.encode();
    assert_eq!(&bytes[0..4], b"CRDT");
    let dec = CrdtState::decode(&bytes).unwrap();
    assert_eq!(dec, s);
    let mut b = CrdtMemorySync::new(7);
    assert!(b.restore(dec.clone()));
    assert_eq!(b.local_version(), 2);
    assert_eq!(b.own_writes, 2);
    assert_eq!(b.node_versions, vec![(3, 5)]);
    let mut c = CrdtMemorySync::new(9);
    assert!(!c.restore(dec));
    assert_eq!(c.local_version(), 0, "nothing adopted");
    for n in [0usize, 1, 4, 14, 15, 16, 21, 22, 23, bytes.len() - 1] {
        let mut t = bytes.clone();
        t.truncate(n);
        assert!(CrdtState::decode(&t).is_err(), "truncated at {n} should fail");
    }
    assert!(CrdtState::decode(b"XXXX").is_err());
    assert!(CrdtState::decode(&[]).is_err());
}

fn rng(state: &mut u64) -> u64 {
    *state = state.wrapping_mul(6364136223846793005).wrapping_add(1442695040888963407);
    *state >> 32
}

#[test]
fn prop_envelope_roundtrip_lcg() {
    let mut state = 0xC0FF_EE00_5EED_0022u64;
    for _ in 0..1000 {
        let payload: Vec<u8> = (0..(rng(&mut state) % 100) as usize).map(|_| rng(&mut state) as u8).collect();
        let auth: Vec<u8> = (0..(rng(&mut state) % 100) as usize).map(|_| rng(&mut state) as u8).collect();
        let e = SignedEnvelope::new(rng(&mut state) as u8, payload, auth);
        let enc = e.try_encode().unwrap();
        let (dec, _) = SignedEnvelope::decode(&enc).unwrap();
        assert_eq!(dec, e);
    }
}

#[test]
fn prop_crdt_state_roundtrip_lcg() {
    let mut state = 0xC0FF_EE00_5EED_0023u64;
    for _ in 0..1000 {
        let nvs: Vec<(u8, u64)> =
            (0..(rng(&mut state) % 16) as usize).map(|_| ((rng(&mut state) % 8) as u8, rng(&mut state))).collect();
        let st = CrdtState {
            node_id: rng(&mut state) as u8,
            local_version: rng(&mut state),
            own_writes: rng(&mut state),
            node_versions: nvs,
        };
        let enc = st.try_encode().unwrap();
        let dec = CrdtState::decode(&enc).unwrap();
        assert_eq!(dec, st);
    }
}

#[test]
fn redelivery_is_idempotent_and_never_regresses() {
    let mut a = CrdtMemorySync::new(1);
    a.record_change();
    assert_eq!(a.apply_remote_version(2, 3), MergeVerdict::Conflict);
    let before = (a.node_versions.clone(), a.conflicts.clone(), a.local_version());
    assert_eq!(a.apply_remote_version(2, 3), MergeVerdict::Duplicate);
    assert_eq!(a.apply_remote_version(2, 1), MergeVerdict::Stale);
    assert_eq!((a.node_versions.clone(), a.conflicts.clone(), a.local_version()), before);
    assert_eq!(a.known_clock(), vec![(1, 1), (2, 3)]);
}

#[test]
fn sync_round_applies_received_then_plans() {
    let mut a = CrdtMemorySync::new(1);
    a.record_change();
    a.record_change();
    // received in order: a stale (3, 1) after (3, 4) is ignored
    let plan = a.sync_round(1000, &vec![(3, 4), (3, 1), (1, 9)]);
    assert_eq!(a.node_versions, vec![(3, 4)]);
    // local deltas 1 and 2: the only known peer is already at 4, so none is sent
    assert_eq!(plan, Some(vec![]));
    assert_eq!(a.pending_deltas(), 0);
    // within the rate limit: applied, nothing planned
    let plan2 = a.sync_round(1001, &vec![(5, 2)]);
    assert_eq!(plan2, None);
    assert_eq!(a.node_versions, vec![(3, 4), (5, 2)]);
}

#[test]
fn crdt_state_decode_errors_are_exact() {
    assert_eq!(CrdtState::decode(b"XXXX"), Err("bad crdt magic"));
    assert_eq!(CrdtState::decode(&[]), Err("bad crdt magic"));
    let mut a = CrdtMemorySync::new(7);
    a.record_change();
    let mut bytes = a.state().encode();
    bytes[4] = 2;
    assert_eq!(CrdtState::decode(&bytes), Err("bad crdt version"));
}

#[test]
fn truncated_crdt_state_is_rejected() {
    let mut a = CrdtMemorySync::new(7);
    a.record_change();
    a.apply_remote_version(3, 5);
    a.apply_remote_version(4, 2);
    let b = a.state().encode();
    for n in 0..b.len() {
        assert!(CrdtState::decode(&b[..n]).is_err(), "prefix of {n} bytes");
    }
    assert!(CrdtState::decode(&b).is_ok());
}
