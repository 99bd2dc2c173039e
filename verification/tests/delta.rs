use neural_sgdb::crdt::{CrdtState, MemoryDelta, MemorySnapshot, MemoryVersion, SignedEnvelope};
use neural_sgdb::memory_doc::{MemoryDoc, MemoryLayer, MemoryRecord, MemoryState};

fn sample_record() -> MemoryRecord {
    let mut doc = MemoryDoc::new(MemoryLayer::L4Semantic, "k", vec![1, 2, 3, 4]);
    doc.clock.tick(1);
    MemoryRecord::new(doc, MemoryState::Active, None)
}

fn rng(state: &mut u64) -> u64 {
    *state = state.wrapping_mul(6364136223846793005).wrapping_add(1442695040888963407);
    *state >> 32
}

fn random_record(state: &mut u64) -> MemoryRecord {
    let payload: Vec<u8> = (0..(rng(state) % 50) as usize).map(|_| rng(state) as u8).collect();
    let mut doc = MemoryDoc::new(MemoryLayer::L4Semantic, "k", payload);
    doc.clock.tick((rng(state) % 8) as u8);
    MemoryRecord::new(doc, MemoryState::Active, None)
}

fn random_versions(state: &mut u64, n: usize) -> Vec<MemoryVersion> {
    (0..n).map(|_| MemoryVersion { node_id: (rng(state) % 8) as u8, version: rng(state) }).collect()
}

#[test]
fn memory_version_eq_deterministic() {
    let v1 = MemoryVersion { node_id: 2, version: 7 };
    let v2 = MemoryVersion { node_id: 2, version: 7 };
    let v3 = MemoryVersion { node_id: 2, version: 8 };
    assert_eq!(v1, v2);
    assert_ne!(v1, v3);
    let rec = MemoryRecord::new(MemoryDoc::new(MemoryLayer::L4Semantic, "k", vec![1, 2, 3, 4]), MemoryState::Active, None);
    let d = MemoryDelta { base: vec![v1], records: vec![rec.clone()] };
    let d2 = MemoryDelta { base: vec![v2], records: vec![rec] };
    assert_eq!(d, d2);
}

#[test]
fn delta_snapshot_roundtrip() {
    let d = MemoryDelta {
        base: vec![MemoryVersion { node_id: 1, version: 3 }, MemoryVersion { node_id: 2, version: 1 }],
        records: vec![sample_record()],
    };
    assert_eq!(MemoryDelta::decode(&d.encode()).unwrap(), d);
    let s = MemorySnapshot { versions: vec![MemoryVersion { node_id: 1, version: 3 }], records: vec![sample_record()] };
    assert_eq!(MemorySnapshot::decode(&s.encode()).unwrap(), s);
    let e = MemoryDelta { base: Vec::new(), records: Vec::new() };
    assert_eq!(MemoryDelta::decode(&e.encode()).unwrap(), e);
}

#[test]
fn delta_snapshot_never_panics_on_malformed() {
    let d = MemoryDelta { base: vec![MemoryVersion { node_id: 1, version: 3 }], records: vec![sample_record()] };
    let enc = d.encode();
    for cut in 0..enc.len() {
        assert!(MemoryDelta::decode(&enc[..cut]).is_err());
    }
    let mut state = 0xC0FF_EE00_BAAD_F00Du64;
    for len in 0..96usize {
        for _ in 0..8 {
            let data: Vec<u8> = (0..len)
                .map(|_| {
                    state = state.wrapping_mul(1103515245).wrapping_add(12345);
                    ((state >> 32) & 0xFF) as u8
                })
                .collect();
            let _ = MemoryDelta::decode(&data);
            let _ = MemorySnapshot::decode(&data);
        }
    }
    let mut bad = enc.clone();
    bad[0] = b'X';
    assert!(MemoryDelta::decode(&bad).is_err());
    let mut bad2 = enc;
    bad2[4] = 9;
    assert!(MemoryDelta::decode(&bad2).is_err());
    assert!(MemoryDelta::decode(b"MDLT").is_err());
}

#[test]
fn try_encode_rejects_wire_overflow() {
    let v = MemoryVersion { node_id: 1, version: 3 };
    let many_vers = vec![v; u16::MAX as usize + 1];
    let d = MemoryDelta { base: many_vers, records: Vec::new() };
    assert!(d.try_encode().is_err());
    let many_recs = vec![sample_record(); u16::MAX as usize + 1];
    let d2 = MemoryDelta { base: Vec::new(), records: many_recs };
    assert!(d2.try_encode().is_err());
    let s = MemorySnapshot { versions: vec![v; u16::MAX as usize + 1], records: Vec::new() };
    assert!(s.try_encode().is_err());
    let ok_env = SignedEnvelope::new(1, vec![1u8; 8], vec![2u8; 8]);
    assert!(ok_env.try_encode().is_ok());
    let st = CrdtState { node_id: 1, local_version: 0, own_writes: 0, node_versions: vec![(1, 1u64); u16::MAX as usize + 1] };
    assert!(st.try_encode().is_err());
}

#[test]
fn sync_decode_errors_are_exact() {
    let d = MemoryDelta { base: vec![MemoryVersion { node_id: 1, version: 3 }], records: vec![sample_record()] };
    let enc = d.encode();
    assert_eq!(MemoryDelta::decode(b"MDLX1"), Err("bad delta magic"));
    let mut bad = enc.clone();
    bad[4] = 2;
    assert_eq!(MemoryDelta::decode(&bad), Err("bad delta version"));
    assert_eq!(MemoryDelta::decode(&enc[..10]), Err("trunc delta base"));
    assert_eq!(MemoryDelta::decode(&enc[..17]), Err("trunc delta records"));
    assert_eq!(MemorySnapshot::decode(&enc), Err("bad snapshot magic"));
    let s = MemorySnapshot { versions: vec![], records: vec![] };
    let senc = s.encode();
    assert_eq!(senc, b"MSNP\x01\x00\x00\x00\x00".to_vec());
    assert_eq!(MemorySnapshot::decode(&senc[..6]), Err("trunc snap versions"));
    assert_eq!(MemorySnapshot::decode(&senc[..8]), Err("trunc snap records"));
    let v = MemoryVersion { node_id: 1, version: 3 };
    let too_many = MemoryDelta { base: vec![v; 70_000], records: vec![] };
    assert_eq!(too_many.try_encode(), Err("versions too many"));
    let too_many_recs = MemorySnapshot { versions: vec![], records: vec![sample_record(); 70_000] };
    assert_eq!(too_many_recs.try_encode(), Err("records too many"));
}

#[test]
fn prop_delta_roundtrip_lcg() {
    let mut state = 0xC0FF_EE00_5EED_0020u64;
    for _ in 0..1000 {
        let n = (rng(&mut state) % 8) as usize;
        let recs: Vec<MemoryRecord> = (0..n).map(|_| random_record(&mut state)).collect();
        let n2 = (rng(&mut state) % 8) as usize;
        let base = random_versions(&mut state, n2);
        let d = MemoryDelta { base, records: recs };
        let enc = d.try_encode().unwrap();
        let dec = MemoryDelta::decode(&enc).unwrap();
        assert_eq!(dec, d);
    }
}

#[test]
fn prop_snapshot_roundtrip_lcg() {
    let mut state = 0xC0FF_EE00_5EED_0021u64;
    for _ in 0..1000 {
        let n = (rng(&mut state) % 8) as usize;
        let recs: Vec<MemoryRecord> = (0..n).map(|_| random_record(&mut state)).collect();
        let n2 = (rng(&mut state) % 8) as usize;
        let versions = random_versions(&mut state, n2);
        let s = MemorySnapshot { versions, records: recs };
        let enc = s.try_encode().unwrap();
        let dec = MemorySnapshot::decode(&enc).unwrap();
        assert_eq!(dec, s);
    }
}
