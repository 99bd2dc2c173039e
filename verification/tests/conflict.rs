use neural_sgdb::conflict::{generate_conflict_id, ConflictRecord, ConflictStatus};

fn sample() -> ConflictRecord {
    ConflictRecord {
        conflict_id: String::from("c1"),
        subject: String::from("md/L4/theme"),
        candidates: vec![String::from("vid-a"), String::from("vid-b")],
        nodes: vec![1u8, 2u8],
        created_tick: 7,
        status: ConflictStatus::Open,
        resolved_winner: None,
        records: vec![vec![1u8, 2, 3], vec![4, 5, 6, 7]],
    }
}

#[test]
fn roundtrip_open() {
    let c = sample();
    let dec = ConflictRecord::decode(&c.encode()).unwrap();
    assert_eq!(dec, c);
    assert_eq!(dec.records.len(), 2);
}

#[test]
fn roundtrip_resolved() {
    let mut c = sample();
    c.status = ConflictStatus::Resolved;
    c.resolved_winner = Some(String::from("vid-b"));
    let dec = ConflictRecord::decode(&c.encode()).unwrap();
    assert_eq!(dec.status, ConflictStatus::Resolved);
    assert_eq!(dec.resolved_winner.as_deref(), Some("vid-b"));
    assert_eq!(dec.records, c.records);
}

#[test]
fn conflict_id_is_deterministic_and_order_independent() {
    let mut a = vec![String::from("vid-b"), String::from("vid-a")];
    let mut b = vec![String::from("vid-a"), String::from("vid-b")];
    let id1 = generate_conflict_id("md/L4/theme", &mut a);
    let id2 = generate_conflict_id("md/L4/theme", &mut b);
    assert_eq!(id1, id2);
    assert_eq!(id1.len(), 32);
    let id3 = generate_conflict_id("md/L4/other", &mut a);
    assert_ne!(id1, id3);
    let mut dup = vec![String::from("vid-a"), String::from("vid-a")];
    let id4 = generate_conflict_id("md/L4/theme", &mut dup);
    let mut single = vec![String::from("vid-a")];
    let id5 = generate_conflict_id("md/L4/theme", &mut single);
    assert_eq!(id4, id5);
}

#[test]
fn conflict_id_sorts_and_dedups_candidates_in_place() {
    let mut c = vec![
        String::from("vid-c"),
        String::from("vid-a"),
        String::from("vid-c"),
        String::from("vid-b"),
        String::from("vid-a"),
    ];
    let _ = generate_conflict_id("s", &mut c);
    assert_eq!(c, vec![String::from("vid-a"), String::from("vid-b"), String::from("vid-c")]);
}

/// The digest spelled out: both lanes start at the FNV offset; each byte is
/// xored into both, lane 0 is multiplied by the prime, lane 1 is multiplied
/// and then gets lane 0 added; candidates follow a 0xFF separator.
fn reference_id(subject: &str, sorted: &[&str]) -> String {
    let p: u64 = 0x0000_0100_0000_01b3;
    let mut h0: u64 = 0xcbf2_9ce4_8422_2325;
    let mut h1: u64 = 0xcbf2_9ce4_8422_2325;
    let mut bytes: Vec<u8> = subject.as_bytes().to_vec();
    for c in sorted {
        bytes.push(0xFF);
        bytes.extend_from_slice(c.as_bytes());
    }
    for b in bytes {
        h0 ^= b as u64;
        h1 ^= b as u64;
        h0 = h0.wrapping_mul(p);
        h1 = h1.wrapping_mul(p).wrapping_add(h0);
    }
    let mut out = String::new();
    for b in h0.to_le_bytes().iter().chain(h1.to_le_bytes().iter()) {
        out.push_str(&format!("{:02x}", b));
    }
    out
}

#[test]
fn conflict_id_exact_value() {
    let mut c = vec![String::from("vid-b"), String::from("vid-a")];
    let id = generate_conflict_id("md/L4/theme", &mut c);
    assert_eq!(id, reference_id("md/L4/theme", &["vid-a", "vid-b"]));
    let mut none: Vec<String> = Vec::new();
    assert_eq!(generate_conflict_id("", &mut none), reference_id("", &[]));
}

#[test]
fn decode_never_panics_on_garbage() {
    let mut x = 0x1234_5678_9abc_def0u64;
    for _ in 0..500 {
        x = x.wrapping_mul(6364136223846793005).wrapping_add(1442695040888963407);
        let n = (x % 80) as usize;
        let mut data = Vec::with_capacity(n);
        for _ in 0..n {
            x = x.wrapping_mul(6364136223846793005).wrapping_add(1442695040888963407);
            data.push((x >> 32) as u8);
        }
        let _ = ConflictRecord::decode(&data);
    }
    let full = sample().encode();
    for cut in 0..full.len() {
        let _ = ConflictRecord::decode(&full[..cut]);
    }
}

#[test]
fn try_encode_rejects_overflow_no_silent_truncation() {
    let base = sample();
    let mut big = base.clone();
    big.subject = "x".repeat(u16::MAX as usize + 1);
    assert!(big.try_encode().is_err());
    assert!(base.try_encode().is_ok());
    let mut many = base.clone();
    many.candidates = (0..=u16::MAX as usize).map(|i| format!("c{i}")).collect();
    assert!(many.try_encode().is_err());
    let mut many_recs = base.clone();
    many_recs.records = vec![vec![0u8; 4]; u8::MAX as usize + 1];
    assert!(many_recs.try_encode().is_err());
    let mut many_nodes = base.clone();
    many_nodes.nodes = (0..=u8::MAX).collect();
    assert!(many_nodes.try_encode().is_err());
}

fn rng(state: &mut u64) -> u64 {
    *state = state.wrapping_mul(6364136223846793005).wrapping_add(1442695040888963407);
    *state >> 32
}

fn record(state: &mut u64) -> ConflictRecord {
    let n_cand = (rng(state) % 5) as usize;
    let mut candidates: Vec<String> = (0..n_cand).map(|i| format!("vid-{i}")).collect();
    let nodes: Vec<u8> = (0..(rng(state) % 5) as usize).map(|i| i as u8 + 1).collect();
    let subject = format!("md/L4/subj{}", rng(state) % 4);
    let conflict_id = generate_conflict_id(&subject, &mut candidates);
    let resolved = rng(state) % 2 == 0;
    let winner = if resolved && !candidates.is_empty() { Some(candidates[0].clone()) } else { None };
    let records: Vec<Vec<u8>> = (0..(rng(state) % 8) as usize)
        .map(|_| {
            let len = (rng(state) % 8) as usize;
            (0..len).map(|_| rng(state) as u8).collect()
        })
        .collect();
    ConflictRecord {
        conflict_id,
        subject,
        candidates,
        nodes,
        created_tick: rng(state),
        status: if resolved { ConflictStatus::Resolved } else { ConflictStatus::Open },
        resolved_winner: winner,
        records,
    }
}

#[test]
fn prop_conflict_roundtrip_lcg() {
    let mut state = 0xC0FF_EE00_5EED_000Au64;
    for _ in 0..2000 {
        let rec = record(&mut state);
        let enc = rec.try_encode().unwrap();
        let dec = ConflictRecord::decode(&enc).unwrap();
        assert_eq!(dec, rec);
    }
}

#[test]
fn conflict_decode_errors() {
    let mut enc = sample().encode();
    enc[4] = 2;
    assert_eq!(ConflictRecord::decode(&enc), Err("bad cfl version"));
    let mut enc2 = sample().encode();
    enc2[5] = 7;
    assert_eq!(ConflictRecord::decode(&enc2), Err("bad cfl status"));
    assert_eq!(ConflictRecord::decode(b"short"), Err("bad cfl magic"));
    assert_eq!(ConflictStatus::from_u8(1), Some(ConflictStatus::Resolved));
    assert_eq!(ConflictStatus::from_u8(2), None);
    assert_eq!(ConflictStatus::Resolved.to_u8(), 1);
}

#[test]
fn truncated_conflict_is_rejected() {
    let mut resolved = sample();
    resolved.status = ConflictStatus::Resolved;
    resolved.resolved_winner = Some(String::from("vid-b"));
    for c in [sample(), resolved] {
        let b = c.encode();
        for n in 0..b.len() {
            assert!(ConflictRecord::decode(&b[..n]).is_err(), "prefix of {n} bytes");
        }
        assert_eq!(ConflictRecord::decode(&b).unwrap(), c);
    }
}
