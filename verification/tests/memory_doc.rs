use neural_sgdb::memory_doc::{
    generate_memory_id, MemoryDocView, MemoryLayer, MemoryState, RelationKind, VectorClock,
};

fn vc(pairs: &[(u8, u64)]) -> VectorClock {
    let mut c = VectorClock::new();
    for &(n, cnt) in pairs {
        for _ in 0..cnt {
            c.tick(n);
        }
    }
    c
}

#[test]
fn vc_equal() {
    let a = vc(&[(1, 3), (2, 1)]);
    let b = vc(&[(2, 1), (1, 3)]);
    assert_eq!(a, b);
    assert!(!a.happens_before(&b));
    assert!(!b.happens_before(&a));
    assert!(!a.concurrent(&b));
    assert!(!b.concurrent(&a));
}

#[test]
fn vc_happens_before_less() {
    let a = vc(&[(1, 2)]);
    let b = vc(&[(1, 3)]);
    assert!(a.happens_before(&b));
    assert!(!b.happens_before(&a));
    assert!(!a.concurrent(&b));
    let c = vc(&[]);
    let d = vc(&[(5, 1)]);
    assert!(c.happens_before(&d));
    assert!(!d.happens_before(&c));
}

#[test]
fn vc_happens_before_greater() {
    let a = vc(&[(1, 5)]);
    let b = vc(&[(1, 2)]);
    assert!(b.happens_before(&a));
    assert!(!a.happens_before(&b));
}

#[test]
fn vc_concurrent_detection() {
    let a = vc(&[(1, 1)]);
    let b = vc(&[(2, 1)]);
    assert!(!a.happens_before(&b));
    assert!(!b.happens_before(&a));
    assert!(a.concurrent(&b));
    assert!(b.concurrent(&a));
    let c = vc(&[(1, 2), (3, 1)]);
    let d = vc(&[(1, 2), (4, 1)]);
    assert!(c.concurrent(&d));
}

#[test]
fn vc_merge_union_and_max() {
    let mut a = vc(&[(1, 2)]);
    let b = vc(&[(2, 3)]);
    a.merge(&b);
    assert_eq!(a.counter_of(1), 2);
    assert_eq!(a.counter_of(2), 3);
    let mut c = vc(&[(1, 2)]);
    let d = vc(&[(1, 5)]);
    c.merge(&d);
    assert_eq!(c.counter_of(1), 5);
}

#[test]
fn vc_merge_commutative() {
    let a = vc(&[(1, 2), (2, 1)]);
    let b = vc(&[(1, 1), (2, 3)]);
    let mut ab = a.clone();
    ab.merge(&b);
    let mut ba = b.clone();
    ba.merge(&a);
    assert_eq!(ab, ba);
    assert_eq!(ab.counter_of(1), 2);
    assert_eq!(ab.counter_of(2), 3);
}

#[test]
fn vc_overflow_saturates() {
    let mut c = VectorClock::new();
    c.nodes[0] = 1;
    c.counts[0] = u64::MAX;
    c.tick(1);
    assert_eq!(c.counts[0], u64::MAX);
}

#[test]
fn vc_encode_decode_roundtrip() {
    let c = vc(&[(1, 3), (2, 1), (7, 9)]);
    let mut enc = Vec::new();
    c.encode(&mut enc);
    let (dec, n) = VectorClock::decode(&enc).unwrap();
    assert_eq!(n, 72);
    assert_eq!(dec, c);
    assert!(VectorClock::decode(&enc[..70]).is_none());
}

#[test]
fn vc_dynamic_nodes_beyond_eight() {
    let mut c = VectorClock::new();
    for n in 1..=9u8 {
        c.tick(n);
    }
    assert_eq!(c.counter_of(9), 1);
    assert_eq!(c.counter_of(1), 1);
    let mut d = VectorClock::new();
    for n in 1..=8u8 {
        d.tick(n);
    }
    assert!(d.overflow.is_empty());
    let mut enc = Vec::new();
    c.encode(&mut enc);
    assert_eq!(enc.len(), 72);
    let (dec, _) = VectorClock::decode(&enc).unwrap();
    assert_eq!(dec.counter_of(9), 0);
    assert_eq!(dec.counter_of(1), 1);
    let mut c2 = VectorClock::new();
    for n in 1..=9u8 {
        c2.tick(n);
    }
    assert_eq!(c, c2);
}

#[test]
fn vc_dynamic_happens_before_and_concurrent() {
    let mut a = VectorClock::new();
    for n in 1..=10u8 {
        a.tick(n);
    }
    let mut b = VectorClock::new();
    for n in 1..=9u8 {
        b.tick(n);
    }
    assert!(b.happens_before(&a));
    assert!(!a.happens_before(&b));
    assert!(!a.concurrent(&b));
    let mut c = VectorClock::new();
    c.tick(11);
    let mut d = VectorClock::new();
    d.tick(12);
    assert!(c.concurrent(&d));
    assert!(d.concurrent(&c));
}

#[test]
fn vc_dynamic_merge_union_max_and_properties() {
    let mut a = VectorClock::new();
    a.tick(1);
    for n in 2..=10u8 {
        a.tick(n);
    }
    let mut b = VectorClock::new();
    b.tick(9);
    b.tick(10);
    b.tick(10);
    b.tick(2);
    b.tick(2);
    a.merge(&b);
    assert_eq!(a.counter_of(1), 1);
    assert_eq!(a.counter_of(2), 2);
    assert_eq!(a.counter_of(9), 1);
    assert_eq!(a.counter_of(10), 2);
    let snapshot = a.clone();
    a.merge(&b);
    assert_eq!(a, snapshot);
    let mut ba = b.clone();
    ba.merge(&a);
    assert_eq!(ba, a);
    let mut aa = a.clone();
    aa.merge(&a);
    assert_eq!(aa, a);
}

#[test]
fn vc_bounded_node_policy() {
    let mut c = VectorClock::new();
    for n in 0..=255u8 {
        c.set_counter(n, 1);
    }
    let total = 8 + c.overflow.len();
    assert!(total <= 256);
    assert_eq!(c.counter_of(255), 1);
    assert_eq!(c.counter_of(9), 1);
}

#[test]
fn vc_tick_saturates_dynamic() {
    let mut c = VectorClock::new();
    c.set_counter(200, u64::MAX);
    c.tick(200);
    assert_eq!(c.counter_of(200), u64::MAX);
}

#[test]
fn memory_id_deterministic_and_distinct() {
    let id1 = generate_memory_id(3, 7, MemoryLayer::L4Semantic, "k");
    let id2 = generate_memory_id(3, 7, MemoryLayer::L4Semantic, "k");
    assert_eq!(id1, id2);
    assert_eq!(id1.len(), 32);
    assert!(id1.chars().all(|c| c.is_ascii_hexdigit()));
    assert_ne!(id1, generate_memory_id(4, 7, MemoryLayer::L4Semantic, "k"));
    assert_ne!(id1, generate_memory_id(3, 8, MemoryLayer::L4Semantic, "k"));
    assert_ne!(id1, generate_memory_id(3, 7, MemoryLayer::L3EpisodicLong, "k"));
    assert_ne!(id1, generate_memory_id(3, 7, MemoryLayer::L4Semantic, "k2"));
}

#[test]
fn memory_id_exact_value() {
    fn fnv(seed: u64, bytes: &[u8]) -> u64 {
        let mut h = seed;
        for b in bytes {
            h ^= *b as u64;
            h = h.wrapping_mul(0x0000_0100_0000_01b3);
        }
        h
    }
    let mut input = vec![3u8];
    input.extend_from_slice(&7u64.to_le_bytes());
    input.push(4);
    input.extend_from_slice(b"k");
    let h0 = fnv(0xcbf2_9ce4_8422_2325, &input);
    let h1 = fnv(0xcbf2_9ce4_8422_2325 ^ 0x9e37_79b9_7f4a_7c15, &input);
    let mut want = String::new();
    for b in h0.to_le_bytes().iter().chain(h1.to_le_bytes().iter()) {
        want.push_str(&format!("{:02x}", b));
    }
    assert_eq!(generate_memory_id(3, 7, MemoryLayer::L4Semantic, "k"), want);
}

#[test]
fn vc_merge_associative() {
    let a = vc(&[(1, 2), (2, 3)]);
    let b = vc(&[(2, 1), (3, 5)]);
    let c = vc(&[(1, 5), (4, 2)]);
    let mut ab_c = a.clone();
    ab_c.merge(&b);
    ab_c.merge(&c);
    let mut bc = b.clone();
    bc.merge(&c);
    let mut a_bc = a.clone();
    a_bc.merge(&bc);
    assert_eq!(ab_c, a_bc);
    let snapshot = ab_c.clone();
    ab_c.merge(&c);
    assert_eq!(ab_c, snapshot);
}

#[test]
fn vc_entries_accessor() {
    let mut c = VectorClock::new();
    c.tick(3);
    c.tick(3);
    c.tick(9);
    let mut e = c.entries();
    e.sort();
    assert_eq!(e, vec![(3, 2), (9, 1)]);
}

#[test]
fn layer_and_state_codes() {
    for v in 0..=7u8 {
        let l = MemoryLayer::from_u8(v).unwrap();
        assert_eq!(l.to_u8(), v);
        assert_eq!(l.as_str(), format!("L{v}"));
    }
    assert_eq!(MemoryLayer::from_u8(8), None);
    assert_eq!(MemoryState::from_u8(4), Some(MemoryState::Decayed));
    assert_eq!(MemoryState::from_u8(5), None);
    assert_eq!(MemoryState::Archived.to_u8(), 2);
}

#[test]
fn relation_kind_names_roundtrip() {
    for k in RelationKind::ALL {
        assert_eq!(RelationKind::from_str(k.as_str()), Some(k));
    }
    assert_eq!(RelationKind::from_u8(4), Some(RelationKind::DerivedFrom));
    assert_eq!(RelationKind::from_u8(6), None);
    assert_eq!(RelationKind::Contradicts.as_str(), "contradicts");
    assert_eq!(RelationKind::from_str("unknown"), None);
    assert_eq!(RelationKind::from_str("Causes"), None);
}

fn nmd1(layer: u8, key: &[u8], payload: &[u8]) -> Vec<u8> {
    let mut out = b"NMD1".to_vec();
    out.push(layer);
    out.extend_from_slice(&(key.len() as u32).to_le_bytes());
    out.extend_from_slice(key);
    let mut clock = vec![0xFFu8; 8];
    clock.extend_from_slice(&[0u8; 64]);
    clock[0] = 1;
    clock[8] = 5;
    out.extend_from_slice(&clock);
    out.extend_from_slice(&(payload.len() as u32).to_le_bytes());
    out.extend_from_slice(payload);
    out.push(0);
    out
}

#[test]
fn doc_view_reads_fields_in_place() {
    let bytes = nmd1(4, b"chave", &[9, 8, 7]);
    let v = MemoryDocView::parse(&bytes).unwrap();
    assert_eq!(v.layer(), MemoryLayer::L4Semantic);
    assert_eq!(v.key(), "chave");
    assert_eq!(v.payload(), &[9, 8, 7]);
    assert_eq!(v.clock_bytes().len(), 72);
    assert_eq!(v.clock_bytes()[0], 1);
    assert_eq!(v.clock_bytes()[8], 5);
}

#[test]
fn doc_view_errors() {
    let good = nmd1(4, b"k", &[1, 2]);
    assert_eq!(MemoryDocView::parse(b"NMD").err(), Some("bad magic"));
    let mut bad_layer = good.clone();
    bad_layer[4] = 9;
    assert_eq!(MemoryDocView::parse(&bad_layer).err(), Some("bad layer"));
    assert_eq!(MemoryDocView::parse(&good[..7]).err(), Some("trunc keylen"));
    let mut long_key = good.clone();
    long_key[5] = 200;
    assert_eq!(MemoryDocView::parse(&long_key).err(), Some("trunc key"));
    let bad_utf8 = nmd1(4, &[0xff], &[]);
    assert_eq!(MemoryDocView::parse(&bad_utf8).err(), Some("utf8"));
    assert_eq!(MemoryDocView::parse(&good[..20]).err(), Some("trunc clock"));
    assert_eq!(MemoryDocView::parse(&good[..10 + 72 + 1]).err(), Some("trunc plen"));
    assert_eq!(MemoryDocView::parse(&good[..good.len() - 2]).err(), Some("trunc payload"));
}
