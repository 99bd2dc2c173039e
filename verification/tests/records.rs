use neural_sgdb::memory_doc::{MemoryDoc, MemoryDocView, MemoryLayer, MemoryMeta, MemoryRecord, MemoryState};

fn sample_meta() -> MemoryMeta {
    MemoryMeta {
        memory_id: String::from("aabbccddeeff00112233445566778899"),
        version_id: String::from("00112233445566778899aabbccddeeff"),
        source: 7,
        confidence_bits: 0.9f32.to_bits(),
        importance_bits: 0.6f32.to_bits(),
        created_tick: 42,
        parent_ids: vec![String::from("p1"), String::from("p2")],
        clock_overflow: vec![(9, 3), (12, 1)],
        last_reinforced: 99,
    }
}

fn lcg_bytes(n: usize, s: &mut u64) -> Vec<u8> {
    (0..n)
        .map(|_| {
            *s = s.wrapping_mul(1103515245).wrapping_add(12345);
            ((*s >> 32) & 0xFF) as u8
        })
        .collect()
}

#[test]
fn roundtrip_doc() {
    let mut doc = MemoryDoc::new(MemoryLayer::L1Working, "hello", b"world".to_vec());
    doc.clock.tick(1);
    let enc = doc.encode();
    assert_eq!(&enc[0..4], b"NMD1");
    let view = MemoryDocView::parse(&enc).unwrap();
    assert_eq!(view.key(), "hello");
    assert_eq!(view.payload(), b"world");
    assert_eq!(view.clock_bytes().len(), 72);
    let dec = MemoryDoc::decode(&enc).unwrap();
    assert_eq!(dec.key, "hello");
    assert_eq!(dec.payload, b"world");
    assert_eq!(dec.layer, MemoryLayer::L1Working);
    assert_eq!(view.to_owned_doc().unwrap(), dec);
    assert_eq!(dec.clock.counter_of(1), 1);
}

#[test]
fn roundtrip_with_bitvec() {
    let mut doc = MemoryDoc::new(MemoryLayer::L4Semantic, "emb1", vec![0u8; 16]);
    doc.bitvec = Some(vec![0xDEAD_BEEF_CAFE_F00Du64, 0x1234]);
    let enc = doc.encode();
    let dec = MemoryDoc::decode(&enc).unwrap();
    assert_eq!(dec.bitvec, Some(vec![0xDEAD_BEEF_CAFE_F00Du64, 0x1234]));
}

#[test]
fn bad_magic_rejected() {
    assert!(MemoryDoc::decode(b"XXXXgarbage").is_err());
    assert!(MemoryDocView::parse(b"XXXX").is_err());
}

#[test]
fn decode_never_panics_on_malformed() {
    let mut state = 0x1234_5678_9ABC_DEF0u64;
    for len in 0..64usize {
        for _ in 0..32 {
            let data = lcg_bytes(len, &mut state);
            let _ = MemoryDoc::decode(&data);
            let _ = MemoryDocView::parse(&data);
        }
    }
    let mut good = MemoryDoc::new(MemoryLayer::L4Semantic, "k", vec![0xAA]);
    good.bitvec = Some(vec![1, 2, 3]);
    let enc = good.encode();
    for cut in 0..enc.len() {
        assert!(MemoryDoc::decode(&enc[..cut]).is_err());
    }
}

#[test]
fn golden_nmd1_bytes() {
    let doc = MemoryDoc::new(MemoryLayer::L1Working, "k", vec![0xAA]);
    let enc = doc.encode();
    let mut want: Vec<u8> = Vec::new();
    want.extend_from_slice(b"NMD1");
    want.push(0x01);
    want.extend_from_slice(&1u32.to_le_bytes());
    want.push(b'k');
    want.extend_from_slice(&[0xFFu8; 8]);
    want.extend_from_slice(&[0u8; 64]);
    want.extend_from_slice(&1u32.to_le_bytes());
    want.push(0xAA);
    want.push(0x00);
    assert_eq!(enc, want);
}

#[test]
fn doc_decode_errors_name_the_missing_field() {
    let mut good = MemoryDoc::new(MemoryLayer::L4Semantic, "k", vec![0xAA]);
    good.bitvec = Some(vec![1, 2]);
    let enc = good.encode();
    // magic 4 + layer 1 + klen 4 + key 1 + clock 72 + plen 4 + payload 1 = 87
    assert_eq!(MemoryDoc::decode(&enc[..87]), Err("trunc bitflag"));
    assert_eq!(MemoryDoc::decode(&enc[..90]), Err("trunc bvlen"));
    assert_eq!(MemoryDoc::decode(&enc[..100]), Err("trunc bv"));
    let mut bad_layer = enc.clone();
    bad_layer[4] = 9;
    assert_eq!(MemoryDoc::decode(&bad_layer), Err("bad layer"));
    let mut other_flag = enc[..88].to_vec();
    other_flag[87] = 7;
    assert_eq!(MemoryDoc::decode(&other_flag).unwrap().bitvec, None);
}

#[test]
fn storage_and_time_keys() {
    let doc = MemoryDoc::new(MemoryLayer::L3EpisodicLong, "proj/a", vec![]);
    assert_eq!(doc.storage_key(), "md/L3/proj/a");
    assert_eq!(MemoryDoc::sortable_ts_key(0x1f), "ts/000000000000001f");
    assert!(MemoryDoc::sortable_ts_key(9) < MemoryDoc::sortable_ts_key(10));
    let mut d = MemoryDoc::new(MemoryLayer::L2EpisodicShort, "x", vec![1]);
    d.patch_payload(vec![2, 3], 4);
    assert_eq!(d.payload, vec![2, 3]);
    assert_eq!(d.clock.counter_of(4), 1);
    assert_eq!(d.key, "x");
}

#[test]
fn meta_roundtrip() {
    let m = sample_meta();
    let dec = MemoryMeta::decode(&m.encode()).unwrap();
    assert_eq!(dec, m);
    let m2 = MemoryMeta {
        memory_id: String::from("00"),
        parent_ids: Vec::new(),
        clock_overflow: Vec::new(),
        ..sample_meta()
    };
    let dec2 = MemoryMeta::decode(&m2.encode()).unwrap();
    assert_eq!(dec2, m2);
    assert_eq!(f32::from_bits(dec.confidence_bits), 0.9);
}

#[test]
fn meta_v2_roundtrip_preserves_version_id() {
    let m = sample_meta();
    assert_ne!(m.version_id, m.memory_id);
    let dec = MemoryMeta::decode(&m.encode()).unwrap();
    assert_eq!(dec, m);
    assert_eq!(dec.version_id, m.version_id);
}

#[test]
fn meta_v1_decodes_with_slot_version_migration() {
    let mut enc = sample_meta().encode();
    let vid = sample_meta().version_id;
    let cut = enc.len() - 8 - 2 - vid.len();
    enc.truncate(cut);
    enc[4] = 1;
    let dec = MemoryMeta::decode(&enc).unwrap();
    assert_eq!(dec.version_id, dec.memory_id);
    assert_eq!(dec.version_id, "aabbccddeeff00112233445566778899");
    assert_eq!(dec.last_reinforced, 0);
    let mut enc2 = sample_meta().encode();
    let cut2 = enc2.len() - 8;
    enc2.truncate(cut2);
    enc2[4] = 2;
    let dec2 = MemoryMeta::decode(&enc2).unwrap();
    assert_eq!(dec2.last_reinforced, 0);
    assert_eq!(dec2.version_id, sample_meta().version_id);
    let mut bad = sample_meta().encode();
    bad[4] = 4;
    assert!(MemoryMeta::decode(&bad).is_err());
    let full = sample_meta().encode();
    for cut in 0..full.len() {
        let _ = MemoryMeta::decode(&full[..cut]);
    }
}

#[test]
fn meta_never_panics_on_malformed() {
    let mut state = 0xDEAD_BEEF_CAFE_F00Du64;
    for len in 0..96usize {
        for _ in 0..16 {
            let _ = MemoryMeta::decode(&lcg_bytes(len, &mut state));
        }
    }
    let enc = sample_meta().encode();
    for cut in 0..enc.len() {
        assert!(MemoryMeta::decode(&enc[..cut]).is_err());
    }
    assert!(MemoryMeta::decode(b"XXXX").is_err());
    let mut bad = sample_meta().encode();
    bad[4] = 99;
    assert!(MemoryMeta::decode(&bad).is_err());
}

#[test]
fn meta_decode_errors_are_exact() {
    assert_eq!(MemoryMeta::decode(b"XXXXX"), Err("bad meta magic"));
    let mut bad = sample_meta().encode();
    bad[4] = 0;
    assert_eq!(MemoryMeta::decode(&bad), Err("bad meta version"));
    let enc = sample_meta().encode();
    assert_eq!(MemoryMeta::decode(&enc[..6]), Err("trunc idlen"));
    assert_eq!(MemoryMeta::decode(&enc[..10]), Err("trunc id"));
    assert_eq!(MemoryMeta::decode(&enc[..enc.len() - 1]), Err("trunc last_reinforced"));
}

#[test]
fn doc_with_meta_encodes_byte_identical() {
    let mut a = MemoryDoc::new(MemoryLayer::L4Semantic, "k", vec![1, 2, 3, 4]);
    let b = a.clone();
    a.meta = Some(sample_meta());
    assert_eq!(a.encode(), b.encode());
    let dec = MemoryDoc::decode(&a.encode()).unwrap();
    assert!(dec.meta.is_none());
}

#[test]
fn memory_record_roundtrip() {
    let mut doc = MemoryDoc::new(MemoryLayer::L4Semantic, "k", vec![1, 2, 3, 4]);
    doc.clock.tick(1);
    doc.meta = Some(sample_meta());
    let rec = MemoryRecord::new(doc.clone(), MemoryState::Superseded, Some((10, 200)));
    let dec = MemoryRecord::decode(&rec.encode()).unwrap();
    assert_eq!(dec, rec);
    let rec2 = MemoryRecord::new(doc, MemoryState::Active, None);
    let dec2 = MemoryRecord::decode(&rec2.encode()).unwrap();
    assert_eq!(dec2, rec2);
}

#[test]
fn memory_record_never_panics_on_malformed() {
    let mut state = 0xFEED_FACE_CAFE_BEEFu64;
    for len in 0..64usize {
        for _ in 0..16 {
            let _ = MemoryRecord::decode(&lcg_bytes(len, &mut state));
        }
    }
    let rec = MemoryRecord::new(
        MemoryDoc::new(MemoryLayer::L4Semantic, "k", vec![1, 2, 3, 4]),
        MemoryState::Archived,
        Some((1, 2)),
    );
    let enc = rec.encode();
    for cut in 0..enc.len() {
        assert!(MemoryRecord::decode(&enc[..cut]).is_err());
    }
    let mut bad = rec.encode();
    bad[4] = 99;
    assert!(MemoryRecord::decode(&bad).is_err());
    let mut bad2 = rec.encode();
    bad2[5] = 2;
    assert!(MemoryRecord::decode(&bad2).is_err());
    assert!(MemoryRecord::decode(b"XXXX").is_err());
}

#[test]
fn record_decode_errors_are_exact() {
    let rec = MemoryRecord::new(
        MemoryDoc::new(MemoryLayer::L4Semantic, "k", vec![1]),
        MemoryState::Archived,
        Some((1, 2)),
    );
    let enc = rec.encode();
    let mut bad = enc.clone();
    bad[4] = 99;
    assert_eq!(MemoryRecord::decode(&bad), Err("bad record state"));
    let mut bad2 = enc.clone();
    bad2[5] = 2;
    assert_eq!(MemoryRecord::decode(&bad2), Err("bad validity flag"));
    assert_eq!(MemoryRecord::decode(&enc[..10]), Err("trunc validity"));
    assert_eq!(MemoryRecord::decode(&enc[..22]), Err("trunc metaflag"));
    let mut bad3 = enc.clone();
    bad3[22] = 5;
    assert_eq!(MemoryRecord::decode(&bad3), Err("bad meta flag"));
    assert_eq!(MemoryRecord::decode(&enc[..30]), Err("trunc nmd1"));
    let mut with_meta = rec.clone();
    with_meta.doc.meta = Some(sample_meta());
    let menc = with_meta.encode();
    let mut bad4 = menc.clone();
    bad4[27] = b'X';
    assert_eq!(MemoryRecord::decode(&bad4), Err("bad meta"));
    assert_eq!(MemoryRecord::decode(&menc[..25]), Err("trunc metalen"));
    assert_eq!(MemoryRecord::decode(&menc[..40]), Err("trunc meta"));
}
