use neural_sgdb::idx_snapshot::{IndexSnapshot, IDX_MAGIC, IDX_VERSION};
use neural_sgdb::limits::MAX_KLEN;

#[test]
fn idx1_roundtrip() {
    let s = IndexSnapshot {
        art_keys: vec!["md/L4/fp/0".into(), "md/L2/fp/0".into(), "rel/causes/a#b".into()],
        entity_index: vec![
            ("ent/a".into(), vec!["md/L4/fp/0".into()]),
            ("ent/b".into(), vec!["md/L4/fp/0".into(), "md/L4/x".into()]),
        ],
        indexed_dims: vec![4, 256],
        corpus_counts: vec![(4, 10), (256, 2)],
        bq_words_per_vec: 64,
        bq_live: 12,
        fingerprint: 0xdead_beef_cafe,
        written_at: 1234,
        lexical_postings: vec![("corpo".into(), vec![("md/L4/fp/0".into(), 1u32), ("md/L2/x".into(), 3u32)])],
        lexical_doc_len: vec![("md/L4/fp/0".into(), 5u32)],
        lexical_n_docs: 2,
        bq_entries: vec![("md/L4/fp/0".into(), vec![0b1010u64, 3u64])],
    };
    let enc = s.encode();
    assert_eq!(&enc[0..4], &IDX_MAGIC);
    let d = IndexSnapshot::decode(&enc).unwrap();
    assert_eq!(d, s);
}

fn empty() -> IndexSnapshot {
    IndexSnapshot {
        art_keys: vec![],
        entity_index: vec![],
        indexed_dims: vec![],
        corpus_counts: vec![],
        bq_words_per_vec: 0,
        bq_live: 0,
        fingerprint: 0,
        written_at: 0,
        lexical_postings: vec![],
        lexical_doc_len: vec![],
        lexical_n_docs: 0,
        bq_entries: vec![],
    }
}

#[test]
fn idx1_empty_is_canonical() {
    let s = empty();
    let d = IndexSnapshot::decode(&s.encode()).unwrap();
    assert_eq!(d, s);
}

#[test]
fn idx1_decode_hostile_input_never_panics() {
    for t in [
        &b""[..],
        &b"IDX1"[..],
        &b"IDX1\x01"[..],
        &b"XXXXXXXXXXXXXXXXXXXXXX"[..],
        &b"IDX1\x01\xff\xff\xff\xff"[..],
    ] {
        let _ = IndexSnapshot::decode(t);
    }
    let s = IndexSnapshot {
        art_keys: vec!["md/L4/k".into()],
        entity_index: vec![("ent/x".into(), vec!["md/L4/k".into()])],
        indexed_dims: vec![8],
        corpus_counts: vec![(8, 1)],
        bq_words_per_vec: 1,
        bq_live: 1,
        fingerprint: 7,
        written_at: 8,
        lexical_postings: vec![("corpo".into(), vec![("md/L4/k".into(), 2u32)])],
        lexical_doc_len: vec![("md/L4/k".into(), 4u32)],
        lexical_n_docs: 1,
        bq_entries: vec![("md/L4/k".into(), vec![7u64])],
    };
    let enc = s.encode();
    for cut in 0..enc.len() {
        let _ = IndexSnapshot::decode(&enc[..cut]);
    }
    let mut bad = s.clone();
    bad.corpus_counts = vec![(8, 1), (16, 1)];
    let bad_enc = bad.encode();
    assert!(IndexSnapshot::decode(&bad_enc).is_err() || {
        let mut bad2 = s;
        bad2.indexed_dims = vec![8, 16];
        bad2.corpus_counts = vec![(8, 1)];
        IndexSnapshot::decode(&bad2.encode()).is_err()
    });
}

#[test]
fn idx1_oversized_key_rejected() {
    let mut enc = Vec::new();
    enc.extend_from_slice(&IDX_MAGIC);
    enc.push(IDX_VERSION);
    enc.extend_from_slice(&0u64.to_le_bytes());
    enc.extend_from_slice(&0u64.to_le_bytes());
    enc.extend_from_slice(&0u32.to_le_bytes());
    enc.extend_from_slice(&0u64.to_le_bytes());
    enc.extend_from_slice(&0u32.to_le_bytes());
    enc.extend_from_slice(&0u32.to_le_bytes());
    enc.extend_from_slice(&1u32.to_le_bytes());
    enc.extend_from_slice(&((MAX_KLEN + 1) as u16).to_le_bytes());
    assert!(IndexSnapshot::decode(&enc).is_err());
}

#[test]
fn idx1_errors_and_escaped_frequencies() {
    let mut s = empty();
    s.lexical_postings = vec![("t".into(), vec![("d".into(), 7u32), ("e".into(), 70_000u32)])];
    let enc = s.encode();
    assert_eq!(IndexSnapshot::decode(&enc).unwrap(), s);
    let mut bad = enc.clone();
    bad[4] = 2;
    assert_eq!(IndexSnapshot::decode(&bad), Err("bad idx version"));
    bad[0] = b'Y';
    assert_eq!(IndexSnapshot::decode(&bad), Err("bad idx magic"));
    assert_eq!(IndexSnapshot::decode(&enc[..30]), Err("trunc live"));
    let mut mism = empty();
    mism.indexed_dims = vec![8];
    assert_eq!(IndexSnapshot::decode(&mism.encode()), Err("dims/counts mismatch"));
    let mut stray = empty();
    stray.indexed_dims = vec![8];
    stray.corpus_counts = vec![(9, 1)];
    assert_eq!(IndexSnapshot::decode(&stray.encode()), Err("count dim not in dims"));
}

#[test]
fn idx1_frequency_255_roundtrips() {
    let mut s = empty();
    s.lexical_postings = vec![("t".into(), vec![("d".into(), 255u32), ("e".into(), 254u32), ("f".into(), 256u32)])];
    let enc = s.encode();
    assert_eq!(IndexSnapshot::decode(&enc), Ok(s));
}
