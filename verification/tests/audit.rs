use neural_sgdb::audit::{
    audit_key, audit_seq_from_key, AuditEntry, AuditSnapshotItem, AUDIT_OP_CHECKPOINT, AUDIT_OP_ROLLBACK,
};
use neural_sgdb::memory_doc::MemoryState;

#[test]
fn audit_entry_roundtrip() {
    let e = AuditEntry {
        seq: 7,
        prev_hash: 0xdead_beef,
        ts: 1234,
        op: AUDIT_OP_CHECKPOINT,
        digest: 0xabcd,
        snapshot: vec![
            AuditSnapshotItem {
                sk: "md/L3/ts/0000000000000042".into(),
                state: MemoryState::Active,
                validity: Some((10, 200)),
                meta: b"MDM1...".to_vec(),
            },
            AuditSnapshotItem {
                sk: "md/L4/k1".into(),
                state: MemoryState::Decayed,
                validity: None,
                meta: Vec::new(),
            },
        ],
    };
    let enc = e.encode();
    let d = AuditEntry::decode(&enc).unwrap();
    assert_eq!(d, e);
}

#[test]
fn audit_key_sortable_and_parseable() {
    let a = audit_key(0u64);
    let b = audit_key(0xffu64);
    let c = audit_key(0x100u64);
    assert!(a < b && b < c, "keys sort by seq");
    assert_eq!(audit_seq_from_key(&a), Some(0));
    assert_eq!(audit_seq_from_key(&c), Some(0x100));
    assert_eq!(audit_seq_from_key(b"sys/audit/short"), None);
}

#[test]
fn audit_decode_hostile_input_never_panics() {
    for t in [
        &b""[..],
        &b"AUD1"[..],
        &b"AUD1\x01"[..],
        &b"XXXXXXXX"[..],
        &b"AUD1\x01\xff\xff\xff\xff"[..],
    ] {
        let _ = AuditEntry::decode(t);
    }
    let e = AuditEntry {
        seq: 1,
        prev_hash: 2,
        ts: 3,
        op: AUDIT_OP_ROLLBACK,
        digest: 4,
        snapshot: vec![AuditSnapshotItem {
            sk: "md/L3/k".into(),
            state: MemoryState::Superseded,
            validity: Some((1, 2)),
            meta: b"x".to_vec(),
        }],
    };
    let enc = e.encode();
    for cut in 0..enc.len() {
        let _ = AuditEntry::decode(&enc[..cut]);
    }
}

#[test]
fn audit_key_exact_text_and_errors() {
    assert_eq!(audit_key(0x1234), b"sys/audit/0000000000001234".to_vec());
    assert_eq!(audit_seq_from_key(b"sys/audit/00000000000000ff"), Some(255));
    assert_eq!(audit_seq_from_key(b"sys/audit/00000000000000fg"), None);
    assert_eq!(audit_seq_from_key(b"sys/other/00000000000000ff"), None);
    let mut bad = AuditEntry {
        seq: 1,
        prev_hash: 0,
        ts: 0,
        op: AUDIT_OP_CHECKPOINT,
        digest: 0,
        snapshot: Vec::new(),
    }
    .encode();
    bad[4] = 9;
    assert_eq!(AuditEntry::decode(&bad), Err("bad audit version"));
    bad[0] = b'X';
    assert_eq!(AuditEntry::decode(&bad), Err("bad audit magic"));
}

#[test]
fn audit_decode_rejects_unknown_op() {
    let e = AuditEntry {
        seq: 1,
        prev_hash: 0,
        ts: 5,
        op: 7,
        digest: 9,
        snapshot: Vec::new(),
    };
    assert_eq!(AuditEntry::decode(&e.encode()), Err("bad audit op"));
    let ok = AuditEntry { op: AUDIT_OP_ROLLBACK, ..e };
    assert_eq!(AuditEntry::decode(&ok.encode()).unwrap(), ok);
}

#[test]
fn audit_keys_sort_in_sequence_order() {
    let seqs = [0u64, 1, 9, 10, 15, 16, 255, 256, 0xffff, 1 << 40, u64::MAX - 1, u64::MAX];
    for w in seqs.windows(2) {
        assert!(audit_key(w[0]) < audit_key(w[1]), "{} before {}", w[0], w[1]);
    }
}
