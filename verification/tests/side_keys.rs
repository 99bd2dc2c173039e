use neural_sgdb::memory_doc::{MemoryLayer, MemoryMeta, RelationKind};
use neural_sgdb::side_keys::{
    conflict_key, decode_version_entry, encode_version_entry, event_key, is_ram_layer, meta_key, parse_rel_storage_key,
    rel_art_key, rel_storage_key, state_key, ttl_key, validity_key, version_key,
};

fn meta() -> MemoryMeta {
    MemoryMeta {
        memory_id: "m1".into(),
        version_id: "v1".into(),
        source: 3,
        confidence_bits: 0.5f32.to_bits(),
        importance_bits: 1.0f32.to_bits(),
        created_tick: 9,
        parent_ids: vec!["v0".into()],
        clock_overflow: vec![(11, 2)],
        last_reinforced: 4,
    }
}

#[test]
fn side_table_keys_have_their_prefixes() {
    assert_eq!(state_key("md/L4/k"), b"sys/state/md/L4/k".to_vec());
    assert_eq!(validity_key("x"), b"sys/validity/x".to_vec());
    assert_eq!(ttl_key("x"), b"sys/ttl/x".to_vec());
    assert_eq!(event_key("x"), b"sys/event/x".to_vec());
    assert_eq!(meta_key("x"), b"sys/meta/x".to_vec());
    assert_eq!(version_key("v9"), b"sys/version/v9".to_vec());
    assert_eq!(conflict_key("c1"), b"sys/conflict/c1".to_vec());
    assert!(is_ram_layer(MemoryLayer::L0Sensory));
    assert!(is_ram_layer(MemoryLayer::L1Working));
    assert!(!is_ram_layer(MemoryLayer::L2EpisodicShort));
}

#[test]
fn relation_keys_roundtrip() {
    let k = rel_storage_key(RelationKind::DerivedFrom, "md/L4/a/b", "md/L4/c#d");
    assert_eq!(k, b"sys/rel/derived_from/md/L4/a/b#md/L4/c#d".to_vec());
    let text = String::from_utf8(k).unwrap();
    let (kind, a, b) = parse_rel_storage_key(&text).unwrap();
    assert_eq!(kind, RelationKind::DerivedFrom);
    assert_eq!(a, "md/L4/a/b");
    assert_eq!(b, "md/L4/c#d");
    assert_eq!(rel_art_key(false, RelationKind::Causes, "x", "y"), "rel/causes/x#y");
    assert_eq!(rel_art_key(true, RelationKind::Causes, "y", "x"), "rev/causes/y#x");
    assert!(parse_rel_storage_key("sys/rel/unknown/a#b").is_none());
    assert!(parse_rel_storage_key("sys/rel/causes/ab").is_none());
    assert!(parse_rel_storage_key("sys/rel/causes").is_none());
    assert!(parse_rel_storage_key("sys/state/x").is_none());
}

#[test]
fn version_entries_roundtrip() {
    let e = encode_version_entry("md/L4/k", &meta());
    assert_eq!(&e[0..2], &7u16.to_le_bytes());
    let (sk, m) = decode_version_entry(&e).unwrap();
    assert_eq!(sk, "md/L4/k");
    assert_eq!(m, meta());
    assert!(decode_version_entry(&e[..5]).is_none());
    assert!(decode_version_entry(&e[..e.len() - 1]).is_none());
    assert!(decode_version_entry(&[]).is_none());
}
