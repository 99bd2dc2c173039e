use neural_sgdb::lifecycle::{archive_due, commit_due};
use neural_sgdb::memory_doc::{generate_memory_id, MemoryLayer, MemoryState};
use neural_sgdb::meta::{next_meta, MemoryMeta, FULL_CONFIDENCE_BITS};

fn stored(vid: &str, parents: &[&str]) -> MemoryMeta {
    MemoryMeta {
        memory_id: "slot".into(),
        version_id: vid.into(),
        source: 4,
        confidence_bits: 0.5f32.to_bits(),
        importance_bits: 0.25f32.to_bits(),
        created_tick: 3,
        parent_ids: parents.iter().map(|p| p.to_string()).collect(),
        clock_overflow: Vec::new(),
        last_reinforced: 0,
    }
}

#[test]
fn first_write_creates_identity() {
    let m = next_meta(None, None, true, 7, 12, MemoryLayer::L3EpisodicLong, "k", vec![(9, 2)], 4);
    let id = generate_memory_id(7, 12, MemoryLayer::L3EpisodicLong, "k");
    assert_eq!(m.memory_id, id);
    assert_eq!(m.version_id, id);
    assert_eq!(m.source, 7);
    assert_eq!(m.created_tick, 12);
    assert_eq!(m.confidence_bits, FULL_CONFIDENCE_BITS);
    assert_eq!(f32::from_bits(m.confidence_bits), 1.0);
    assert_eq!(f32::from_bits(m.importance_bits), 0.4);
    assert!(m.parent_ids.is_empty());
    assert_eq!(m.clock_overflow, vec![(9, 2)]);
}

#[test]
fn replica_keeps_sender_identity() {
    let d = stored("remote-v", &["p0"]);
    let m = next_meta(None, Some(d.clone()), false, 7, 12, MemoryLayer::L4Semantic, "k", Vec::new(), 4);
    assert_eq!(m, d);
}

#[test]
fn local_write_moves_version_and_records_parent() {
    let e = stored("v1", &["v0"]);
    let m = next_meta(Some(e), None, true, 7, 20, MemoryLayer::L4Semantic, "k", Vec::new(), 4);
    assert_eq!(m.memory_id, "slot");
    assert_eq!(m.version_id, generate_memory_id(7, 20, MemoryLayer::L4Semantic, "k"));
    assert_eq!(m.parent_ids, vec!["v0".to_string(), "v1".to_string()]);
    assert_eq!(m.source, 4);
}

#[test]
fn parents_keep_the_most_recent() {
    let e = stored("v3", &["v0", "v1", "v2"]);
    let m = next_meta(Some(e), None, true, 7, 20, MemoryLayer::L4Semantic, "k", Vec::new(), 2);
    assert_eq!(m.parent_ids, vec!["v2".to_string(), "v3".to_string()]);
}

#[test]
fn same_version_is_not_bumped() {
    let vid = generate_memory_id(7, 20, MemoryLayer::L4Semantic, "k");
    let e = stored(&vid, &["v0"]);
    let m = next_meta(Some(e.clone()), None, true, 7, 20, MemoryLayer::L4Semantic, "k", Vec::new(), 4);
    assert_eq!(m, e);
}

#[test]
fn incoming_scores_and_parents_are_merged() {
    let e = stored("v1", &["v0"]);
    let mut d = stored("other", &["v0", "x", "x"]);
    d.confidence_bits = 0.9f32.to_bits();
    d.importance_bits = 0.7f32.to_bits();
    let m = next_meta(Some(e), Some(d), false, 7, 20, MemoryLayer::L4Semantic, "k", Vec::new(), 4);
    assert_eq!(m.version_id, "v1");
    assert_eq!(m.memory_id, "slot");
    assert_eq!(f32::from_bits(m.confidence_bits), 0.9);
    assert_eq!(f32::from_bits(m.importance_bits), 0.7);
    assert_eq!(m.parent_ids, vec!["v0".to_string(), "x".to_string()]);
}

#[test]
fn layer_default_importance_bits() {
    let cases = [
        (MemoryLayer::L0Sensory, 0.0f32),
        (MemoryLayer::L1Working, 0.0),
        (MemoryLayer::L2EpisodicShort, 0.2),
        (MemoryLayer::L3EpisodicLong, 0.4),
        (MemoryLayer::L4Semantic, 1.0),
        (MemoryLayer::L5Procedural, 0.8),
        (MemoryLayer::L6Reserved, 0.5),
        (MemoryLayer::L7Identity, 1.0),
    ];
    for (l, v) in cases {
        assert_eq!(l.default_importance_bits(), v.to_bits());
    }
}

#[test]
fn lifecycle_age_rules() {
    assert!(commit_due(MemoryState::Active, Some(5), 6, 1));
    assert!(!commit_due(MemoryState::Active, Some(5), 5, 1));
    assert!(!commit_due(MemoryState::Archived, Some(0), 100, 1));
    assert!(commit_due(MemoryState::Active, None, 10, 10));
    assert!(!archive_due(MemoryState::Superseded, Some(0), 100, None));
    assert!(archive_due(MemoryState::Superseded, Some(1), 4, Some(3)));
    assert!(!archive_due(MemoryState::Superseded, Some(2), 4, Some(3)));
    assert!(!archive_due(MemoryState::Active, Some(0), 100, Some(3)));
    assert!(!archive_due(MemoryState::Superseded, None, 100, Some(3)));
}
