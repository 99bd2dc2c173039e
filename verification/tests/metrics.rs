use neural_sgdb::metrics::Metrics;

#[test]
fn metrics_snapshot_roundtrip() {
    let m = Metrics { memory_writes: 3, recalls: 5, ..Metrics::default() };
    assert_eq!(m.value("memory_writes"), 3);
    assert_eq!(m.value("recalls"), 5);
    assert_eq!(m.value("nope"), 0);
    let snap = m.snapshot();
    assert!(snap.len() >= 13);
    assert!(snap.contains(&("memory_writes", 3)));
    assert!(snap.contains(&("recalls", 5)));
}

#[test]
fn metrics_snapshot_exposes_open_cost() {
    let m = Metrics { open_rebuild_ms_last: 42, open_rebuild_ms_max: 99, opens: 7, ..Metrics::default() };
    assert_eq!(m.value("open_rebuild_ms_last"), 42);
    assert_eq!(m.value("open_rebuild_ms_max"), 99);
    assert_eq!(m.value("opens"), 7);
}

#[test]
fn metrics_snapshot_order_is_stable() {
    let m = Metrics { conflicts_detected: 1, index_rebuilds: 2, ..Metrics::default() };
    let snap = m.snapshot();
    assert_eq!(snap.len(), 16);
    assert_eq!(snap[0].0, "memory_writes");
    assert_eq!(snap[3], ("conflicts_detected", 1));
    assert_eq!(snap[12], ("index_rebuilds", 2));
    assert_eq!(snap[15].0, "opens");
}
