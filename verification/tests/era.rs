use neural_sgdb::era::estimate_era_migration;

#[test]
fn estimate_scales_linearly_with_record_count() {
    let e1k = estimate_era_migration(1_000, 400_000);
    let e10k = estimate_era_migration(10_000, 4_000_000);
    let ratio = e10k.db_side_ns as f64 / e1k.db_side_ns as f64;
    assert!((ratio - 10.0).abs() < 1e-6, "linear in N (ratio={ratio})");
    assert_eq!(e10k.docs_to_reembed, 10_000);
    assert_eq!(e10k.text_bytes, 4_000_000);
    assert!((e10k.db_side_ns as f64 / 1e9 - 0.86).abs() < 0.1);
}

#[test]
fn estimate_reports_formula_and_counts() {
    let e = estimate_era_migration(48_231, 22_000_000);
    assert_eq!(e.docs_to_reembed, 48_231);
    assert_eq!(e.text_bytes, 22_000_000);
    assert!(e.formula.contains("86us"), "formula exposed: {}", e.formula);
    assert!(e.db_side_ns > 0);
}

#[test]
fn estimate_exact_value() {
    assert_eq!(estimate_era_migration(3, 0).db_side_ns, 258_000);
    assert_eq!(estimate_era_migration(0, 9).db_side_ns, 0);
    assert_eq!(estimate_era_migration(usize::MAX, 0).db_side_ns, usize::MAX as u128 * 86_000);
}
