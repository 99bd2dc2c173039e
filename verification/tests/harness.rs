use neural_sgdb::error::SgdbError;
use neural_sgdb::harness::{base_key_of, plan_promotion, promotion_step, MergeStrategy, PromotionStep};

#[test]
fn base_key_of_reads_run_keys() {
    assert_eq!(base_key_of("md/L3/r-42/adr-0001", "r-42"), Some("adr-0001".to_string()));
    assert_eq!(base_key_of("md/L4/r-42/a/b", "r-42"), Some("a/b".to_string()));
    assert_eq!(base_key_of("md/L3/r-42/", "r-42"), None);
    assert_eq!(base_key_of("md/L3/r-43/x", "r-42"), None);
    assert_eq!(base_key_of("md/L3/adr-0001", "r-42"), None);
    assert_eq!(base_key_of("xx/L3/r-42/x", "r-42"), None);
    assert_eq!(base_key_of("md/L3", "r-42"), None);
}

#[test]
fn promotion_steps() {
    assert_eq!(promotion_step(None, "t", MergeStrategy::Fail), Some(PromotionStep::Promoted));
    assert_eq!(promotion_step(Some("t"), "t", MergeStrategy::Fail), Some(PromotionStep::Deduplicated));
    assert_eq!(promotion_step(Some("a"), "b", MergeStrategy::Fail), None);
    assert_eq!(promotion_step(Some("a"), "b", MergeStrategy::Ours), Some(PromotionStep::Overwritten));
    assert_eq!(promotion_step(Some("a"), "b", MergeStrategy::Theirs), Some(PromotionStep::KeptInRun));
}

fn sources() -> Vec<(String, Option<String>, String)> {
    vec![
        ("md/L3/a".to_string(), None, "new".to_string()),
        ("md/L3/b".to_string(), Some("same".to_string()), "same".to_string()),
        ("md/L4/c".to_string(), Some("base".to_string()), "run".to_string()),
    ]
}

#[test]
fn plan_promotion_reports_each_source() {
    let r = plan_promotion(&sources(), MergeStrategy::Ours).unwrap();
    assert_eq!(r.promoted, vec!["md/L3/a".to_string(), "md/L4/c".to_string()]);
    assert_eq!(r.deduped, 1);
    assert_eq!(r.conflicts, vec!["md/L4/c".to_string()]);
    assert!(r.conflicts_kept.is_empty());
    let t = plan_promotion(&sources(), MergeStrategy::Theirs).unwrap();
    assert_eq!(t.promoted, vec!["md/L3/a".to_string()]);
    assert_eq!(t.conflicts_kept, vec!["md/L4/c".to_string()]);
    assert_eq!(
        plan_promotion(&sources(), MergeStrategy::Fail),
        Err(SgdbError::Invalid(
            "promote_run conflict: base and run texts differ (strategy=fail; resolve manually or use ours/theirs)"
        ))
    );
}
