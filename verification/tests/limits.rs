use neural_sgdb::limits::{DEFAULT_BQ_ORPHAN_THRESHOLD, MAX_EMBEDDING_DIM, MAX_KLEN, MAX_VLEN};

#[test]
fn limits_are_single_source_of_truth() {
    assert_eq!(MAX_KLEN, 4096);
    assert_eq!(MAX_VLEN, 1024 * 1024);
    assert_eq!(MAX_EMBEDDING_DIM, 4096);
    assert_eq!(neural_sgdb::bq::MAX_EMBEDDING_DIM, MAX_EMBEDDING_DIM);
    assert_eq!(DEFAULT_BQ_ORPHAN_THRESHOLD, 64);
}
