use neural_sgdb::fingerprint::{fnv1a64, fp_mix, fp_mix_str, fp_mix_u64, FP_SEED};

#[test]
fn fp_known_vector_matches_fnv1a64() {
    assert_eq!(fp_mix(FP_SEED, b"a"), 0xaf63_dc4c_8601_ec8c);
    assert_eq!(fnv1a64(b"a"), fp_mix(FP_SEED, b"a"));
}

#[test]
fn fp_mix_str_is_length_prefixed() {
    let left = fp_mix_str(fp_mix_str(FP_SEED, "ab"), "c");
    let right = fp_mix_str(fp_mix_str(FP_SEED, "a"), "bc");
    assert_ne!(left, right, "without the width the concatenation would collide");
}

#[test]
fn fp_mix_u64_distinguishes_fields() {
    let a = fp_mix_u64(fp_mix_u64(FP_SEED, 1), 2);
    let b = fp_mix_u64(fp_mix_u64(FP_SEED, 2), 1);
    assert_ne!(a, b);
}

#[test]
fn fp_mix_deterministic_and_seed_sensitive() {
    assert_eq!(fp_mix(FP_SEED, b"abc"), fp_mix(FP_SEED, b"abc"));
    assert_ne!(fp_mix(FP_SEED, b"abc"), fp_mix(FP_SEED + 1, b"abc"));
    assert_eq!(fp_mix(FP_SEED, b""), FP_SEED, "empty input leaves the state");
}

#[test]
fn fp_mix_concatenation_is_sequential_mixing() {
    assert_eq!(fp_mix(FP_SEED, b"hello world"), fp_mix(fp_mix(FP_SEED, b"hello "), b"world"));
    assert_eq!(fp_mix_u64(FP_SEED, 0x0102), fp_mix(FP_SEED, &0x0102u64.to_le_bytes()));
    assert_eq!(fp_mix_str(FP_SEED, "ab"), fp_mix(fp_mix(FP_SEED, &2u64.to_le_bytes()), b"ab"));
}
