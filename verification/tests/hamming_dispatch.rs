use neural_sgdb::hamming_dispatch::{
    caps_bits, caps_from_bits, hamming, hamming_1024, hamming_scalar, path_name, select_best_hamming_kernel,
    smoke_1024, CpuCaps, PATH_AVX2_XOR, PATH_AVX512, PATH_SCALAR,
};

#[test]
fn scalar_correctness() {
    let a = [0xFFFF_FFFF_FFFF_FFFFu64, 0x0];
    let b = [0xFFFF_FFFF_FFFF_FFFFu64, 0x0];
    let c = [0xFFFF_FFFF_FFFF_FFFFu64, 0xFFFF_FFFF_FFFF_FFFFu64];
    assert_eq!(hamming_scalar(&a, &b), 0);
    assert_eq!(hamming_scalar(&a, &c), 64);
}

#[test]
fn smoke_1024_ok() {
    assert!(smoke_1024());
}

#[test]
fn unequal_lengths_count_the_extra_words() {
    assert_eq!(hamming(&[0b1011], &[0b0001, 0xF0, 0x1]), 2 + 4 + 1);
    assert_eq!(hamming(&[], &[u64::MAX]), 64);
    assert_eq!(hamming(&[], &[]), 0);
    let mut x = [0u64; 16];
    x[15] = 3;
    assert_eq!(hamming_1024(&x, &[0u64; 16]), 2);
}

#[test]
fn kernel_selection_by_capabilities() {
    assert_eq!(select_best_hamming_kernel(CpuCaps { avx2: true, avx512: true }), PATH_AVX512);
    assert_eq!(select_best_hamming_kernel(CpuCaps { avx2: true, avx512: false }), PATH_AVX2_XOR);
    assert_eq!(select_best_hamming_kernel(CpuCaps::default()), PATH_SCALAR);
    assert_eq!(path_name(PATH_AVX512), "avx512");
    assert_eq!(path_name(PATH_AVX2_XOR), "avx2_xor");
    assert_eq!(path_name(9), "scalar");
    let c = CpuCaps { avx2: false, avx512: true };
    assert_eq!(caps_bits(c), 2);
    assert_eq!(caps_from_bits(caps_bits(c)), c);
}
