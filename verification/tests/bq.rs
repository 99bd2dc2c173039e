use neural_sgdb::bq::{quantize_1024_words, quantize_signs, smoke, BqFlatIndex, MihIndex};

fn quantize(v: &[f32]) -> Vec<u64> {
    let flags: Vec<bool> = v.iter().map(|x| *x > 0.0).collect();
    quantize_signs(&flags)
}

fn mk_idx(n: usize) -> BqFlatIndex {
    let mut idx = BqFlatIndex::new();
    for i in 0..n {
        let v = [1.0, -1.0, (i % 7) as f32 / 3.0 - 1.0, -1.0];
        idx.insert(i as u64, quantize(&v));
    }
    idx
}


#[test]
fn bq_top_k() {
    assert!(smoke());
}

#[test]
fn top_k_empty_index() {
    let idx = BqFlatIndex::new();
    assert!(idx.top_k(&[0, 0, 0, 0], 5).is_empty());
}

#[test]
fn top_k_orders_by_distance_then_id_and_truncates() {
    let mut idx = BqFlatIndex::new();
    idx.insert(9, vec![0b1111]);
    idx.insert(4, vec![0b0011]);
    idx.insert(2, vec![0b0011]);
    idx.insert(7, vec![0b0000]);
    let all = idx.top_k(&[0b0001], 10);
    assert_eq!(all, vec![(2, 1), (4, 1), (7, 1), (9, 3)]);
    assert_eq!(idx.top_k(&[0b0001], 2), vec![(2, 1), (4, 1)]);
    assert!(idx.top_k(&[0b0001], 0).is_empty());
    assert_eq!(idx.len(), 4);
}

#[test]
fn insert_fits_vectors_to_the_first_width() {
    let mut idx = BqFlatIndex::new();
    idx.insert(1, vec![1, 2]);
    assert_eq!(idx.words_per_vec, 2);
    idx.insert(2, vec![3, 4, 5]);
    idx.insert(3, vec![6]);
    assert_eq!(idx.flat, vec![1, 2, 3, 4, 6, 0]);
    let mut b = [0u64; 16];
    b[0] = 8;
    b[1] = 9;
    idx.insert_1024(4, &b);
    assert_eq!(idx.flat.len(), 8);
    assert_eq!(&idx.flat[6..], &[8, 9]);
    idx.clear();
    assert_eq!(idx.len(), 0);
    assert_eq!(idx.words_per_vec, 0);
    idx.insert_1024(5, &b);
    assert_eq!(idx.words_per_vec, 16);
    let mut e = BqFlatIndex::new();
    e.insert(1, Vec::new());
    assert_eq!(e.words_per_vec, 1);
    assert_eq!(e.flat, vec![0]);
}

#[test]
fn bq_quantize() {
    let q = quantize(&[1.0, -1.0, 1.0, -1.0]);
    assert_eq!(q, vec![0b0101u64]);
    let q2 = quantize_1024_words(&quantize(&[1.0, -1.0]));
    assert_eq!(q2.len(), 16);
    assert_eq!(q2[0], 0b01);
}

#[test]
fn quantize_packs_across_words_and_pads() {
    let mut flags = vec![false; 130];
    flags[0] = true;
    flags[63] = true;
    flags[64] = true;
    flags[129] = true;
    let q = quantize_signs(&flags);
    assert_eq!(q, vec![1 | (1u64 << 63), 1, 0b10]);
    assert!(quantize_signs(&[]).is_empty());
    let long: Vec<u64> = (0..20u64).collect();
    let fitted = quantize_1024_words(&long);
    assert_eq!(fitted[15], 15);
}

#[test]
fn top_k_zero_returns_empty() {
    let idx = mk_idx(10);
    assert!(idx.top_k(&[0, 0, 0, 0], 0).is_empty());
}

#[test]
fn top_k_ge_len_returns_all_sorted() {
    let idx = mk_idx(10);
    let hits = idx.top_k(&[0, 0, 0, 0], 100);
    assert_eq!(hits.len(), 10);
    for w in hits.windows(2) {
        assert!(w[0].1 <= w[1].1, "distance order broken: {hits:?}");
    }
}

#[test]
fn top_k_deterministic_and_sorted() {
    let idx = mk_idx(50);
    let q = [1u64 << 0, 1 << 1, 1 << 2, 1 << 3];
    let a = idx.top_k(&q, 7);
    let b = idx.top_k(&q, 7);
    assert_eq!(a, b);
    for w in a.windows(2) {
        let (d1, id1) = (w[0].1, w[0].0);
        let (d2, id2) = (w[1].1, w[1].0);
        assert!(d1 < d2 || (d1 == d2 && id1 < id2), "(dist, id) order broken: {a:?}");
    }
}

#[test]
fn top_k_tie_break_by_id() {
    let mut idx = BqFlatIndex::new();
    for i in [5u64, 2, 9, 1] {
        idx.insert(i, quantize(&[1.0, 1.0, 1.0, 1.0]));
    }
    let hits = idx.top_k(&[1, 1, 1, 1], 4);
    assert_eq!(hits.len(), 4);
    let ids: Vec<u64> = hits.iter().map(|h| h.0).collect();
    assert_eq!(ids, vec![1, 2, 5, 9]);
}

fn lcg_vector(i: u64, dims: usize) -> Vec<f32> {
    let mut s = i.wrapping_mul(1103515245).wrapping_add(12345);
    let mut v = vec![0f32; dims];
    for x in v.iter_mut() {
        s = s.wrapping_mul(1103515245).wrapping_add(12345);
        *x = ((s >> 32) as i32 % 200) as f32 / 100.0 - 1.0;
    }
    v
}

#[test]
fn mih_prunes_candidates_and_recovers_exact() {
    let mut src = BqFlatIndex::new();
    let mut vecs = Vec::with_capacity(10_000);
    for i in 0..10_000u64 {
        let v = lcg_vector(i, 1024);
        src.insert(i, quantize(&v));
        vecs.push(v);
    }
    let mih = MihIndex::build(&src, 4);
    let q = quantize(&vecs[42]);
    let cand = mih.candidates(&q, 0);
    assert!(cand.len() < 10_000 / 8, "MIH did not prune: {} candidates of 10000", cand.len());
    let top = mih.top_k(&src, &q, 1, 0);
    assert_eq!(top[0], (42, 0));
    let brute = src.top_k(&q, 1);
    assert_eq!(top[0].0, brute[0].0);
}

#[test]
fn centered_query_recovers_exact_on_offset_query() {
    let mut idx = BqFlatIndex::new();
    for i in 0..2000u64 {
        idx.insert(i, quantize(&lcg_vector(i, 16)));
    }
    let target = 7u64;
    let q: Vec<f32> = lcg_vector(target, 16).iter().map(|x| x + 5.0).collect();
    let mean = q.iter().sum::<f32>() / q.len() as f32;
    let centered: Vec<bool> = q.iter().map(|x| *x > mean).collect();
    let std_top = idx.top_k(&quantize(&q), 5);
    let ctr_top = idx.top_k(&quantize_signs(&centered), 5);
    assert!(!std_top.is_empty() && !ctr_top.is_empty());
    let ham_ctr = ctr_top.iter().position(|(id, _)| *id == target);
    assert!(ham_ctr.is_some(), "the centered query should bring the exact match: {ctr_top:?}");
}

#[test]
fn insert_1024_respects_established_width() {
    let mut idx = BqFlatIndex::new();
    idx.insert(1, quantize(&[1.0, -1.0, 1.0, -1.0]));
    idx.insert_1024(2, &[0u64; 16]);
    assert_eq!(idx.flat.len(), idx.ids.len() * idx.words_per_vec);
    let hits = idx.top_k(&[0], 10);
    assert_eq!(hits.len(), 2);
    let mut idx2 = BqFlatIndex::new();
    idx2.insert_1024(1, &[0u64; 16]);
    idx2.insert(2, quantize(&[1.0, -1.0]));
    assert_eq!(idx2.flat.len(), idx2.ids.len() * idx2.words_per_vec);
    let hits2 = idx2.top_k(&[0u64; 16], 10);
    assert_eq!(hits2.len(), 2);
    let mut idx3 = BqFlatIndex::new();
    let mut wide = vec![0u64; 17];
    wide[0] = 1;
    idx3.insert(1, wide);
    idx3.insert_1024(2, &[0u64; 16]);
    assert_eq!(idx3.flat.len(), idx3.ids.len() * idx3.words_per_vec);
    let hits3 = idx3.top_k(&[1u64 << 0], 10);
    assert_eq!(hits3.len(), 2);
    assert_eq!(hits3[0], (1, 0));
}

#[test]
fn top_k_parity_with_full_sort() {
    let idx = mk_idx(64);
    let q = [1u64 << 0, 1 << 1, 1 << 2, 1 << 3];
    let heap_top = idx.top_k(&q, 5);
    let full = idx.top_k(&q, 64);
    let full_top: Vec<(u64, u32)> = full.into_iter().take(5).collect();
    assert_eq!(heap_top, full_top);
}

#[test]
fn mih_candidates_are_ascending_union_of_probed_buckets() {
    let mut src = BqFlatIndex::new();
    src.insert(10, vec![0b0001, 0b1000]);
    src.insert(11, vec![0b0001, 0b0100]);
    src.insert(12, vec![0b0010, 0b1000]);
    src.insert(13, vec![0b0111, 0b0111]);
    let mih = MihIndex::build(&src, 2);
    // block 0 matches positions 0 and 1, block 1 matches positions 0 and 2
    assert_eq!(mih.candidates(&[0b0001, 0b1000], 0), vec![0, 1, 2]);
    // no block matches
    assert!(mih.candidates(&[0b1111, 0b1111], 0).is_empty());
    // flipping bit 0 of the first word turns 0b0011 into 0b0010
    assert_eq!(mih.candidates(&[0b0011, 0], 1), vec![2]);
    assert!(mih.candidates(&[0b0011, 0], 0).is_empty());
    // a query one word long probes only its first block
    assert_eq!(mih.candidates(&[0b0111], 0), vec![3]);
    let top = mih.top_k(&src, &[0b0001, 0b1000], 2, 0);
    assert_eq!(top, vec![(10, 0), (11, 2)]);
    assert!(mih.top_k(&src, &[0b0001, 0b1000], 0, 0).is_empty());
}

#[test]
fn mih_single_block_when_blocks_is_zero() {
    let mut src = BqFlatIndex::new();
    src.insert(1, vec![5, 6]);
    src.insert(2, vec![5, 7]);
    let mih = MihIndex::build(&src, 0);
    assert_eq!(mih.candidates(&[5, 6], 0), vec![0]);
    assert_eq!(mih.top_k(&src, &[5, 6], 3, 0), vec![(1, 0)]);
    let empty = BqFlatIndex::new();
    let mih2 = MihIndex::build(&empty, 3);
    assert!(mih2.candidates(&[1, 2, 3], 4).is_empty());
}

#[test]
fn mih_ranks_like_flat_when_every_vector_is_a_candidate() {
    let mut src = BqFlatIndex::new();
    for (id, w) in [(7u64, 0b1011u64), (3, 0b0001), (9, 0b1111), (1, 0b0110), (5, 0b0001)] {
        src.insert(id, vec![42, w]);
    }
    let mih = MihIndex::build(&src, 2);
    let q = [42u64, 0b0011];
    assert_eq!(mih.candidates(&q, 0), vec![0, 1, 2, 3, 4]);
    for k in 0..7 {
        assert_eq!(mih.top_k(&src, &q, k, 0), src.top_k(&q, k));
    }
    assert!(mih.serves(&src));
    let other = BqFlatIndex::new();
    assert!(!mih.serves(&other));
}
