use neural_sgdb::lexical::tokenize_for_rerank;

#[test]
fn tokenizer_splits_lowercases_and_keeps_unicode_letters() {
    assert_eq!(tokenize_for_rerank("Olá, MUNDO-2024!"), vec!["olá", "mundo", "2024"]);
    assert!(tokenize_for_rerank(" ,;! ").is_empty());
    assert_eq!(tokenize_for_rerank("ÉCOLE x"), vec!["École", "x"]);
}

use neural_sgdb::lexical::LexicalIndex;

#[test]
fn lexical_index_counts_documents_and_term_frequencies() {
    let mut idx = LexicalIndex::new();
    assert!(idx.is_empty());
    idx.add("md/L2/a", "rust memory database agent recall");
    idx.add("md/L2/c", "rust agent memory recall recall");
    assert_eq!(idx.len(), 2);
    assert_eq!(idx.n_docs(), 2);
    let mut recall = idx.postings_of("recall");
    recall.sort();
    assert_eq!(recall, vec![("md/L2/a".to_string(), 1), ("md/L2/c".to_string(), 2)]);
    assert!(idx.postings_of("python").is_empty());
}

#[test]
fn lexical_reindex_replaces_and_remove_undoes() {
    let mut idx = LexicalIndex::new();
    idx.add("k", "alpha beta");
    idx.add("k", "Alpha alpha");
    assert_eq!(idx.len(), 1);
    assert_eq!(idx.postings_of("alpha"), vec![("k".to_string(), 2)]);
    assert!(idx.postings_of("beta").is_empty());
    idx.add("k", "Alpha alpha");
    assert_eq!(idx.len(), 1);
    assert_eq!(idx.postings_of("alpha"), vec![("k".to_string(), 2)]);
    idx.remove("k");
    assert!(idx.is_empty());
    assert!(idx.postings_of("alpha").is_empty());
    idx.remove("missing");
    assert_eq!(idx.len(), 0);
    idx.add("e", " ,; ");
    assert_eq!(idx.len(), 0);
}

use neural_sgdb::lexical::query_terms;

#[test]
fn query_terms_are_sorted_distinct_and_capped() {
    assert_eq!(query_terms("rust Memory recall rust"), vec!["memory", "recall", "rust"]);
    assert!(query_terms(" ;; ").is_empty());
    let long: String = (0..1500).map(|i| format!("t{i} ")).collect();
    let terms = query_terms(&long);
    assert_eq!(terms.len(), 1024);
    assert!(terms.contains(&"t1023".to_string()));
    assert!(!terms.contains(&"t1024".to_string()));
    assert!(terms.windows(2).all(|w| w[0] < w[1]));
}

use neural_sgdb::fingerprint::{fp_mix_str, fp_mix_u64, FP_SEED};

#[test]
fn lexical_fingerprint_is_insertion_order_independent() {
    let mut a = LexicalIndex::new();
    a.add("d1", "beta alpha beta");
    a.add("d2", "alpha gamma");
    let mut b = LexicalIndex::new();
    b.add("d2", "alpha gamma");
    b.add("d1", "beta alpha beta");
    assert_eq!(a.fp_mix_into(FP_SEED), b.fp_mix_into(FP_SEED));
    let mut c = LexicalIndex::new();
    c.add("d1", "beta alpha");
    c.add("d2", "alpha gamma");
    assert_ne!(a.fp_mix_into(FP_SEED), c.fp_mix_into(FP_SEED));
    let empty = LexicalIndex::new();
    assert_eq!(empty.fp_mix_into(7), fp_mix_u64(fp_mix_u64(7, 0), 0));
    let mut one = LexicalIndex::new();
    one.add("k", "x");
    let mut h = fp_mix_u64(fp_mix_u64(9, 1), 1);
    h = fp_mix_str(h, "x");
    h = fp_mix_u64(h, 1);
    h = fp_mix_str(h, "k");
    h = fp_mix_u64(h, 1);
    assert_eq!(one.fp_mix_into(9), h);
}
