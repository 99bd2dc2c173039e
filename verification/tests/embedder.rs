use neural_sgdb::embedder::{demo_votes, DEMO_BINS};
use neural_sgdb::fingerprint::fnv1a64;

#[test]
fn demo_votes_follow_the_trigram_hash() {
    let votes = demo_votes("abcd");
    assert_eq!(votes.len(), 2);
    let h = fnv1a64(b"bcd");
    assert_eq!(votes[1], (h % 256, (h >> 8) & 1 == 1));
    assert_eq!(demo_votes("ab").len(), 2);
    assert_eq!(demo_votes("ab")[0].0, fnv1a64(b"a") % 256);
    assert!(demo_votes("").is_empty());
    assert!(demo_votes("banco de dados").iter().all(|(b, _)| *b < DEMO_BINS));
}

#[test]
fn demo_votes_are_position_independent() {
    let a = demo_votes("xyzabc");
    let b = demo_votes("abcxyz");
    assert_eq!(a[0], b[3]);
    assert_eq!(a[3], b[0]);
}
