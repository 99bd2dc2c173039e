use neural_sgdb::art::ArtIndex;

#[test]
fn art_smoke() {
    let mut art = ArtIndex::new();
    art.insert("md/L1/a", 10);
    art.insert("md/L1/b", 20);
    art.insert("md/L2/c", 30);
    assert_eq!(art.get("md/L1/a"), Some(10));
    assert_eq!(art.get("md/L1/b"), Some(20));
    assert!(art.scan_prefix("md/L1/").len() >= 2);
    assert_eq!(art.len, 3);
    assert!(art.delete("md/L1/b"));
    assert!(art.get("md/L1/b").is_none());
    assert_eq!(art.len, 2);
}

#[test]
fn art_shrink_after_delete_reclaims_nodes() {
    let mut art = ArtIndex::new();
    for i in 0..200 {
        art.insert(&format!("k{i:03}"), i as u64);
    }
    assert_eq!(art.len, 200);
    for i in 0..199 {
        assert!(art.delete(&format!("k{i:03}")), "delete {i} failed");
    }
    assert_eq!(art.len, 1);
    assert_eq!(art.get("k199"), Some(199));
    assert!(art.get("k000").is_none());
    art.insert("k000", 0);
    assert_eq!(art.len, 2);
    assert_eq!(art.get("k000"), Some(0));
    assert_eq!(art.scan_prefix("k").len(), 2);
    assert!(art.delete("k000"));
    assert!(art.delete("k199"));
    assert_eq!(art.len, 0);
    assert!(art.scan_prefix("k").is_empty());
    art.insert("novo", 42);
    assert_eq!(art.get("novo"), Some(42));
    assert_eq!(art.len, 1);
}

#[test]
fn art_churn_100k_ops_stays_consistent() {
    let mut art = ArtIndex::new();
    for round in 0..20 {
        for i in 0..5000 {
            let k = format!("ch/{i:05}");
            if round % 2 == 0 {
                art.insert(&k, i as u64);
            } else {
                let _ = art.delete(&k);
            }
        }
    }
    assert_eq!(art.len, 0);
    assert!(art.scan_prefix("ch/").is_empty());
    for i in 0..100 {
        art.insert(&format!("ch/{i:05}"), i as u64);
    }
    assert_eq!(art.len, 100);
    assert_eq!(art.scan_prefix("ch/").len(), 100);
    for i in 0..100 {
        assert_eq!(art.get(&format!("ch/{i:05}")), Some(i as u64));
    }
    for i in (0..100).step_by(2) {
        assert!(art.delete(&format!("ch/{i:05}")));
    }
    assert_eq!(art.len, 50);
    assert_eq!(art.scan_prefix("ch/").len(), 50);
}

#[test]
fn art_shared_prefix_split() {
    let mut art = ArtIndex::new();
    for i in 0..50 {
        art.insert(&format!("k{:04}/{:02}", i / 16, i), i as u64);
    }
    for i in 0..50 {
        assert_eq!(art.get(&format!("k{:04}/{:02}", i / 16, i)), Some(i as u64));
    }
    assert_eq!(art.scan_prefix("k").len(), 50);
}

#[test]
fn art_get_after_insert_and_delete_law_on_values() {
    let mut art = ArtIndex::new();
    art.insert("a/1", 1);
    art.insert("a/1", 7);
    assert_eq!(art.get("a/1"), Some(7));
    assert_eq!(art.len, 1);
    assert!(!art.delete("a/2"));
    assert!(art.delete("a/1"));
    assert_eq!(art.get("a/1"), None);
    assert!(!art.delete("a/1"));
}

#[test]
fn art_scan_prefix_returns_exactly_the_prefixed_keys() {
    let mut art = ArtIndex::new();
    art.insert("x/aa", 1);
    art.insert("x/ab", 2);
    art.insert("y/aa", 3);
    let mut got = art.scan_prefix("x/");
    got.sort();
    assert_eq!(got, vec![(String::from("x/aa"), 1), (String::from("x/ab"), 2)]);
    assert!(art.scan_prefix("z").is_empty());
    art.clear();
    assert_eq!(art.len, 0);
    assert_eq!(art.get("x/aa"), None);
}

#[test]
fn scan_prefix_returns_each_matching_key_once() {
    let mut t = ArtIndex::new();
    let keys = ["md/L1/a", "md/L1/b", "md/L2/a", "md/L2/bb", "sys/x", "md/L1/c"];
    for (i, k) in keys.iter().enumerate() {
        t.insert(k, i as u64);
    }
    t.insert("md/L1/a", 99);
    for p in ["md/", "md/L1/", "md/L2/", "sys/", "zz", ""] {
        let r = t.scan_prefix(p);
        let expected = keys.iter().filter(|k| k.starts_with(p)).count();
        assert_eq!(r.len(), expected, "prefix {p:?}");
    }
}
