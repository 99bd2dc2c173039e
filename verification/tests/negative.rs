use neural_sgdb::negative::{negative_digest, negative_key, normalize_query, AbsenceEntry, NEGATIVE_PREFIX};

#[test]
fn roundtrip_and_truncation_never_panic() {
    let e = AbsenceEntry {
        query: String::from("preco do cafe hoje"),
        scope: String::from("user/ana"),
        probes: 7,
        first_tick: 1_000,
        last_tick: 42_000,
    };
    let bytes = e.encode();
    let (back, used) = AbsenceEntry::decode(&bytes).expect("decodes");
    assert_eq!(back, e);
    assert_eq!(used, bytes.len());
    for cut in 0..bytes.len() {
        assert!(AbsenceEntry::decode(&bytes[..cut]).is_none(), "prefix of {cut} bytes should fail");
    }
    let mut bad = bytes.clone();
    bad[0] = b'X';
    assert!(AbsenceEntry::decode(&bad).is_none());
    let mut badv = bytes.clone();
    badv[4] = 9;
    assert!(AbsenceEntry::decode(&badv).is_none());
    let mut lying = bytes.clone();
    lying[25] = 0xff;
    lying[26] = 0x7f;
    assert!(AbsenceEntry::decode(&lying).is_none());
}

#[test]
fn normalization_collides_same_words_and_key_is_fixed_width() {
    assert_eq!(normalize_query("ONDE está o Café?"), "onde está o café");
    assert_eq!(normalize_query("CHA, verde!"), normalize_query("cha verde"));
    assert_ne!(normalize_query("cafe"), normalize_query("cha"));
    let k1 = negative_key("user/ana", "cafe");
    let k2 = negative_key("user/ana", "cafe");
    let k3 = negative_key("user/bruno", "cafe");
    assert_eq!(k1, k2, "deterministic");
    assert_ne!(k1, k3, "the scope enters the key");
    assert_eq!(k1.len(), k3.len(), "fixed width");
    assert_ne!(negative_key("ab", "c"), negative_key("a", "bc"));
    assert_eq!(negative_digest(k1.as_bytes()), Some(&k1.as_bytes()[NEGATIVE_PREFIX.len()..]));
    assert!(negative_digest(b"md/L4/x").is_none());
}

#[test]
fn probes_saturates_instead_of_wrapping() {
    let mut e = AbsenceEntry { probes: u32::MAX, ..Default::default() };
    e.probes = e.probes.saturating_add(1);
    assert_eq!(e.probes, u32::MAX, "infinite re-probing does not wrap to zero");
    let (back, _) = AbsenceEntry::decode(&e.encode()).unwrap();
    assert_eq!(back.probes, u32::MAX);
}

#[test]
fn negative_key_exact_value() {
    let mut h: u64 = 0xcbf2_9ce4_8422_2325;
    for b in b"s\x1fq" {
        h ^= *b as u64;
        h = h.wrapping_mul(0x0000_0100_0000_01b3);
    }
    assert_eq!(negative_key("s", "q"), format!("sys/negative/{h:016x}"));
    assert_eq!(normalize_query("  --  "), "");
    assert_eq!(normalize_query("a1,B2"), "a1 b2");
}

#[test]
fn normalize_query_is_idempotent() {
    for q in ["  Hello, WORLD!! ", "a-b_c  d", "", "ÁRVORE verde 42", "x"] {
        let once = normalize_query(q);
        assert_eq!(normalize_query(&once), once);
    }
    assert_eq!(normalize_query("  Hello, WORLD!! "), "hello world");
}

#[test]
fn truncated_absence_is_rejected() {
    let e = AbsenceEntry {
        query: "onde esta".into(),
        scope: "agent".into(),
        probes: 3,
        first_tick: 10,
        last_tick: 20,
    };
    let b = e.encode();
    for n in 0..b.len() {
        assert!(AbsenceEntry::decode(&b[..n]).is_none(), "prefix of {n} bytes");
    }
    assert!(AbsenceEntry::decode(&b).is_some());
}
