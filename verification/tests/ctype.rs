use neural_sgdb::ctype::{
    detect_content_type, embedding_dim_of, key_carries_embedding, parse_stable_label, payload_content_type,
    renders_prose, stable_label, ContentType,
};

#[test]
fn detects_prose_verbatim() {
    assert_eq!(detect_content_type(b"clima ensolarado", None), ContentType::Text);
    assert_eq!(detect_content_type("memórias com acento e 数字".as_bytes(), None), ContentType::Text);
}

#[test]
fn detects_json_delimited() {
    assert_eq!(
        detect_content_type(b"{\"intent\":\"query_status\",\"target\":\"svc-42\"}", None),
        ContentType::Json
    );
    assert_eq!(detect_content_type(b"[1, 2, 3]", None), ContentType::Json);
    assert_eq!(detect_content_type(b"use o {esquema} mas nao e json", None), ContentType::Text);
}

#[test]
fn detects_code_and_binary_and_embedding() {
    assert_eq!(detect_content_type(b"fn main() {\n    println!(\"oi\");\n}", None), ContentType::Code);
    assert_eq!(detect_content_type(&[0xFF, 0xFE, 0x00, 0x01], None), ContentType::Binary);
    assert_eq!(detect_content_type(&[0u8; 16], Some(4)), ContentType::Embedding(4));
}

#[test]
fn prose_with_arrow_is_not_code() {
    assert_eq!(
        detect_content_type(b"o companion L5 -> md/L2/<id> quando o doc nao tem texto", None),
        ContentType::Text
    );
    assert_eq!(detect_content_type(b"clima -> ensolarado hoje", None), ContentType::Text);
    assert_eq!(
        detect_content_type(b"o formato e '- {key} | {text} (d=..)' e o companion -> md/L2", None),
        ContentType::Text
    );
    assert_eq!(detect_content_type(b"fn f(x) { return x + 1; }", None), ContentType::Code);
    assert_eq!(detect_content_type(b"x = { a: 1 }; y = { b: 2 };", None), ContentType::Text);
}

#[test]
fn embedding_dim_matches_index_rule() {
    assert_eq!(embedding_dim_of(&[0u8; 16], true), Some(4));
    assert_eq!(embedding_dim_of(&[0u8; 16], false), Some(4));
    assert_eq!(embedding_dim_of(b"texto", true), None);
    assert_eq!(embedding_dim_of(b"ab", false), None);
}

#[test]
fn payload_type_honors_the_layer_not_the_byte_count() {
    assert!(key_carries_embedding("md/L4/k"));
    assert!(key_carries_embedding("md/L5/k"));
    assert!(!key_carries_embedding("md/L3/k"), "L3 is text, not a vector");
    assert!(!key_carries_embedding("md/L2/k"), "the companion is the projection");
    assert_eq!(payload_content_type("md/L3/prose", b"dezesseis bytes!", false), ContentType::Text);
    assert_eq!(payload_content_type("md/L2/prose", b"dezesseis bytes!", false), ContentType::Text);
    assert_eq!(payload_content_type("md/L4/k", &[0u8; 16], false), ContentType::Embedding(4));
    assert_eq!(payload_content_type("md/L5/k", &[0u8; 16], true), ContentType::Embedding(4));
    assert_eq!(payload_content_type("md/L3/bin", &[0xff, 0xfe, 0xfd, 0xfc], false), ContentType::Binary);
    assert_eq!(payload_content_type("md/L3/j", b"{\"num\": 42, \"x\": true}", false), ContentType::Json);
    assert_eq!(payload_content_type("md/L4/big", &[0u8; 64], false), ContentType::Embedding(16));
    assert_eq!(payload_content_type("md/L4/short", b"abc", false), ContentType::Text);
}

#[test]
fn stable_labels_roundtrip_and_prose_rule() {
    for ct in [ContentType::Text, ContentType::Json, ContentType::Code, ContentType::Binary] {
        assert_eq!(parse_stable_label(stable_label(ct)), Some(ct));
    }
    assert_eq!(stable_label(ContentType::Embedding(384)), "embedding");
    assert_eq!(parse_stable_label("embedding"), Some(ContentType::Embedding(0)));
    assert_eq!(parse_stable_label("TEXT"), None);
    assert!(renders_prose(ContentType::Code));
    assert!(!renders_prose(ContentType::Embedding(4)));
    assert!(!renders_prose(ContentType::Binary));
}

#[test]
fn trimming_and_keyword_case() {
    assert_eq!(detect_content_type(b"  \n {\"a\":1}  \t", None), ContentType::Json);
    assert_eq!(detect_content_type(b"{", None), ContentType::Text);
    assert_eq!(detect_content_type(b"RETURN x; ok", None), ContentType::Code);
    assert_eq!(detect_content_type(b"return x", None), ContentType::Text);
    assert_eq!(detect_content_type(b"def f(): return 1", None), ContentType::Code);
}
