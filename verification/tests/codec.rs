use crius::decimal::u64_to_dec;
use crius::metajson::{encode_meta, parse_meta};
use crius::records::ImageMeta;

#[test]
fn dec_renders_exact_values() {
    assert_eq!(u64_to_dec(0), "0");
    assert_eq!(u64_to_dec(7), "7");
    assert_eq!(u64_to_dec(105), "105");
    assert_eq!(u64_to_dec(u64::MAX), "18446744073709551615");
}

#[test]
fn meta_round_trips_through_the_codec() {
    let meta = ImageMeta {
        id: "sha256:abc123def456".to_string(),
        repo_tags: vec![
            "reg.io/lib/app:v1".to_string(),
            "reg.io/lib/app:latest".to_string(),
        ],
        size: 12345,
    };
    let doc = encode_meta(&meta).unwrap();
    let back = parse_meta(&doc).unwrap();
    assert_eq!(back, meta);
}

#[test]
fn meta_round_trips_with_no_tags_and_zero_size() {
    let meta = ImageMeta { id: "sha256:0000aaaa1111".to_string(), repo_tags: vec![], size: 0 };
    let doc = encode_meta(&meta).unwrap();
    assert_eq!(doc, "{\"id\":\"sha256:0000aaaa1111\",\"repo_tags\":[],\"size\":0}");
    let back = parse_meta(&doc).unwrap();
    assert_eq!(back, meta);
}

#[test]
fn meta_round_trips_at_the_largest_size() {
    let meta = ImageMeta {
        id: "sha256:ffffffffffff".to_string(),
        repo_tags: vec!["a.io/b:c".to_string()],
        size: u64::MAX,
    };
    let doc = encode_meta(&meta).unwrap();
    let back = parse_meta(&doc).unwrap();
    assert_eq!(back, meta);
}

#[test]
fn encoded_document_is_valid_json() {
    let meta = ImageMeta {
        id: "sha256:abc123def456".to_string(),
        repo_tags: vec!["reg.io/lib/app:v1".to_string()],
        size: 777,
    };
    let doc = encode_meta(&meta).unwrap();
    let value: serde_json::Value = serde_json::from_str(&doc).unwrap();
    assert_eq!(value.get("id").unwrap().as_str().unwrap(), "sha256:abc123def456");
    let tags = value.get("repo_tags").unwrap().as_array().unwrap();
    assert_eq!(tags.len(), 1);
    assert_eq!(tags[0].as_str().unwrap(), "reg.io/lib/app:v1");
    assert_eq!(value.get("size").unwrap().as_u64().unwrap(), 777);
}

#[test]
fn encoder_refuses_strings_needing_escapes() {
    let quote = ImageMeta { id: "sha256:ab\"cd".to_string(), repo_tags: vec![], size: 1 };
    assert!(encode_meta(&quote).is_none());
    let backslash = ImageMeta {
        id: "sha256:abcd".to_string(),
        repo_tags: vec!["a\\b".to_string()],
        size: 1,
    };
    assert!(encode_meta(&backslash).is_none());
    let control = ImageMeta { id: "sha256:ab\ncd".to_string(), repo_tags: vec![], size: 1 };
    assert!(encode_meta(&control).is_none());
}

#[test]
fn parser_rejects_malformed_documents() {
    assert!(parse_meta("").is_none());
    assert!(parse_meta("{}").is_none());
    assert!(parse_meta("{\"id\":\"a\"}").is_none());
    // key order differs from the canonical shape
    assert!(parse_meta("{\"repo_tags\":[],\"id\":\"a\",\"size\":1}").is_none());
    // trailing bytes after the closing brace
    assert!(parse_meta("{\"id\":\"a\",\"repo_tags\":[],\"size\":1}x").is_none());
    // unterminated string
    assert!(parse_meta("{\"id\":\"a,\"repo_tags\":[],\"size\":1}").is_none());
    // missing size digits
    assert!(parse_meta("{\"id\":\"a\",\"repo_tags\":[],\"size\":}").is_none());
}

#[test]
fn parser_rejects_sizes_past_sixty_four_bits() {
    let doc = "{\"id\":\"a\",\"repo_tags\":[],\"size\":18446744073709551616}";
    assert!(parse_meta(doc).is_none());
    let doc_max = "{\"id\":\"a\",\"repo_tags\":[],\"size\":18446744073709551615}";
    assert_eq!(parse_meta(doc_max).unwrap().size, u64::MAX);
}
