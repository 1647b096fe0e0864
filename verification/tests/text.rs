use ocastabare::codec::{decode, encode};
use ocastabare::errors::BareError;
use ocastabare::jsonio::{json_array_text, json_object_text};
use ocastabare::strutil::{hex_encode, parse_dec, split_commas, starts_with_str, str_eq, usize_to_string};

#[test]
fn b64_encode_known_value() {
    assert_eq!(encode("hello".to_string(), "b64".to_string()), "aGVsbG8=");
}

#[test]
fn b64_decode_known_value() {
    assert_eq!(decode("aGVsbG8=".to_string(), "b64".to_string()), "hello");
}

#[test]
fn b64_round_trip() {
    let original = "wss://example.com/path?q=1&x=\u{e9}";
    let encoded = encode(original.to_string(), "b64".to_string());
    assert_eq!(decode(encoded, "b64".to_string()), original);
}

#[test]
fn b64_decode_garbage_is_empty() {
    assert_eq!(decode("!!not-base64!!".to_string(), "b64".to_string()), "");
}

#[test]
fn other_encodings_are_identity() {
    assert_eq!(encode("abc".to_string(), "plain".to_string()), "abc");
    assert_eq!(decode("abc".to_string(), "plain".to_string()), "abc");
}

#[test]
fn decimal_rendering() {
    assert_eq!(usize_to_string(0), "0");
    assert_eq!(usize_to_string(7), "7");
    assert_eq!(usize_to_string(3072), "3072");
    assert_eq!(usize_to_string(usize::MAX), format!("{}", usize::MAX));
}

#[test]
fn decimal_parsing() {
    assert_eq!(parse_dec("0"), Some(0));
    assert_eq!(parse_dec("42"), Some(42));
    assert_eq!(parse_dec(&format!("{}", usize::MAX)), Some(usize::MAX));
    assert_eq!(parse_dec(""), None);
    assert_eq!(parse_dec("007"), None);
    assert_eq!(parse_dec("+1"), None);
    assert_eq!(parse_dec("-1"), None);
    assert_eq!(parse_dec("12a"), None);
    assert_eq!(parse_dec("18446744073709551616"), None);
}

#[test]
fn comma_splitting() {
    assert_eq!(split_commas(""), vec![""]);
    assert_eq!(split_commas("a"), vec!["a"]);
    assert_eq!(split_commas("a,,b"), vec!["a", "", "b"]);
    assert_eq!(split_commas("a,b,"), vec!["a", "b", ""]);
}

#[test]
fn string_predicates() {
    assert!(str_eq("abc", "abc"));
    assert!(!str_eq("abc", "abd"));
    assert!(starts_with_str("x-bare-headers-0", "x-bare-headers-"));
    assert!(!starts_with_str("x-bare", "x-bare-headers-"));
}

#[test]
fn hex_matches_the_reference_encoder() {
    let samples: Vec<Vec<u8>> = vec![vec![], vec![0x00], vec![0xff, 0x1a, 0x2b], (0..=255).collect()];
    for bytes in samples {
        assert_eq!(hex_encode(&bytes), hex::encode(&bytes));
    }
}

#[test]
fn json_object_rendering_quotes_and_escapes() {
    let pairs = vec![
        ("a".to_string(), "b".to_string()),
        ("needs \"quoting\"".to_string(), "line\nbreak".to_string()),
    ];
    let text = json_object_text(&pairs);
    assert_eq!(text, "{\"a\":\"b\",\"needs \\\"quoting\\\"\":\"line\\nbreak\"}");
    let parsed: serde_json::Value = serde_json::from_str(&text).expect("valid json");
    assert_eq!(parsed["a"], "b");
    assert_eq!(parsed["needs \"quoting\""], "line\nbreak");
}

#[test]
fn json_empty_object_and_array() {
    assert_eq!(json_object_text(&vec![]), "{}");
    assert_eq!(json_array_text(&vec![]), "[]");
}

#[test]
fn json_array_rendering() {
    let items = vec!["x".to_string(), "y\"z".to_string()];
    assert_eq!(json_array_text(&items), "[\"x\",\"y\\\"z\"]");
}

#[test]
fn error_labels_are_stable() {
    assert_eq!(BareError::MissingTarget.label(), "missing target");
    assert_eq!(BareError::MalformedChunk.label(), "malformed chunk");
    assert_eq!(BareError::MalformedMetaHeaders.label(), "malformed meta headers");
    assert_eq!(BareError::UpstreamConnectFailure.label(), "upstream connect failure");
    assert_eq!(BareError::UpstreamRequestFailure.label(), "upstream request failure");
    assert_eq!(BareError::MetadataNotFound.label(), "metadata not found");
}
