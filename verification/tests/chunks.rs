use ocastabare::chunks::{join_headers, split_headers, CHUNK_CAP};
use ocastabare::errors::BareError;
use ocastabare::headers::Headers;

fn headers_with_blob(value: &str) -> Headers {
    let mut h = Headers::new();
    h.insert("accept".to_string(), "text/html".to_string());
    h.insert("x-bare-headers".to_string(), value.to_string());
    h
}

fn round_trip(len: usize) {
    let value: String = "ab".repeat(len / 2) + if len % 2 == 1 { "z" } else { "" };
    assert_eq!(value.len(), len);
    let h = headers_with_blob(&value);
    let split = split_headers(&h);
    let joined = join_headers(&split).expect("round trip must succeed");
    assert_eq!(joined, value);
}

#[test]
fn round_trip_empty() {
    round_trip(0);
}

#[test]
fn round_trip_exactly_cap() {
    round_trip(CHUNK_CAP);
}

#[test]
fn round_trip_one_over_cap() {
    round_trip(CHUNK_CAP + 1);
}

#[test]
fn round_trip_ten_thousand() {
    round_trip(10000);
}

#[test]
fn split_under_cap_keeps_header_unsplit() {
    let h = headers_with_blob("short");
    let split = split_headers(&h);
    assert_eq!(split.get("x-bare-headers").map(|s| s.as_str()), Some("short"));
    assert!(!split.contains("x-bare-headers-0"));
}

#[test]
fn split_over_cap_numbers_chunks_with_marker() {
    let value = "x".repeat(CHUNK_CAP + 10);
    let h = headers_with_blob(&value);
    let split = split_headers(&h);
    assert!(!split.contains("x-bare-headers"));
    let c0 = split.get("x-bare-headers-0").expect("first chunk");
    let c1 = split.get("x-bare-headers-1").expect("second chunk");
    assert!(!split.contains("x-bare-headers-2"));
    assert_eq!(c0.len(), CHUNK_CAP + 1);
    assert!(c0.starts_with(';'));
    assert_eq!(c1.as_str(), format!(";{}", "x".repeat(10)));
    // unrelated headers survive
    assert_eq!(split.get("accept").map(|s| s.as_str()), Some("text/html"));
}

#[test]
fn join_without_any_blob_is_empty() {
    let mut h = Headers::new();
    h.insert("accept".to_string(), "text/html".to_string());
    assert_eq!(join_headers(&h).expect("optional blob"), "");
}

#[test]
fn join_prefers_unsplit_header() {
    let mut h = headers_with_blob("plain");
    h.insert("x-bare-headers-0".to_string(), ";garbage".to_string());
    assert_eq!(join_headers(&h).expect("fast path"), "plain");
}

#[test]
fn join_rejects_missing_marker() {
    let mut h = Headers::new();
    h.insert("x-bare-headers-0".to_string(), "no-marker".to_string());
    assert_eq!(join_headers(&h).unwrap_err(), BareError::MalformedChunk);
}

#[test]
fn join_rejects_non_numeric_suffix() {
    let mut h = Headers::new();
    h.insert("x-bare-headers-0".to_string(), ";aa".to_string());
    h.insert("x-bare-headers-zero".to_string(), ";bb".to_string());
    assert_eq!(join_headers(&h).unwrap_err(), BareError::MalformedChunk);
}

#[test]
fn join_rejects_non_contiguous_indices() {
    let mut h = Headers::new();
    h.insert("x-bare-headers-0".to_string(), ";aa".to_string());
    h.insert("x-bare-headers-2".to_string(), ";bb".to_string());
    assert_eq!(join_headers(&h).unwrap_err(), BareError::MalformedChunk);
}

#[test]
fn join_concatenates_in_index_order() {
    let mut h = Headers::new();
    h.insert("x-bare-headers-1".to_string(), ";second".to_string());
    h.insert("x-bare-headers-0".to_string(), ";first".to_string());
    assert_eq!(join_headers(&h).expect("contiguous"), "firstsecond");
}
