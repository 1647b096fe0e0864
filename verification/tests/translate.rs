use ocastabare::errors::BareError;
use ocastabare::headers::Headers;
use ocastabare::rules::{forward_names, pass_names, status_pass_check};
use ocastabare::translate::{
    build_client_response, build_outbound_request, resolve_url, Version,
};

fn v3_request(extra: &[(&str, &str)]) -> Headers {
    let mut h = Headers::new();
    h.insert("x-bare-url".to_string(), "https://example.com/page".to_string());
    for (name, value) in extra {
        h.insert(name.to_string(), value.to_string());
    }
    h
}

#[test]
fn resolve_v3_url() {
    let h = v3_request(&[]);
    assert_eq!(resolve_url(Version::V3, &h).unwrap(), "https://example.com/page");
}

#[test]
fn resolve_v3_missing_target() {
    let h = Headers::new();
    assert_eq!(resolve_url(Version::V3, &h).unwrap_err(), BareError::MissingTarget);
}

#[test]
fn resolve_v2_url_assembly() {
    let mut h = Headers::new();
    h.insert("x-bare-protocol".to_string(), "https:".to_string());
    h.insert("x-bare-host".to_string(), "example.com".to_string());
    h.insert("x-bare-port".to_string(), "443".to_string());
    h.insert("x-bare-path".to_string(), "/index.html".to_string());
    assert_eq!(resolve_url(Version::V2, &h).unwrap(), "https://example.com:443/index.html");
}

#[test]
fn resolve_v2_host_falls_back_to_host_header() {
    let mut h = Headers::new();
    h.insert("x-bare-protocol".to_string(), "http:".to_string());
    h.insert("host".to_string(), "fallback.example".to_string());
    h.insert("x-bare-port".to_string(), "80".to_string());
    h.insert("x-bare-path".to_string(), "/".to_string());
    assert_eq!(resolve_url(Version::V2, &h).unwrap(), "http://fallback.example:80/");
}

#[test]
fn forward_cache_gating() {
    // Cache off: a declared custom header is forwarded, the conditional
    // header is not.
    let req = v3_request(&[
        ("x-bare-forward-headers", "x-custom"),
        ("x-custom", "42"),
        ("if-modified-since", "Wed, 21 Oct 2015 07:28:00 GMT"),
    ]);
    let out = build_outbound_request(Version::V3, &req, false).unwrap();
    assert_eq!(out.headers.get("x-custom").map(|s| s.as_str()), Some("42"));
    assert!(!out.headers.contains("if-modified-since"));

    // Cache on: the conditional header rides along.
    let out = build_outbound_request(Version::V3, &req, true).unwrap();
    assert_eq!(
        out.headers.get("if-modified-since").map(|s| s.as_str()),
        Some("Wed, 21 Oct 2015 07:28:00 GMT")
    );
}

#[test]
fn forward_deny_list_blocks_host_and_connection() {
    let req = v3_request(&[
        ("x-bare-forward-headers", "host,connection"),
        ("host", "gateway.example"),
        ("connection", "keep-alive"),
    ]);
    let out = build_outbound_request(Version::V3, &req, false).unwrap();
    assert!(!out.headers.contains("host"));
    assert!(!out.headers.contains("connection"));
}

#[test]
fn blob_headers_reach_outbound_request() {
    let req = v3_request(&[("x-bare-headers", "{\"x-abc\":\"1\",\"user-agent\":\"ua\"}")]);
    let out = build_outbound_request(Version::V3, &req, false).unwrap();
    assert_eq!(out.url, "https://example.com/page");
    assert_eq!(out.headers.get("x-abc").map(|s| s.as_str()), Some("1"));
    assert_eq!(out.headers.get("user-agent").map(|s| s.as_str()), Some("ua"));
}

#[test]
fn malformed_blob_is_rejected() {
    let req = v3_request(&[("x-bare-headers", "[1,2,3]")]);
    assert_eq!(
        build_outbound_request(Version::V3, &req, false).unwrap_err(),
        BareError::MalformedMetaHeaders
    );
}

#[test]
fn malformed_chunks_are_rejected() {
    let mut req = v3_request(&[]);
    req.insert("x-bare-headers-0".to_string(), "no-marker".to_string());
    assert_eq!(
        build_outbound_request(Version::V3, &req, false).unwrap_err(),
        BareError::MalformedChunk
    );
}

#[test]
fn baseline_forward_headers_ride_along() {
    let req = v3_request(&[("accept-encoding", "gzip"), ("accept-language", "en")]);
    let out = build_outbound_request(Version::V3, &req, false).unwrap();
    assert_eq!(out.headers.get("accept-encoding").map(|s| s.as_str()), Some("gzip"));
    assert_eq!(out.headers.get("accept-language").map(|s| s.as_str()), Some("en"));
}

fn upstream_headers() -> Headers {
    let mut u = Headers::new();
    u.insert("content-length".to_string(), "5".to_string());
    u.insert("x-secret".to_string(), "s".to_string());
    u.insert("vary".to_string(), "Accept".to_string());
    u
}

#[test]
fn unlisted_status_degrades_to_success_but_meta_reports_it() {
    let r = build_client_response(500, &upstream_headers(), "", "", false);
    assert_eq!(r.status, 200);
    assert_eq!(r.headers.get("x-bare-status").map(|s| s.as_str()), Some("500"));
    assert_eq!(
        r.headers.get("x-bare-status-text").map(|s| s.as_str()),
        Some("Internal Server Error")
    );
}

#[test]
fn cache_mode_passes_304_through() {
    let r = build_client_response(304, &upstream_headers(), "", "", true);
    assert_eq!(r.status, 304);
    assert_eq!(r.headers.get("x-bare-status").map(|s| s.as_str()), Some("304"));
}

#[test]
fn declared_status_passes_through() {
    let r = build_client_response(418, &upstream_headers(), "", "418,500", false);
    assert_eq!(r.status, 418);
}

#[test]
fn pass_set_copies_baseline_and_blocks_denied() {
    let r = build_client_response(200, &upstream_headers(), "vary,x-secret", "", false);
    // baseline name comes through
    assert_eq!(r.headers.get("content-length").map(|s| s.as_str()), Some("5"));
    // declared non-denied name comes through
    assert_eq!(r.headers.get("x-secret").map(|s| s.as_str()), Some("s"));
    // denied name never does
    assert!(!r.headers.contains("vary"));
}

#[test]
fn meta_headers_carry_all_upstream_headers() {
    let r = build_client_response(200, &upstream_headers(), "", "", false);
    let blob = r.headers.get("x-bare-headers").expect("meta header").as_str().to_string();
    let parsed: serde_json::Value = serde_json::from_str(&blob).expect("valid json");
    let obj = parsed.as_object().expect("object");
    assert_eq!(obj["content-length"], "5");
    assert_eq!(obj["x-secret"], "s");
    assert_eq!(obj["vary"], "Accept");
}

#[test]
fn cors_wildcards_are_always_set() {
    let r = build_client_response(200, &upstream_headers(), "", "", false);
    for name in [
        "access-control-allow-origin",
        "access-control-allow-headers",
        "access-control-allow-methods",
        "access-control-expose-headers",
    ] {
        assert_eq!(r.headers.get(name).map(|s| s.as_str()), Some("*"));
    }
}

#[test]
fn oversized_meta_blob_is_resplit() {
    let mut u = Headers::new();
    u.insert("x-big".to_string(), "v".repeat(4000));
    let r = build_client_response(200, &u, "", "", false);
    assert!(!r.headers.contains("x-bare-headers"));
    let c0 = r.headers.get("x-bare-headers-0").expect("chunk 0");
    let c1 = r.headers.get("x-bare-headers-1").expect("chunk 1");
    assert!(c0.starts_with(';') && c1.starts_with(';'));
    let whole = format!("{}{}", &c0[1..], &c1[1..]);
    let parsed: serde_json::Value = serde_json::from_str(&whole).expect("valid json");
    assert_eq!(parsed.as_object().unwrap()["x-big"].as_str().unwrap().len(), 4000);
}

#[test]
fn rule_lists_follow_declarations() {
    let fwd = forward_names("x-a,connection,x-b", false, false);
    let fwd: Vec<&str> = fwd.iter().map(|s| s.as_str()).collect();
    assert_eq!(fwd, vec!["x-a", "x-b", "accept-encoding", "accept-language"]);

    let pass = pass_names("vary,x-p", true);
    let pass: Vec<&str> = pass.iter().map(|s| s.as_str()).collect();
    assert_eq!(
        pass,
        vec!["x-p", "content-encoding", "content-length", "last-modified", "cache-control", "etag"]
    );

    assert!(status_pass_check("304,500", false, 500));
    assert!(!status_pass_check("304,500", false, 404));
    assert!(status_pass_check("", true, 304));
    assert!(!status_pass_check("", false, 304));
}

#[test]
fn header_insert_replaces_equal_names() {
    let mut h = Headers::new();
    h.insert("x-a".to_string(), "1".to_string());
    h.insert("x-a".to_string(), "2".to_string());
    assert_eq!(h.len(), 1);
    assert_eq!(h.get("x-a").map(|s| s.as_str()), Some("2"));
}

#[test]
fn duplicate_blob_keys_collapse_to_one() {
    let req = v3_request(&[("x-bare-headers", "{\"a\":\"1\",\"a\":\"2\"}")]);
    let out = build_outbound_request(Version::V3, &req, false).unwrap();
    assert_eq!(out.headers.get("a").map(|s| s.as_str()), Some("2"));
}
