use ocastabare::errors::BareError;
use ocastabare::headers::Headers;
use ocastabare::meta::{new_meta, stash_meta, MetaPayload, MetaStore, META_TTL_MS};
use ocastabare::relay::{
    connect_headers, open_frame, parse_tunnel_handshake, resolve_v2_tunnel, Frame, RelayDirective,
    RelayEvent, RelayPhase, RelaySession, Side,
};
use ocastabare::tunnel::{parse_tcp_handshake, TcpDirective, TcpEvent, TcpRelay};

fn stash_request() -> Headers {
    let mut h = Headers::new();
    h.insert("x-bare-protocol".to_string(), "wss:".to_string());
    h.insert("x-bare-host".to_string(), "echo.example".to_string());
    h.insert("x-bare-port".to_string(), "443".to_string());
    h.insert("x-bare-path".to_string(), "/socket".to_string());
    h.insert("x-bare-headers".to_string(), "{\"user-agent\":\"ua\"}".to_string());
    h.insert("x-bare-forward-headers".to_string(), "x-custom".to_string());
    h.insert("x-custom".to_string(), "v".to_string());
    h.insert("accept-language".to_string(), "en".to_string());
    h
}

#[test]
fn new_meta_builds_payload() {
    let now: i64 = 1_700_000_000_000;
    let (id, payload) = new_meta(&stash_request(), now).expect("stash succeeds");
    assert_eq!(id.len(), 32);
    assert!(id.chars().all(|c| c.is_ascii_hexdigit() && !c.is_ascii_uppercase()));
    assert_eq!(payload.remote, "wss://echo.example:443/socket");
    assert_eq!(payload.expires, now + META_TTL_MS);
    assert_eq!(payload.send_headers.get("user-agent").map(|s| s.as_str()), Some("ua"));
    assert_eq!(payload.forward_headers.get("x-custom").map(|s| s.as_str()), Some("v"));
    assert_eq!(payload.forward_headers.get("accept-language").map(|s| s.as_str()), Some("en"));
}

#[test]
fn new_meta_needs_a_target() {
    let h = Headers::new();
    assert_eq!(new_meta(&h, 0).unwrap_err(), BareError::MissingTarget);
}

#[test]
fn meta_entry_is_consumed_once() {
    let mut store = MetaStore::new();
    let (id, payload) = new_meta(&stash_request(), 1000).expect("stash");
    let remote = payload.remote.clone();
    store.insert(id.clone(), payload);
    let got = store.lookup_and_consume(&id).expect("first read succeeds");
    assert_eq!(got.remote, remote);
    assert!(store.lookup_and_consume(&id).is_none());
}

#[test]
fn meta_entry_expires() {
    let mut store = MetaStore::new();
    let (id, payload) = new_meta(&stash_request(), 1000).expect("stash");
    let expires = payload.expires;
    store.insert(id.clone(), payload);
    store.sweep_expired(expires - 1);
    assert!(store.lookup_and_consume(&id).is_some(), "not yet expired");
    let (id2, payload2) = new_meta(&stash_request(), 1000).expect("stash again");
    let expires2 = payload2.expires;
    store.insert(id2.clone(), payload2);
    store.sweep_expired(expires2);
    assert!(store.lookup_and_consume(&id2).is_none(), "expired entry is gone");
}

#[test]
fn v2_tunnel_resolution_consumes_the_entry() {
    let mut store = MetaStore::new();
    let (id, payload) = new_meta(&stash_request(), 1000).expect("stash");
    store.insert(id.clone(), payload);
    assert!(resolve_v2_tunnel(&mut store, &id).is_ok());
    assert_eq!(resolve_v2_tunnel(&mut store, &id).unwrap_err(), BareError::MetadataNotFound);
}

#[test]
fn tunnel_handshake_parses_the_triple() {
    let msg = "{\"remote\":\"wss://up.example/ws\",\"headers\":{\"cookie\":\"k=v\"},\"forwardHeaders\":[\"user-agent\"]}";
    let t = parse_tunnel_handshake(msg).expect("well-formed handshake");
    assert_eq!(t.remote, "wss://up.example/ws");
    assert_eq!(t.headers, vec![("cookie".to_string(), "k=v".to_string())]);
    assert_eq!(t.forward_names, vec!["user-agent".to_string()]);
}

#[test]
fn tunnel_handshake_rejects_malformed_input() {
    assert_eq!(
        parse_tunnel_handshake("not json").unwrap_err(),
        BareError::MalformedMetaHeaders
    );
    assert_eq!(
        parse_tunnel_handshake("{\"headers\":{},\"forwardHeaders\":[]}").unwrap_err(),
        BareError::MalformedMetaHeaders
    );
    assert_eq!(
        parse_tunnel_handshake("{\"remote\":\"x\",\"headers\":{\"a\":1},\"forwardHeaders\":[]}")
            .unwrap_err(),
        BareError::MalformedMetaHeaders
    );
}

#[test]
fn connect_headers_apply_forward_names() {
    let declared = vec![("cookie".to_string(), "k=v".to_string())];
    let forward = vec!["user-agent".to_string(), "absent".to_string()];
    let mut upgrade = Headers::new();
    upgrade.insert("user-agent".to_string(), "ua".to_string());
    let out = connect_headers(&declared, &forward, &upgrade);
    assert_eq!(out.get("cookie").map(|s| s.as_str()), Some("k=v"));
    assert_eq!(out.get("user-agent").map(|s| s.as_str()), Some("ua"));
    assert!(!out.contains("absent"));
}

#[test]
fn open_frame_reports_protocol_and_cookies() {
    let cookies = vec!["a=1".to_string(), "b=\"2\"".to_string()];
    let frame = open_frame("chat", &cookies);
    let text = match frame {
        Frame::Text(t) => t,
        _ => panic!("open frame must be text"),
    };
    let parsed: serde_json::Value = serde_json::from_str(&text).expect("valid json");
    assert_eq!(parsed["type"], "open");
    assert_eq!(parsed["protocol"], "chat");
    assert_eq!(parsed["setCookies"][0], "a=1");
    assert_eq!(parsed["setCookies"][1], "b=\"2\"");
}

#[test]
fn relay_forwards_frames_one_to_one() {
    let mut s = RelaySession::begin();
    let d = s.step(RelayEvent::Frame { from: Side::Client, frame: Frame::Text("hi".to_string()) });
    match d {
        Some(RelayDirective::Relay { to, frame: Frame::Text(t) }) => {
            assert_eq!(to, Side::Upstream);
            assert_eq!(t, "hi");
        },
        _ => panic!("text frame must be relayed upstream"),
    }
    let d = s.step(RelayEvent::Frame { from: Side::Upstream, frame: Frame::Ping(vec![1]) });
    match d {
        Some(RelayDirective::Relay { to, frame: Frame::Ping(p) }) => {
            assert_eq!(to, Side::Client);
            assert_eq!(p, vec![1]);
        },
        _ => panic!("ping must be relayed to the client"),
    }
    assert_eq!(s.phase, RelayPhase::Relaying);
}

#[test]
fn client_close_ends_session_with_one_forwarded_close() {
    let mut s = RelaySession::begin();
    s.step(RelayEvent::Frame { from: Side::Client, frame: Frame::Binary(vec![9]) });
    let d = s.step(RelayEvent::Frame { from: Side::Client, frame: Frame::Close });
    match d {
        Some(RelayDirective::ForwardClose { to }) => assert_eq!(to, Side::Upstream),
        _ => panic!("close must be forwarded upstream exactly once"),
    }
    assert_eq!(s.phase, RelayPhase::Closed);
    assert!(!s.client_open && !s.upstream_open, "both sockets end closed");
    // Nothing further is relayed or forwarded.
    let d = s.step(RelayEvent::Frame { from: Side::Upstream, frame: Frame::Close });
    assert!(d.is_none());
    let d = s.step(RelayEvent::Frame { from: Side::Upstream, frame: Frame::Binary(vec![1]) });
    assert!(d.is_none());
}

#[test]
fn relay_errors_shut_both_sides() {
    let mut s = RelaySession::begin();
    let d = s.step(RelayEvent::ReceiveEnded { from: Side::Upstream });
    assert!(matches!(d, Some(RelayDirective::Shutdown)));
    assert_eq!(s.phase, RelayPhase::Closed);
    assert!(!s.client_open && !s.upstream_open);
}

#[test]
fn tcp_handshake_parses_host() {
    let msg = "{\"host\":\"example.com:443\",\"headers\":{},\"forwardHeaders\":[]}";
    let t = parse_tcp_handshake(msg).expect("well-formed handshake");
    assert_eq!(t.remote, "example.com:443");
    assert!(t.headers.is_empty());
    assert!(t.forward_names.is_empty());
}

#[test]
fn tls_complete_half_closes_the_tunnel() {
    let mut s = TcpRelay::begin();
    let d = s.step(TcpEvent::ClientBinary(vec![1, 2]));
    match d {
        Some(TcpDirective::WriteUpstream(b)) => assert_eq!(b, vec![1, 2]),
        _ => panic!("client bytes must reach the socket before the handshake completes"),
    }
    let d = s.step(TcpEvent::ClientText("TLS HANDSHAKE COMPLETE".to_string()));
    assert!(d.is_none());
    assert!(!s.client_to_sock && s.sock_to_client);
    // Further client binary frames are not forwarded.
    assert!(s.step(TcpEvent::ClientBinary(vec![3])).is_none());
    // Socket bytes keep flowing to the client.
    let d = s.step(TcpEvent::SockBytes(vec![4]));
    match d {
        Some(TcpDirective::SendToClient(b)) => assert_eq!(b, vec![4]),
        _ => panic!("socket bytes must keep flowing to the client"),
    }
    // Until the socket closes.
    assert!(s.step(TcpEvent::SockClosed).is_none());
    assert!(s.step(TcpEvent::SockBytes(vec![5])).is_none());
}

#[test]
fn ordinary_text_does_not_stop_the_tunnel() {
    let mut s = TcpRelay::begin();
    assert!(s.step(TcpEvent::ClientText("hello".to_string())).is_none());
    assert!(s.client_to_sock);
    assert!(matches!(
        s.step(TcpEvent::ClientBinary(vec![7])),
        Some(TcpDirective::WriteUpstream(_))
    ));
}

#[test]
fn store_insert_replaces_same_id() {
    let mut store = MetaStore::new();
    let mk = |remote: &str| MetaPayload {
        expires: 10,
        remote: remote.to_string(),
        send_headers: Headers::new(),
        forward_headers: Headers::new(),
    };
    store.insert("id".to_string(), mk("first"));
    store.insert("id".to_string(), mk("second"));
    assert_eq!(store.len(), 1);
    assert_eq!(store.lookup_and_consume("id").unwrap().remote, "second");
}

#[test]
fn stash_meta_reads_the_clock() {
    let before = chrono::Utc::now().timestamp_millis();
    let (id, payload) = stash_meta(&stash_request()).expect("stash succeeds");
    assert_eq!(id.len(), 32);
    assert_eq!(payload.remote, "wss://echo.example:443/socket");
    assert!(payload.expires >= before + META_TTL_MS);
}
