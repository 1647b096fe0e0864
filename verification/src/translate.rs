//! The request translator: per protocol dialect, turns an inbound gateway
//! request's headers into an outbound HTTP request descriptor, and an
//! upstream response into the encoded headers and status the client sees.
//! The transport performs the actual HTTP call and hands the results back.

use vstd::prelude::*;
use vstd::string::StrSliceExecFns;
use vstd::string::StringExecFns;
use crate::chunks::{
    canonical_name, join_headers, spec_join, split_headers, split_maps_describe, CHUNK_CAP,
};
use crate::errors::BareError;
use crate::headers::{has_name, map_of, value_in, HeaderPairs, Headers};
use crate::jsonio::{json_header_object_of, json_object_of, json_object_text, parse_header_object};
use crate::rules::{
    forward_baseline, forward_denied, forward_names, forward_names_spec, pass_names,
    pass_names_spec, status_pass_check, status_passes,
};
use crate::strutil::dec_str_of;

verus! {

/// The wire dialect of an inbound request. The first and third carry the
/// target as one encoded URL header; the second as discrete protocol, host,
/// port and path headers, and it alone forwards the WebSocket handshake
/// headers by default.
#[derive(Clone, Copy, Debug, PartialEq, Eq, Structural)]
pub enum Version {
    V1,
    V2,
    V3,
}

impl Version {
    /// Whether this dialect's baseline forward set carries the WebSocket
    /// handshake headers.
    pub open spec fn ws_baseline(self) -> bool {
        self is V2
    }
}

/// The target URL an inbound request names, or `MissingTarget` when the
/// required meta headers are absent (the caller then degrades to the
/// informational index response).
pub open spec fn spec_resolve_url(version: Version, s: HeaderPairs) -> Result<Seq<char>, BareError> {
    match version {
        Version::V2 => {
            if !has_name(s, "x-bare-protocol"@) {
                Err(BareError::MissingTarget)
            } else if !has_name(s, "x-bare-host"@) && !has_name(s, "host"@) {
                Err(BareError::MissingTarget)
            } else if !has_name(s, "x-bare-port"@) {
                Err(BareError::MissingTarget)
            } else if !has_name(s, "x-bare-path"@) {
                Err(BareError::MissingTarget)
            } else {
                let host = if has_name(s, "x-bare-host"@) {
                    value_in(s, "x-bare-host"@)
                } else {
                    value_in(s, "host"@)
                };
                Ok(
                    value_in(s, "x-bare-protocol"@) + "//"@ + host + ":"@ + value_in(
                        s,
                        "x-bare-port"@,
                    ) + value_in(s, "x-bare-path"@),
                )
            }
        },
        _ => {
            if has_name(s, "x-bare-url"@) {
                Ok(value_in(s, "x-bare-url"@))
            } else {
                Err(BareError::MissingTarget)
            }
        },
    }
}

/// Resolves the target URL from the version's meta-header layout.
pub fn resolve_url(version: Version, req: &Headers) -> (r: Result<String, BareError>)
    requires
        req.wf(),
    ensures
        match r {
            Ok(u) => spec_resolve_url(version, req@) == Ok::<Seq<char>, BareError>(u@),
            Err(e) => spec_resolve_url(version, req@) == Err::<Seq<char>, BareError>(e),
        },
{
    match version {
        Version::V2 => {
            let protocol = match req.get("x-bare-protocol") {
                Some(v) => v.clone(),
                None => {
                    return Err(BareError::MissingTarget);
                },
            };
            let host = match req.get("x-bare-host") {
                Some(v) => v.clone(),
                None => {
                    match req.get("host") {
                        Some(v) => v.clone(),
                        None => {
                            return Err(BareError::MissingTarget);
                        },
                    }
                },
            };
            let port = match req.get("x-bare-port") {
                Some(v) => v.clone(),
                None => {
                    return Err(BareError::MissingTarget);
                },
            };
            let path = match req.get("x-bare-path") {
                Some(v) => v.clone(),
                None => {
                    return Err(BareError::MissingTarget);
                },
            };
            let url = protocol.concat("//").concat(host.as_str()).concat(":").concat(
                port.as_str(),
            ).concat(path.as_str());
            Ok(url)
        },
        _ => {
            match req.get("x-bare-url") {
                Some(v) => Ok(v.clone()),
                None => Err(BareError::MissingTarget),
            }
        },
    }
}

/// Name/value pairs folded into a map, later pairs winning.
pub open spec fn map_of_pairs(ps: HeaderPairs) -> Map<Seq<char>, Seq<char>>
    decreases ps.len(),
{
    if ps.len() == 0 {
        Map::<Seq<char>, Seq<char>>::empty()
    } else {
        map_of_pairs(ps.drop_last()).insert(ps.last().0, ps.last().1)
    }
}

pub proof fn lemma_map_of_pairs_dom(ps: HeaderPairs, n: Seq<char>)
    ensures
        map_of_pairs(ps).contains_key(n) == has_name(ps, n),
    decreases ps.len(),
{
    if ps.len() > 0 {
        lemma_map_of_pairs_dom(ps.drop_last(), n);
        if has_name(ps.drop_last(), n) {
            let k = choose|k: int| 0 <= k < ps.drop_last().len() && (#[trigger] ps.drop_last()[k]).0 == n;
            assert(ps[k] == ps.drop_last()[k]);
        }
        if has_name(ps, n) && ps.last().0 != n {
            let k = choose|k: int| 0 <= k < ps.len() && (#[trigger] ps[k]).0 == n;
            assert(k < ps.len() - 1 && ps.drop_last()[k] == ps[k]);
        }
    }
}

/// For pairs with unique names, the fold agrees with the map of the pairs.
pub proof fn lemma_map_of_pairs_is_map_of(ps: HeaderPairs)
    requires
        crate::headers::names_unique(ps),
    ensures
        map_of_pairs(ps) =~= map_of(ps),
    decreases ps.len(),
{
    if ps.len() == 0 {
        assert forall|k: Seq<char>| !map_of_pairs(ps).contains_key(k) && !map_of(
            ps,
        ).contains_key(k) by {
            lemma_map_of_pairs_dom(ps, k);
        }
    } else {
        let d = ps.drop_last();
        assert(crate::headers::names_unique(d)) by {
            assert(forall|i: int| 0 <= i < d.len() ==> #[trigger] d[i] == ps[i]);
        }
        lemma_map_of_pairs_is_map_of(d);
        assert forall|k: Seq<char>|
            #[trigger] map_of_pairs(ps).contains_key(k) == map_of(ps).contains_key(k) by {
            lemma_map_of_pairs_dom(ps, k);
        }
        assert forall|k: Seq<char>| #[trigger] map_of(ps).contains_key(k) implies map_of_pairs(
            ps,
        )[k] == map_of(ps)[k] by {
            lemma_map_of_pairs_dom(ps, k);
            lemma_map_of_pairs_dom(d, k);
            if k == ps.last().0 {
                crate::headers::lemma_value_in_unique(ps, k, ps.len() - 1);
            } else {
                let j = choose|j: int| 0 <= j < ps.len() && (#[trigger] ps[j]).0 == k;
                assert(j < ps.len() - 1 && d[j] == ps[j]);
                crate::headers::lemma_value_in_unique(d, k, j);
                crate::headers::lemma_value_in_unique(ps, k, j);
            }
        }
    }
}

/// The client's declared forward-header list, empty when absent.
pub open spec fn declared_forward(s: HeaderPairs) -> Seq<char> {
    if has_name(s, "x-bare-forward-headers"@) {
        value_in(s, "x-bare-forward-headers"@)
    } else {
        Seq::<char>::empty()
    }
}

/// The request headers the forward set copies from the inbound request.
pub open spec fn forward_overlay(s: HeaderPairs, cache: bool, ws: bool) -> Map<
    Seq<char>,
    Seq<char>,
> {
    let list = forward_names_spec(declared_forward(s), cache, ws);
    Map::new(|n: Seq<char>| list.contains(n) && has_name(s, n), |n: Seq<char>| value_in(s, n))
}

/// The outbound header collection: the decoded blob pairs, overlaid by the
/// forward set, with `host` stripped.
pub open spec fn outbound_headers_map(
    s: HeaderPairs,
    pairs: HeaderPairs,
    cache: bool,
    ws: bool,
) -> Map<Seq<char>, Seq<char>> {
    map_of_pairs(pairs).union_prefer_right(forward_overlay(s, cache, ws)).remove("host"@)
}

/// The header pairs the client asks to send upstream: the joined
/// `x-bare-headers` blob, decoded as a JSON object of strings. An absent
/// blob means no pairs; a malformed chunk set or blob is an error.
pub open spec fn spec_blob_pairs(s: HeaderPairs) -> Result<HeaderPairs, BareError> {
    match spec_join(s) {
        Err(e) => Err(e),
        Ok(blob) => {
            if blob.len() == 0 {
                Ok(Seq::<(Seq<char>, Seq<char>)>::empty())
            } else {
                match json_header_object_of(blob) {
                    Some(ps) => Ok(ps),
                    None => Err(BareError::MalformedMetaHeaders),
                }
            }
        },
    }
}

/// Everything the outbound HTTP request is built from: the resolved URL and
/// the outbound header map. The method and body pass through unchanged.
pub open spec fn spec_outbound_request(version: Version, s: HeaderPairs, cache: bool) -> Result<
    (Seq<char>, Map<Seq<char>, Seq<char>>),
    BareError,
> {
    match spec_resolve_url(version, s) {
        Err(e) => Err(e),
        Ok(url) => match spec_blob_pairs(s) {
            Err(e) => Err(e),
            Ok(ps) => Ok((url, outbound_headers_map(s, ps, cache, version.ws_baseline()))),
        },
    }
}

/// An outbound HTTP request descriptor: the transport reuses the inbound
/// method and body with these headers against this URL.
#[derive(Debug)]
pub struct OutboundRequest {
    pub url: String,
    pub headers: Headers,
}

/// Applies a name list to a source header collection: every listed name
/// present in `src` is copied into `out`, in list order.
pub(crate) fn apply_name_list(out: &mut Headers, names: &Vec<String>, src: &Headers)
    requires
        old(out).wf(),
        src.wf(),
    ensures
        final(out).wf(),
        final(out).as_map() =~= old(out).as_map().union_prefer_right(
            Map::new(
                |n: Seq<char>| names.deep_view().contains(n) && has_name(src@, n),
                |n: Seq<char>| value_in(src@, n),
            ),
        ),
{
    let ghost base = out.as_map();
    let n = names.len();
    let mut i: usize = 0;
    while i < n
        invariant
            out.wf(),
            src.wf(),
            0 <= i <= n,
            n == names@.len(),
            out.as_map() =~= base.union_prefer_right(
                Map::new(
                    |nm: Seq<char>| names.deep_view().take(i as int).contains(nm) && has_name(
                        src@,
                        nm,
                    ),
                    |nm: Seq<char>| value_in(src@, nm),
                ),
            ),
        decreases n - i,
    {
        let ghost dv = names.deep_view();
        let ghost overlay0 = Map::new(
            |nm: Seq<char>| dv.take(i as int).contains(nm) && has_name(src@, nm),
            |nm: Seq<char>| value_in(src@, nm),
        );
        let ghost overlay1 = Map::new(
            |nm: Seq<char>| dv.take(i + 1).contains(nm) && has_name(src@, nm),
            |nm: Seq<char>| value_in(src@, nm),
        );
        proof {
            assert(dv.take(i + 1) =~= dv.take(i as int).push(dv[i as int]));
            assert forall|x: Seq<char>| x != dv[i as int] implies dv.take(i + 1).contains(x)
                == dv.take(i as int).contains(x) by {
                if dv.take(i + 1).contains(x) {
                    let j = choose|j: int|
                        0 <= j < dv.take(i + 1).len() && #[trigger] dv.take(i + 1)[j] == x;
                    assert(j < i ==> dv.take(i as int)[j] == x);
                }
                if dv.take(i as int).contains(x) {
                    let j = choose|j: int|
                        0 <= j < dv.take(i as int).len() && #[trigger] dv.take(i as int)[j] == x;
                    assert(dv.take(i + 1)[j] == x);
                }
            }
        }
        let name = &names[i];
        match src.get(name.as_str()) {
            Some(val) => {
                let nm = name.clone();
                let vv = val.clone();
                out.insert(nm, vv);
                proof {
                    assert(dv.take(i + 1)[i as int] == dv[i as int]);
                    assert(dv.take(i + 1).contains(dv[i as int]));
                    assert(vv@ == value_in(src@, dv[i as int]));
                    assert(out.as_map() =~= base.union_prefer_right(overlay1));
                }
            },
            None => {
                proof {
                    assert(!has_name(src@, dv[i as int]));
                    assert(out.as_map() =~= base.union_prefer_right(overlay1));
                }
            },
        }
        i = i + 1;
    }
    proof {
        assert(names.deep_view().take(n as int) =~= names.deep_view());
    }
}

/// Builds the outbound request descriptor for an inbound plain request:
/// resolves the target URL, decodes the header blob, applies the forward
/// set, and strips `host`.
pub fn build_outbound_request(version: Version, req: &Headers, cache: bool) -> (r: Result<
    OutboundRequest,
    BareError,
>)
    requires
        req.wf(),
    ensures
        match r {
            Ok(o) => {
                &&& spec_outbound_request(version, req@, cache) matches Ok(expected)
                &&& spec_outbound_request(version, req@, cache) == Ok::<_, BareError>(
                    (o.url@, o.headers.as_map()),
                )
                &&& o.headers.wf()
            },
            Err(e) => spec_outbound_request(version, req@, cache) == Err::<
                (Seq<char>, Map<Seq<char>, Seq<char>>),
                BareError,
            >(e),
        },
{
    let url = match resolve_url(version, req) {
        Ok(u) => u,
        Err(e) => {
            return Err(e);
        },
    };
    let blob = match join_headers(req) {
        Ok(b) => b,
        Err(e) => {
            return Err(e);
        },
    };
    let pairs: Vec<(String, String)> = if blob.as_str().unicode_len() == 0 {
        Vec::new()
    } else {
        match parse_header_object(blob.as_str()) {
            Some(p) => p,
            None => {
                return Err(BareError::MalformedMetaHeaders);
            },
        }
    };
    let ghost ps = pairs.deep_view();
    proof {
        assert(spec_blob_pairs(req@) == Ok::<HeaderPairs, BareError>(ps)) by {
            if blob@.len() == 0 {
                assert(pairs.deep_view() =~= Seq::<(Seq<char>, Seq<char>)>::empty());
            }
        }
    }
    let mut out = Headers::new();
    let n = pairs.len();
    let mut i: usize = 0;
    while i < n
        invariant
            out.wf(),
            0 <= i <= n,
            n == pairs@.len(),
            ps == pairs.deep_view(),
            out.as_map() =~= map_of_pairs(ps.take(i as int)),
        decreases n - i,
    {
        let nm = pairs[i].0.clone();
        let vv = pairs[i].1.clone();
        out.insert(nm, vv);
        proof {
            assert(ps.take(i + 1).drop_last() =~= ps.take(i as int));
            assert(ps.take(i + 1).last() == ps[i as int]);
            assert(ps[i as int] == (pairs@[i as int].0@, pairs@[i as int].1@));
            assert(out.as_map() =~= map_of_pairs(ps.take(i + 1)));
        }
        i = i + 1;
    }
    proof {
        assert(ps.take(n as int) =~= ps);
    }
    let declared: String = match req.get("x-bare-forward-headers") {
        Some(v) => v.clone(),
        None => String::new(),
    };
    proof {
        assert(declared@ == declared_forward(req@));
    }
    let ws = match version {
        Version::V2 => true,
        _ => false,
    };
    let fwd = forward_names(declared.as_str(), cache, ws);
    apply_name_list(&mut out, &fwd, req);
    out.remove("host");
    proof {
        assert(out.as_map() =~= outbound_headers_map(
            req@,
            ps,
            cache,
            version.ws_baseline(),
        ));
    }
    Ok(OutboundRequest { url, headers: out })
}

/// Law: a forwarding request never carries `host` upstream, and a name on the
/// forward deny-list (such as `connection`) reaches the outbound request only
/// if the client smuggled it inside the header blob itself — never through
/// `x-bare-forward-headers`. `pairs` are the decoded blob pairs.
pub proof fn lemma_deny_list_respected(
    s: HeaderPairs,
    pairs: HeaderPairs,
    cache: bool,
    ws: bool,
    n: Seq<char>,
)
    requires
        forward_denied(n),
        forall|k: int| 0 <= k < pairs.len() ==> (#[trigger] pairs[k]).0 != n,
    ensures
        !outbound_headers_map(s, pairs, cache, ws).contains_key("host"@),
        !outbound_headers_map(s, pairs, cache, ws).contains_key(n),
{
    if n != "host"@ {
        assert(!has_name(pairs, n));
        lemma_map_of_pairs_dom(pairs, n);
        let list = forward_names_spec(declared_forward(s), cache, ws);
        assert(!list.contains(n)) by {
            if list.contains(n) {
                let j = choose|j: int| 0 <= j < list.len() && list[j] == n;
                let filtered = crate::strutil::split_on(declared_forward(s), ',').filter(
                    |x: Seq<char>| !forward_denied(x),
                );
                if j < filtered.len() {
                    Seq::lemma_filter_pred(
                        crate::strutil::split_on(declared_forward(s), ','),
                        |x: Seq<char>| !forward_denied(x),
                        j,
                    );
                } else {
                    let b = forward_baseline(cache, ws);
                    let bj = j - filtered.len();
                    assert(b[bj] == n);
                    lemma_baseline_not_denied(cache, ws, bj);
                }
            }
        }
    }
}

/// No baseline forward name is on the deny-list.
proof fn lemma_baseline_not_denied(cache: bool, ws: bool, j: int)
    requires
        0 <= j < forward_baseline(cache, ws).len(),
    ensures
        !forward_denied(forward_baseline(cache, ws)[j]),
{
    reveal_strlit("connection");
    reveal_strlit("transfer-encoding");
    reveal_strlit("host");
    reveal_strlit("origin");
    reveal_strlit("referer");
    reveal_strlit("accept-encoding");
    reveal_strlit("accept-language");
    reveal_strlit("sec-websocket-extensions");
    reveal_strlit("sec-websocket-key");
    reveal_strlit("sec-websocket-version");
    reveal_strlit("if-modified-since");
    reveal_strlit("if-none-match");
    reveal_strlit("cache-control");
    let b = forward_baseline(cache, ws);
    assert(b[j] == "accept-encoding"@ || b[j] == "accept-language"@ || b[j]
        == "sec-websocket-extensions"@ || b[j] == "sec-websocket-key"@ || b[j]
        == "sec-websocket-version"@ || b[j] == "if-modified-since"@ || b[j] == "if-none-match"@
        || b[j] == "cache-control"@);
    assert("connection"@.len() == 10 && "transfer-encoding"@.len() == 17 && "host"@.len() == 4
        && "origin"@.len() == 6 && "referer"@.len() == 7);
    assert("accept-encoding"@.len() == 15 && "accept-language"@.len() == 15
        && "sec-websocket-extensions"@.len() == 24 && "sec-websocket-key"@.len() == 17
        && "sec-websocket-version"@.len() == 21 && "if-modified-since"@.len() == 17
        && "if-none-match"@.len() == 13 && "cache-control"@.len() == 13);
    assert("transfer-encoding"@[0] == 't' && "sec-websocket-key"@[0] == 's'
        && "if-modified-since"@[0] == 'i');
}

/// What `reason_phrase` names: the canonical reason phrase of a status code.
pub uninterp spec fn reason_phrase_of(code: u16) -> Option<Seq<char>>;

/// Relies on http::StatusCode::from_u16 and StatusCode::canonical_reason:
/// the IANA reason phrase for a status code, a function of the code alone.
#[verifier::external_body]
fn reason_phrase(code: u16) -> (r: Option<String>)
    ensures
        r.deep_view() == reason_phrase_of(code),
{
    match http::StatusCode::from_u16(code) {
        Ok(s) => s.canonical_reason().map(|t| t.to_string()),
        Err(_) => None,
    }
}

/// The status text the gateway reports: the canonical phrase, or "OK" when
/// the code has none.
pub open spec fn reason_or_ok(code: u16) -> Seq<char> {
    match reason_phrase_of(code) {
        Some(r) => r,
        None => "OK"@,
    }
}

/// The response headers handed to the client, before chunk splitting: the
/// pass-set copies from the upstream response, the three meta headers
/// reporting the true upstream status and all upstream headers, and the CORS
/// wildcards.
pub open spec fn response_headers_map(
    status: u16,
    u: HeaderPairs,
    declared_pass: Seq<char>,
    cache: bool,
) -> Map<Seq<char>, Seq<char>> {
    Map::new(
        |n: Seq<char>| pass_names_spec(declared_pass, cache).contains(n) && has_name(u, n),
        |n: Seq<char>| value_in(u, n),
    ).insert("x-bare-headers"@, json_object_of(u)).insert(
        "x-bare-status"@,
        dec_str_of(status as nat),
    ).insert("x-bare-status-text"@, reason_or_ok(status)).insert(
        "access-control-allow-origin"@,
        "*"@,
    ).insert("access-control-allow-headers"@, "*"@).insert(
        "access-control-allow-methods"@,
        "*"@,
    ).insert("access-control-expose-headers"@, "*"@)
}

/// What the client receives: a status line and headers. The body is the
/// upstream body, passed through by the transport.
pub struct ClientResponse {
    pub status: u16,
    pub headers: Headers,
}

/// Builds the client-visible response from the upstream status and headers:
/// pass-set copies, the meta headers carrying the true status, reason phrase
/// and full upstream header object, CORS wildcards, chunk splitting if the
/// meta blob is oversized, and the default success status unless the
/// upstream status is in the pass-status set.
pub fn build_client_response(
    status: u16,
    upstream: &Headers,
    declared_pass: &str,
    declared_pass_status: &str,
    cache: bool,
) -> (r: ClientResponse)
    requires
        upstream.wf(),
    ensures
        r.headers.wf(),
        r.status == if status_passes(declared_pass_status@, cache, status) {
            status
        } else {
            200u16
        },
        ({
            let pre = response_headers_map(status, upstream@, declared_pass@, cache);
            &&& pre["x-bare-headers"@].len() <= CHUNK_CAP as int ==> r.headers.as_map() == pre
            &&& pre["x-bare-headers"@].len() > CHUNK_CAP as int ==> split_maps_describe(
                pre,
                r.headers.as_map(),
            )
        }),
{
    let ghost pre = response_headers_map(status, upstream@, declared_pass@, cache);
    let mut resp = Headers::new();
    proof {
        assert(resp.as_map() =~= Map::<Seq<char>, Seq<char>>::empty());
    }
    let ghost base0 = resp.as_map();
    let passes = pass_names(declared_pass, cache);
    apply_name_list(&mut resp, &passes, upstream);
    resp.insert(String::from_str("x-bare-headers"), json_object_text(upstream.pairs()));
    resp.insert(String::from_str("x-bare-status"), crate::strutil::usize_to_string(status as usize));
    let text = match reason_phrase(status) {
        Some(t) => t,
        None => String::from_str("OK"),
    };
    resp.insert(String::from_str("x-bare-status-text"), text);
    resp.insert(String::from_str("access-control-allow-origin"), String::from_str("*"));
    resp.insert(String::from_str("access-control-allow-headers"), String::from_str("*"));
    resp.insert(String::from_str("access-control-allow-methods"), String::from_str("*"));
    resp.insert(String::from_str("access-control-expose-headers"), String::from_str("*"));
    proof {
        assert(resp.as_map() =~= pre) by {
            assert(base0.union_prefer_right(
                Map::new(
                    |n: Seq<char>| pass_names_spec(declared_pass@, cache).contains(n) && has_name(
                        upstream@,
                        n,
                    ),
                    |n: Seq<char>| value_in(upstream@, n),
                ),
            ) =~= Map::new(
                |n: Seq<char>| pass_names_spec(declared_pass@, cache).contains(n) && has_name(
                    upstream@,
                    n,
                ),
                |n: Seq<char>| value_in(upstream@, n),
            ));
        }
    }
    let headers = split_headers(&resp);
    proof {
        assert(pre.contains_key("x-bare-headers"@));
        assert(canonical_name() == "x-bare-headers"@);
    }
    let client_status: u16 = if status_pass_check(declared_pass_status, cache, status) {
        status
    } else {
        200
    };
    ClientResponse { status: client_status, headers }
}

} // verus!
