//! The per-request allow/deny rule tables: which client-declared request
//! headers may be forwarded upstream, which upstream response headers may be
//! passed back, and which upstream status codes may reach the client
//! verbatim. Each set is the client's comma-separated list minus a fixed
//! security deny-list, plus a baseline, with cache mode adding a few entries.

use vstd::prelude::*;
use vstd::string::StringExecFns;
use crate::strutil::{dec_str_of, split_commas, split_on, str_eq, usize_to_string};

verus! {

/// Request headers that are never forwarded upstream, whatever the client
/// declares.
pub open spec fn forward_denied(n: Seq<char>) -> bool {
    ||| n == "connection"@
    ||| n == "transfer-encoding"@
    ||| n == "host"@
    ||| n == "origin"@
    ||| n == "referer"@
}

/// Response headers that are never passed back to the client, whatever the
/// client declares: they would corrupt proxy or CORS semantics.
pub open spec fn pass_denied(n: Seq<char>) -> bool {
    ||| n == "vary"@
    ||| n == "connection"@
    ||| n == "transfer-encoding"@
    ||| n == "access-control-allow-headers"@
    ||| n == "access-control-allow-methods"@
    ||| n == "access-control-expose-headers"@
    ||| n == "access-control-max-age"@
    ||| n == "access-control-request-headers"@
    ||| n == "access-control-request-method"@
}

/// Request headers always forwarded: content negotiation, the WebSocket
/// handshake headers for the dialect that needs them, and the conditional
/// request headers under cache mode.
pub open spec fn forward_baseline(cache: bool, ws: bool) -> Seq<Seq<char>> {
    (if ws {
        seq![
            "accept-encoding"@,
            "accept-language"@,
            "sec-websocket-extensions"@,
            "sec-websocket-key"@,
            "sec-websocket-version"@,
        ]
    } else {
        seq!["accept-encoding"@, "accept-language"@]
    }) + (if cache {
        seq!["if-modified-since"@, "if-none-match"@, "cache-control"@]
    } else {
        Seq::<Seq<char>>::empty()
    })
}

/// Response headers always passed back, plus the caching validators under
/// cache mode.
pub open spec fn pass_baseline(cache: bool) -> Seq<Seq<char>> {
    seq!["content-encoding"@, "content-length"@, "last-modified"@] + (if cache {
        seq!["cache-control"@, "etag"@]
    } else {
        Seq::<Seq<char>>::empty()
    })
}

/// The forward set for one request: declared names minus the deny-list, then
/// the baseline.
pub open spec fn forward_names_spec(declared: Seq<char>, cache: bool, ws: bool) -> Seq<Seq<char>> {
    split_on(declared, ',').filter(|n: Seq<char>| !forward_denied(n)) + forward_baseline(cache, ws)
}

/// The pass set for one response: declared names minus the deny-list, then
/// the baseline.
pub open spec fn pass_names_spec(declared: Seq<char>, cache: bool) -> Seq<Seq<char>> {
    split_on(declared, ',').filter(|n: Seq<char>| !pass_denied(n)) + pass_baseline(cache)
}

/// Whether an upstream status code reaches the client verbatim: the client
/// declared it, or cache mode admits 304.
pub open spec fn status_passes(declared: Seq<char>, cache: bool, status: u16) -> bool {
    split_on(declared, ',').contains(dec_str_of(status as nat)) || (cache && status == 304)
}

fn is_forward_denied(n: &str) -> (r: bool)
    ensures
        r == forward_denied(n@),
{
    str_eq(n, "connection") || str_eq(n, "transfer-encoding") || str_eq(n, "host") || str_eq(
        n,
        "origin",
    ) || str_eq(n, "referer")
}

fn is_pass_denied(n: &str) -> (r: bool)
    ensures
        r == pass_denied(n@),
{
    str_eq(n, "vary") || str_eq(n, "connection") || str_eq(n, "transfer-encoding") || str_eq(
        n,
        "access-control-allow-headers",
    ) || str_eq(n, "access-control-allow-methods") || str_eq(n, "access-control-expose-headers")
        || str_eq(n, "access-control-max-age") || str_eq(n, "access-control-request-headers")
        || str_eq(n, "access-control-request-method")
}

/// Filters a split client list through a deny predicate.
fn filter_denied(parts: Vec<String>, forward: bool) -> (r: Vec<String>)
    ensures
        forward ==> r.deep_view() == parts.deep_view().filter(
            |n: Seq<char>| !forward_denied(n),
        ),
        !forward ==> r.deep_view() == parts.deep_view().filter(|n: Seq<char>| !pass_denied(n)),
{
    let n = parts.len();
    let mut out: Vec<String> = Vec::new();
    let mut i: usize = 0;
    while i < n
        invariant
            0 <= i <= n,
            n == parts.deep_view().len(),
            n == parts@.len(),
            forward ==> out.deep_view() == parts.deep_view().take(i as int).filter(
                |n: Seq<char>| !forward_denied(n),
            ),
            !forward ==> out.deep_view() == parts.deep_view().take(i as int).filter(
                |n: Seq<char>| !pass_denied(n),
            ),
        decreases n - i,
    {
        let keep = if forward {
            !is_forward_denied(parts[i].as_str())
        } else {
            !is_pass_denied(parts[i].as_str())
        };
        proof {
            reveal(Seq::filter);
            assert(parts.deep_view().take(i + 1).drop_last() =~= parts.deep_view().take(i as int));
            assert(parts.deep_view().take(i + 1).last() == parts.deep_view()[i as int]);
            assert(parts.deep_view()[i as int] == parts@[i as int]@);
        }
        if keep {
            let ghost dv0 = out.deep_view();
            let item = parts[i].clone();
            out.push(item);
            proof {
                assert(out.deep_view() =~= dv0.push(parts@[i as int]@));
            }
        }
        i = i + 1;
    }
    proof {
        assert(parts.deep_view().take(n as int) =~= parts.deep_view());
    }
    out
}

/// Appends the baseline names for the forward set.
fn push_forward_baseline(out: &mut Vec<String>, cache: bool, ws: bool)
    ensures
        final(out).deep_view() == old(out).deep_view() + forward_baseline(cache, ws),
{
    let ghost dv0 = out.deep_view();
    out.push(String::from_str("accept-encoding"));
    out.push(String::from_str("accept-language"));
    if ws {
        out.push(String::from_str("sec-websocket-extensions"));
        out.push(String::from_str("sec-websocket-key"));
        out.push(String::from_str("sec-websocket-version"));
    }
    if cache {
        out.push(String::from_str("if-modified-since"));
        out.push(String::from_str("if-none-match"));
        out.push(String::from_str("cache-control"));
    }
    proof {
        assert(out.deep_view() =~= dv0 + forward_baseline(cache, ws));
    }
}

/// Appends the baseline names for the pass set.
fn push_pass_baseline(out: &mut Vec<String>, cache: bool)
    ensures
        final(out).deep_view() == old(out).deep_view() + pass_baseline(cache),
{
    let ghost dv0 = out.deep_view();
    out.push(String::from_str("content-encoding"));
    out.push(String::from_str("content-length"));
    out.push(String::from_str("last-modified"));
    if cache {
        out.push(String::from_str("cache-control"));
        out.push(String::from_str("etag"));
    }
    proof {
        assert(out.deep_view() =~= dv0 + pass_baseline(cache));
    }
}

/// The forward set, in application order.
pub fn forward_names(declared: &str, cache: bool, ws: bool) -> (r: Vec<String>)
    ensures
        r.deep_view() == forward_names_spec(declared@, cache, ws),
{
    let parts = split_commas(declared);
    let mut out = filter_denied(parts, true);
    push_forward_baseline(&mut out, cache, ws);
    out
}

/// The pass set, in application order.
pub fn pass_names(declared: &str, cache: bool) -> (r: Vec<String>)
    ensures
        r.deep_view() == pass_names_spec(declared@, cache),
{
    let parts = split_commas(declared);
    let mut out = filter_denied(parts, false);
    push_pass_baseline(&mut out, cache);
    out
}

/// Decides whether the upstream status code is passed through verbatim.
pub fn status_pass_check(declared: &str, cache: bool, status: u16) -> (r: bool)
    ensures
        r == status_passes(declared@, cache, status),
{
    if cache && status == 304 {
        return true;
    }
    let parts = split_commas(declared);
    let rendered = usize_to_string(status as usize);
    let n = parts.len();
    let mut i: usize = 0;
    while i < n
        invariant
            0 <= i <= n,
            n == parts@.len(),
            rendered@ == dec_str_of(status as nat),
            parts.deep_view() == split_on(declared@, ','),
            forall|j: int| 0 <= j < i ==> parts.deep_view()[j] != dec_str_of(status as nat),
        decreases n - i,
    {
        if str_eq(parts[i].as_str(), rendered.as_str()) {
            proof {
                assert(parts.deep_view()[i as int] == dec_str_of(status as nat));
                assert(split_on(declared@, ',').contains(dec_str_of(status as nat)));
            }
            return true;
        }
        proof {
            assert(parts.deep_view()[i as int] == parts@[i as int]@);
        }
        i = i + 1;
    }
    proof {
        if split_on(declared@, ',').contains(dec_str_of(status as nat)) {
            let j = choose|j: int|
                0 <= j < split_on(declared@, ',').len() && split_on(declared@, ',')[j] == dec_str_of(
                    status as nat,
                );
            assert(false);
        }
    }
    false
}

} // verus!
