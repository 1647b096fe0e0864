//! The WebSocket-to-WebSocket relay: the handshake that resolves where to
//! connect (an inline JSON message for v3, a metadata-store lookup keyed by
//! the subprotocol for v2), the "open" acknowledgement frame, and the
//! bidirectional relay state machine. The transport performs the socket
//! operations and feeds each observed event to the machine, which decides
//! what to forward and when the session is over.

use vstd::prelude::*;
use vstd::string::StringExecFns;
use crate::errors::BareError;
use crate::headers::{has_name, value_in, Headers};
use crate::jsonio::{
    connect_message_of, json_array_of, json_array_text, json_quote, json_string_of,
    parse_connect_message,
};
use crate::meta::{MetaPayload, MetaStore};
use crate::translate::{apply_name_list, map_of_pairs};

verus! {

/// One WebSocket frame. The relay maps frame types one-to-one.
pub enum Frame {
    Text(String),
    Binary(Vec<u8>),
    Ping(Vec<u8>),
    Pong(Vec<u8>),
    Close,
}

/// The two ends of a tunnel session.
#[derive(Clone, Copy, Debug, PartialEq, Eq, Structural)]
pub enum Side {
    Client,
    Upstream,
}

impl Side {
    /// The opposite end.
    pub open spec fn spec_other(self) -> Side {
        match self {
            Side::Client => Side::Upstream,
            Side::Upstream => Side::Client,
        }
    }

    pub fn other(self) -> (r: Side)
        ensures
            r == self.spec_other(),
    {
        match self {
            Side::Client => Side::Upstream,
            Side::Upstream => Side::Client,
        }
    }
}

/// What the transport observed on one leg of the session.
pub enum RelayEvent {
    /// A frame arrived from one side.
    Frame { from: Side, frame: Frame },
    /// The stream from one side ended or failed.
    ReceiveEnded { from: Side },
    /// Forwarding a frame to one side failed.
    SendFailed { to: Side },
}

/// What the transport must do next.
pub enum RelayDirective {
    /// Forward this frame and keep relaying.
    Relay { to: Side, frame: Frame },
    /// Send one close frame to this side, then close both sockets.
    ForwardClose { to: Side },
    /// Close both sockets.
    Shutdown,
}

#[derive(Clone, Copy, Debug, PartialEq, Eq, Structural)]
pub enum RelayPhase {
    Relaying,
    Closed,
}

/// One tunnel session: exactly one client socket paired with one upstream
/// socket. The open flags track whether the machine still regards each
/// socket as usable; terminal cleanup closes both whatever ended the session.
pub struct RelaySession {
    pub phase: RelayPhase,
    pub client_open: bool,
    pub upstream_open: bool,
}

/// The relay transition function: a close frame from either side is
/// forwarded once and ends the session; any other frame is forwarded
/// unchanged to the other side; a receive or send failure ends the session
/// with both sockets closed; a closed session reacts to nothing.
pub open spec fn spec_relay_step(s: RelaySession, ev: RelayEvent) -> (
    RelaySession,
    Option<RelayDirective>,
) {
    if s.phase is Closed {
        (s, None)
    } else {
        match ev {
            RelayEvent::Frame { from, frame } => match frame {
                Frame::Close => (
                    RelaySession { phase: RelayPhase::Closed, client_open: false, upstream_open: false },
                    Some(RelayDirective::ForwardClose { to: from.spec_other() }),
                ),
                f => (s, Some(RelayDirective::Relay { to: from.spec_other(), frame: f })),
            },
            RelayEvent::ReceiveEnded { .. } => (
                RelaySession { phase: RelayPhase::Closed, client_open: false, upstream_open: false },
                Some(RelayDirective::Shutdown),
            ),
            RelayEvent::SendFailed { .. } => (
                RelaySession { phase: RelayPhase::Closed, client_open: false, upstream_open: false },
                Some(RelayDirective::Shutdown),
            ),
        }
    }
}

impl RelaySession {
    /// A session that has just finished connecting both legs.
    pub fn begin() -> (r: RelaySession)
        ensures
            r.phase is Relaying,
            r.client_open,
            r.upstream_open,
    {
        RelaySession { phase: RelayPhase::Relaying, client_open: true, upstream_open: true }
    }

    /// Feeds one observed event to the machine.
    pub fn step(&mut self, ev: RelayEvent) -> (d: Option<RelayDirective>)
        ensures
            *final(self) == spec_relay_step(*old(self), ev).0,
            d == spec_relay_step(*old(self), ev).1,
    {
        match self.phase {
            RelayPhase::Closed => None,
            RelayPhase::Relaying => {
                match ev {
                    RelayEvent::Frame { from, frame } => {
                        match frame {
                            Frame::Close => {
                                self.phase = RelayPhase::Closed;
                                self.client_open = false;
                                self.upstream_open = false;
                                Some(RelayDirective::ForwardClose { to: from.other() })
                            },
                            f => Some(RelayDirective::Relay { to: from.other(), frame: f }),
                        }
                    },
                    RelayEvent::ReceiveEnded { .. } => {
                        self.phase = RelayPhase::Closed;
                        self.client_open = false;
                        self.upstream_open = false;
                        Some(RelayDirective::Shutdown)
                    },
                    RelayEvent::SendFailed { .. } => {
                        self.phase = RelayPhase::Closed;
                        self.client_open = false;
                        self.upstream_open = false;
                        Some(RelayDirective::Shutdown)
                    },
                }
            },
        }
    }
}

/// The machine run over a whole event sequence: the final session and every
/// directive issued, in order.
pub open spec fn run_relay(s: RelaySession, evs: Seq<RelayEvent>) -> (
    RelaySession,
    Seq<RelayDirective>,
)
    decreases evs.len(),
{
    if evs.len() == 0 {
        (s, Seq::<RelayDirective>::empty())
    } else {
        let stepped = spec_relay_step(s, evs.first());
        let rest = run_relay(stepped.0, evs.drop_first());
        (
            rest.0,
            match stepped.1 {
                Some(d) => seq![d] + rest.1,
                None => rest.1,
            },
        )
    }
}

/// Whether a directive sends a close frame to this side.
pub open spec fn sends_close_to(d: RelayDirective, to: Side) -> bool {
    ||| d == (RelayDirective::ForwardClose { to })
    ||| d == (RelayDirective::Relay { to, frame: Frame::Close })
}

/// How many directives in the sequence send a close frame to this side.
pub open spec fn closes_sent_to(ds: Seq<RelayDirective>, to: Side) -> int
    decreases ds.len(),
{
    if ds.len() == 0 {
        0
    } else {
        (if sends_close_to(ds.first(), to) {
            1int
        } else {
            0int
        }) + closes_sent_to(ds.drop_first(), to)
    }
}

/// A closed session reacts to nothing: no directive is ever issued again.
pub proof fn lemma_closed_session_is_silent(s: RelaySession, evs: Seq<RelayEvent>)
    requires
        s.phase is Closed,
    ensures
        run_relay(s, evs).0 == s,
        run_relay(s, evs).1 =~= Seq::<RelayDirective>::empty(),
    decreases evs.len(),
{
    if evs.len() > 0 {
        lemma_closed_session_is_silent(s, evs.drop_first());
    }
}

/// An event that keeps the session relaying: an ordinary (non-close) frame.
pub open spec fn benign_event(ev: RelayEvent) -> bool {
    ev matches RelayEvent::Frame { from, frame } && !(frame is Close)
}

/// Law: while a session is relaying, a close frame from the client is
/// answered with exactly one close frame forwarded upstream; the session
/// reaches `Closed` with both sockets closed, and no further frame is ever
/// forwarded in either direction.
pub proof fn lemma_client_close_forwarded_once(s: RelaySession, evs: Seq<RelayEvent>, k: int)
    requires
        s.phase is Relaying,
        0 <= k < evs.len(),
        evs[k] == (RelayEvent::Frame { from: Side::Client, frame: Frame::Close }),
        forall|j: int| 0 <= j < k ==> benign_event(#[trigger] evs[j]),
    ensures
        run_relay(s, evs).0.phase is Closed,
        !run_relay(s, evs).0.client_open,
        !run_relay(s, evs).0.upstream_open,
        closes_sent_to(run_relay(s, evs).1, Side::Upstream) == 1,
    decreases k,
{
    let stepped = spec_relay_step(s, evs.first());
    let rest = evs.drop_first();
    if k == 0 {
        assert(stepped.0.phase is Closed);
        assert(stepped.1 == Some(RelayDirective::ForwardClose { to: Side::Upstream }));
        lemma_closed_session_is_silent(stepped.0, rest);
        assert(run_relay(s, evs).1 =~= seq![
            RelayDirective::ForwardClose { to: Side::Upstream },
        ]);
        assert(run_relay(s, evs).1.drop_first() =~= Seq::<RelayDirective>::empty());
        assert(closes_sent_to(Seq::<RelayDirective>::empty(), Side::Upstream) == 0);
        assert(sends_close_to(run_relay(s, evs).1.first(), Side::Upstream));
        assert(closes_sent_to(run_relay(s, evs).1, Side::Upstream) == 1);
    } else {
        assert(benign_event(evs[0]));
        match evs[0] {
            RelayEvent::Frame { from, frame } => {
                assert(!(frame is Close));
                let d = RelayDirective::Relay { to: from.spec_other(), frame };
                assert(stepped.0 == s);
                assert(stepped.1 == Some(d));
                assert(forall|j: int| 0 <= j < k - 1 ==> benign_event(#[trigger] rest[j]));
                assert(rest[k - 1] == evs[k]);
                lemma_client_close_forwarded_once(s, rest, k - 1);
                assert(!sends_close_to(d, Side::Upstream));
                assert(run_relay(s, evs).1 == seq![d] + run_relay(s, rest).1);
                assert((seq![d] + run_relay(s, rest).1).drop_first() =~= run_relay(s, rest).1);
                assert(closes_sent_to(run_relay(s, evs).1, Side::Upstream) == closes_sent_to(
                    run_relay(s, rest).1,
                    Side::Upstream,
                ));
            },
            _ => {
                assert(false);
            },
        }
    }
}

/// What a tunnel handshake resolves to: the remote target, the headers the
/// client declared, and the request-header names to forward from the upgrade
/// request.
#[derive(Debug)]
pub struct TunnelRequest {
    pub remote: String,
    pub headers: Vec<(String, String)>,
    pub forward_names: Vec<String>,
}

/// Parses the first client message of a v3 WebSocket tunnel handshake:
/// a JSON object carrying `remote`, `headers` and `forwardHeaders`.
/// Malformed input aborts the session silently; the upgrade has already
/// succeeded, so no HTTP status can be sent.
pub fn parse_tunnel_handshake(msg: &str) -> (r: Result<TunnelRequest, BareError>)
    ensures
        match r {
            Ok(t) => connect_message_of("remote"@, msg@) == Some(
                (t.remote@, t.headers.deep_view(), t.forward_names.deep_view()),
            ),
            Err(e) => e == BareError::MalformedMetaHeaders && connect_message_of("remote"@, msg@)
                is None,
        },
{
    match parse_connect_message(msg, "remote") {
        Some(parts) => {
            let (remote, headers, forward_names) = parts;
            Ok(TunnelRequest { remote, headers, forward_names })
        },
        None => Err(BareError::MalformedMetaHeaders),
    }
}

/// The headers for the outbound WebSocket connect: the declared pairs, then
/// the forwarded names copied from the original upgrade request.
pub fn connect_headers(
    declared: &Vec<(String, String)>,
    forward: &Vec<String>,
    upgrade_req: &Headers,
) -> (r: Headers)
    requires
        upgrade_req.wf(),
    ensures
        r.wf(),
        r.as_map() =~= map_of_pairs(declared.deep_view()).union_prefer_right(
            Map::new(
                |n: Seq<char>| forward.deep_view().contains(n) && has_name(upgrade_req@, n),
                |n: Seq<char>| value_in(upgrade_req@, n),
            ),
        ),
{
    let ghost ps = declared.deep_view();
    let mut out = Headers::new();
    proof {
        assert(out.as_map() =~= Map::<Seq<char>, Seq<char>>::empty());
    }
    let n = declared.len();
    let mut i: usize = 0;
    while i < n
        invariant
            out.wf(),
            0 <= i <= n,
            n == declared@.len(),
            ps == declared.deep_view(),
            out.as_map() =~= map_of_pairs(ps.take(i as int)),
        decreases n - i,
    {
        let nm = declared[i].0.clone();
        let vv = declared[i].1.clone();
        out.insert(nm, vv);
        proof {
            assert(ps.take(i + 1).drop_last() =~= ps.take(i as int));
            assert(ps.take(i + 1).last() == ps[i as int]);
            assert(ps[i as int] == (declared@[i as int].0@, declared@[i as int].1@));
            assert(out.as_map() =~= map_of_pairs(ps.take(i + 1)));
        }
        i = i + 1;
    }
    proof {
        assert(ps.take(n as int) =~= ps);
    }
    apply_name_list(&mut out, forward, upgrade_req);
    out
}

/// The headers for a v2 outbound WebSocket connect: the stashed send
/// headers, overlaid by the request headers the forward set captured when
/// the entry was created.
pub fn v2_connect_headers(payload: &MetaPayload) -> (r: Headers)
    requires
        payload.send_headers.wf(),
        payload.forward_headers.wf(),
    ensures
        r.wf(),
        r.as_map() =~= payload.send_headers.as_map().union_prefer_right(
            payload.forward_headers.as_map(),
        ),
{
    let ghost base = payload.send_headers.as_map();
    let ghost fh = payload.forward_headers@;
    let mut out = payload.send_headers.duplicate();
    let n = payload.forward_headers.len();
    let mut i: usize = 0;
    while i < n
        invariant
            out.wf(),
            0 <= i <= n,
            n == fh.len(),
            fh == payload.forward_headers@,
            out.as_map() =~= base.union_prefer_right(map_of_pairs(fh.take(i as int))),
        decreases n - i,
    {
        let nm = payload.forward_headers.name_at(i).clone();
        let vv = payload.forward_headers.value_at(i).clone();
        out.insert(nm, vv);
        proof {
            assert(fh.take(i + 1).drop_last() =~= fh.take(i as int));
            assert(fh.take(i + 1).last() == fh[i as int]);
            assert(out.as_map() =~= base.union_prefer_right(map_of_pairs(fh.take(i + 1))));
        }
        i = i + 1;
    }
    proof {
        assert(fh.take(n as int) =~= fh);
        crate::translate::lemma_map_of_pairs_is_map_of(fh);
    }
    out
}

/// Resolves a v2 tunnel: the subprotocol the client declared is the id of a
/// stashed metadata entry, consumed on this first successful read. A missing
/// (never created, already consumed, or expired) id aborts silently.
pub fn resolve_v2_tunnel(store: &mut MetaStore, subprotocol: &str) -> (r: Result<
    MetaPayload,
    BareError,
>)
    requires
        old(store).wf(),
    ensures
        final(store).wf(),
        match r {
            Ok(p) => old(store).as_map().contains_key(subprotocol@) && p == old(
                store,
            ).as_map()[subprotocol@] && final(store).as_map() =~= old(store).as_map().remove(
                subprotocol@,
            ),
            Err(e) => e == BareError::MetadataNotFound && !old(store).as_map().contains_key(
                subprotocol@,
            ) && final(store)@ == old(store)@,
        },
{
    match store.lookup_and_consume(subprotocol) {
        Some(p) => Ok(p),
        None => Err(BareError::MetadataNotFound),
    }
}

/// The text of the v3 "open" acknowledgement: the negotiated subprotocol and
/// any upstream Set-Cookie values, sent to the client before relaying begins.
pub open spec fn open_frame_text(protocol: Seq<char>, cookies: Seq<Seq<char>>) -> Seq<char> {
    "{\"protocol\":"@ + json_string_of(protocol) + ",\"setCookies\":"@ + json_array_of(cookies)
        + ",\"type\":\"open\"}"@
}

/// Builds the "open" acknowledgement frame.
pub fn open_frame(protocol: &str, set_cookies: &Vec<String>) -> (r: Frame)
    ensures
        r matches Frame::Text(t) && t@ == open_frame_text(protocol@, set_cookies.deep_view()),
{
    let mut s: String = String::from_str("{\"protocol\":");
    s.append(json_quote(protocol).as_str());
    s.append(",\"setCookies\":");
    s.append(json_array_text(set_cookies).as_str());
    s.append(",\"type\":\"open\"}");
    Frame::Text(s)
}

} // verus!
