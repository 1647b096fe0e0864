//! The raw-TCP tunnel extension: the client negotiates TLS end-to-end with
//! the remote host while the gateway relays opaque bytes. Client binary
//! frames are written to the TCP socket verbatim; socket reads come back as
//! client binary frames. A distinguished text frame ends only the
//! client-to-socket direction; the socket-to-client direction runs on until
//! the socket closes or errors. (That asymmetry follows the wire behavior as
//! deployed; whether it is a half-close by design is an open question.)

use vstd::prelude::*;
use crate::errors::BareError;
use crate::jsonio::connect_message_of;
use crate::relay::TunnelRequest;
use crate::strutil::str_eq;

verus! {

/// The text frame that stops the client-to-socket direction.
pub open spec fn tls_done_text() -> Seq<char> {
    "TLS HANDSHAKE COMPLETE"@
}

/// The two independent directions of a tunnel. Each flag says whether its
/// direction is still running.
pub struct TcpRelay {
    pub client_to_sock: bool,
    pub sock_to_client: bool,
}

/// What the transport observed.
pub enum TcpEvent {
    /// A binary frame arrived from the client.
    ClientBinary(Vec<u8>),
    /// A text frame arrived from the client.
    ClientText(String),
    /// Any other client frame (ping, pong, close of the read stream).
    ClientOther,
    /// The client stream ended or failed.
    ClientGone,
    /// Writing to the TCP socket failed.
    WriteFailed,
    /// Bytes arrived from the TCP socket.
    SockBytes(Vec<u8>),
    /// The TCP socket closed or failed.
    SockClosed,
    /// Sending a frame to the client failed.
    SendFailed,
}

/// What the transport must do next.
pub enum TcpDirective {
    /// Write these bytes to the TCP socket.
    WriteUpstream(Vec<u8>),
    /// Send these bytes to the client as a binary frame.
    SendToClient(Vec<u8>),
}

/// The tunnel transition function. Client binary frames are forwarded only
/// while the client-to-socket direction runs; the distinguished text frame
/// stops that direction and nothing else; socket bytes flow to the client
/// only while the socket-to-client direction runs; failures stop their own
/// direction.
pub open spec fn spec_tcp_step(s: TcpRelay, ev: TcpEvent) -> (TcpRelay, Option<TcpDirective>) {
    match ev {
        TcpEvent::ClientBinary(b) => {
            if s.client_to_sock {
                (s, Some(TcpDirective::WriteUpstream(b)))
            } else {
                (s, None)
            }
        },
        TcpEvent::ClientText(t) => {
            if s.client_to_sock && t@ == tls_done_text() {
                (TcpRelay { client_to_sock: false, sock_to_client: s.sock_to_client }, None)
            } else {
                (s, None)
            }
        },
        TcpEvent::ClientOther => (s, None),
        TcpEvent::ClientGone => (
            TcpRelay { client_to_sock: false, sock_to_client: s.sock_to_client },
            None,
        ),
        TcpEvent::WriteFailed => (
            TcpRelay { client_to_sock: false, sock_to_client: s.sock_to_client },
            None,
        ),
        TcpEvent::SockBytes(b) => {
            if s.sock_to_client {
                (s, Some(TcpDirective::SendToClient(b)))
            } else {
                (s, None)
            }
        },
        TcpEvent::SockClosed => (
            TcpRelay { client_to_sock: s.client_to_sock, sock_to_client: false },
            None,
        ),
        TcpEvent::SendFailed => (
            TcpRelay { client_to_sock: s.client_to_sock, sock_to_client: false },
            None,
        ),
    }
}

impl TcpRelay {
    /// A tunnel whose TCP connection has just been opened.
    pub fn begin() -> (r: TcpRelay)
        ensures
            r.client_to_sock,
            r.sock_to_client,
    {
        TcpRelay { client_to_sock: true, sock_to_client: true }
    }

    /// Feeds one observed event to the machine.
    pub fn step(&mut self, ev: TcpEvent) -> (d: Option<TcpDirective>)
        ensures
            *final(self) == spec_tcp_step(*old(self), ev).0,
            d == spec_tcp_step(*old(self), ev).1,
    {
        match ev {
            TcpEvent::ClientBinary(b) => {
                if self.client_to_sock {
                    Some(TcpDirective::WriteUpstream(b))
                } else {
                    None
                }
            },
            TcpEvent::ClientText(t) => {
                if self.client_to_sock && str_eq(t.as_str(), "TLS HANDSHAKE COMPLETE") {
                    self.client_to_sock = false;
                    None
                } else {
                    None
                }
            },
            TcpEvent::ClientOther => None,
            TcpEvent::ClientGone => {
                self.client_to_sock = false;
                None
            },
            TcpEvent::WriteFailed => {
                self.client_to_sock = false;
                None
            },
            TcpEvent::SockBytes(b) => {
                if self.sock_to_client {
                    Some(TcpDirective::SendToClient(b))
                } else {
                    None
                }
            },
            TcpEvent::SockClosed => {
                self.sock_to_client = false;
                None
            },
            TcpEvent::SendFailed => {
                self.sock_to_client = false;
                None
            },
        }
    }
}

/// The machine run over a whole event sequence.
pub open spec fn run_tcp(s: TcpRelay, evs: Seq<TcpEvent>) -> (TcpRelay, Seq<TcpDirective>)
    decreases evs.len(),
{
    if evs.len() == 0 {
        (s, Seq::<TcpDirective>::empty())
    } else {
        let stepped = spec_tcp_step(s, evs.first());
        let rest = run_tcp(stepped.0, evs.drop_first());
        (
            rest.0,
            match stepped.1 {
                Some(d) => seq![d] + rest.1,
                None => rest.1,
            },
        )
    }
}

/// Once the client-to-socket direction has stopped, it stays stopped, and no
/// bytes are ever written to the socket again.
pub proof fn lemma_no_write_after_client_stop(s: TcpRelay, evs: Seq<TcpEvent>)
    requires
        !s.client_to_sock,
    ensures
        !run_tcp(s, evs).0.client_to_sock,
        forall|i: int|
            0 <= i < run_tcp(s, evs).1.len() ==> !((#[trigger] run_tcp(s, evs).1[i])
                is WriteUpstream),
    decreases evs.len(),
{
    if evs.len() > 0 {
        let stepped = spec_tcp_step(s, evs.first());
        assert(!stepped.0.client_to_sock);
        lemma_no_write_after_client_stop(stepped.0, evs.drop_first());
        match stepped.1 {
            Some(d) => {
                assert(!(d is WriteUpstream));
                assert forall|i: int| 0 <= i < run_tcp(s, evs).1.len() implies !((
                #[trigger] run_tcp(s, evs).1[i]) is WriteUpstream) by {
                    if i > 0 {
                        assert(run_tcp(s, evs).1[i] == run_tcp(stepped.0, evs.drop_first()).1[i
                            - 1]);
                    }
                }
            },
            None => {},
        }
    }
}

/// While no socket-side termination occurs, the socket-to-client direction
/// keeps running and every batch of socket bytes is forwarded to the client.
pub proof fn lemma_sock_bytes_still_flow(s: TcpRelay, evs: Seq<TcpEvent>)
    requires
        s.sock_to_client,
        forall|j: int|
            0 <= j < evs.len() ==> !((#[trigger] evs[j]) is SockClosed) && !(evs[j] is SendFailed),
    ensures
        run_tcp(s, evs).0.sock_to_client,
        forall|j: int|
            0 <= j < evs.len() && (#[trigger] evs[j]) is SockBytes ==> run_tcp(s, evs).1.contains(
                TcpDirective::SendToClient(evs[j]->SockBytes_0),
            ),
    decreases evs.len(),
{
    if evs.len() > 0 {
        let stepped = spec_tcp_step(s, evs.first());
        assert(stepped.0.sock_to_client);
        assert(forall|j: int|
            0 <= j < evs.drop_first().len() ==> !((#[trigger] evs.drop_first()[j]) is SockClosed)
                && !(evs.drop_first()[j] is SendFailed));
        lemma_sock_bytes_still_flow(stepped.0, evs.drop_first());
        assert forall|j: int|
            0 <= j < evs.len() && (#[trigger] evs[j]) is SockBytes implies run_tcp(
            s,
            evs,
        ).1.contains(TcpDirective::SendToClient(evs[j]->SockBytes_0)) by {
            let b = evs[j]->SockBytes_0;
            let out = run_tcp(s, evs).1;
            let rest_out = run_tcp(stepped.0, evs.drop_first()).1;
            if j == 0 {
                assert(stepped.1 == Some(TcpDirective::SendToClient(b)));
                assert(out == seq![TcpDirective::SendToClient(b)] + rest_out);
                assert(out[0] == TcpDirective::SendToClient(b));
            } else {
                assert(evs.drop_first()[j - 1] == evs[j]);
                assert(rest_out.contains(TcpDirective::SendToClient(b)));
                let a = choose|a: int|
                    0 <= a < rest_out.len() && rest_out[a] == TcpDirective::SendToClient(b);
                match stepped.1 {
                    Some(d) => {
                        assert(out[a + 1] == rest_out[a]);
                    },
                    None => {
                        assert(out[a] == rest_out[a]);
                    },
                }
            }
        }
    }
}

/// Law: after the client's TLS-handshake-complete text frame, no later
/// client binary frame is written to the TCP socket, while bytes arriving
/// from the socket continue to be forwarded to the client until the socket
/// itself closes.
pub proof fn lemma_tls_complete_half_close(s: TcpRelay, evs: Seq<TcpEvent>, done: String)
    requires
        s.client_to_sock,
        s.sock_to_client,
        evs.len() > 0,
        evs.first() == TcpEvent::ClientText(done),
        done@ == tls_done_text(),
        forall|j: int|
            1 <= j < evs.len() ==> !((#[trigger] evs[j]) is SockClosed) && !(evs[j] is SendFailed),
    ensures
        !run_tcp(s, evs).0.client_to_sock,
        run_tcp(s, evs).0.sock_to_client,
        forall|i: int|
            0 <= i < run_tcp(s, evs).1.len() ==> !((#[trigger] run_tcp(s, evs).1[i])
                is WriteUpstream),
        forall|j: int|
            0 <= j < evs.len() && (#[trigger] evs[j]) is SockBytes ==> run_tcp(s, evs).1.contains(
                TcpDirective::SendToClient(evs[j]->SockBytes_0),
            ),
    decreases evs.len(),
{
    let stepped = spec_tcp_step(s, evs.first());
    assert(!stepped.0.client_to_sock && stepped.0.sock_to_client);
    assert(stepped.1 is None);
    let rest = evs.drop_first();
    assert(forall|j: int|
        0 <= j < rest.len() ==> !((#[trigger] rest[j]) is SockClosed) && !(rest[j] is SendFailed));
    lemma_no_write_after_client_stop(stepped.0, rest);
    lemma_sock_bytes_still_flow(stepped.0, rest);
    assert(run_tcp(s, evs).1 == run_tcp(stepped.0, rest).1);
    assert forall|j: int|
        0 <= j < evs.len() && (#[trigger] evs[j]) is SockBytes implies run_tcp(s, evs).1.contains(
        TcpDirective::SendToClient(evs[j]->SockBytes_0),
    ) by {
        assert(j != 0);
        assert(rest[j - 1] == evs[j]);
    }
}

/// Parses the first client message of a raw-TCP tunnel handshake: a JSON
/// object carrying `host` (a host:port pair dialed directly), `headers` and
/// `forwardHeaders`. Malformed input aborts the session silently.
pub fn parse_tcp_handshake(msg: &str) -> (r: Result<TunnelRequest, BareError>)
    ensures
        match r {
            Ok(t) => connect_message_of("host"@, msg@) == Some(
                (t.remote@, t.headers.deep_view(), t.forward_names.deep_view()),
            ),
            Err(e) => e == BareError::MalformedMetaHeaders && connect_message_of("host"@, msg@)
                is None,
        },
{
    match crate::jsonio::parse_connect_message(msg, "host") {
        Some(parts) => {
            let (remote, headers, forward_names) = parts;
            Ok(TunnelRequest { remote, headers, forward_names })
        },
        None => Err(BareError::MalformedMetaHeaders),
    }
}

} // verus!
