//! A verified core for a "bare"-style header-relay gateway.
//!
//! The library holds the protocol logic: the header chunking codec, the
//! per-version allow/deny rule tables, the request/response translator, the
//! ephemeral metadata store that bridges the two HTTP round-trips a v2
//! WebSocket upgrade needs, and the state machines that drive the
//! WebSocket-to-WebSocket and WebSocket-to-TCP relays. Transport (HTTP
//! serving, outbound requests, sockets) lives outside the library and hands
//! it plain values.

pub mod codec;
pub mod errors;
pub mod chunks;
pub mod headers;
pub mod jsonio;
pub mod meta;
pub mod relay;
pub mod rules;
pub mod strutil;
pub mod translate;
pub mod tunnel;
