//! The gateway's error taxonomy. Every failure is terminal for the request
//! or session it occurs in; none is retried.

use vstd::prelude::*;

verus! {

/// Why a request or tunnel session could not be served.
#[derive(Clone, Copy, Debug, PartialEq, Eq, Structural)]
pub enum BareError {
    /// The meta headers that name the target are absent; the caller degrades
    /// to the informational index response.
    MissingTarget,
    /// A chunked meta header is malformed: a chunk value without the validity
    /// marker, a non-numeric chunk suffix, or a non-contiguous index set.
    MalformedChunk,
    /// The header blob is not a JSON object of string values.
    MalformedMetaHeaders,
    /// The outbound connection could not be opened.
    UpstreamConnectFailure,
    /// The outbound request failed in transit.
    UpstreamRequestFailure,
    /// No metadata entry exists under the given id (never created, already
    /// consumed, or expired).
    MetadataNotFound,
}

impl BareError {
    /// A short stable label for logs and tests.
    pub fn label(&self) -> (r: &'static str)
        ensures
            r@ == self.label_spec(),
    {
        match self {
            BareError::MissingTarget => "missing target",
            BareError::MalformedChunk => "malformed chunk",
            BareError::MalformedMetaHeaders => "malformed meta headers",
            BareError::UpstreamConnectFailure => "upstream connect failure",
            BareError::UpstreamRequestFailure => "upstream request failure",
            BareError::MetadataNotFound => "metadata not found",
        }
    }

    pub open spec fn label_spec(&self) -> Seq<char> {
        match self {
            BareError::MissingTarget => "missing target"@,
            BareError::MalformedChunk => "malformed chunk"@,
            BareError::MalformedMetaHeaders => "malformed meta headers"@,
            BareError::UpstreamConnectFailure => "upstream connect failure"@,
            BareError::UpstreamRequestFailure => "upstream request failure"@,
            BareError::MetadataNotFound => "metadata not found"@,
        }
    }
}

} // verus!
