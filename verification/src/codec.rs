//! An auxiliary text codec used to obscure URLs in a redirect helper:
//! base64 under the encoding name "b64", the identity under any other name.

use vstd::prelude::*;
use base64::engine::general_purpose::STANDARD;
use base64::Engine;
use crate::strutil::str_eq;

verus! {

/// What base64 encoding yields for a string's bytes. A function of the
/// characters alone.
pub uninterp spec fn b64_encode_of(s: Seq<char>) -> Seq<char>;

/// What base64 decoding yields for a string: the decoded bytes as text, or
/// the empty string when the input is not valid base64 or the bytes are not
/// valid UTF-8. A function of the characters alone.
pub uninterp spec fn b64_decode_of(s: Seq<char>) -> Seq<char>;

/// Relies on base64's STANDARD engine `encode`: the base64 rendering of the
/// input bytes.
#[verifier::external_body]
fn b64_encode(text: &str) -> (r: String)
    ensures
        r@ == b64_encode_of(text@),
{
    STANDARD.encode(text.as_bytes())
}

/// Relies on base64's STANDARD engine `decode` (empty on a decode error) and
/// String::from_utf8 (empty on invalid UTF-8).
#[verifier::external_body]
fn b64_decode(text: &str) -> (r: String)
    ensures
        r@ == b64_decode_of(text@),
{
    String::from_utf8(STANDARD.decode(text.as_bytes()).unwrap_or_default()).unwrap_or_default()
}

/// Encodes the text under the named encoding: base64 for "b64", the identity
/// for anything else.
pub fn encode(text: String, encoding: String) -> (r: String)
    ensures
        encoding@ == "b64"@ ==> r@ == b64_encode_of(text@),
        encoding@ != "b64"@ ==> r == text,
{
    if str_eq(encoding.as_str(), "b64") {
        b64_encode(text.as_str())
    } else {
        text
    }
}

/// Decodes the text under the named encoding: base64 for "b64", the identity
/// for anything else.
pub fn decode(text: String, encoding: String) -> (r: String)
    ensures
        encoding@ == "b64"@ ==> r@ == b64_decode_of(text@),
        encoding@ != "b64"@ ==> r == text,
{
    if str_eq(encoding.as_str(), "b64") {
        b64_decode(text.as_str())
    } else {
        text
    }
}

} // verus!
