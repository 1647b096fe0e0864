//! The JSON boundary. Parsing the loosely-typed header blobs and handshake
//! messages is delegated to serde_json behind trusted wrappers whose results
//! carry uninterpreted names; the JSON text the gateway emits is assembled by
//! verified code from individually quoted strings.

use vstd::prelude::*;
use vstd::string::StringExecFns;

verus! {

/// What serde_json renders for one string: quoted and escaped. A function of
/// the characters alone.
pub uninterp spec fn json_string_of(s: Seq<char>) -> Seq<char>;

/// Relies on serde_json::to_string for &str: renders the quoted, escaped
/// JSON string. Serializing a string to a buffer cannot fail.
#[verifier::external_body]
pub(crate) fn json_quote(s: &str) -> (r: String)
    ensures
        r@ == json_string_of(s@),
{
    serde_json::to_string(s).unwrap_or_default()
}

/// What serde_json parses from a header blob: the pairs of a JSON object
/// whose values are all strings, keys in sorted order; `None` for anything
/// else.
pub uninterp spec fn json_header_object_of(s: Seq<char>) -> Option<Seq<(Seq<char>, Seq<char>)>>;

/// Relies on serde_json::from_str for BTreeMap<String, String>: accepts
/// exactly a JSON object with string values, rejecting every other shape.
#[verifier::external_body]
pub(crate) fn parse_header_object(s: &str) -> (r: Option<Vec<(String, String)>>)
    ensures
        r.deep_view() == json_header_object_of(s@),
{
    match serde_json::from_str::<std::collections::BTreeMap<String, String>>(s) {
        Ok(m) => Some(m.into_iter().collect()),
        Err(_) => None,
    }
}

/// What serde_json parses from a tunnel handshake message: the remote target
/// string under the given key, the `headers` object (string values, keys in
/// order of appearance), and the `forwardHeaders` string array; `None` for
/// anything else.
pub uninterp spec fn connect_message_of(key: Seq<char>, s: Seq<char>) -> Option<
    (Seq<char>, Seq<(Seq<char>, Seq<char>)>, Seq<Seq<char>>),
>;

/// Relies on serde_json::from_str for Value and the Value accessors `get`,
/// `as_str`, `as_object` and `as_array`: reads the remote target under
/// `key` plus the `headers` object and `forwardHeaders` array.
#[verifier::external_body]
pub(crate) fn parse_connect_message(s: &str, key: &str) -> (r: Option<
    (String, Vec<(String, String)>, Vec<String>),
>)
    ensures
        r.deep_view() == connect_message_of(key@, s@),
{
    let v: serde_json::Value = match serde_json::from_str(s) {
        Ok(v) => v,
        Err(_) => return None,
    };
    let remote = v.get(key)?.as_str()?.to_string();
    let headers = v.get("headers")?.as_object()?.iter().map(
        |(k, x)| x.as_str().map(|x| (k.clone(), x.to_string())),
    ).collect::<Option<Vec<_>>>()?;
    let fwd = v.get("forwardHeaders")?.as_array()?.iter().map(
        |x| x.as_str().map(|x| x.to_string()),
    ).collect::<Option<Vec<_>>>()?;
    Some((remote, headers, fwd))
}

/// One `"name":"value"` member of a JSON object.
pub open spec fn json_entry_of(p: (Seq<char>, Seq<char>)) -> Seq<char> {
    json_string_of(p.0) + seq![':'] + json_string_of(p.1)
}

/// The members of a JSON object, comma separated.
pub open spec fn json_entries_of(ps: Seq<(Seq<char>, Seq<char>)>) -> Seq<char>
    decreases ps.len(),
{
    if ps.len() == 0 {
        Seq::<char>::empty()
    } else if ps.len() == 1 {
        json_entry_of(ps[0])
    } else {
        json_entries_of(ps.drop_last()) + seq![','] + json_entry_of(ps.last())
    }
}

/// A JSON object of string values, in pair order.
pub open spec fn json_object_of(ps: Seq<(Seq<char>, Seq<char>)>) -> Seq<char> {
    seq!['{'] + json_entries_of(ps) + seq!['}']
}

/// The elements of a JSON string array, comma separated.
pub open spec fn json_strings_of(xs: Seq<Seq<char>>) -> Seq<char>
    decreases xs.len(),
{
    if xs.len() == 0 {
        Seq::<char>::empty()
    } else if xs.len() == 1 {
        json_string_of(xs[0])
    } else {
        json_strings_of(xs.drop_last()) + seq![','] + json_string_of(xs.last())
    }
}

/// A JSON array of strings, in element order.
pub open spec fn json_array_of(xs: Seq<Seq<char>>) -> Seq<char> {
    seq!['['] + json_strings_of(xs) + seq![']']
}

/// Renders name/value pairs as a JSON object.
pub fn json_object_text(pairs: &Vec<(String, String)>) -> (r: String)
    ensures
        r@ == json_object_of(pairs.deep_view()),
{
    proof {
        reveal_strlit("{");
        reveal_strlit("}");
        reveal_strlit(",");
        reveal_strlit(":");
    }
    let mut out = String::from_str("{");
    let n = pairs.len();
    let mut i: usize = 0;
    while i < n
        invariant
            0 <= i <= n,
            n == pairs@.len(),
            "{"@ =~= seq!['{'],
            "}"@ =~= seq!['}'],
            ","@ =~= seq![','],
            ":"@ =~= seq![':'],
            out@ == seq!['{'] + json_entries_of(pairs.deep_view().take(i as int)),
        decreases n - i,
    {
        if i > 0 {
            out.append(",");
        }
        out.append(json_quote(pairs[i].0.as_str()).as_str());
        out.append(":");
        out.append(json_quote(pairs[i].1.as_str()).as_str());
        proof {
            let dv = pairs.deep_view();
            assert(dv.take(i + 1).drop_last() =~= dv.take(i as int));
            assert(dv.take(i + 1).last() == dv[i as int]);
            assert(dv[i as int] == (pairs@[i as int].0@, pairs@[i as int].1@));
            if i == 0 {
                assert(out@ =~= seq!['{'] + json_entries_of(dv.take(1)));
            } else {
                assert(out@ =~= seq!['{'] + json_entries_of(dv.take(i + 1)));
            }
        }
        i = i + 1;
    }
    proof {
        assert(pairs.deep_view().take(n as int) =~= pairs.deep_view());
    }
    out.append("}");
    proof {
        assert(out@ =~= json_object_of(pairs.deep_view()));
    }
    out
}

/// Renders strings as a JSON array.
pub fn json_array_text(items: &Vec<String>) -> (r: String)
    ensures
        r@ == json_array_of(items.deep_view()),
{
    proof {
        reveal_strlit("[");
        reveal_strlit("]");
        reveal_strlit(",");
    }
    let mut out = String::from_str("[");
    let n = items.len();
    let mut i: usize = 0;
    while i < n
        invariant
            0 <= i <= n,
            n == items@.len(),
            "["@ =~= seq!['['],
            "]"@ =~= seq![']'],
            ","@ =~= seq![','],
            out@ == seq!['['] + json_strings_of(items.deep_view().take(i as int)),
        decreases n - i,
    {
        if i > 0 {
            out.append(",");
        }
        out.append(json_quote(items[i].as_str()).as_str());
        proof {
            let dv = items.deep_view();
            assert(dv.take(i + 1).drop_last() =~= dv.take(i as int));
            assert(dv.take(i + 1).last() == dv[i as int]);
            assert(dv[i as int] == items@[i as int]@);
            if i == 0 {
                assert(out@ =~= seq!['['] + json_strings_of(dv.take(1)));
            } else {
                assert(out@ =~= seq!['['] + json_strings_of(dv.take(i + 1)));
            }
        }
        i = i + 1;
    }
    proof {
        assert(items.deep_view().take(n as int) =~= items.deep_view());
    }
    out.append("]");
    proof {
        assert(out@ =~= json_array_of(items.deep_view()));
    }
    out
}

} // verus!
