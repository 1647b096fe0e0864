//! The header chunking codec: an oversized logical `x-bare-headers` value is
//! split across numbered physical headers (`x-bare-headers-0`,
//! `x-bare-headers-1`, ...), each holding at most `CHUNK_CAP` characters of
//! the value behind a one-character validity marker (`;`). Joining collects
//! the numbered headers, validates markers and indices, and concatenates the
//! payloads in index order.

use vstd::prelude::*;
use vstd::string::StrSliceExecFns;
use vstd::string::StringExecFns;
use crate::errors::BareError;
use crate::headers::{Headers, has_name, value_in};
use crate::strutil::{
    dec_str_of, is_canonical_dec, digits_val, is_prefix, lemma_canonical_is_dec_str,
    lemma_dec_str_of_canonical, parse_dec, starts_with_str, usize_to_string,
};

verus! {

/// Longest value carried by one physical header.
pub const CHUNK_CAP: usize = 3072;

/// Name of the unsplit logical header.
pub open spec fn canonical_name() -> Seq<char> {
    "x-bare-headers"@
}

/// Prefix of the numbered chunk headers.
pub open spec fn chunk_prefix() -> Seq<char> {
    "x-bare-headers-"@
}

/// Name of the chunk with index `i`.
pub open spec fn chunk_name(i: int) -> Seq<char> {
    chunk_prefix() + dec_str_of(i as nat)
}

/// The part of the logical value carried by chunk `i`.
pub open spec fn chunk_payload(v: Seq<char>, i: int) -> Seq<char> {
    v.subrange(
        i * (CHUNK_CAP as int),
        if (i + 1) * (CHUNK_CAP as int) <= v.len() {
            (i + 1) * (CHUNK_CAP as int)
        } else {
            v.len() as int
        },
    )
}

/// How many chunks a value of length `n > CHUNK_CAP` is split into.
pub open spec fn num_chunks(n: int) -> int {
    (n - 1) / (CHUNK_CAP as int) + 1
}

proof fn lemma_prefix_lens()
    ensures
        canonical_name().len() == 14,
        chunk_prefix().len() == 15,
        is_prefix(canonical_name(), chunk_prefix()),
{
    reveal_strlit("x-bare-headers");
    reveal_strlit("x-bare-headers-");
    assert(canonical_name() =~= chunk_prefix().subrange(0, 14));
}

/// Shape facts about a chunk's name: it starts with the chunk prefix, its
/// suffix is the canonical decimal of the index, and it is not the canonical
/// unsplit name.
pub proof fn lemma_chunk_name_facts(i: int)
    requires
        i >= 0,
    ensures
        is_prefix(chunk_prefix(), chunk_name(i)),
        chunk_name(i).skip(chunk_prefix().len() as int) == dec_str_of(i as nat),
        chunk_name(i) != canonical_name(),
        chunk_name(i).len() > canonical_name().len(),
{
    lemma_prefix_lens();
    lemma_dec_str_of_canonical(i as nat);
    let nm = chunk_name(i);
    assert(chunk_prefix() =~= nm.subrange(0, chunk_prefix().len() as int));
    assert(nm.skip(chunk_prefix().len() as int) =~= dec_str_of(i as nat));
}

/// Distinct indices give distinct chunk names.
pub proof fn lemma_chunk_name_injective(a: int, b: int)
    requires
        0 <= a,
        0 <= b,
        a != b,
    ensures
        chunk_name(a) != chunk_name(b),
{
    lemma_chunk_name_facts(a);
    lemma_chunk_name_facts(b);
    lemma_dec_str_of_canonical(a as nat);
    lemma_dec_str_of_canonical(b as nat);
    if chunk_name(a) == chunk_name(b) {
        assert(chunk_name(a).skip(chunk_prefix().len() as int) == chunk_name(b).skip(
            chunk_prefix().len() as int,
        ));
        assert(digits_val(dec_str_of(a as nat)) == digits_val(dec_str_of(b as nat)));
    }
}

/// Builds the physical name of chunk `i`.
fn chunk_name_string(i: usize) -> (r: String)
    ensures
        r@ == chunk_name(i as int),
{
    let front: String = String::from_str("x-bare-headers-");
    front.concat(usize_to_string(i).as_str())
}

/// Splits the `x-bare-headers` value across numbered chunk headers when it is
/// longer than `CHUNK_CAP`; shorter values (and absent ones) pass through
/// untouched.
pub fn split_headers(h: &Headers) -> (r: Headers)
    requires
        h.wf(),
    ensures
        r.wf(),
        (!h.as_map().contains_key(canonical_name()) || h.as_map()[canonical_name()].len()
            <= CHUNK_CAP as int) ==> r.as_map() == h.as_map(),
        (h.as_map().contains_key(canonical_name()) && h.as_map()[canonical_name()].len()
            > CHUNK_CAP as int) ==> split_maps_describe(h.as_map(), r.as_map()),
{
    let mut out = h.duplicate();
    let value = match h.get("x-bare-headers") {
        Some(v) => v,
        None => {
            return out;
        },
    };
    let n = value.as_str().unicode_len();
    if n <= CHUNK_CAP {
        return out;
    }
    let ghost v = h.value_of(canonical_name());
    let ghost m = num_chunks(n as int);
    out.remove("x-bare-headers");
    proof {
        assert(m >= 2 && (m - 1) * (CHUNK_CAP as int) <= n - 1 && n <= m * (CHUNK_CAP as int))
            by {
            vstd::arithmetic::div_mod::lemma_fundamental_div_mod(
                n - 1,
                CHUNK_CAP as int,
            );
        }
        assert forall|k: int|
            0 <= k < h@.len() && (#[trigger] h@[k]).0 != canonical_name() implies out.as_map().contains_key(
            h@[k].0,
        ) && out.as_map()[h@[k].0] == h@[k].1 by {
            crate::headers::lemma_value_in_unique(h@, h@[k].0, k);
        }
    }
    let mut i: usize = 0;
    let mut pos: usize = 0;
    while pos < n
        invariant
            h.wf(),
            out.wf(),
            h.contains_name(canonical_name()),
            v == h.value_of(canonical_name()),
            value@ == v,
            n == v.len(),
            n > CHUNK_CAP,
            m == num_chunks(n as int),
            2 <= m,
            (m - 1) * (CHUNK_CAP as int) <= n - 1,
            n <= m * (CHUNK_CAP as int),
            0 <= i <= m,
            pos == if (i as int) < m {
                i * (CHUNK_CAP as int)
            } else {
                n as int
            },
            forall|j: int|
                0 <= j < i ==> out.as_map().contains_key(#[trigger] chunk_name(j))
                    && out.as_map()[chunk_name(j)] == seq![';'] + chunk_payload(v, j),
            !out.as_map().contains_key(canonical_name()),
            forall|nm: Seq<char>|
                #[trigger] out.as_map().contains_key(nm) ==> (exists|j: int|
                    0 <= j < i && nm == chunk_name(j)) || (h.as_map().contains_key(nm) && nm
                    != canonical_name()),
            forall|k: int|
                0 <= k < h@.len() && (#[trigger] h@[k]).0 != canonical_name() && !(exists|j: int|
                    0 <= j < i && h@[k].0 == #[trigger] chunk_name(j)) ==> out.as_map().contains_key(
                    h@[k].0,
                ) && out.as_map()[h@[k].0] == h@[k].1,
        decreases n - pos,
    {
        proof {
            if i as int >= m {
                assert(pos == n as int);
                assert(false);
            }
            assert(pos == i * (CHUNK_CAP as int));
            assert(i * (CHUNK_CAP as int) <= (m - 1) * (CHUNK_CAP as int)) by (nonlinear_arith)
                requires
                    i as int <= m - 1,
                    CHUNK_CAP as int > 0,
            ;
        }
        let end = if n - pos > CHUNK_CAP {
            pos + CHUNK_CAP
        } else {
            n
        };
        let part = value.as_str().substring_char(pos, end);
        let chunk_value = String::from_str(";").concat(part);
        proof {
            reveal_strlit(";");
            assert(";"@ =~= seq![';']);
            assert(chunk_value@ =~= seq![';'] + chunk_payload(v, i as int)) by {
                assert((i as int + 1) * (CHUNK_CAP as int) == pos + CHUNK_CAP as int)
                    by (nonlinear_arith)
                    requires
                        pos == i * (CHUNK_CAP as int),
                ;
            }
        }
        let name = chunk_name_string(i);
        let ghost map0 = out.as_map();
        out.insert(name, chunk_value);
        proof {
            lemma_chunk_name_facts(i as int);
            assert forall|j: int|
                0 <= j < i + 1 implies out.as_map().contains_key(#[trigger] chunk_name(j))
                && out.as_map()[chunk_name(j)] == seq![';'] + chunk_payload(v, j) by {
                if j < i {
                    lemma_chunk_name_injective(j, i as int);
                }
            }
            assert forall|nm: Seq<char>|
                #[trigger] out.as_map().contains_key(nm) implies (exists|j: int|
                0 <= j < i + 1 && nm == chunk_name(j)) || (h.as_map().contains_key(nm) && nm
                != canonical_name()) by {
                if nm == chunk_name(i as int) {
                    assert(exists|j: int| 0 <= j < i + 1 && nm == chunk_name(j));
                } else {
                    assert(map0.contains_key(nm));
                    if exists|j: int| 0 <= j < i && nm == chunk_name(j) {
                        let j = choose|j: int| 0 <= j < i && nm == chunk_name(j);
                        assert(0 <= j < i + 1 && nm == chunk_name(j));
                    }
                }
            }
            assert forall|k: int|
                0 <= k < h@.len() && (#[trigger] h@[k]).0 != canonical_name() && !(exists|j: int|
                0 <= j < i + 1 && h@[k].0 == #[trigger] chunk_name(j)) implies out.as_map().contains_key(
                h@[k].0,
            ) && out.as_map()[h@[k].0] == h@[k].1 by {
                let nm = h@[k].0;
                assert(!(0 <= i < i + 1 && nm == chunk_name(i as int)));
                assert(nm != chunk_name(i as int));
                assert(!(exists|j: int| 0 <= j < i && nm == #[trigger] chunk_name(j))) by {
                    if exists|j: int| 0 <= j < i && nm == #[trigger] chunk_name(j) {
                        let j = choose|j: int| 0 <= j < i && nm == #[trigger] chunk_name(j);
                        assert(0 <= j < i + 1 && nm == chunk_name(j));
                    }
                }
                assert(map0.contains_key(nm) && map0[nm] == h@[k].1);
            }
        }
        i = i + 1;
        pos = end;
        proof {
            if (i as int) < m {
                assert(end == i * (CHUNK_CAP as int)) by {
                    assert((i as int) * (CHUNK_CAP as int) <= n - 1) by (nonlinear_arith)
                        requires
                            i as int <= m - 1,
                            (m - 1) * (CHUNK_CAP as int) <= n - 1,
                            CHUNK_CAP as int > 0,
                            i as int >= 1,
                    ;
                }
            } else {
                assert(end == n as int) by {
                    assert(n <= (i as int) * (CHUNK_CAP as int)) by (nonlinear_arith)
                        requires
                            i as int >= m,
                            n <= m * (CHUNK_CAP as int),
                            CHUNK_CAP as int > 0,
                    ;
                }
            }
        }
    }
    proof {
        if (i as int) < m {
            assert(i * (CHUNK_CAP as int) <= (m - 1) * (CHUNK_CAP as int)) by (nonlinear_arith)
                requires
                    i as int <= m - 1,
                    CHUNK_CAP as int > 0,
            ;
            assert(false);
        }
        assert(i as int == m);
        assert(h.as_map()[canonical_name()] == v);
        assert forall|nm: Seq<char>|
            h.as_map().contains_key(nm) && nm != canonical_name() && !(exists|j: int|
            0 <= j < m && nm == #[trigger] chunk_name(j)) implies out.as_map().contains_key(
            nm,
        ) && out.as_map()[nm] == h.as_map()[nm] by {
            let k = choose|k: int| 0 <= k < h@.len() && (#[trigger] h@[k]).0 == nm;
            crate::headers::lemma_value_in_unique(h@, nm, k);
            assert(!(exists|j: int| 0 <= j < i && h@[k].0 == #[trigger] chunk_name(j)));
            assert(out.as_map().contains_key(h@[k].0) && out.as_map()[h@[k].0] == h@[k].1);
        }
        assert(split_maps_describe(h.as_map(), out.as_map()));
    }
    out
}

/// Recognizes a chunk header by its name.
pub open spec fn chunk_pred() -> spec_fn((Seq<char>, Seq<char>)) -> bool {
    |p: (Seq<char>, Seq<char>)| is_prefix(chunk_prefix(), p.0)
}

/// A well-formed chunk: the value begins with the validity marker and the
/// name's suffix is a representable canonical decimal index.
pub open spec fn chunk_ok(p: (Seq<char>, Seq<char>)) -> bool {
    &&& p.1.len() > 0 && p.1[0] == ';'
    &&& is_canonical_dec(p.0.skip(chunk_prefix().len() as int))
    &&& digits_val(p.0.skip(chunk_prefix().len() as int)) <= usize::MAX
}

/// What joining yields. The canonical unsplit header wins verbatim. With no
/// chunk headers either, the logical value is empty (it is optional). A chunk
/// without its marker, with an unparsable index, or a non-contiguous index
/// set is a `MalformedChunk` error; otherwise the payloads are concatenated
/// in index order.
pub open spec fn spec_join(s: crate::headers::HeaderPairs) -> Result<Seq<char>, BareError> {
    if has_name(s, canonical_name()) {
        Ok(value_in(s, canonical_name()))
    } else {
        let cs = s.filter(chunk_pred());
        if cs.len() == 0 {
            Ok(Seq::<char>::empty())
        } else if exists|j: int| 0 <= j < cs.len() && !chunk_ok(#[trigger] cs[j]) {
            Err(BareError::MalformedChunk)
        } else if exists|i: int| 0 <= i < cs.len() && !has_name(s, #[trigger] chunk_name(i)) {
            Err(BareError::MalformedChunk)
        } else {
            Ok(Seq::new(cs.len() as nat, |i: int| value_in(s, chunk_name(i)).skip(1)).flatten())
        }
    }
}

/// The result of a join, seen at the spec level.
pub open spec fn join_view(r: &Result<String, BareError>) -> Result<Seq<char>, BareError> {
    match r {
        Ok(s) => Ok(s@),
        Err(e) => Err(*e),
    }
}

/// When every chunk-named pair in `s` is well formed, so is every element of
/// the filtered chunk sequence.
proof fn lemma_filtered_all_ok(s: crate::headers::HeaderPairs)
    requires
        forall|k: int| 0 <= k < s.len() && chunk_pred()((#[trigger] s[k])) ==> chunk_ok(s[k]),
    ensures
        forall|j: int|
            0 <= j < s.filter(chunk_pred()).len() ==> chunk_ok(
                #[trigger] s.filter(chunk_pred())[j],
            ),
{
    let cs = s.filter(chunk_pred());
    assert forall|j: int| 0 <= j < cs.len() implies chunk_ok(cs[j]) by {
        Seq::lemma_filter_pred(s, chunk_pred(), j);
        assert(cs.contains(cs[j]));
        Seq::lemma_filter_contains_rev(s, chunk_pred(), cs[j]);
        let k = choose|k: int| 0 <= k < s.len() && s[k] == cs[j];
        assert(chunk_ok(s[k]));
    }
}

/// Reassembles the logical `x-bare-headers` value from the physical headers.
pub fn join_headers(h: &Headers) -> (r: Result<String, BareError>)
    requires
        h.wf(),
    ensures
        join_view(&r) == spec_join(h@),
{
    if let Some(v) = h.get("x-bare-headers") {
        return Ok(v.clone());
    }
    let ghost cs = h@.filter(chunk_pred());
    let len = h.len();
    let mut count: usize = 0;
    let mut k: usize = 0;
    while k < len
        invariant
            h.wf(),
            0 <= k <= len,
            len == h@.len(),
            !has_name(h@, canonical_name()),
            cs == h@.filter(chunk_pred()),
            count == h@.take(k as int).filter(chunk_pred()).len(),
            count <= k,
            forall|j: int| 0 <= j < k && chunk_pred()((#[trigger] h@[j])) ==> chunk_ok(h@[j]),
        decreases len - k,
    {
        let name = h.name_at(k);
        let value = h.value_at(k);
        proof {
            reveal(Seq::filter);
            assert(h@.take(k + 1).drop_last() =~= h@.take(k as int));
            assert(h@.take(k + 1).last() == h@[k as int]);
        }
        if starts_with_str(name.as_str(), "x-bare-headers-") {
            proof {
                lemma_prefix_lens();
            }
            let vlen = value.as_str().unicode_len();
            if vlen == 0 || value.as_str().get_char(0) != ';' {
                proof {
                    assert(!chunk_ok(h@[k as int]));
                    lemma_some_chunk_bad(h@, k as int);
                }
                return Err(BareError::MalformedChunk);
            }
            let nlen = name.as_str().unicode_len();
            let suffix = name.as_str().substring_char(15, nlen);
            if parse_dec(suffix).is_none() {
                proof {
                    assert(suffix@ == h@[k as int].0.skip(chunk_prefix().len() as int));
                    if is_canonical_dec(suffix@) && digits_val(suffix@) <= usize::MAX {
                        lemma_canonical_is_dec_str(suffix@);
                        assert(suffix@ == dec_str_of(digits_val(suffix@) as nat));
                        assert(exists|i: nat| i <= usize::MAX && suffix@ == dec_str_of(i));
                    }
                    assert(!chunk_ok(h@[k as int]));
                    lemma_some_chunk_bad(h@, k as int);
                }
                return Err(BareError::MalformedChunk);
            }
            proof {
                let suf = suffix@;
                let i = choose|i: nat| i <= usize::MAX && suf == dec_str_of(i);
                lemma_dec_str_of_canonical(i);
                assert(chunk_ok(h@[k as int]));
            }
            count = count + 1;
        }
        k = k + 1;
        proof {
            assert(count == h@.take(k as int).filter(chunk_pred()).len());
        }
    }
    proof {
        assert(h@.take(len as int) =~= h@);
    }
    if count == 0 {
        proof {
            assert(spec_join(h@) == Ok::<Seq<char>, BareError>(Seq::<char>::empty()));
        }
        return Ok(String::new());
    }
    proof {
        lemma_filtered_all_ok(h@);
        assert(!(exists|j: int| 0 <= j < cs.len() && !chunk_ok(#[trigger] cs[j])));
    }
    let mut out = String::new();
    let mut i: usize = 0;
    while i < count
        invariant
            h.wf(),
            0 <= i <= count,
            cs == h@.filter(chunk_pred()),
            count == cs.len(),
            !has_name(h@, canonical_name()),
            forall|j: int| 0 <= j < h@.len() && chunk_pred()((#[trigger] h@[j])) ==> chunk_ok(h@[j]),
            forall|j: int| 0 <= j < i ==> has_name(h@, #[trigger] chunk_name(j)),
            out@ == Seq::new(i as nat, |j: int| value_in(h@, chunk_name(j)).skip(1)).flatten(),
        decreases count - i,
    {
        let name = chunk_name_string(i);
        match h.get(name.as_str()) {
            None => {
                proof {
                    assert(!has_name(h@, chunk_name(i as int)));
                    assert(exists|j: int|
                        0 <= j < cs.len() && !has_name(h@, #[trigger] chunk_name(j)));
                    lemma_filtered_all_ok(h@);
                    assert(!(exists|j: int| 0 <= j < cs.len() && !chunk_ok(#[trigger] cs[j])));
                }
                return Err(BareError::MalformedChunk);
            },
            Some(val) => {
                proof {
                    lemma_chunk_name_facts(i as int);
                    let idx = choose|idx: int|
                        0 <= idx < h@.len() && (#[trigger] h@[idx]).0 == chunk_name(i as int);
                    crate::headers::lemma_value_in_unique(h@, chunk_name(i as int), idx);
                    assert(chunk_pred()(h@[idx]));
                    assert(chunk_ok(h@[idx]));
                    assert(val@.len() > 0 && val@[0] == ';');
                }
                let vlen = val.as_str().unicode_len();
                let part = val.as_str().substring_char(1, vlen);
                let ghost out0 = out@;
                out.append(part);
                proof {
                    let f = |j: int| value_in(h@, chunk_name(j)).skip(1);
                    assert(part@ =~= f(i as int));
                    assert(Seq::new((i + 1) as nat, f) =~= Seq::new(i as nat, f).push(f(i as int)));
                    Seq::new(i as nat, f).lemma_flatten_push(f(i as int));
                    assert(out@ == Seq::new((i + 1) as nat, f).flatten());
                }
            },
        }
        i = i + 1;
    }
    proof {
        assert(!(exists|j: int| 0 <= j < cs.len() && !has_name(h@, #[trigger] chunk_name(j))));
        assert(spec_join(h@) == Ok::<Seq<char>, BareError>(
            Seq::new(cs.len() as nat, |j: int| value_in(h@, chunk_name(j)).skip(1)).flatten(),
        ));
    }
    Ok(out)
}

/// Law: a chunk set with a missing marker or an unparsable (non-numeric,
/// non-canonical or unrepresentable) index suffix joins to `MalformedChunk`.
pub proof fn lemma_join_rejects_bad_chunk(s: crate::headers::HeaderPairs, k: int)
    requires
        0 <= k < s.len(),
        is_prefix(chunk_prefix(), s[k].0),
        !chunk_ok(s[k]),
        !has_name(s, canonical_name()),
    ensures
        spec_join(s) == Err::<Seq<char>, BareError>(BareError::MalformedChunk),
{
    lemma_some_chunk_bad(s, k);
}

/// Law: a non-contiguous index set (some index below the chunk count has no
/// chunk header) joins to `MalformedChunk`.
pub proof fn lemma_join_rejects_gap(s: crate::headers::HeaderPairs, i: int)
    requires
        0 <= i < s.filter(chunk_pred()).len(),
        !has_name(s, chunk_name(i)),
        !has_name(s, canonical_name()),
    ensures
        spec_join(s) == Err::<Seq<char>, BareError>(BareError::MalformedChunk),
{
    let cs = s.filter(chunk_pred());
    if !(exists|j: int| 0 <= j < cs.len() && !chunk_ok(#[trigger] cs[j])) {
        assert(exists|j: int| 0 <= j < cs.len() && !has_name(s, #[trigger] chunk_name(j)));
    }
}

/// A malformed chunk-named pair makes the join a `MalformedChunk` error.
proof fn lemma_some_chunk_bad(s: crate::headers::HeaderPairs, k: int)
    requires
        0 <= k < s.len(),
        chunk_pred()(s[k]),
        !chunk_ok(s[k]),
        !has_name(s, canonical_name()),
    ensures
        spec_join(s) == Err::<Seq<char>, BareError>(BareError::MalformedChunk),
{
    let cs = s.filter(chunk_pred());
    Seq::lemma_filter_contains(s, chunk_pred(), k);
    assert(cs.contains(s[k]));
    let j = choose|j: int| 0 <= j < cs.len() && cs[j] == s[k];
    assert(0 <= j < cs.len() && !chunk_ok(cs[j]));
}

/// Filtering keeps pairwise-distinct names distinct.
proof fn lemma_filter_keeps_unique_names(s: crate::headers::HeaderPairs)
    requires
        crate::headers::names_unique(s),
    ensures
        crate::headers::names_unique(s.filter(chunk_pred())),
    decreases s.len(),
{
    reveal(Seq::filter);
    if s.len() > 0 {
        let d = s.drop_last();
        assert(crate::headers::names_unique(d)) by {
            assert(forall|i: int| 0 <= i < d.len() ==> #[trigger] d[i] == s[i]);
        }
        lemma_filter_keeps_unique_names(d);
        let df = d.filter(chunk_pred());
        let cs = s.filter(chunk_pred());
        if chunk_pred()(s.last()) {
            assert(cs == df.push(s.last()));
            assert forall|a: int, b: int| 0 <= a < b < cs.len() implies (#[trigger] cs[a]).0 != (
            #[trigger] cs[b]).0 by {
                if b == cs.len() - 1 {
                    assert(cs[a] == df[a]);
                    assert(df.contains(df[a]));
                    Seq::lemma_filter_contains_rev(d, chunk_pred(), df[a]);
                    let k = choose|k: int| 0 <= k < d.len() && d[k] == df[a];
                    assert(d[k] == s[k]);
                    assert(s[k].0 != s[s.len() - 1].0);
                } else {
                    assert(cs[a] == df[a] && cs[b] == df[b]);
                }
            }
        } else {
            assert(cs == df);
        }
    }
}

/// When the chunk-named pairs are exactly the names `chunk_name(0)` through
/// `chunk_name(m - 1)`, there are `m` of them.
proof fn lemma_chunk_filter_count(s: crate::headers::HeaderPairs, m: int)
    requires
        crate::headers::names_unique(s),
        m >= 0,
        forall|k: int|
            0 <= k < s.len() && is_prefix(chunk_prefix(), (#[trigger] s[k]).0) ==> exists|j: int|
                0 <= j < m && s[k].0 == #[trigger] chunk_name(j),
        forall|j: int| 0 <= j < m ==> has_name(s, #[trigger] chunk_name(j)),
    ensures
        s.filter(chunk_pred()).len() == m,
{
    let cs = s.filter(chunk_pred());
    lemma_filter_keeps_unique_names(s);
    let names = cs.map_values(|p: (Seq<char>, Seq<char>)| p.0);
    assert(names.no_duplicates()) by {
        assert forall|a: int, b: int|
            0 <= a < names.len() && 0 <= b < names.len() && a != b implies names[a] != names[b] by {
            assert(names[a] == cs[a].0 && names[b] == cs[b].0);
            if a < b {
                assert(cs[a].0 != cs[b].0);
            } else {
                assert(cs[b].0 != cs[a].0);
            }
        }
    }
    names.unique_seq_to_set();
    let idxs = Seq::new(m as nat, |j: int| chunk_name(j));
    assert(idxs.no_duplicates()) by {
        assert forall|a: int, b: int|
            0 <= a < idxs.len() && 0 <= b < idxs.len() && a != b implies idxs[a] != idxs[b] by {
            lemma_chunk_name_injective(a, b);
        }
    }
    idxs.unique_seq_to_set();
    assert(names.to_set() =~= idxs.to_set()) by {
        assert forall|nm: Seq<char>| names.to_set().contains(nm) implies idxs.to_set().contains(
            nm,
        ) by {
            let a = choose|a: int| 0 <= a < names.len() && names[a] == nm;
            assert(names[a] == cs[a].0);
            Seq::lemma_filter_pred(s, chunk_pred(), a);
            assert(cs.contains(cs[a]));
            Seq::lemma_filter_contains_rev(s, chunk_pred(), cs[a]);
            let k = choose|k: int| 0 <= k < s.len() && s[k] == cs[a];
            assert(is_prefix(chunk_prefix(), s[k].0));
            let j = choose|j: int| 0 <= j < m && s[k].0 == #[trigger] chunk_name(j);
            assert(idxs[j] == nm);
            assert(idxs.contains(nm));
        }
        assert forall|nm: Seq<char>| idxs.to_set().contains(nm) implies names.to_set().contains(
            nm,
        ) by {
            let j = choose|j: int| 0 <= j < idxs.len() && idxs[j] == nm;
            assert(nm == chunk_name(j));
            assert(has_name(s, chunk_name(j)));
            let k = choose|k: int| 0 <= k < s.len() && (#[trigger] s[k]).0 == chunk_name(j);
            lemma_chunk_name_facts(j);
            assert(chunk_pred()(s[k]));
            Seq::lemma_filter_contains(s, chunk_pred(), k);
            assert(cs.contains(s[k]));
            let a = choose|a: int| 0 <= a < cs.len() && cs[a] == s[k];
            assert(names[a] == nm);
            assert(names.contains(nm));
        }
    }
    assert(cs.len() == names.len() && names.len() == names.to_set().len());
    assert(idxs.to_set().len() == idxs.len() && idxs.len() == m);
}

/// Concatenating the first `j` chunk payloads yields the first
/// `j * CHUNK_CAP` characters of the value (all of it once `j` covers it).
proof fn lemma_chunks_flatten(v: Seq<char>, j: int)
    requires
        0 <= j,
        j == 0 || (j - 1) * (CHUNK_CAP as int) < v.len(),
    ensures
        Seq::new(j as nat, |i: int| chunk_payload(v, i)).flatten() == v.take(
            if j * (CHUNK_CAP as int) <= v.len() {
                j * (CHUNK_CAP as int)
            } else {
                v.len() as int
            },
        ),
    decreases j,
{
    let k = CHUNK_CAP as int;
    let f = |i: int| chunk_payload(v, i);
    if j == 0 {
        assert(Seq::new(0, f).flatten() =~= v.take(0));
    } else {
        assert((j - 2) * k < (j - 1) * k && (j - 1) * k < j * k) by (nonlinear_arith)
            requires
                k > 0,
        ;
        lemma_chunks_flatten(v, j - 1);
        assert(Seq::new(j as nat, f) =~= Seq::new((j - 1) as nat, f).push(f(j - 1)));
        Seq::new((j - 1) as nat, f).lemma_flatten_push(f(j - 1));
        let prev = if (j - 1) * k <= v.len() {
            (j - 1) * k
        } else {
            v.len() as int
        };
        let cur = if j * k <= v.len() {
            j * k
        } else {
            v.len() as int
        };
        assert(prev == (j - 1) * k);
        assert(f(j - 1) == v.subrange((j - 1) * k, cur));
        assert(v.take(prev) + v.subrange(prev, cur) =~= v.take(cur));
        assert(Seq::new(j as nat, f).flatten() == v.take(cur));
    }
}

/// Law: joining the split of any logical header value reproduces the value
/// exactly, both for values at most `CHUNK_CAP` long (left unsplit) and for
/// longer ones (split into numbered chunks). `h` is the collection before the
/// split (carrying the canonical header and no chunk-named headers); `r` is
/// any collection the split contract allows.
pub proof fn lemma_split_join_roundtrip(h: &Headers, r: &Headers)
    requires
        h.wf(),
        r.wf(),
        h.contains_name(canonical_name()),
        h.value_of(canonical_name()).len() <= usize::MAX,
        forall|k: int| 0 <= k < h@.len() ==> !is_prefix(chunk_prefix(), (#[trigger] h@[k]).0),
        h.value_of(canonical_name()).len() <= CHUNK_CAP as int ==> r.as_map() == h.as_map(),
        h.value_of(canonical_name()).len() > CHUNK_CAP as int ==> split_maps_describe(
            h.as_map(),
            r.as_map(),
        ),
    ensures
        spec_join(r@) == Ok::<Seq<char>, BareError>(h.value_of(canonical_name())),
{
    let v = h.value_of(canonical_name());
    let kk = CHUNK_CAP as int;
    if v.len() <= kk {
        assert(h.as_map().contains_key(canonical_name()));
        assert(r.as_map().contains_key(canonical_name()));
        assert(has_name(r@, canonical_name()));
        assert(value_in(r@, canonical_name()) == r.as_map()[canonical_name()]);
        assert(r.as_map()[canonical_name()] == h.as_map()[canonical_name()]);
    } else {
        assert(h.as_map()[canonical_name()] == v);
        let n = v.len() as int;
        let m = num_chunks(n);
        assert(m >= 2 && (m - 1) * kk <= n - 1 && n <= m * kk) by {
            vstd::arithmetic::div_mod::lemma_fundamental_div_mod(n - 1, kk);
        }
        assert(m <= n) by {
            vstd::arithmetic::div_mod::lemma_div_nonincreasing(n - 1, kk);
        }
        assert(!has_name(r@, canonical_name()));
        assert forall|k: int|
            0 <= k < r@.len() && is_prefix(chunk_prefix(), (#[trigger] r@[k]).0) implies exists|
            j: int,
        |
            0 <= j < m && r@[k].0 == #[trigger] chunk_name(j) by {
            let nm = r@[k].0;
            assert(has_name(r@, nm));
            assert(r.as_map().contains_key(nm));
            if !(exists|j: int| 0 <= j < m && nm == #[trigger] chunk_name(j)) {
                assert(h.as_map().contains_key(nm) && nm != canonical_name());
                assert(has_name(h@, nm));
                let k2 = choose|k2: int| 0 <= k2 < h@.len() && (#[trigger] h@[k2]).0 == nm;
                assert(!is_prefix(chunk_prefix(), h@[k2].0));
                assert(false);
            }
        }
        lemma_chunk_filter_count(r@, m);
        let cs = r@.filter(chunk_pred());
        assert(cs.len() == m);
        assert forall|jj: int| 0 <= jj < cs.len() implies chunk_ok(#[trigger] cs[jj]) by {
            Seq::lemma_filter_pred(r@, chunk_pred(), jj);
            assert(cs.contains(cs[jj]));
            Seq::lemma_filter_contains_rev(r@, chunk_pred(), cs[jj]);
            let k = choose|k: int| 0 <= k < r@.len() && r@[k] == cs[jj];
            assert(is_prefix(chunk_prefix(), r@[k].0));
            let j = choose|j: int| 0 <= j < m && r@[k].0 == #[trigger] chunk_name(j);
            crate::headers::lemma_value_in_unique(r@, chunk_name(j), k);
            assert(r.as_map()[chunk_name(j)] == seq![';'] + chunk_payload(v, j));
            assert(r@[k].1 == seq![';'] + chunk_payload(v, j));
            lemma_chunk_name_facts(j);
            lemma_dec_str_of_canonical(j as nat);
            assert(r@[k].0.skip(chunk_prefix().len() as int) == dec_str_of(j as nat));
            assert(digits_val(dec_str_of(j as nat)) == j && j <= usize::MAX);
            assert(r@[k].1.len() > 0 && r@[k].1[0] == ';');
            assert(chunk_ok(r@[k]));
        }
        assert(!(exists|jj: int| 0 <= jj < cs.len() && !chunk_ok(#[trigger] cs[jj])));
        assert forall|i2: int| 0 <= i2 < cs.len() implies has_name(
            r@,
            #[trigger] chunk_name(i2),
        ) by {
            assert(r.as_map().contains_key(chunk_name(i2)));
        }
        assert(!(exists|i2: int| 0 <= i2 < cs.len() && !has_name(r@, #[trigger] chunk_name(i2))));
        let g = |i: int| value_in(r@, chunk_name(i)).skip(1);
        assert forall|i2: int| 0 <= i2 < m implies #[trigger] g(i2) == chunk_payload(v, i2) by {
            assert(r.as_map().contains_key(chunk_name(i2)));
            assert(value_in(r@, chunk_name(i2)) == r.as_map()[chunk_name(i2)]);
            assert((seq![';'] + chunk_payload(v, i2)).skip(1) =~= chunk_payload(v, i2));
        }
        assert(Seq::new(m as nat, g) =~= Seq::new(m as nat, |i: int| chunk_payload(v, i)));
        lemma_chunks_flatten(v, m);
        assert(v.take(if m * kk <= n {
            m * kk
        } else {
            n
        }) =~= v);
        assert(spec_join(r@) == Ok::<Seq<char>, BareError>(Seq::new(cs.len() as nat, g).flatten()));
    }
}

/// What splitting an oversized value guarantees: the canonical header is gone,
/// every chunk holds marker plus its payload slice, and every other header
/// survives unchanged.
pub open spec fn split_maps_describe(
    pre: Map<Seq<char>, Seq<char>>,
    post: Map<Seq<char>, Seq<char>>,
) -> bool {
    let v = pre[canonical_name()];
    let m = num_chunks(v.len() as int);
    &&& forall|j: int|
        0 <= j < m ==> post.contains_key(#[trigger] chunk_name(j))
            && post[chunk_name(j)] == seq![';'] + chunk_payload(v, j)
    &&& !post.contains_key(canonical_name())
    &&& forall|nm: Seq<char>|
        #[trigger] post.contains_key(nm) ==> (exists|j: int|
            0 <= j < m && nm == chunk_name(j)) || (pre.contains_key(nm) && nm
            != canonical_name())
    &&& forall|nm: Seq<char>|
        pre.contains_key(nm) && nm != canonical_name() && !(exists|j: int|
            0 <= j < m && nm == #[trigger] chunk_name(j)) ==> post.contains_key(nm)
            && post[nm] == pre[nm]
}

} // verus!
