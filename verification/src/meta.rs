//! The v2 metadata store: an ephemeral map from a random hex id to the
//! connection parameters a later WebSocket upgrade will need. A browser
//! cannot set custom headers on an upgrade, so the client stashes them in a
//! prior HTTP round-trip and echoes the id back as the WebSocket subprotocol.
//! Entries are destroyed on first successful read, or by a sweep once their
//! expiry passes.

use vstd::prelude::*;
use crate::errors::BareError;
use crate::headers::{
    has_name, lemma_has_after_remove, lemma_insert_pair, lemma_names_unique_remove,
    lemma_removed_map, lemma_value_in_unique, map_of, names_unique, value_in, HeaderPairs, Headers,
};
use crate::strutil::{hex_encode, str_eq};
use crate::translate::{
    declared_forward, forward_overlay, map_of_pairs, resolve_url, spec_blob_pairs,
    spec_resolve_url, Version,
};
use crate::jsonio::parse_header_object;
use crate::chunks::join_headers;
use vstd::string::StrSliceExecFns;

verus! {

/// How long a metadata entry lives if never consumed, in milliseconds.
pub const META_TTL_MS: i64 = 30000;

/// What one metadata entry holds: when it expires, the resolved remote URL,
/// the headers the client asked to send upstream, and the request headers the
/// forward set captured from the stashing request.
#[derive(Debug)]
pub struct MetaPayload {
    pub expires: i64,
    pub remote: String,
    pub send_headers: Headers,
    pub forward_headers: Headers,
}

/// The entry expiry for a creation time: the TTL past `now`, saturating.
pub open spec fn meta_expiry(now: i64) -> i64 {
    if now + META_TTL_MS <= i64::MAX {
        (now + META_TTL_MS) as i64
    } else {
        i64::MAX
    }
}

/// The id/payload entries of a raw vector, as the store views them.
pub open spec fn entries_view(v: Seq<(String, MetaPayload)>) -> Seq<(Seq<char>, MetaPayload)> {
    Seq::new(v.len(), |i: int| (v[i].0@, v[i].1))
}

/// The single-consumer id-to-payload store.
pub struct MetaStore {
    entries: Vec<(String, MetaPayload)>,
}

impl View for MetaStore {
    type V = Seq<(Seq<char>, MetaPayload)>;

    closed spec fn view(&self) -> Seq<(Seq<char>, MetaPayload)> {
        entries_view(self.entries@)
    }
}

impl MetaStore {
    pub open spec fn wf(&self) -> bool {
        names_unique(self@)
    }

    /// The store seen as a map from id to payload.
    pub open spec fn as_map(&self) -> Map<Seq<char>, MetaPayload> {
        map_of(self@)
    }

    pub fn new() -> (r: MetaStore)
        ensures
            r.wf(),
            r.as_map() =~= Map::<Seq<char>, MetaPayload>::empty(),
    {
        let r = MetaStore { entries: Vec::new() };
        proof {
            assert(r@ =~= Seq::<(Seq<char>, MetaPayload)>::empty());
            assert(r.as_map() =~= Map::<Seq<char>, MetaPayload>::empty());
        }
        r
    }

    pub fn len(&self) -> (r: usize)
        ensures
            r == self@.len(),
    {
        self.entries.len()
    }

    fn find(&self, id: &str) -> (r: Option<usize>)
        ensures
            match r {
                Some(i) => i < self@.len() && self@[i as int].0 == id@,
                None => !has_name(self@, id@),
            },
    {
        let n = self.entries.len();
        let mut i: usize = 0;
        while i < n
            invariant
                0 <= i <= n,
                n == self@.len(),
                n == self.entries@.len(),
                forall|j: int| 0 <= j < i ==> (#[trigger] self@[j]).0 != id@,
            decreases n - i,
        {
            proof {
                assert(self@[i as int] == (self.entries@[i as int].0@, self.entries@[i as int].1));
            }
            if str_eq(self.entries[i].0.as_str(), id) {
                return Some(i);
            }
            i = i + 1;
        }
        None
    }

    /// Stores an entry, replacing any entry under the same id.
    pub fn insert(&mut self, id: String, payload: MetaPayload)
        requires
            old(self).wf(),
        ensures
            final(self).wf(),
            final(self).as_map() =~= old(self).as_map().insert(id@, payload),
    {
        let ghost s0 = self@;
        let ghost p = payload;
        match self.find(id.as_str()) {
            Some(i) => {
                self.entries.remove(i);
                proof {
                    assert(self@ =~= s0.remove(i as int));
                    lemma_names_unique_remove(s0, i as int);
                    lemma_has_after_remove(s0, i as int, id@);
                }
            },
            None => {},
        }
        let ghost s1 = self@;
        let ghost idv = id@;
        proof {
            assert(!has_name(s1, idv));
        }
        self.entries.push((id, payload));
        proof {
            assert(self@ =~= s1.push((idv, p)));
            lemma_insert_pair(s0, s1, self@, idv, p);
        }
    }

    /// Removes and returns the entry under `id`; a second call with the same
    /// id finds nothing.
    pub fn lookup_and_consume(&mut self, id: &str) -> (r: Option<MetaPayload>)
        requires
            old(self).wf(),
        ensures
            final(self).wf(),
            match r {
                Some(p) => old(self).as_map().contains_key(id@) && p == old(self).as_map()[id@]
                    && final(self).as_map() =~= old(self).as_map().remove(id@),
                None => !old(self).as_map().contains_key(id@) && final(self)@ == old(self)@,
            },
    {
        let ghost s0 = self@;
        match self.find(id) {
            Some(i) => {
                proof {
                    lemma_value_in_unique(s0, id@, i as int);
                    lemma_names_unique_remove(s0, i as int);
                    lemma_has_after_remove(s0, i as int, id@);
                    lemma_removed_map(s0, s0.remove(i as int), i as int, id@);
                }
                let entry = self.entries.remove(i);
                proof {
                    assert(self@ =~= s0.remove(i as int));
                    assert(entry.1 == s0[i as int].1);
                }
                Some(entry.1)
            },
            None => None,
        }
    }

    /// Removes every entry whose expiry has passed. Each entry's timer is
    /// independent: only those at or past their expiry go.
    pub fn sweep_expired(&mut self, now: i64)
        requires
            old(self).wf(),
        ensures
            final(self).wf(),
            forall|k: Seq<char>|
                final(self).as_map().contains_key(k) == (old(self).as_map().contains_key(k)
                    && old(self).as_map()[k].expires > now),
            forall|k: Seq<char>|
                #[trigger] final(self).as_map().contains_key(k) ==> final(self).as_map()[k] == old(
                    self,
                ).as_map()[k],
    {
        let ghost s0 = self@;
        let mut kept: Vec<(String, MetaPayload)> = Vec::new();
        loop
            invariant
                names_unique(s0),
                self@ =~= s0.take(self.entries@.len() as int),
                self.entries@.len() <= s0.len(),
                names_unique(entries_view(kept@)),
                forall|k: Seq<char>|
                    has_name(entries_view(kept@), k) == (exists|j: int|
                        self.entries@.len() <= j < s0.len() && (#[trigger] s0[j]).0 == k && s0[j].1.expires > now),
                forall|k: Seq<char>|
                    #[trigger] has_name(entries_view(kept@), k) ==> value_in(entries_view(kept@), k)
                        == value_in(s0, k),
            ensures
                self.entries@.len() == 0,
            decreases self.entries@.len(),
        {
            let r = self.entries.len();
            if r == 0 {
                break;
            }
            let ghost kv0 = entries_view(kept@);
            let entry = match self.entries.pop() {
                Some(e) => e,
                None => {
                    proof {
                        assert(false);
                    }
                    break;
                },
            };
            proof {
                assert(s0.take(r as int).drop_last() =~= s0.take(r - 1));
                assert(self@ =~= s0.take(r - 1));
                assert(s0.take(r as int).last() == s0[r - 1]);
                assert((entry.0@, entry.1) == s0[r - 1]);
            }
            if entry.1.expires > now {
                proof {
                    if has_name(kv0, entry.0@) {
                        let j = choose|j: int|
                            r <= j < s0.len() && (#[trigger] s0[j]).0 == entry.0@ && s0[j].1.expires > now;
                        assert(s0[r - 1].0 != s0[j].0);
                        assert(false);
                    }
                }
                let ghost pv = (entry.0@, entry.1);
                kept.push(entry);
                proof {
                    let kv1 = entries_view(kept@);
                    assert(kv1 =~= kv0.push(pv));
                    lemma_insert_pair(kv0, kv0, kv1, pv.0, pv.1);
                    assert forall|k: Seq<char>|
                        has_name(kv1, k) == (exists|j: int|
                            r - 1 <= j < s0.len() && (#[trigger] s0[j]).0 == k && s0[j].1.expires
                                > now) by {
                        if has_name(kv1, k) {
                            if k == pv.0 {
                                assert(s0[r - 1].0 == k && s0[r - 1].1.expires > now);
                            } else {
                                let a = choose|a: int|
                                    0 <= a < kv1.len() && (#[trigger] kv1[a]).0 == k;
                                assert(a < kv0.len() && kv0[a] == kv1[a]);
                                assert(has_name(kv0, k));
                                let j = choose|j: int|
                                    r <= j < s0.len() && (#[trigger] s0[j]).0 == k && s0[j].1.expires > now;
                                assert(r - 1 <= j);
                            }
                        }
                        if exists|j: int|
                            r - 1 <= j < s0.len() && (#[trigger] s0[j]).0 == k && s0[j].1.expires
                                > now {
                            let j = choose|j: int|
                                r - 1 <= j < s0.len() && (#[trigger] s0[j]).0 == k && s0[j].1.expires > now;
                            if j == r - 1 {
                                assert(kv1[kv1.len() - 1].0 == k);
                                assert(has_name(kv1, k));
                            } else {
                                assert(r <= j);
                                assert(has_name(kv0, k));
                                let a = choose|a: int|
                                    0 <= a < kv0.len() && (#[trigger] kv0[a]).0 == k;
                                assert(kv1[a] == kv0[a]);
                                assert(has_name(kv1, k));
                            }
                        }
                    }
                    assert forall|k: Seq<char>| #[trigger] has_name(kv1, k) implies value_in(
                        kv1,
                        k,
                    ) == value_in(s0, k) by {
                        if k == pv.0 {
                            lemma_value_in_unique(kv1, k, kv1.len() - 1);
                            lemma_value_in_unique(s0, k, r - 1);
                        } else {
                            let a = choose|a: int|
                                0 <= a < kv1.len() && (#[trigger] kv1[a]).0 == k;
                            assert(a < kv0.len() && kv0[a] == kv1[a]);
                            lemma_value_in_unique(kv0, k, a);
                            lemma_value_in_unique(kv1, k, a);
                        }
                    }
                }
            } else {
                proof {
                    assert forall|k: Seq<char>|
                        has_name(entries_view(kept@), k) == (exists|j: int|
                            r - 1 <= j < s0.len() && (#[trigger] s0[j]).0 == k && s0[j].1.expires
                                > now) by {
                        if has_name(entries_view(kept@), k) {
                            let j = choose|j: int|
                                r <= j < s0.len() && (#[trigger] s0[j]).0 == k && s0[j].1.expires > now;
                            assert(r - 1 <= j);
                        }
                        if exists|j: int|
                            r - 1 <= j < s0.len() && (#[trigger] s0[j]).0 == k && s0[j].1.expires
                                > now {
                            let j = choose|j: int|
                                r - 1 <= j < s0.len() && (#[trigger] s0[j]).0 == k && s0[j].1.expires > now;
                            assert(j != r - 1);
                            assert(r <= j);
                            assert(has_name(entries_view(kept@), k));
                        }
                    }
                }
            }
        }
        let ghost kvf = entries_view(kept@);
        self.entries = kept;
        proof {
            assert(self@ =~= kvf);
            assert forall|k: Seq<char>|
                self.as_map().contains_key(k) == (map_of(s0).contains_key(k) && map_of(s0)[k].expires > now) by {
                if has_name(self@, k) {
                    let j = choose|j: int|
                        0 <= j < s0.len() && (#[trigger] s0[j]).0 == k && s0[j].1.expires > now;
                    lemma_value_in_unique(s0, k, j);
                }
                if has_name(s0, k) && value_in(s0, k).expires > now {
                    let j = choose|j: int| 0 <= j < s0.len() && (#[trigger] s0[j]).0 == k;
                    lemma_value_in_unique(s0, k, j);
                    assert(s0[j].1.expires > now);
                    assert(has_name(self@, k));
                }
            }
        }
    }
}


/// Law: an entry is consumed at most once. After an insert, the first
/// consume of the id yields exactly the stored payload, and a second consume
/// of the same id finds nothing; so does a consume after a sweep at or past
/// the entry's expiry.
pub proof fn lemma_meta_single_consumer(
    m: Map<Seq<char>, MetaPayload>,
    id: Seq<char>,
    p: MetaPayload,
    now: i64,
)
    ensures
        m.insert(id, p).contains_key(id),
        m.insert(id, p)[id] == p,
        !m.insert(id, p).remove(id).contains_key(id),
        p.expires <= now ==> !(m.insert(id, p).contains_key(id) && m.insert(id, p)[id].expires
            > now),
{
}

/// Relies on getrandom::getrandom: fills the buffer with random bytes from
/// the operating system. Nothing is promised of the contents.
#[verifier::external_body]
fn random_bytes_16() -> (r: Vec<u8>)
    ensures
        r@.len() == 16,
{
    let mut b = [0u8; 16];
    let _ = getrandom::getrandom(&mut b);
    b.to_vec()
}

/// A fresh 128-bit random id, rendered as 32 lowercase hex digits.
pub fn random_hex_id() -> (r: String)
    ensures
        r@.len() == 32,
{
    let bytes = random_bytes_16();
    hex_encode(bytes.as_slice())
}

/// Relies on chrono::Utc::now and DateTime::timestamp_millis: the current
/// time in milliseconds since the Unix epoch. The value depends on the
/// clock, so nothing is promised of it.
#[verifier::external_body]
fn now_millis() -> i64 {
    chrono::Utc::now().timestamp_millis()
}

/// What a stash request resolves to: the remote URL (v2 layout) and the
/// header pairs of the blob. The errors are those of the translator.
pub open spec fn spec_new_meta(s: HeaderPairs) -> Result<
    (Seq<char>, Seq<(Seq<char>, Seq<char>)>),
    BareError,
> {
    match spec_resolve_url(Version::V2, s) {
        Err(e) => Err(e),
        Ok(url) => match spec_blob_pairs(s) {
            Err(e) => Err(e),
            Ok(ps) => Ok((url, ps)),
        },
    }
}

/// Builds a fresh metadata entry from a stash request: a random id and the
/// payload holding the resolved v2 remote URL, the blob's send headers, the
/// captured forward headers, and an expiry one TTL from `now_ms`.
pub fn new_meta(req: &Headers, now_ms: i64) -> (r: Result<(String, MetaPayload), BareError>)
    requires
        req.wf(),
    ensures
        match r {
            Ok(entry) => {
                &&& entry.0@.len() == 32
                &&& spec_new_meta(req@) matches Ok(expected)
                &&& expected.0 == entry.1.remote@
                &&& entry.1.send_headers.as_map() =~= map_of_pairs(expected.1)
                &&& entry.1.send_headers.wf()
                &&& entry.1.forward_headers.wf()
                &&& entry.1.forward_headers.as_map() =~= forward_overlay(req@, false, true)
                &&& entry.1.expires == meta_expiry(now_ms)
            },
            Err(e) => spec_new_meta(req@) == Err::<
                (Seq<char>, Seq<(Seq<char>, Seq<char>)>),
                BareError,
            >(e),
        },
{
    let remote = match resolve_url(Version::V2, req) {
        Ok(u) => u,
        Err(e) => {
            return Err(e);
        },
    };
    let blob = match join_headers(req) {
        Ok(b) => b,
        Err(e) => {
            return Err(e);
        },
    };
    let pairs: Vec<(String, String)> = if blob.as_str().unicode_len() == 0 {
        Vec::new()
    } else {
        match parse_header_object(blob.as_str()) {
            Some(p) => p,
            None => {
                return Err(BareError::MalformedMetaHeaders);
            },
        }
    };
    proof {
        if blob@.len() == 0 {
            assert(pairs.deep_view() =~= Seq::<(Seq<char>, Seq<char>)>::empty());
        }
    }
    let ghost ps = pairs.deep_view();
    let mut send_headers = Headers::new();
    let n = pairs.len();
    let mut i: usize = 0;
    while i < n
        invariant
            send_headers.wf(),
            0 <= i <= n,
            n == pairs@.len(),
            ps == pairs.deep_view(),
            send_headers.as_map() =~= map_of_pairs(ps.take(i as int)),
        decreases n - i,
    {
        let nm = pairs[i].0.clone();
        let vv = pairs[i].1.clone();
        send_headers.insert(nm, vv);
        proof {
            assert(ps.take(i + 1).drop_last() =~= ps.take(i as int));
            assert(ps.take(i + 1).last() == ps[i as int]);
            assert(ps[i as int] == (pairs@[i as int].0@, pairs@[i as int].1@));
            assert(send_headers.as_map() =~= map_of_pairs(ps.take(i + 1)));
        }
        i = i + 1;
    }
    proof {
        assert(ps.take(n as int) =~= ps);
    }
    let declared: String = match req.get("x-bare-forward-headers") {
        Some(v) => v.clone(),
        None => String::new(),
    };
    proof {
        assert(declared@ == declared_forward(req@));
    }
    let fwd_list = crate::rules::forward_names(declared.as_str(), false, true);
    let mut forward_headers = Headers::new();
    proof {
        assert(forward_headers.as_map() =~= Map::<Seq<char>, Seq<char>>::empty());
    }
    crate::translate::apply_name_list(&mut forward_headers, &fwd_list, req);
    proof {
        assert(forward_headers.as_map() =~= forward_overlay(req@, false, true));
    }
    let id = random_hex_id();
    let expires: i64 = if now_ms <= i64::MAX - META_TTL_MS {
        now_ms + META_TTL_MS
    } else {
        i64::MAX
    };
    Ok((id, MetaPayload { expires, remote, send_headers, forward_headers }))
}


/// Builds and timestamps a fresh metadata entry from a stash request, reading
/// the clock for the expiry. The entry is the same as `new_meta` builds; only
/// the expiry depends on the clock, of which nothing can be promised.
pub fn stash_meta(req: &Headers) -> (r: Result<(String, MetaPayload), BareError>)
    requires
        req.wf(),
    ensures
        match r {
            Ok(entry) => {
                &&& entry.0@.len() == 32
                &&& spec_new_meta(req@) matches Ok(expected)
                &&& expected.0 == entry.1.remote@
                &&& entry.1.send_headers.as_map() =~= map_of_pairs(expected.1)
                &&& entry.1.send_headers.wf()
                &&& entry.1.forward_headers.wf()
                &&& entry.1.forward_headers.as_map() =~= forward_overlay(req@, false, true)
            },
            Err(e) => spec_new_meta(req@) == Err::<
                (Seq<char>, Seq<(Seq<char>, Seq<char>)>),
                BareError,
            >(e),
        },
{
    let now = now_millis();
    new_meta(req, now)
}

} // verus!
