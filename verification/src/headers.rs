//! A header collection modeled as ordered (name, value) string pairs with
//! unique names, the way the gateway reads and writes HTTP headers. Names are
//! compared exactly; callers hand them in already lowercased, as the HTTP
//! layer normalizes them.

use vstd::prelude::*;
use crate::strutil::str_eq;

verus! {

pub type HeaderPairs = Seq<(Seq<char>, Seq<char>)>;

/// No two pairs share a name.
pub open spec fn names_unique<V>(s: Seq<(Seq<char>, V)>) -> bool {
    forall|i: int, j: int| 0 <= i < j < s.len() ==> (#[trigger] s[i]).0 != (#[trigger] s[j]).0
}

/// Some pair carries this name.
pub open spec fn has_name<V>(s: Seq<(Seq<char>, V)>, n: Seq<char>) -> bool {
    exists|i: int| 0 <= i < s.len() && (#[trigger] s[i]).0 == n
}

/// The value under a name (meaningful when `has_name` holds and names are
/// unique).
pub open spec fn value_in<V>(s: Seq<(Seq<char>, V)>, n: Seq<char>) -> V {
    s[choose|i: int| 0 <= i < s.len() && (#[trigger] s[i]).0 == n].1
}

/// The pairs as a finite map from name to value.
pub open spec fn map_of<V>(s: Seq<(Seq<char>, V)>) -> Map<Seq<char>, V> {
    Map::new(|n: Seq<char>| has_name(s, n), |n: Seq<char>| value_in(s, n))
}

pub proof fn lemma_value_in_unique<V>(s: Seq<(Seq<char>, V)>, n: Seq<char>, i: int)
    requires
        names_unique(s),
        0 <= i < s.len(),
        s[i].0 == n,
    ensures
        has_name(s, n),
        value_in(s, n) == s[i].1,
{
    let j = choose|j: int| 0 <= j < s.len() && (#[trigger] s[j]).0 == n;
    assert(s[i].0 == n);
    if i != j {
        if i < j {
            assert(s[i].0 != s[j].0);
        } else {
            assert(s[j].0 != s[i].0);
        }
    }
}

/// A header collection: ordered pairs, unique names.
#[derive(Debug)]
pub struct Headers {
    v: Vec<(String, String)>,
}

impl View for Headers {
    type V = HeaderPairs;

    closed spec fn view(&self) -> HeaderPairs {
        self.v.deep_view()
    }
}

impl Headers {
    pub open spec fn wf(&self) -> bool {
        names_unique(self@)
    }

    pub open spec fn contains_name(&self, n: Seq<char>) -> bool {
        has_name(self@, n)
    }

    pub open spec fn value_of(&self, n: Seq<char>) -> Seq<char> {
        value_in(self@, n)
    }

    /// The collection seen as a map from name to value.
    pub open spec fn as_map(&self) -> Map<Seq<char>, Seq<char>> {
        map_of(self@)
    }

    pub fn new() -> (r: Headers)
        ensures
            r@ =~= Seq::<(Seq<char>, Seq<char>)>::empty(),
            r.wf(),
    {
        let r = Headers { v: Vec::new() };
        proof {
            assert(r@ =~= Seq::<(Seq<char>, Seq<char>)>::empty());
        }
        r
    }

    pub fn len(&self) -> (r: usize)
        ensures
            r == self@.len(),
    {
        self.v.len()
    }

    /// The name of the pair at an index.
    pub fn name_at(&self, i: usize) -> (r: &String)
        requires
            i < self@.len(),
        ensures
            r@ == self@[i as int].0,
    {
        &self.v[i].0
    }

    /// The value of the pair at an index.
    pub fn value_at(&self, i: usize) -> (r: &String)
        requires
            i < self@.len(),
        ensures
            r@ == self@[i as int].1,
    {
        &self.v[i].1
    }

    /// Index of the pair carrying `name`, if any.
    fn find(&self, name: &str) -> (r: Option<usize>)
        ensures
            match r {
                Some(i) => i < self@.len() && self@[i as int].0 == name@,
                None => !self.contains_name(name@),
            },
    {
        let n = self.v.len();
        let mut i: usize = 0;
        while i < n
            invariant
                0 <= i <= n,
                n == self@.len(),
                forall|j: int| 0 <= j < i ==> (#[trigger] self@[j]).0 != name@,
            decreases n - i,
        {
            if str_eq(self.v[i].0.as_str(), name) {
                return Some(i);
            }
            i = i + 1;
        }
        None
    }

    pub fn contains(&self, name: &str) -> (r: bool)
        ensures
            r == self.contains_name(name@),
    {
        match self.find(name) {
            Some(_) => true,
            None => false,
        }
    }

    /// The value stored under `name`.
    pub fn get(&self, name: &str) -> (r: Option<&String>)
        requires
            self.wf(),
        ensures
            match r {
                Some(v) => self.contains_name(name@) && v@ == self.value_of(name@),
                None => !self.contains_name(name@),
            },
    {
        match self.find(name) {
            Some(i) => {
                proof {
                    lemma_value_in_unique(self@, name@, i as int);
                }
                Some(&self.v[i].1)
            },
            None => None,
        }
    }

    /// Inserts a pair, replacing any existing pair under the same name.
    pub fn insert(&mut self, name: String, value: String)
        requires
            old(self).wf(),
        ensures
            final(self).wf(),
            final(self).as_map() =~= old(self).as_map().insert(name@, value@),
            final(self)@.len() <= old(self)@.len() + 1,
    {
        let ghost s0 = self@;
        match self.find(name.as_str()) {
            Some(i) => {
                self.v.remove(i);
                proof {
                    assert(self@ =~= s0.remove(i as int));
                    lemma_names_unique_remove(s0, i as int);
                    lemma_has_after_remove(s0, i as int, name@);
                }
            },
            None => {},
        }
        let ghost s1 = self@;
        proof {
            assert(!has_name(s1, name@));
        }
        self.v.push((name, value));
        proof {
            assert(self@ =~= s1.push((name@, value@)));
            lemma_insert_pair(s0, s1, self@, name@, value@);
        }
    }

    /// Removes the pair under `name`, if present.
    pub fn remove(&mut self, name: &str)
        requires
            old(self).wf(),
        ensures
            final(self).wf(),
            final(self).as_map() =~= old(self).as_map().remove(name@),
            final(self)@.len() <= old(self)@.len(),
    {
        let ghost s0 = self@;
        match self.find(name) {
            Some(i) => {
                self.v.remove(i);
                proof {
                    assert(self@ =~= s0.remove(i as int));
                    lemma_names_unique_remove(s0, i as int);
                    lemma_has_after_remove(s0, i as int, name@);
                    lemma_removed_map(s0, self@, i as int, name@);
                }
            },
            None => {
                proof {
                    assert(self.as_map() =~= map_of(s0).remove(name@));
                }
            },
        }
    }

    /// An independent copy.
    pub fn duplicate(&self) -> (r: Headers)
        ensures
            r@ =~= self@,
    {
        let n = self.v.len();
        let mut v: Vec<(String, String)> = Vec::new();
        let mut i: usize = 0;
        while i < n
            invariant
                0 <= i <= n,
                n == self.v@.len(),
                v.deep_view() =~= self@.take(i as int),
            decreases n - i,
        {
            let name = self.v[i].0.clone();
            let value = self.v[i].1.clone();
            let ghost dv0 = v.deep_view();
            let ghost p = (name@, value@);
            v.push((name, value));
            proof {
                assert(v.deep_view() =~= dv0.push(p));
                assert(p == self@[i as int]);
                assert(dv0.push(p) =~= self@.take(i + 1));
            }
            i = i + 1;
        }
        proof {
            assert(self@.take(n as int) =~= self@);
        }
        Headers { v }
    }

    /// Read access to the pairs, for conversion at the transport edge.
    pub fn pairs(&self) -> (r: &Vec<(String, String)>)
        ensures
            r.deep_view() == self@,
    {
        &self.v
    }
}

pub proof fn lemma_names_unique_remove<V>(s: Seq<(Seq<char>, V)>, i: int)
    requires
        names_unique(s),
        0 <= i < s.len(),
    ensures
        names_unique(s.remove(i)),
{
    let t = s.remove(i);
    assert forall|a: int, b: int| 0 <= a < b < t.len() implies (#[trigger] t[a]).0 != (
    #[trigger] t[b]).0 by {
        let a0 = if a < i { a } else { a + 1 };
        let b0 = if b < i { b } else { b + 1 };
        assert(t[a] == s[a0] && t[b] == s[b0]);
    }
}

/// After removing the (unique) pair named `n`, no pair carries `n`, and every
/// other name keeps its value.
pub proof fn lemma_has_after_remove<V>(s: Seq<(Seq<char>, V)>, i: int, n: Seq<char>)
    requires
        names_unique(s),
        0 <= i < s.len(),
        s[i].0 == n,
    ensures
        !has_name(s.remove(i), n),
        forall|m: Seq<char>| m != n ==> has_name(s.remove(i), m) == has_name(s, m),
        forall|m: Seq<char>|
            m != n && has_name(s, m) ==> value_in(s.remove(i), m) == value_in(s, m),
{
    let t = s.remove(i);
    assert forall|j: int| 0 <= j < t.len() implies (#[trigger] t[j]).0 != n by {
        let j0 = if j < i { j } else { j + 1 };
        assert(t[j] == s[j0]);
        if j0 != i {
            if j0 < i {
                assert(s[j0].0 != s[i].0);
            } else {
                assert(s[i].0 != s[j0].0);
            }
        }
    }
    assert forall|m: Seq<char>| m != n implies has_name(t, m) == has_name(s, m) by {
        if has_name(s, m) {
            let j = choose|j: int| 0 <= j < s.len() && (#[trigger] s[j]).0 == m;
            let j1 = if j < i { j } else { j - 1 };
            assert(t[j1] == s[j]);
            assert(has_name(t, m));
        }
        if has_name(t, m) {
            let j = choose|j: int| 0 <= j < t.len() && (#[trigger] t[j]).0 == m;
            let j0 = if j < i { j } else { j + 1 };
            assert(s[j0] == t[j]);
            assert(has_name(s, m));
        }
    }
    assert forall|m: Seq<char>| m != n && has_name(s, m) implies value_in(t, m) == value_in(
        s,
        m,
    ) by {
        lemma_names_unique_remove(s, i);
        let j = choose|j: int| 0 <= j < s.len() && (#[trigger] s[j]).0 == m;
        lemma_value_in_unique(s, m, j);
        let j1 = if j < i { j } else { j - 1 };
        assert(t[j1] == s[j]);
        lemma_value_in_unique(t, m, j1);
    }
}

/// Pushing a fresh name onto pairs that lack it yields the map insert.
pub proof fn lemma_insert_pair<V>(
    s0: Seq<(Seq<char>, V)>,
    s1: Seq<(Seq<char>, V)>,
    s2: Seq<(Seq<char>, V)>,
    n: Seq<char>,
    val: V,
)
    requires
        names_unique(s1),
        !has_name(s1, n),
        s2 == s1.push((n, val)),
        forall|m: Seq<char>| m != n ==> has_name(s1, m) == has_name(s0, m),
        forall|m: Seq<char>| m != n && has_name(s0, m) ==> value_in(s1, m) == value_in(s0, m),
    ensures
        names_unique(s2),
        map_of(s2) =~= map_of(s0).insert(n, val),
{
    assert forall|a: int, b: int| 0 <= a < b < s2.len() implies (#[trigger] s2[a]).0 != (
    #[trigger] s2[b]).0 by {
        if b == s2.len() - 1 {
            assert(s2[a] == s1[a]);
            if s1[a].0 == n {
                assert(has_name(s1, n));
            }
        } else {
            assert(s2[a] == s1[a] && s2[b] == s1[b]);
        }
    }
    assert(s2[s2.len() - 1] == (n, val));
    lemma_value_in_unique(s2, n, s2.len() - 1);
    assert forall|m: Seq<char>| m != n implies has_name(s2, m) == has_name(s1, m) by {
        if has_name(s1, m) {
            let j = choose|j: int| 0 <= j < s1.len() && (#[trigger] s1[j]).0 == m;
            assert(s2[j] == s1[j]);
            assert(has_name(s2, m));
        }
        if has_name(s2, m) {
            let j = choose|j: int| 0 <= j < s2.len() && (#[trigger] s2[j]).0 == m;
            assert(j < s1.len());
            assert(s1[j] == s2[j]);
            assert(has_name(s1, m));
        }
    }
    assert forall|m: Seq<char>| m != n && has_name(s1, m) implies value_in(s2, m) == value_in(
        s1,
        m,
    ) by {
        let j = choose|j: int| 0 <= j < s1.len() && (#[trigger] s1[j]).0 == m;
        lemma_value_in_unique(s1, m, j);
        assert(s2[j] == s1[j]);
        lemma_value_in_unique(s2, m, j);
    }
}

/// Removing the pair at the index carrying `n` yields the map remove.
pub proof fn lemma_removed_map<V>(s0: Seq<(Seq<char>, V)>, s1: Seq<(Seq<char>, V)>, i: int, n: Seq<char>)
    requires
        names_unique(s0),
        0 <= i < s0.len(),
        s0[i].0 == n,
        s1 == s0.remove(i),
    ensures
        map_of(s1) =~= map_of(s0).remove(n),
{
    lemma_has_after_remove(s0, i, n);
}

} // verus!
