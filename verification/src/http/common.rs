//! Bodies and header maps.

use vstd::prelude::*;

use vstd::string::StringSliceAdditionalSpecFns;

use crate::text::str_eq;

verus! {

/// An owned byte sequence; never mutated after construction.
#[derive(Debug)]
pub struct Body {
    pub inner: Vec<u8>,
}

impl Body {
    pub fn new(inner: Vec<u8>) -> (r: Self)
        ensures
            r.inner@ == inner@,
    {
        Self { inner }
    }

    /// The empty body.
    pub fn empty() -> (r: Self)
        ensures
            r.inner@ == Seq::<u8>::empty(),
    {
        let inner: Vec<u8> = Vec::new();
        proof {
            assert(inner@ =~= Seq::<u8>::empty());
        }
        Self { inner }
    }

    /// A body holding the UTF-8 bytes of a text.
    pub fn from_text(value: &str) -> (r: Self)
        ensures
            r.inner@ == value.spec_bytes(),
    {
        Self { inner: value.as_bytes_vec() }
    }

    pub fn get_bytes(&self) -> (r: &[u8])
        ensures
            r@ == self.inner@,
    {
        self.inner.as_slice()
    }
}

impl Default for Body {
    /// The default body is empty.
    fn default() -> (r: Self)
        ensures
            r.inner@ == Seq::<u8>::empty(),
    {
        Body::empty()
    }
}

/// The keys of the entries are pairwise distinct.
pub open spec fn distinct_keys(s: Seq<(Seq<char>, Seq<char>)>) -> bool {
    forall|i: int, j: int| 0 <= i < j < s.len() ==> (#[trigger] s[i]).0 != (#[trigger] s[j]).0
}

/// The value of the entry of `s` whose key is `k`, if any.
pub open spec fn spec_get_pair(s: Seq<(Seq<char>, Seq<char>)>, k: Seq<char>) -> Option<Seq<char>>
    decreases s.len(),
{
    if s.len() == 0 {
        None
    } else if s[0].0 == k {
        Some(s[0].1)
    } else {
        spec_get_pair(s.skip(1), k)
    }
}

/// `s` with the entry for `k` set to `v`: the first entry whose key is `k`
/// is replaced in place, or a new entry is appended when none exists.
pub open spec fn spec_insert_pair(
    s: Seq<(Seq<char>, Seq<char>)>,
    k: Seq<char>,
    v: Seq<char>,
) -> Seq<(Seq<char>, Seq<char>)>
    decreases s.len(),
{
    if s.len() == 0 {
        seq![(k, v)]
    } else if s[0].0 == k {
        seq![(k, v)] + s.skip(1)
    } else {
        seq![s[0]] + spec_insert_pair(s.skip(1), k, v)
    }
}

/// A mapping from name to a single value; keys are unique and compared
/// case-sensitively; an entry keeps its position when its value is replaced.
#[derive(Debug)]
pub struct Headers {
    pub entries: Vec<(String, String)>,
}

impl View for Headers {
    type V = Seq<(Seq<char>, Seq<char>)>;

    open spec fn view(&self) -> Seq<(Seq<char>, Seq<char>)> {
        self.entries.deep_view()
    }
}

impl Headers {
    /// Well-formed: no two entries share a key.
    pub open spec fn wf(self) -> bool {
        distinct_keys(self@)
    }

    pub fn new() -> (r: Self)
        ensures
            r@ == Seq::<(Seq<char>, Seq<char>)>::empty(),
            r.wf(),
    {
        let entries: Vec<(String, String)> = Vec::new();
        proof {
            assert(entries.deep_view() =~= Seq::<(Seq<char>, Seq<char>)>::empty());
        }
        Self { entries }
    }

    pub fn len(&self) -> (r: usize)
        ensures
            r == self@.len(),
    {
        self.entries.len()
    }

    /// Sets `key` to `value`: the later occurrence wins, and the entry keeps
    /// its place when the key is already present.
    pub fn insert(&mut self, key: String, value: String)
        requires
            old(self).wf(),
        ensures
            final(self).wf(),
            final(self)@ == spec_insert_pair(old(self)@, key@, value@),
    {
        let n = self.entries.len();
        let mut i: usize = 0;
        while i < n
            invariant
                self@ == old(self)@,
                distinct_keys(self@),
                n == self@.len(),
                i <= n,
                forall|j: int| 0 <= j < i ==> (#[trigger] self@[j]).0 != key@,
            decreases n - i,
        {
            if str_eq(self.entries[i].0.as_str(), key.as_str()) {
                let ghost s0 = self@;
                self.entries[i] = (key, value);
                proof {
                    assert(self@ =~= s0.update(i as int, (s0[i as int].0, value@)));
                    lemma_insert_pair_found(s0, s0[i as int].0, value@, i as int);
                    assert(self@ =~~= spec_insert_pair(s0, s0[i as int].0, value@));
                    assert forall|a: int, b: int| 0 <= a < b < self@.len() implies (#[trigger] self@[a]).0 != (#[trigger] self@[b]).0 by {
                        assert((s0[a]).0 != (s0[b]).0);
                    }
                    assert(distinct_keys(self@));
                }
                return;
            }
            i += 1;
        }
        let ghost s0 = self@;
        self.entries.push((key, value));
        proof {
            assert(self@ =~= s0.push((key@, value@)));
            lemma_insert_pair_missing(s0, key@, value@);
            assert(self@ =~~= spec_insert_pair(s0, key@, value@));
            assert forall|a: int, b: int| 0 <= a < b < self@.len() implies (#[trigger] self@[a]).0 != (#[trigger] self@[b]).0 by {
                if b < s0.len() {
                    assert((s0[a]).0 != (s0[b]).0);
                } else {
                    assert((s0[a]).0 != key@);
                }
            }
            assert(distinct_keys(self@));
        }
    }

    /// Looks a key up: the value stored for it, if any.
    pub fn get(&self, key: &str) -> (r: Option<&String>)
        ensures
            match spec_get_pair(self@, key@) {
                Some(v) => r is Some && r.unwrap()@ == v,
                None => r is None,
            },
    {
        let n = self.entries.len();
        let mut i: usize = 0;
        while i < n
            invariant
                n == self@.len(),
                i <= n,
                forall|j: int| 0 <= j < i ==> (#[trigger] self@[j]).0 != key@,
            decreases n - i,
        {
            if str_eq(self.entries[i].0.as_str(), key) {
                proof {
                    lemma_get_pair_found(self@, key@, i as int);
                }
                return Some(&self.entries[i].1);
            }
            i += 1;
        }
        proof {
            lemma_get_pair_missing(self@, key@);
        }
        None
    }

    /// Whether a key is present.
    pub fn contains_key(&self, key: &str) -> (r: bool)
        ensures
            r == (spec_get_pair(self@, key@) is Some),
    {
        self.get(key).is_some()
    }
}

impl Default for Headers {
    /// The default header map is empty.
    fn default() -> (r: Self)
        ensures
            r@ == Seq::<(Seq<char>, Seq<char>)>::empty(),
            r.wf(),
    {
        Headers::new()
    }
}

proof fn lemma_get_pair_found(s: Seq<(Seq<char>, Seq<char>)>, k: Seq<char>, i: int)
    requires
        0 <= i < s.len(),
        s[i].0 == k,
        forall|j: int| 0 <= j < i ==> (#[trigger] s[j]).0 != k,
    ensures
        spec_get_pair(s, k) == Some(s[i].1),
    decreases i,
{
    if i > 0 {
        lemma_get_pair_found(s.skip(1), k, i - 1);
    }
}

proof fn lemma_get_pair_missing(s: Seq<(Seq<char>, Seq<char>)>, k: Seq<char>)
    requires
        forall|j: int| 0 <= j < s.len() ==> (#[trigger] s[j]).0 != k,
    ensures
        spec_get_pair(s, k) is None,
    decreases s.len(),
{
    if s.len() > 0 {
        lemma_get_pair_missing(s.skip(1), k);
    }
}

proof fn lemma_insert_pair_found(s: Seq<(Seq<char>, Seq<char>)>, k: Seq<char>, v: Seq<char>, i: int)
    requires
        0 <= i < s.len(),
        s[i].0 == k,
        forall|j: int| 0 <= j < i ==> (#[trigger] s[j]).0 != k,
    ensures
        spec_insert_pair(s, k, v) =~~= s.update(i, (k, v)),
    decreases i,
{
    if i == 0 {
        assert(seq![(k, v)] + s.skip(1) =~~= s.update(0, (k, v)));
    } else {
        lemma_insert_pair_found(s.skip(1), k, v, i - 1);
        assert(seq![s[0]] + s.skip(1).update(i - 1, (k, v)) =~~= s.update(i, (k, v)));
    }
}

proof fn lemma_insert_pair_missing(s: Seq<(Seq<char>, Seq<char>)>, k: Seq<char>, v: Seq<char>)
    requires
        forall|j: int| 0 <= j < s.len() ==> (#[trigger] s[j]).0 != k,
    ensures
        spec_insert_pair(s, k, v) =~~= s.push((k, v)),
    decreases s.len(),
{
    if s.len() > 0 {
        lemma_insert_pair_missing(s.skip(1), k, v);
        assert(seq![s[0]] + s.skip(1).push((k, v)) =~~= s.push((k, v)));
    }
}

/// Setting a key and then reading it yields the new value.
pub proof fn lemma_get_after_insert_same(s: Seq<(Seq<char>, Seq<char>)>, k: Seq<char>, v: Seq<char>)
    ensures
        spec_get_pair(spec_insert_pair(s, k, v), k) == Some(v),
    decreases s.len(),
{
    if s.len() == 0 {
    } else if s[0].0 == k {
        let t = seq![(k, v)] + s.skip(1);
        assert(t[0] == (k, v));
    } else {
        lemma_get_after_insert_same(s.skip(1), k, v);
        let t = seq![s[0]] + spec_insert_pair(s.skip(1), k, v);
        assert(t[0] == s[0]);
        assert(t.skip(1) =~~= spec_insert_pair(s.skip(1), k, v));
    }
}

/// Setting one key leaves every other key's value unchanged.
pub proof fn lemma_get_after_insert_other(
    s: Seq<(Seq<char>, Seq<char>)>,
    k: Seq<char>,
    v: Seq<char>,
    k2: Seq<char>,
)
    requires
        k2 != k,
    ensures
        spec_get_pair(spec_insert_pair(s, k, v), k2) == spec_get_pair(s, k2),
    decreases s.len(),
{
    if s.len() == 0 {
        let t = seq![(k, v)];
        assert(spec_insert_pair(s, k, v) == t);
        assert(t[0] == (k, v));
        assert(t.skip(1).len() == 0);
        assert(spec_get_pair(t, k2) == spec_get_pair(t.skip(1), k2));
        assert(spec_get_pair(t, k2) is None);
    } else if s[0].0 == k {
        let t = seq![(k, v)] + s.skip(1);
        assert(spec_insert_pair(s, k, v) == t);
        assert(t[0] == (k, v));
        assert(t.skip(1) =~~= s.skip(1));
        assert(spec_get_pair(t, k2) == spec_get_pair(s.skip(1), k2));
        assert(spec_get_pair(s, k2) == spec_get_pair(s.skip(1), k2));
    } else {
        lemma_get_after_insert_other(s.skip(1), k, v, k2);
        let t = seq![s[0]] + spec_insert_pair(s.skip(1), k, v);
        assert(spec_insert_pair(s, k, v) == t);
        assert(t[0] == s[0]);
        assert(t.skip(1) =~~= spec_insert_pair(s.skip(1), k, v));
        if s[0].0 == k2 {
            assert(spec_get_pair(t, k2) == Some(s[0].1));
            assert(spec_get_pair(s, k2) == Some(s[0].1));
        } else {
            assert(spec_get_pair(t, k2) == spec_get_pair(spec_insert_pair(s.skip(1), k, v), k2));
            assert(spec_get_pair(s, k2) == spec_get_pair(s.skip(1), k2));
        }
    }
}

} // verus!
