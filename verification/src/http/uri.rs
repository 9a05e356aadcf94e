//! The URI model: a request target split into path and query, lazily,
//! keeping only the raw text and the position of the query separator.

use vstd::prelude::*;

use crate::text::{lemma_span_is, not_sep, span};

verus! {

/// The text of `raw` up to (and excluding) its first `'#'`: the fragment is
/// discarded at construction.
pub open spec fn uri_kept(raw: Seq<char>) -> Seq<char> {
    raw.take(span(raw, 0, not_sep('#')))
}

/// The path a request target names: the prefix of the kept text before its
/// first `'?'`, or all of it when no `'?'` is present.
pub open spec fn uri_path_of(raw: Seq<char>) -> Seq<char> {
    let k = uri_kept(raw);
    k.take(span(k, 0, not_sep('?')))
}

/// The query of a request target: the suffix of the kept text after its
/// first `'?'`, or empty when no `'?'` is present.
pub open spec fn uri_query_of(raw: Seq<char>) -> Seq<char> {
    let k = uri_kept(raw);
    let q = span(k, 0, not_sep('?'));
    if q < k.len() {
        k.skip(q + 1)
    } else {
        Seq::empty()
    }
}

/// A request target, split into path and query. The stored text never
/// contains a fragment; the path part never contains `'?'`.
#[derive(Debug, Clone)]
pub struct Uri {
    pub string: String,
    pub query: Option<usize>,
}

impl Uri {
    /// Well-formed: the query position, when present, points at the first
    /// `'?'` of the text; when absent, the text has no `'?'` at all.
    pub open spec fn wf(self) -> bool {
        match self.query {
            Some(i) => i < self.string@.len() && self.string@[i as int] == '?' && (forall|j: int|
                0 <= j < i ==> self.string@[j] != '?'),
            None => forall|j: int| 0 <= j < self.string@.len() ==> self.string@[j] != '?',
        }
    }

    /// The path part.
    pub open spec fn spec_path(self) -> Seq<char> {
        match self.query {
            Some(i) => self.string@.take(i as int),
            None => self.string@,
        }
    }

    /// The query part.
    pub open spec fn spec_query(self) -> Seq<char> {
        match self.query {
            Some(i) => self.string@.skip(i as int + 1),
            None => Seq::empty(),
        }
    }

    /// Joins a path (holding no `'?'`) and a query back into one target.
    pub fn from_parts(path: &str, query: &str) -> (r: Self)
        requires
            forall|j: int| 0 <= j < path@.len() ==> path@[j] != '?',
        ensures
            r.wf(),
            r.spec_path() == path@,
            r.spec_query() == query@,
    {
        let string = path.to_owned();
        if query.is_empty() {
            let r = Self { string, query: None };
            proof {
                assert(r.spec_query() =~= query@);
            }
            r
        } else {
            let mut string = string;
            string.append("?");
            string.append(query);
            let r = Self { string, query: Some(path.unicode_len()) };
            proof {
                reveal_strlit("?");
                assert("?"@ =~= seq!['?']);
                assert(r.string@ == path@ + seq!['?'] + query@);
                assert(r.string@[path@.len() as int] == '?');
                assert(r.spec_path() =~= path@);
                assert(r.spec_query() =~= query@);
            }
            r
        }
    }

    /// Scans a raw request target once: records the position of the first
    /// `'?'` and discards everything from the first `'#'` on.
    pub fn from_str(src: &str) -> (r: Self)
        ensures
            r.wf(),
            r.string@ == uri_kept(src@),
            r.spec_path() == uri_path_of(src@),
            r.spec_query() == uri_query_of(src@),
    {
        let n = src.unicode_len();
        let mut h: usize = 0;
        while h < n
            invariant
                n == src@.len(),
                h <= n,
                forall|j: int| 0 <= j < h ==> src@[j] != '#',
            ensures
                h <= n,
                forall|j: int| 0 <= j < h ==> src@[j] != '#',
                h == n || src@[h as int] == '#',
            decreases n - h,
        {
            if src.get_char(h) == '#' {
                break;
            }
            h += 1;
        }
        proof {
            lemma_span_is(src@, 0, h as int, not_sep('#'));
        }
        let kept = src.substring_char(0, h);
        let mut q: usize = 0;
        while q < h
            invariant
                n == src@.len(),
                h <= n,
                q <= h,
                kept@ == src@.subrange(0, h as int),
                forall|j: int| 0 <= j < q ==> kept@[j] != '?',
            ensures
                q <= h,
                kept@ == src@.subrange(0, h as int),
                forall|j: int| 0 <= j < q ==> kept@[j] != '?',
                q == h || kept@[q as int] == '?',
            decreases h - q,
        {
            if kept.get_char(q) == '?' {
                break;
            }
            q += 1;
        }
        proof {
            lemma_span_is(kept@, 0, q as int, not_sep('?'));
            assert(uri_kept(src@) =~= kept@);
        }
        let string = kept.to_owned();
        let r = if q < h {
            Self { string, query: Some(q) }
        } else {
            Self { string, query: None }
        };
        proof {
            if q < h {
                assert(r.spec_path() =~= uri_path_of(src@));
                assert(r.spec_query() =~= uri_query_of(src@));
            } else {
                assert(r.spec_path() =~= uri_path_of(src@));
                assert(r.spec_query() =~= uri_query_of(src@));
            }
        }
        r
    }

    /// The path part: never contains `'?'`.
    pub fn path(&self) -> (r: &str)
        requires
            self.wf(),
        ensures
            r@ == self.spec_path(),
    {
        match self.query {
            Some(i) => self.string.as_str().substring_char(0, i),
            None => self.string.as_str(),
        }
    }

    /// The query part: empty when the target had no `'?'`.
    pub fn query(&self) -> (r: &str)
        requires
            self.wf(),
        ensures
            r@ == self.spec_query(),
    {
        match self.query {
            Some(i) => {
                let len = self.string.as_str().unicode_len();
                self.string.as_str().substring_char(i + 1, len)
            },
            None => {
                let r = "";
                proof {
                    reveal_strlit("");
                    assert(r@ =~= Seq::<char>::empty());
                }
                r
            },
        }
    }
}

/// Parsing a target of the shape `<path>?<query>` (no `'?'` in the path, no
/// `'#'` anywhere) yields exactly that path and that query; parsing a target
/// with neither `'?'` nor `'#'` yields the whole text as path and an empty
/// query.
pub proof fn lemma_uri_round_trip(raw: Seq<char>, p: Seq<char>, q: Seq<char>)
    requires
        raw == p + seq!['?'] + q,
        forall|j: int| 0 <= j < p.len() ==> p[j] != '?',
        forall|j: int| 0 <= j < raw.len() ==> raw[j] != '#',
    ensures
        uri_path_of(raw) == p,
        uri_query_of(raw) == q,
{
    lemma_span_is(raw, 0, raw.len() as int, not_sep('#'));
    assert(uri_kept(raw) =~= raw);
    assert(raw[p.len() as int] == '?');
    lemma_span_is(raw, 0, p.len() as int, not_sep('?'));
    assert(uri_path_of(raw) =~= p);
    assert(uri_query_of(raw) =~= q);
}

/// A target without `'?'` or `'#'` is all path and has an empty query.
pub proof fn lemma_uri_no_query(raw: Seq<char>)
    requires
        forall|j: int| 0 <= j < raw.len() ==> raw[j] != '?',
        forall|j: int| 0 <= j < raw.len() ==> raw[j] != '#',
    ensures
        uri_path_of(raw) == raw,
        uri_query_of(raw) == Seq::<char>::empty(),
{
    lemma_span_is(raw, 0, raw.len() as int, not_sep('#'));
    assert(uri_kept(raw) =~= raw);
    lemma_span_is(raw, 0, raw.len() as int, not_sep('?'));
    assert(uri_path_of(raw) =~= raw);
}

} // verus!
