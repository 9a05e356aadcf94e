//! The wire parser: consumes a buffer of request bytes and produces a
//! request value or a structured parse failure. The parser classifies bytes
//! with predicates, never backtracks, and fails immediately with the kind
//! belonging to the part being read.

use vstd::prelude::*;

use crate::error::{Error, Kind, Parse};
use crate::http::{
    spec_get_pair, spec_insert_pair, spec_method_of, Body, Headers, Request, RequestMethod, Uri,
};
use crate::text::{all_digits, chars_of, dec_value, parse_dec, string_from_ascii};

verus! {

/// An upper-case ASCII letter, as a method is written.
pub open spec fn is_upper_byte(b: u8) -> bool {
    65 <= b <= 90
}

/// A visible ASCII character (no space, no control bytes).
pub open spec fn is_graphic_byte(b: u8) -> bool {
    33 <= b <= 126
}

/// A byte of the path part of a request target: graphic, not `?`, not `#`.
pub open spec fn is_path_byte(b: u8) -> bool {
    is_graphic_byte(b) && b != 63 && b != 35
}

/// A byte of the query part of a request target: graphic, not `#`.
pub open spec fn is_query_byte(b: u8) -> bool {
    is_graphic_byte(b) && b != 35
}

/// A byte of a header name: alphanumeric, `-` or `_`.
pub open spec fn is_header_name_byte(b: u8) -> bool {
    (48 <= b <= 57) || (65 <= b <= 90) || (97 <= b <= 122) || b == 45 || b == 95
}

/// A byte of a header value: graphic or space.
pub open spec fn is_header_value_byte(b: u8) -> bool {
    is_graphic_byte(b) || b == 32
}

pub open spec fn upper_pred() -> spec_fn(u8) -> bool {
    |b: u8| is_upper_byte(b)
}

pub open spec fn graphic_pred() -> spec_fn(u8) -> bool {
    |b: u8| is_graphic_byte(b)
}

pub open spec fn path_pred() -> spec_fn(u8) -> bool {
    |b: u8| is_path_byte(b)
}

pub open spec fn query_pred() -> spec_fn(u8) -> bool {
    |b: u8| is_query_byte(b)
}

pub open spec fn header_name_pred() -> spec_fn(u8) -> bool {
    |b: u8| is_header_name_byte(b)
}

pub open spec fn header_value_pred() -> spec_fn(u8) -> bool {
    |b: u8| is_header_value_byte(b)
}

fn upper_byte(b: u8) -> (r: bool)
    ensures
        r == is_upper_byte(b),
{
    65 <= b && b <= 90
}

fn graphic_byte(b: u8) -> (r: bool)
    ensures
        r == is_graphic_byte(b),
{
    33 <= b && b <= 126
}

fn path_byte(b: u8) -> (r: bool)
    ensures
        r == is_path_byte(b),
{
    33 <= b && b <= 126 && b != 63 && b != 35
}

fn query_byte(b: u8) -> (r: bool)
    ensures
        r == is_query_byte(b),
{
    33 <= b && b <= 126 && b != 35
}

fn header_name_byte(b: u8) -> (r: bool)
    ensures
        r == is_header_name_byte(b),
{
    (48 <= b && b <= 57) || (65 <= b && b <= 90) || (97 <= b && b <= 122) || b == 45 || b == 95
}

fn header_value_byte(b: u8) -> (r: bool)
    ensures
        r == is_header_value_byte(b),
{
    (33 <= b && b <= 126) || b == 32
}

/// The index of the first byte at or after `from` that fails `p`, or the
/// length of `s`.
pub open spec fn twl(s: Seq<u8>, from: int, p: spec_fn(u8) -> bool) -> int
    decreases s.len() - from when 0 <= from <= s.len()
{
    if from >= s.len() || !p(s[from]) {
        from
    } else {
        twl(s, from + 1, p)
    }
}

pub proof fn lemma_twl_bounds(s: Seq<u8>, from: int, p: spec_fn(u8) -> bool)
    requires
        0 <= from <= s.len(),
    ensures
        from <= twl(s, from, p) <= s.len(),
    decreases s.len() - from,
{
    if from < s.len() && p(s[from]) {
        lemma_twl_bounds(s, from + 1, p);
    }
}

pub proof fn lemma_twl_is(s: Seq<u8>, from: int, to: int, p: spec_fn(u8) -> bool)
    requires
        0 <= from <= to <= s.len(),
        forall|j: int| from <= j < to ==> p(s[j]),
        to < s.len() ==> !p(s[to]),
    ensures
        twl(s, from, p) == to,
    decreases to - from,
{
    if from < to {
        lemma_twl_is(s, from + 1, to, p);
    }
}

/// Reads header lines starting at `from` until a blank line: the collected
/// entries (later occurrences of a key overwrite earlier ones) and the index
/// just after the blank line, or the failure. A line must hold a `:` after
/// its name and end in CRLF; one leading space of the value is dropped.
pub open spec fn spec_headers(
    s: Seq<u8>,
    from: int,
    acc: Seq<(Seq<char>, Seq<char>)>,
) -> Result<(Seq<(Seq<char>, Seq<char>)>, int), Parse>
    decreases s.len() - from when 0 <= from <= s.len() via spec_headers_dec
{
    if from + 2 <= s.len() && s[from] == 13 && s[from + 1] == 10 {
        Ok((acc, from + 2))
    } else {
        let ne = twl(s, from, header_name_pred());
        if ne >= s.len() || s[ne] != 58 {
            Err(Parse::Header)
        } else {
            let vs = if ne + 1 < s.len() && s[ne + 1] == 32 {
                ne + 2
            } else {
                ne + 1
            };
            let ve = twl(s, vs, header_value_pred());
            if ve + 1 >= s.len() || s[ve] != 13 || s[ve + 1] != 10 {
                Err(Parse::Header)
            } else {
                spec_headers(
                    s,
                    ve + 2,
                    spec_insert_pair(acc, chars_of(s.subrange(from, ne)), chars_of(s.subrange(vs, ve))),
                )
            }
        }
    }
}

#[via_fn]
proof fn spec_headers_dec(s: Seq<u8>, from: int, acc: Seq<(Seq<char>, Seq<char>)>) {
    lemma_twl_bounds(s, from, header_name_pred());
    let ne = twl(s, from, header_name_pred());
    if ne < s.len() && s[ne] == 58 {
        let vs = if ne + 1 < s.len() && s[ne + 1] == 32 {
            ne + 2
        } else {
            ne + 1
        };
        lemma_twl_bounds(s, vs, header_value_pred());
    }
}

/// A parsed request, in mathematical form.
pub struct SpecRequest {
    pub method: RequestMethod,
    pub path: Seq<char>,
    pub query: Seq<char>,
    pub headers: Seq<(Seq<char>, Seq<char>)>,
    pub body: Seq<u8>,
}

/// What parsing the bytes of `s` from `from` yields: the request-line fields
/// (method until the first space; path, query and a discarded fragment until
/// the second; version until CRLF), then header lines until a blank line,
/// then a body of exactly `Content-Length` bytes — absent that header, an
/// empty body. The method must be a known verb; a `Content-Length` that is
/// not a numeral fitting the rest of the buffer is a failure of its own.
pub open spec fn spec_parse(s: Seq<u8>, from: int) -> Result<SpecRequest, Parse> {
    let me = twl(s, from, upper_pred());
    if me >= s.len() || s[me] != 32 {
        Err(Parse::Method)
    } else {
        let ps = me + 1;
        let pe = twl(s, ps, path_pred());
        let qs = if pe < s.len() && s[pe] == 63 {
            pe + 1
        } else {
            pe
        };
        let qe = twl(s, qs, query_pred());
        let fe = twl(s, qe, graphic_pred());
        if fe >= s.len() || s[fe] != 32 {
            Err(Parse::Uri)
        } else {
            let vs = fe + 1;
            let ve = twl(s, vs, graphic_pred());
            if ve + 1 >= s.len() || s[ve] != 13 || s[ve + 1] != 10 {
                Err(Parse::Version)
            } else {
                match spec_headers(s, ve + 2, Seq::empty()) {
                    Err(p) => Err(p),
                    Ok((hs, b)) => match spec_method_of(chars_of(s.subrange(from, me))) {
                        None => Err(Parse::Method),
                        Some(m) => {
                            let path = chars_of(s.subrange(ps, pe));
                            let query = chars_of(s.subrange(qs, qe));
                            match spec_get_pair(hs, "Content-Length"@) {
                                None => Ok(
                                    SpecRequest {
                                        method: m,
                                        path,
                                        query,
                                        headers: hs,
                                        body: Seq::empty(),
                                    },
                                ),
                                Some(v) => {
                                    if all_digits(v) && dec_value(v) <= s.len() - b {
                                        Ok(
                                            SpecRequest {
                                                method: m,
                                                path,
                                                query,
                                                headers: hs,
                                                body: s.subrange(b, b + dec_value(v)),
                                            },
                                        )
                                    } else {
                                        Err(Parse::HeaderValue)
                                    }
                                },
                            }
                        },
                    },
                }
            }
        }
    }
}

/// A cursor over a buffer of request bytes.
pub struct Parser {
    pub input: Vec<u8>,
    pub pos: usize,
}

impl Parser {
    /// Well-formed: the cursor is within the buffer (one past the end
    /// included).
    pub open spec fn wf(self) -> bool {
        self.pos <= self.input@.len()
    }

    pub fn new(input: Vec<u8>) -> (r: Self)
        ensures
            r.input@ == input@,
            r.pos == 0,
            r.wf(),
    {
        Self { input, pos: 0 }
    }

    /// Reads the byte under the cursor and advances.
    pub fn consume(&mut self) -> (r: u8)
        requires
            old(self).pos < old(self).input@.len(),
        ensures
            final(self).input@ == old(self).input@,
            final(self).pos == old(self).pos + 1,
            r == old(self).input@[old(self).pos as int],
    {
        let byte = self.input[self.pos];
        proof {
            vstd::std_specs::vec::axiom_spec_len(&self.input);
        }
        self.pos += 1;
        byte
    }

    /// Reads the byte under the cursor without advancing.
    pub fn peek(&self) -> (r: u8)
        requires
            self.pos < self.input@.len(),
        ensures
            r == self.input@[self.pos as int],
    {
        self.input[self.pos]
    }

    /// Whether the cursor is past the last byte.
    pub fn eof(&self) -> (r: bool)
        ensures
            r == (self.pos >= self.input@.len()),
    {
        self.pos >= self.input.len()
    }

    /// Consumes bytes while `test` accepts them: the consumed prefix, with
    /// the cursor left on the first byte that `test` refused (or at the
    /// end).
    pub fn consume_while<F: Fn(u8) -> bool>(&mut self, test: F) -> (r: Vec<u8>)
        requires
            old(self).wf(),
            forall|b: u8| #[trigger] call_requires(test, (b,)),
        ensures
            final(self).wf(),
            final(self).input@ == old(self).input@,
            old(self).pos <= final(self).pos <= old(self).input@.len(),
            r@ == old(self).input@.subrange(old(self).pos as int, final(self).pos as int),
            forall|j: int| old(self).pos <= j < final(self).pos ==> call_ensures(
                test,
                (old(self).input@[j],),
                true,
            ),
            final(self).pos < old(self).input@.len() ==> call_ensures(
                test,
                (old(self).input@[final(self).pos as int],),
                false,
            ),
    {
        let mut vec: Vec<u8> = Vec::new();
        let ghost p0 = self.pos as int;
        loop
            invariant_except_break
                self.wf(),
                self.input@ == old(self).input@,
                p0 == old(self).pos,
                p0 <= self.pos <= self.input@.len(),
                vec@ == self.input@.subrange(p0, self.pos as int),
                forall|j: int| p0 <= j < self.pos ==> call_ensures(
                    test,
                    (self.input@[j],),
                    true,
                ),
                forall|b: u8| #[trigger] call_requires(test, (b,)),
            ensures
                self.wf(),
                self.input@ == old(self).input@,
                p0 == old(self).pos,
                p0 <= self.pos <= self.input@.len(),
                vec@ == self.input@.subrange(p0, self.pos as int),
                forall|j: int| p0 <= j < self.pos ==> call_ensures(
                    test,
                    (self.input@[j],),
                    true,
                ),
                self.pos < self.input@.len() ==> call_ensures(
                    test,
                    (self.input@[self.pos as int],),
                    false,
                ),
            decreases self.input@.len() - self.pos,
        {
            if self.eof() {
                break;
            }
            let b = self.peek();
            if !test(b) {
                break;
            }
            let c = self.consume();
            vec.push(c);
            proof {
                assert(vec@ =~= self.input@.subrange(p0, self.pos as int));
            }
        }
        vec
    }

    /// Reads header lines until the blank line, collecting them into a
    /// header map where a later occurrence of a key overwrites the earlier
    /// one.
    fn read_headers(&mut self) -> (r: Result<Headers, Parse>)
        requires
            old(self).wf(),
        ensures
            final(self).wf(),
            final(self).input@ == old(self).input@,
            match spec_headers(old(self).input@, old(self).pos as int, Seq::empty()) {
                Ok(pair) => r matches Ok(h) && h@ == pair.0 && h.wf() && final(self).pos == pair.1,
                Err(p) => r matches Err(p2) && p2 == p,
            },
    {
        let ghost s = self.input@;
        let ghost p0 = self.pos as int;
        let mut headers = Headers::new();
        proof {
            assert(headers@ =~~= Seq::<(Seq<char>, Seq<char>)>::empty());
        }
        loop
            invariant
                self.wf(),
                self.input@ == s,
                s == old(self).input@,
                p0 == old(self).pos,
                p0 <= self.pos as int,
                headers.wf(),
                spec_headers(s, p0, Seq::<(Seq<char>, Seq<char>)>::empty()) == spec_headers(
                    s,
                    self.pos as int,
                    headers@,
                ),
            decreases s.len() - self.pos,
        {
            let ghost pl = self.pos as int;
            let ghost acc = headers@;
            if self.pos < self.input.len() && self.input[self.pos] == 13 && self.pos + 1
                < self.input.len() && self.input[self.pos + 1] == 10 {
                self.pos += 2;
                proof {
                    assert(spec_headers(s, pl, acc) == Ok::<_, Parse>((acc, pl + 2)));
                }
                return Ok(headers);
            }
            let name = self.consume_while(header_name_byte);
            let ghost ne = self.pos as int;
            proof {
                assert forall|j: int| pl <= j < ne implies header_name_pred()(s[j]) by {
                    assert(call_ensures(header_name_byte, (s[j],), true));
                }
                if ne < s.len() {
                    assert(!header_name_pred()(s[ne as int])) by {
                        assert(call_ensures(header_name_byte, (s[ne as int],), false));
                    }
                }
                lemma_twl_is(s, pl, ne, header_name_pred());
            }
            if self.eof() {
                return Err(Parse::Header);
            }
            let c: u8 = self.consume();
            if c != 58 {
                return Err(Parse::Header);
            }
            if !self.eof() {
                if self.peek() == 32 {
                    let _sp: u8 = self.consume();
                }
            }
            let ghost vs = self.pos as int;
            let value = self.consume_while(header_value_byte);
            let ghost ve = self.pos as int;
            proof {
                assert forall|j: int| vs <= j < ve implies header_value_pred()(s[j]) by {
                    assert(call_ensures(header_value_byte, (s[j],), true));
                }
                if ve < s.len() {
                    assert(!header_value_pred()(s[ve as int])) by {
                        assert(call_ensures(header_value_byte, (s[ve as int],), false));
                    }
                }
                lemma_twl_is(s, vs, ve, header_value_pred());
            }
            if self.eof() {
                return Err(Parse::Header);
            }
            let c1: u8 = self.consume();
            if c1 != 13 {
                return Err(Parse::Header);
            }
            if self.eof() {
                return Err(Parse::Header);
            }
            let c2: u8 = self.consume();
            if c2 != 10 {
                return Err(Parse::Header);
            }
            let name_text = string_from_ascii(name);
            let value_text = string_from_ascii(value);
            headers.insert(name_text, value_text);
            proof {
                assert(headers@ == spec_insert_pair(
                    acc,
                    chars_of(s.subrange(pl, ne)),
                    chars_of(s.subrange(vs, ve)),
                ));
                assert(spec_headers(s, pl, acc) == spec_headers(s, self.pos as int, headers@));
            }
        }
    }

    /// Parses one request out of the buffer: the request line, the header
    /// lines, and a body of exactly `Content-Length` bytes (an empty body
    /// when that header is absent). Fails with the parse kind belonging to
    /// the part that is malformed; never panics and never backtracks.
    #[verifier::rlimit(100)]
    pub fn parse(&mut self) -> (r: Result<Request, Error>)
        requires
            old(self).wf(),
        ensures
            final(self).wf(),
            final(self).input@ == old(self).input@,
            match spec_parse(old(self).input@, old(self).pos as int) {
                Ok(sr) => r matches Ok(req) && req.wf() && req.method == sr.method
                    && req.uri.spec_path() == sr.path && req.uri.spec_query() == sr.query
                    && req.headers@ == sr.headers && req.body.inner@ == sr.body,
                Err(p) => r matches Err(e) && e.kind == Kind::Parse(p) && e.cause is None,
            },
    {
        let ghost s = self.input@;
        let ghost p0 = self.pos as int;
        let method_bytes = self.consume_while(upper_byte);
        let ghost me = self.pos as int;
        proof {
            assert forall|j: int| p0 <= j < me implies upper_pred()(s[j]) by {
                assert(call_ensures(upper_byte, (s[j],), true));
            }
            if me < s.len() {
                assert(!upper_pred()(s[me as int])) by {
                    assert(call_ensures(upper_byte, (s[me as int],), false));
                }
            }
            lemma_twl_is(s, p0, me, upper_pred());
        }
        if self.eof() {
            return Err(Error::from_parse(Parse::Method));
        }
        let c: u8 = self.consume();
        if c != 32 {
            return Err(Error::from_parse(Parse::Method));
        }
        let ghost ps = self.pos as int;
        let path_bytes = self.consume_while(path_byte);
        let ghost pe = self.pos as int;
        proof {
            assert forall|j: int| ps <= j < pe implies path_pred()(s[j]) by {
                assert(call_ensures(path_byte, (s[j],), true));
            }
            if pe < s.len() {
                assert(!path_pred()(s[pe as int])) by {
                    assert(call_ensures(path_byte, (s[pe as int],), false));
                }
            }
            lemma_twl_is(s, ps, pe, path_pred());
        }
        if !self.eof() {
            if self.peek() == 63 {
                let _q: u8 = self.consume();
            }
        }
        let ghost qs = self.pos as int;
        let query_bytes = self.consume_while(query_byte);
        let ghost qe = self.pos as int;
        proof {
            assert forall|j: int| qs <= j < qe implies query_pred()(s[j]) by {
                assert(call_ensures(query_byte, (s[j],), true));
            }
            if qe < s.len() {
                assert(!query_pred()(s[qe as int])) by {
                    assert(call_ensures(query_byte, (s[qe as int],), false));
                }
            }
            lemma_twl_is(s, qs, qe, query_pred());
        }
        let _fragment = self.consume_while(graphic_byte);
        let ghost fe = self.pos as int;
        proof {
            assert forall|j: int| qe <= j < fe implies graphic_pred()(s[j]) by {
                assert(call_ensures(graphic_byte, (s[j],), true));
            }
            if fe < s.len() {
                assert(!graphic_pred()(s[fe as int])) by {
                    assert(call_ensures(graphic_byte, (s[fe as int],), false));
                }
            }
            lemma_twl_is(s, qe, fe, graphic_pred());
        }
        if self.eof() {
            return Err(Error::from_parse(Parse::Uri));
        }
        let c2: u8 = self.consume();
        if c2 != 32 {
            return Err(Error::from_parse(Parse::Uri));
        }
        let ghost vs = self.pos as int;
        let _version = self.consume_while(graphic_byte);
        let ghost ve = self.pos as int;
        proof {
            assert forall|j: int| vs <= j < ve implies graphic_pred()(s[j]) by {
                assert(call_ensures(graphic_byte, (s[j],), true));
            }
            if ve < s.len() {
                assert(!graphic_pred()(s[ve as int])) by {
                    assert(call_ensures(graphic_byte, (s[ve as int],), false));
                }
            }
            lemma_twl_is(s, vs, ve, graphic_pred());
        }
        if self.eof() {
            return Err(Error::from_parse(Parse::Version));
        }
        let c3: u8 = self.consume();
        if c3 != 13 {
            return Err(Error::from_parse(Parse::Version));
        }
        if self.eof() {
            return Err(Error::from_parse(Parse::Version));
        }
        let c4: u8 = self.consume();
        if c4 != 10 {
            return Err(Error::from_parse(Parse::Version));
        }
        let headers = match self.read_headers() {
            Ok(h) => h,
            Err(p) => {
                return Err(Error::from_parse(p));
            },
        };
        let ghost b = self.pos as int;
        let method_text = string_from_ascii(method_bytes);
        let method = match RequestMethod::try_from(method_text.as_str()) {
            Ok(m) => m,
            Err(_) => {
                return Err(Error::from_parse(Parse::Method));
            },
        };
        let path_text = string_from_ascii(path_bytes);
        let query_text = string_from_ascii(query_bytes);
        proof {
            assert forall|j: int| 0 <= j < path_text@.len() implies path_text@[j] != '?' by {
                assert(is_path_byte(s[ps + j]));
                assert(path_text@[j] == s[ps + j] as char);
            }
        }
        let uri = Uri::from_parts(path_text.as_str(), query_text.as_str());
        let body_bytes: Vec<u8> = match headers.get("Content-Length") {
            None => {
                let out: Vec<u8> = Vec::new();
                proof {
                    assert(out@ =~= Seq::<u8>::empty());
                }
                out
            },
            Some(v) => {
                let remaining = self.input.len() - self.pos;
                match parse_dec(v.as_str(), remaining) {
                    Some(count) => {
                        let mut out: Vec<u8> = Vec::new();
                        let mut i: usize = 0;
                        while i < count
                            invariant
                                self.wf(),
                                self.input@ == s,
                                b == self.pos,
                                b + count <= s.len(),
                                b + count <= usize::MAX,
                                i <= count,
                                out@ == s.subrange(b, b + i),
                            decreases count - i,
                        {
                            let byte = self.input[self.pos + i];
                            out.push(byte);
                            proof {
                                assert(out@ =~= s.subrange(b, b + i + 1));
                            }
                            i += 1;
                        }
                        self.pos = self.pos + count;
                        out
                    },
                    None => {
                        return Err(Error::from_parse(Parse::HeaderValue));
                    },
                }
            },
        };
        let request = Request::new(method, uri, headers, Body::new(body_bytes));
        Ok(request)
    }

    /// Whether the bytes under the cursor begin with `seq`.
    pub fn starts_with(&self, seq: &[u8]) -> (r: bool)
        requires
            self.wf(),
        ensures
            r == (self.pos + seq@.len() <= self.input@.len() && self.input@.subrange(
                self.pos as int,
                self.pos as int + seq@.len(),
            ) == seq@),
    {
        let n = seq.len();
        if n > self.input.len() - self.pos {
            return false;
        }
        let mut i: usize = 0;
        while i < n
            invariant
                self.wf(),
                n == seq@.len(),
                self.pos + n <= self.input@.len(),
                self.pos + n <= usize::MAX,
                i <= n,
                forall|j: int| 0 <= j < i ==> self.input@[self.pos + j] == seq@[j],
            decreases n - i,
        {
            if self.input[self.pos + i] != seq[i] {
                return false;
            }
            i += 1;
        }
        proof {
            assert(self.input@.subrange(self.pos as int, self.pos as int + seq@.len()) =~= seq@);
        }
        true
    }
}

} // verus!
